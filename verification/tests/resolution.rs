use dns_refresh::ip::IpAddress;
use dns_refresh::parse::parse_ip;
use dns_refresh::resolver::{classify_target, LookupOutcome, Monitor, TargetQuery};
use dns_refresh::select::select_address;

fn v4(a: u8, b: u8, c: u8, d: u8) -> IpAddress {
    IpAddress::V4(a, b, c, d)
}

fn v6(g: [u16; 8]) -> IpAddress {
    IpAddress::V6(g[0], g[1], g[2], g[3], g[4], g[5], g[6], g[7])
}

#[test]
fn parse_v4_literals() {
    assert_eq!(parse_ip("10.0.0.5"), Some(v4(10, 0, 0, 5)));
    assert_eq!(parse_ip("0.0.0.0"), Some(v4(0, 0, 0, 0)));
    assert_eq!(parse_ip("255.255.255.255"), Some(v4(255, 255, 255, 255)));
    assert_eq!(parse_ip("192.0.2.10"), Some(v4(192, 0, 2, 10)));
}

#[test]
fn parse_v4_rejects() {
    assert_eq!(parse_ip(""), None);
    assert_eq!(parse_ip("256.0.0.1"), None);
    assert_eq!(parse_ip("01.2.3.4"), None);
    assert_eq!(parse_ip("1.2.3.04"), None);
    assert_eq!(parse_ip("1.2.3"), None);
    assert_eq!(parse_ip("1.2.3.4.5"), None);
    assert_eq!(parse_ip("1.2.3."), None);
    assert_eq!(parse_ip(".1.2.3.4"), None);
    assert_eq!(parse_ip("1.2.3.a"), None);
    assert_eq!(parse_ip("example.internal"), None);
    assert_eq!(parse_ip("1000.2.3.4"), None);
}

#[test]
fn parse_v6_literals() {
    assert_eq!(parse_ip("::"), Some(v6([0, 0, 0, 0, 0, 0, 0, 0])));
    assert_eq!(parse_ip("::1"), Some(v6([0, 0, 0, 0, 0, 0, 0, 1])));
    assert_eq!(parse_ip("1::"), Some(v6([1, 0, 0, 0, 0, 0, 0, 0])));
    assert_eq!(
        parse_ip("1:2:3:4:5:6:7:8"),
        Some(v6([1, 2, 3, 4, 5, 6, 7, 8]))
    );
    assert_eq!(
        parse_ip("fe80::1"),
        Some(v6([0xfe80, 0, 0, 0, 0, 0, 0, 1]))
    );
    assert_eq!(
        parse_ip("FE80::A:1"),
        Some(v6([0xfe80, 0, 0, 0, 0, 0, 0xa, 1]))
    );
    assert_eq!(
        parse_ip("2001:db8::ff00:42:8329"),
        Some(v6([0x2001, 0xdb8, 0, 0, 0, 0xff00, 0x42, 0x8329]))
    );
    assert_eq!(
        parse_ip("0001::1"),
        Some(v6([1, 0, 0, 0, 0, 0, 0, 1]))
    );
    assert_eq!(
        parse_ip("1:2:3:4:5:6:7::"),
        Some(v6([1, 2, 3, 4, 5, 6, 7, 0]))
    );
    assert_eq!(
        parse_ip("::2:3:4:5:6:7:8"),
        Some(v6([0, 2, 3, 4, 5, 6, 7, 8]))
    );
}

#[test]
fn parse_v6_with_v4_tail() {
    assert_eq!(
        parse_ip("::ffff:192.0.2.10"),
        Some(v6([0, 0, 0, 0, 0, 0xffff, 0xc000, 0x020a]))
    );
    assert_eq!(
        parse_ip("1:2:3:4:5:6:77.77.88.88"),
        Some(v6([1, 2, 3, 4, 5, 6, 0x4d4d, 0x5858]))
    );
    assert_eq!(parse_ip("::1.2.3.4"), Some(v6([0, 0, 0, 0, 0, 0, 0x0102, 0x0304])));
    assert_eq!(
        parse_ip("2:2::2.2.2.2"),
        Some(v6([2, 2, 0, 0, 0, 0, 0x0202, 0x0202]))
    );
}

#[test]
fn parse_v6_rejects() {
    assert_eq!(parse_ip(":"), None);
    assert_eq!(parse_ip(":::"), None);
    assert_eq!(parse_ip("1::2::3"), None);
    assert_eq!(parse_ip("12345::"), None);
    assert_eq!(parse_ip("1:2:3:4:5:6:7:8:9"), None);
    assert_eq!(parse_ip("1:2:3:4:5:6:7"), None);
    assert_eq!(parse_ip("g::1"), None);
    assert_eq!(parse_ip("1::2:"), None);
    assert_eq!(parse_ip(":1::2"), None);
    assert_eq!(parse_ip("1:2:3:4:5:6:7::8"), None);
    assert_eq!(parse_ip("1.2.3.4::"), None);
    assert_eq!(parse_ip("::ffff:1.2.3.4.5"), None);
    assert_eq!(parse_ip("1:2:3:4:1.2.3.4:6"), None);
    assert_eq!(parse_ip("1::1.2.3.4:5"), None);
    assert_eq!(parse_ip("1:2:3:4:5:6::1.2.3.4"), None);
    assert_eq!(parse_ip(" 1.2.3.4"), None);
    assert_eq!(parse_ip("1.2.3.4 "), None);
    assert_eq!(parse_ip("::1 "), None);
}

#[test]
fn address_family_predicates() {
    assert!(v4(1, 2, 3, 4).is_v4());
    assert!(!v4(1, 2, 3, 4).is_v6());
    assert!(v6([0, 0, 0, 0, 0, 0, 0, 1]).is_v6());
    assert!(!v6([0, 0, 0, 0, 0, 0, 0, 1]).is_v4());
}

#[test]
fn unspecified_sentinel_is_all_zero_v4() {
    assert_eq!(IpAddress::unspecified(), v4(0, 0, 0, 0));
}

#[test]
fn classify_literal_bypasses_lookup() {
    match classify_target("10.0.0.5") {
        TargetQuery::Literal(a) => assert_eq!(a, v4(10, 0, 0, 5)),
        TargetQuery::Lookup(_) => panic!("a literal must not be looked up"),
    }
    match classify_target("::1") {
        TargetQuery::Literal(a) => assert_eq!(a, v6([0, 0, 0, 0, 0, 0, 0, 1])),
        TargetQuery::Lookup(_) => panic!("a literal must not be looked up"),
    }
}

#[test]
fn classify_name_appends_root_dot() {
    match classify_target("example.internal") {
        TargetQuery::Literal(_) => panic!("a name must be looked up"),
        TargetQuery::Lookup(n) => assert_eq!(n, "example.internal."),
    }
}

#[test]
fn select_prefers_first_v4() {
    let cands = vec![
        v6([0, 0, 0, 0, 0, 0, 0, 1]),
        v4(192, 0, 2, 10),
        v4(192, 0, 2, 20),
    ];
    assert_eq!(select_address(&cands), Some(v4(192, 0, 2, 10)));
}

#[test]
fn select_falls_back_to_first_v6() {
    let cands = vec![
        v6([0xfe80, 0, 0, 0, 0, 0, 0, 7]),
        v6([0, 0, 0, 0, 0, 0, 0, 1]),
    ];
    assert_eq!(
        select_address(&cands),
        Some(v6([0xfe80, 0, 0, 0, 0, 0, 0, 7]))
    );
}

#[test]
fn select_fails_on_empty() {
    let cands: Vec<IpAddress> = Vec::new();
    assert_eq!(select_address(&cands), None);
}

#[test]
fn record_publishes_only_on_change() {
    let mut m = Monitor::new(vec![String::from("example.internal")]);
    let a = v4(192, 0, 2, 10);
    assert!(m.record(0, a));
    assert!(!m.record(0, a));
    assert!(!m.record(0, a));
    let b = v6([0, 0, 0, 0, 0, 0, 0, 1]);
    assert!(m.record(0, b));
    assert!(!m.record(0, b));
}

#[test]
fn pass_literal_target_immediate() {
    let mut m = Monitor::new(vec![String::from("10.0.0.5")]);
    let rep = m.run_pass(&vec![LookupOutcome::Failure]);
    assert_eq!(rep.failed, None);
    assert_eq!(rep.writes, vec![(0usize, v4(10, 0, 0, 5))]);
    assert_eq!(m.cache, vec![v4(10, 0, 0, 5)]);
}

#[test]
fn pass_transitions_write_only_on_change() {
    let mut m = Monitor::new(vec![String::from("example.internal")]);
    assert_eq!(m.cache, vec![v4(0, 0, 0, 0)]);

    let first = vec![LookupOutcome::Candidates(vec![
        v4(192, 0, 2, 10),
        v6([0, 0, 0, 0, 0, 0, 0, 1]),
    ])];
    let rep1 = m.run_pass(&first);
    assert_eq!(rep1.failed, None);
    assert_eq!(rep1.writes, vec![(0usize, v4(192, 0, 2, 10))]);

    let second = vec![LookupOutcome::Candidates(vec![v4(192, 0, 2, 20)])];
    let rep2 = m.run_pass(&second);
    assert_eq!(rep2.failed, None);
    assert_eq!(rep2.writes, vec![(0usize, v4(192, 0, 2, 20))]);

    let rep3 = m.run_pass(&second);
    assert_eq!(rep3.failed, None);
    assert_eq!(rep3.writes, vec![]);

    assert_eq!(m.cache, vec![v4(192, 0, 2, 20)]);
}

#[test]
fn pass_stops_at_first_failure() {
    let mut m = Monitor::new(vec![String::from("a.test"), String::from("b.test")]);
    let outcomes = vec![
        LookupOutcome::Candidates(vec![v4(1, 2, 3, 4)]),
        LookupOutcome::Failure,
    ];
    let rep = m.run_pass(&outcomes);
    assert_eq!(rep.failed, Some(1));
    assert_eq!(rep.writes, vec![(0usize, v4(1, 2, 3, 4))]);
    assert_eq!(m.cache, vec![v4(1, 2, 3, 4), v4(0, 0, 0, 0)]);
}

#[test]
fn pass_failure_by_empty_candidates() {
    let mut m = Monitor::new(vec![String::from("a.test")]);
    let rep = m.run_pass(&vec![LookupOutcome::Candidates(Vec::new())]);
    assert_eq!(rep.failed, Some(0));
    assert_eq!(rep.writes, vec![]);
    assert_eq!(m.cache, vec![v4(0, 0, 0, 0)]);
}

#[test]
fn pass_with_no_targets_idles() {
    let mut m = Monitor::new(Vec::new());
    let rep = m.run_pass(&Vec::new());
    assert_eq!(rep.failed, None);
    assert_eq!(rep.writes, vec![]);
    assert_eq!(m.cache, vec![]);
}
