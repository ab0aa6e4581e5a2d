//! The resolution-and-publish loop, as decisions on plain values. The
//! caller owns the network: it performs one lookup per non-literal target
//! and hands the candidates (or the failure) back; everything decided here
//! — literal bypass, candidate choice, change detection, fail-fast order —
//! is verified. A full pass resolves every target in list order, publishes
//! a value only when it differs from the last one published for that slot,
//! and stops at the first target that cannot be resolved.

use vstd::prelude::*;

use crate::ip::IpAddress;
use crate::parse::{is_ip_text, ip_text_value, parse_ip};
use crate::select::{select_address, spec_select};

verus! {

/// Seconds between the end of one pass and the start of the next.
pub const PASS_INTERVAL_SECS: u64 = 60;

/// How one target is to be resolved: a literal address is used as-is, with
/// no network lookup; any other string is queried under its fully
/// qualified form, with the trailing root-label dot appended.
pub enum TargetQuery {
    Literal(IpAddress),
    Lookup(String),
}

/// Decides how a target string is resolved: literals bypass the network
/// entirely; names gain the trailing root-label dot for the query.
pub fn classify_target(s: &str) -> (q: TargetQuery)
    ensures
        is_ip_text(s@) ==> q == TargetQuery::Literal(ip_text_value(s@)),
        !is_ip_text(s@) ==> (q matches TargetQuery::Lookup(n) && n@ == s@.push('.')),
{
    match parse_ip(s) {
        Some(a) => TargetQuery::Literal(a),
        None => {
            let q = String::from_str(s).concat(".");
            proof {
                reveal_strlit(".");
                assert(q@ =~= s@.push('.'));
            }
            TargetQuery::Lookup(q)
        },
    }
}

/// What one network lookup came back with: a candidate set in the
/// resolver's order, or a failed query.
pub enum LookupOutcome {
    Candidates(Vec<IpAddress>),
    Failure,
}

/// The address a target resolves to, given what the network lookup (if
/// one was needed) returned: a literal's own value; otherwise the selected
/// candidate; `None` exactly on a failed query or an empty candidate set.
pub open spec fn resolved_value(target: Seq<char>, outcome: LookupOutcome) -> Option<IpAddress> {
    if is_ip_text(target) {
        Some(ip_text_value(target))
    } else {
        match outcome {
            LookupOutcome::Candidates(c) => spec_select(c@),
            LookupOutcome::Failure => None,
        }
    }
}

/// Resolves one target from its lookup outcome.
fn resolve_one(target: &String, outcome: &LookupOutcome) -> (r: Option<IpAddress>)
    ensures
        r == resolved_value(target@, *outcome),
{
    match parse_ip(target.as_str()) {
        Some(a) => Some(a),
        None => match outcome {
            LookupOutcome::Candidates(c) => select_address(c),
            LookupOutcome::Failure => None,
        },
    }
}

/// The first index at or after `from` whose target fails to resolve, or
/// the length when every remaining target resolves.
pub open spec fn first_failure(
    targets: Seq<Seq<char>>,
    outcomes: Seq<LookupOutcome>,
    from: int,
) -> int
    decreases targets.len() - from,
{
    if from < 0 || from >= targets.len() {
        targets.len() as int
    } else if resolved_value(targets[from], outcomes[from]) is None {
        from
    } else {
        first_failure(targets, outcomes, from + 1)
    }
}

/// The publishes a pass makes from index `from` on, in order: one per
/// target whose resolved address differs from the cached one, stopping at
/// the first failure.
pub open spec fn pass_writes(
    cache: Seq<IpAddress>,
    targets: Seq<Seq<char>>,
    outcomes: Seq<LookupOutcome>,
    from: int,
) -> Seq<(usize, IpAddress)>
    decreases targets.len() - from,
{
    if from < 0 || from >= targets.len() {
        Seq::empty()
    } else {
        match resolved_value(targets[from], outcomes[from]) {
            None => Seq::empty(),
            Some(a) => {
                let rest = pass_writes(cache, targets, outcomes, from + 1);
                if a != cache[from] {
                    seq![(from as usize, a)] + rest
                } else {
                    rest
                }
            },
        }
    }
}

/// The cache as a pass leaves it: every slot before the first failure
/// holds its resolved address; the rest keep their old value.
pub open spec fn pass_cache(
    cache: Seq<IpAddress>,
    targets: Seq<Seq<char>>,
    outcomes: Seq<LookupOutcome>,
) -> Seq<IpAddress> {
    let f = first_failure(targets, outcomes, 0);
    Seq::new(
        cache.len(),
        |i: int|
            if 0 <= i < f && i < targets.len() {
                match resolved_value(targets[i], outcomes[i]) {
                    Some(a) => a,
                    None => cache[i],
                }
            } else {
                cache[i]
            },
    )
}

pub proof fn lemma_first_failure_bounds(
    targets: Seq<Seq<char>>,
    outcomes: Seq<LookupOutcome>,
    from: int,
)
    requires
        0 <= from <= targets.len(),
    ensures
        from <= first_failure(targets, outcomes, from) <= targets.len(),
        first_failure(targets, outcomes, from) < targets.len() ==> resolved_value(
            targets[first_failure(targets, outcomes, from)],
            outcomes[first_failure(targets, outcomes, from)],
        ) is None,
        forall|j: int|
            from <= j < first_failure(targets, outcomes, from) ==> resolved_value(
                targets[j],
                outcomes[j],
            ) is Some,
    decreases targets.len() - from,
{
    if from < targets.len() && !(resolved_value(targets[from], outcomes[from]) is None) {
        lemma_first_failure_bounds(targets, outcomes, from + 1);
    }
}

/// If nothing up to and including position `i` fails, the first failure
/// lies strictly beyond `i`.
proof fn lemma_first_failure_skip(
    targets: Seq<Seq<char>>,
    outcomes: Seq<LookupOutcome>,
    from: int,
    i: int,
)
    requires
        0 <= from <= i < targets.len(),
        first_failure(targets, outcomes, from) >= i,
        resolved_value(targets[i], outcomes[i]) is Some,
    ensures
        first_failure(targets, outcomes, from) >= i + 1,
    decreases i - from,
{
    if from < i {
        lemma_first_failure_skip(targets, outcomes, from + 1, i);
    } else {
        lemma_first_failure_bounds(targets, outcomes, i + 1);
    }
}

/// The loop's own state: the immutable target list and the last value
/// published for each slot, index-aligned, every slot starting from the
/// unspecified sentinel.
pub struct Monitor {
    pub targets: Vec<String>,
    pub cache: Vec<IpAddress>,
}

/// One pass's outward effect: the publishes it made, in order, and the
/// index of the target whose resolution failed, if one did.
pub struct PassReport {
    pub writes: Vec<(usize, IpAddress)>,
    pub failed: Option<usize>,
}

impl Monitor {
    /// One slot per target.
    pub open spec fn wf(self) -> bool {
        self.targets@.len() == self.cache@.len()
    }

    /// The target strings as text.
    pub open spec fn targets_text(self) -> Seq<Seq<char>> {
        self.targets@.map_values(|t: String| t@)
    }

    /// Starts with every slot at the unspecified sentinel.
    pub fn new(targets: Vec<String>) -> (m: Monitor)
        ensures
            m.wf(),
            m.targets@ == targets@,
            m.cache@.len() == targets@.len(),
            forall|i: int| 0 <= i < m.cache@.len() ==> m.cache@[i] == IpAddress::unspecified(),
    {
        let n = targets.len();
        let mut cache: Vec<IpAddress> = Vec::new();
        let mut i: usize = 0;
        while i < n
            invariant
                i <= n,
                cache@.len() == i,
                forall|j: int| 0 <= j < i ==> cache@[j] == IpAddress::unspecified(),
            decreases n - i,
        {
            cache.push(IpAddress::unspecified());
            i = i + 1;
        }
        Monitor { targets, cache }
    }

    pub fn len(&self) -> (n: usize)
        ensures
            n == self.targets@.len(),
    {
        self.targets.len()
    }

    /// How target `i` is to be resolved (literal value, or query name with
    /// the root-label dot).
    pub fn target_query(&self, i: usize) -> (q: TargetQuery)
        requires
            i < self.targets@.len(),
        ensures
            is_ip_text(self.targets_text()[i as int]) ==> q == TargetQuery::Literal(
                ip_text_value(self.targets_text()[i as int]),
            ),
            !is_ip_text(self.targets_text()[i as int]) ==> (q matches TargetQuery::Lookup(n)
                && n@ == self.targets_text()[i as int].push('.')),
    {
        classify_target(self.targets[i].as_str())
    }

    /// Takes one resolved address: publishes (and remembers) it exactly
    /// when it differs from the last value published for that slot.
    pub fn record(&mut self, i: usize, addr: IpAddress) -> (publish: bool)
        requires
            old(self).wf(),
            i < old(self).cache@.len(),
        ensures
            final(self).wf(),
            final(self).targets == old(self).targets,
            publish == (addr != old(self).cache@[i as int]),
            final(self).cache@ == if publish {
                old(self).cache@.update(i as int, addr)
            } else {
                old(self).cache@
            },
    {
        if addr == self.cache[i] {
            false
        } else {
            self.cache.set(i, addr);
            true
        }
    }

    /// One full pass: resolves every target in list order from the given
    /// lookup outcomes, publishes each changed address, and stops at the
    /// first target that fails to resolve. With no targets it does
    /// nothing.
    pub fn run_pass(&mut self, outcomes: &Vec<LookupOutcome>) -> (rep: PassReport)
        requires
            old(self).wf(),
            outcomes@.len() == old(self).targets@.len(),
        ensures
            final(self).wf(),
            final(self).targets == old(self).targets,
            ({
                let ts = old(self).targets_text();
                let f = first_failure(ts, outcomes@, 0);
                &&& rep.failed == (if f < ts.len() {
                    Some(f as usize)
                } else {
                    None::<usize>
                })
                &&& rep.writes@ == pass_writes(old(self).cache@, ts, outcomes@, 0)
                &&& final(self).cache@ == pass_cache(old(self).cache@, ts, outcomes@)
            }),
    {
        let ghost ts = self.targets_text();
        let ghost cache0 = self.cache@;
        let ghost os = outcomes@;
        let ghost t0 = self.targets;
        let n = self.targets.len();
        let mut writes: Vec<(usize, IpAddress)> = Vec::new();
        let mut failed: Option<usize> = None;
        let mut i: usize = 0;
        proof {
            lemma_first_failure_bounds(ts, os, 0);
        }
        while i < n
            invariant
                self.wf(),
                self.targets == t0,
                ts == self.targets_text(),
                os == outcomes@,
                n == self.targets@.len(),
                os.len() == n,
                cache0.len() == n,
                0 <= i <= n,
                first_failure(ts, os, 0) <= n,
                (match failed {
                    None => first_failure(ts, os, 0) >= i,
                    Some(k) => k == i && i < n && first_failure(ts, os, 0) == i,
                }),
                writes@ + pass_writes(cache0, ts, os, i as int) == pass_writes(
                    cache0,
                    ts,
                    os,
                    0,
                ),
                forall|j: int|
                    0 <= j < i ==> self.cache@[j] == (match resolved_value(ts[j], os[j]) {
                        Some(a) => a,
                        None => cache0[j],
                    }),
                forall|j: int| i <= j < n ==> self.cache@[j] == cache0[j],
            ensures
                (match failed {
                    None => i == n,
                    Some(k) => k == i && i < n,
                }),
            decreases n - i,
        {
            assert(ts[i as int] == self.targets@[i as int]@);
            match resolve_one(&self.targets[i], &outcomes[i]) {
                Some(a) => {
                    proof {
                        if failed is None {
                            lemma_first_failure_skip(ts, os, 0, i as int);
                        } else {
                            lemma_first_failure_bounds(ts, os, 0);
                        }
                    }
                    let ghost w0 = writes@;
                    let published = self.record(i, a);
                    if published {
                        writes.push((i, a));
                        proof {
                            assert(writes@ =~= w0 + seq![(i, a)]);
                            assert(pass_writes(cache0, ts, os, i as int) == seq![(i, a)]
                                + pass_writes(cache0, ts, os, i as int + 1));
                            assert(writes@ + pass_writes(cache0, ts, os, i as int + 1)
                                =~= w0 + pass_writes(cache0, ts, os, i as int));
                        }
                    } else {
                        proof {
                            assert(pass_writes(cache0, ts, os, i as int) == pass_writes(
                                cache0,
                                ts,
                                os,
                                i as int + 1,
                            ));
                        }
                    }
                    i = i + 1;
                },
                None => {
                    failed = Some(i);
                    proof {
                        lemma_first_failure_bounds(ts, os, 0);
                        assert(first_failure(ts, os, 0) == i) by {
                            if first_failure(ts, os, 0) > i as int {
                                assert(resolved_value(ts[i as int], os[i as int]) is Some);
                            }
                        }
                        assert(pass_writes(cache0, ts, os, i as int) =~= Seq::empty());
                    }
                    break ;
                },
            }
        }
        proof {
            match failed {
                None => {
                    assert(first_failure(ts, os, 0) == n);
                    assert(pass_writes(cache0, ts, os, n as int) =~= Seq::empty());
                    assert(writes@ =~= pass_writes(cache0, ts, os, 0));
                },
                Some(k) => {
                    lemma_first_failure_bounds(ts, os, 0);
                    assert(pass_writes(cache0, ts, os, i as int) =~= Seq::empty());
                    assert(writes@ =~= pass_writes(cache0, ts, os, 0));
                },
            }
            assert(self.cache@ =~= pass_cache(cache0, ts, os));
        }
        PassReport { writes, failed }
    }
}

/// Every publish of a pass is sound: it names a target in range whose
/// freshly resolved address it carries, it happens only where that address
/// differs from the cached one, and the publishes come in strict list
/// order. A shared cell therefore only ever receives the most recently
/// resolved address of its own target.
pub proof fn lemma_pass_writes_sound(
    cache: Seq<IpAddress>,
    targets: Seq<Seq<char>>,
    outcomes: Seq<LookupOutcome>,
    from: int,
)
    requires
        targets.len() <= usize::MAX,
    ensures
        forall|k: int|
            0 <= k < pass_writes(cache, targets, outcomes, from).len() ==> ({
                let w = #[trigger] pass_writes(cache, targets, outcomes, from)[k];
                &&& from <= w.0 < targets.len()
                &&& resolved_value(targets[w.0 as int], outcomes[w.0 as int]) == Some(w.1)
                &&& w.1 != cache[w.0 as int]
            }),
        forall|k: int|
            0 <= k && k + 1 < pass_writes(cache, targets, outcomes, from).len()
                ==> (#[trigger] pass_writes(cache, targets, outcomes, from)[k]).0 < pass_writes(
                cache,
                targets,
                outcomes,
                from,
            )[k + 1].0,
    decreases targets.len() - from,
{
    if 0 <= from < targets.len() {
        lemma_pass_writes_sound(cache, targets, outcomes, from + 1);
        match resolved_value(targets[from], outcomes[from]) {
            None => {},
            Some(a) => {
                if a != cache[from] {
                    let w = pass_writes(cache, targets, outcomes, from);
                    let rest = pass_writes(cache, targets, outcomes, from + 1);
                    assert(forall|k: int| 1 <= k < w.len() ==> w[k] == rest[k - 1]);
                }
            },
        }
    }
}

/// Repeating a wholly successful pass with the same outcomes publishes
/// nothing: a write happens only on a value change, so once every slot
/// holds its resolved address, an identical pass is silent.
pub proof fn lemma_repeat_pass_silent(
    cache: Seq<IpAddress>,
    targets: Seq<Seq<char>>,
    outcomes: Seq<LookupOutcome>,
)
    requires
        cache.len() == targets.len(),
        first_failure(targets, outcomes, 0) == targets.len(),
    ensures
        pass_writes(pass_cache(cache, targets, outcomes), targets, outcomes, 0) == Seq::<(
            usize,
            IpAddress,
        )>::empty(),
{
    lemma_first_failure_bounds(targets, outcomes, 0);
    lemma_repeat_pass_silent_from(pass_cache(cache, targets, outcomes), targets, outcomes, 0);
}

/// A pass over a cache that already holds every resolved address makes no
/// writes, from any starting index on.
proof fn lemma_repeat_pass_silent_from(
    cache: Seq<IpAddress>,
    targets: Seq<Seq<char>>,
    outcomes: Seq<LookupOutcome>,
    from: int,
)
    requires
        cache.len() == targets.len(),
        forall|j: int|
            from <= j < targets.len() ==> resolved_value(targets[j], outcomes[j]) is Some,
        forall|j: int|
            from <= j < targets.len() ==> cache[j] == resolved_value(
                targets[j],
                outcomes[j],
            )->Some_0,
    ensures
        pass_writes(cache, targets, outcomes, from) == Seq::<(usize, IpAddress)>::empty(),
    decreases targets.len() - from,
{
    if 0 <= from < targets.len() {
        lemma_repeat_pass_silent_from(cache, targets, outcomes, from + 1);
    }
}

} // verus!
