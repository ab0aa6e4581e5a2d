//! Recognising address literals in text. A target string that is a literal
//! address is used as-is, with no network lookup; anything else is treated
//! as a name to resolve. The grammar follows the usual textual forms: a
//! version-4 address is four decimal octets separated by dots, each without
//! leading zeroes; a version-6 address is hexadecimal 16-bit groups
//! separated by colons, with at most one `::` standing for a run of zero
//! groups, and optionally a trailing version-4 tail in place of the last
//! two groups.

use vstd::prelude::*;

use crate::ip::IpAddress;

verus! {

// ---------------------------------------------------------------------
// Characters and digit values.
// ---------------------------------------------------------------------

pub open spec fn is_dec_digit(c: char) -> bool {
    ('0' as u32) <= (c as u32) && (c as u32) <= ('9' as u32)
}

pub open spec fn dec_digit_val(c: char) -> int {
    (c as u32) - ('0' as u32)
}

pub open spec fn is_hex_digit(c: char) -> bool {
    ||| is_dec_digit(c)
    ||| ('a' as u32) <= (c as u32) && (c as u32) <= ('f' as u32)
    ||| ('A' as u32) <= (c as u32) && (c as u32) <= ('F' as u32)
}

pub open spec fn hex_digit_val(c: char) -> int {
    if is_dec_digit(c) {
        dec_digit_val(c)
    } else if ('a' as u32) <= (c as u32) && (c as u32) <= ('f' as u32) {
        (c as u32) - ('a' as u32) + 10
    } else {
        (c as u32) - ('A' as u32) + 10
    }
}

/// The first position in `[from, to)` holding character `c`, or `to` when
/// there is none.
pub open spec fn find_char(s: Seq<char>, c: char, from: int, to: int) -> int
    decreases to - from,
{
    if from >= to {
        to
    } else if s[from] == c {
        from
    } else {
        find_char(s, c, from + 1, to)
    }
}

pub proof fn lemma_find_char(s: Seq<char>, c: char, from: int, to: int)
    requires
        from <= to,
    ensures
        from <= find_char(s, c, from, to) <= to,
        find_char(s, c, from, to) < to ==> s[find_char(s, c, from, to)] == c,
        forall|j: int| from <= j < find_char(s, c, from, to) ==> s[j] != c,
    decreases to - from,
{
    if from < to && s[from] != c {
        lemma_find_char(s, c, from + 1, to);
    }
}

// ---------------------------------------------------------------------
// Decimal octets and the version-4 form.
// ---------------------------------------------------------------------

/// The value of the decimal digits at `[from, to)`.
pub open spec fn dec_val(s: Seq<char>, from: int, to: int) -> int
    decreases to - from,
{
    if to <= from {
        0
    } else {
        dec_val(s, from, to - 1) * 10 + dec_digit_val(s[to - 1])
    }
}

/// A decimal octet: one to three digits, no leading zero, value at most
/// 255.
pub open spec fn is_octet_at(s: Seq<char>, from: int, to: int) -> bool {
    &&& 0 <= from
    &&& to <= s.len()
    &&& 1 <= to - from <= 3
    &&& (forall|i: int| from <= i < to ==> is_dec_digit(s[i]))
    &&& (to - from > 1 ==> s[from] != '0')
    &&& dec_val(s, from, to) <= 255
}

/// Four octets separated by exactly three dots fill `[from, to)`.
pub open spec fn is_ipv4_at(s: Seq<char>, from: int, to: int) -> bool {
    let d1 = find_char(s, '.', from, to);
    let d2 = find_char(s, '.', d1 + 1, to);
    let d3 = find_char(s, '.', d2 + 1, to);
    &&& d3 < to
    &&& find_char(s, '.', d3 + 1, to) == to
    &&& is_octet_at(s, from, d1)
    &&& is_octet_at(s, d1 + 1, d2)
    &&& is_octet_at(s, d2 + 1, d3)
    &&& is_octet_at(s, d3 + 1, to)
}

/// The address written at `[from, to)`, meaningful when `is_ipv4_at`.
pub open spec fn ipv4_at(s: Seq<char>, from: int, to: int) -> IpAddress {
    let d1 = find_char(s, '.', from, to);
    let d2 = find_char(s, '.', d1 + 1, to);
    let d3 = find_char(s, '.', d2 + 1, to);
    IpAddress::V4(
        dec_val(s, from, d1) as u8,
        dec_val(s, d1 + 1, d2) as u8,
        dec_val(s, d2 + 1, d3) as u8,
        dec_val(s, d3 + 1, to) as u8,
    )
}

// ---------------------------------------------------------------------
// Hexadecimal groups and the version-6 form.
// ---------------------------------------------------------------------

/// The value of the hexadecimal digits at `[from, to)`.
pub open spec fn hex_val(s: Seq<char>, from: int, to: int) -> int
    decreases to - from,
{
    if to <= from {
        0
    } else {
        hex_val(s, from, to - 1) * 16 + hex_digit_val(s[to - 1])
    }
}

/// A 16-bit group: one to four hexadecimal digits.
pub open spec fn is_hex_group_at(s: Seq<char>, from: int, to: int) -> bool {
    &&& 0 <= from
    &&& to <= s.len()
    &&& 1 <= to - from <= 4
    &&& (forall|i: int| from <= i < to ==> is_hex_digit(s[i]))
}

/// Hexadecimal digit strings of bounded length have bounded value.
proof fn lemma_hex_val_bound(s: Seq<char>, from: int, to: int)
    requires
        forall|i: int| from <= i < to ==> is_hex_digit(s[i]),
    ensures
        to - from <= 0 ==> hex_val(s, from, to) == 0,
        to - from == 1 ==> hex_val(s, from, to) <= 0xf,
        to - from == 2 ==> hex_val(s, from, to) <= 0xff,
        to - from == 3 ==> hex_val(s, from, to) <= 0xfff,
        to - from == 4 ==> hex_val(s, from, to) <= 0xffff,
        hex_val(s, from, to) >= 0,
    decreases to - from,
{
    if to > from {
        lemma_hex_val_bound(s, from, to - 1);
    }
}

/// The groups of hexadecimal lists separated by single colons over
/// `[from, to)`, or `None` where the range is not such a list.
pub open spec fn hex_list_at(s: Seq<char>, from: int, to: int) -> Option<Seq<u16>>
    decreases to - from,
        via hex_list_at_dec
{
    let c = find_char(s, ':', from, to);
    if c >= to {
        if is_hex_group_at(s, from, to) {
            Some(seq![hex_val(s, from, to) as u16])
        } else {
            None
        }
    } else {
        if is_hex_group_at(s, from, c) {
            match hex_list_at(s, c + 1, to) {
                Some(rest) => Some(seq![hex_val(s, from, c) as u16] + rest),
                None => None,
            }
        } else {
            None
        }
    }
}

#[via_fn]
proof fn hex_list_at_dec(s: Seq<char>, from: int, to: int) {
    if from <= to {
        lemma_find_char(s, ':', from, to);
    } else {
        assert(find_char(s, ':', from, to) == to);
    }
}

/// The two groups a trailing version-4 tail stands for.
pub open spec fn v4_tail_groups(s: Seq<char>, from: int, to: int) -> Seq<u16> {
    let d1 = find_char(s, '.', from, to);
    let d2 = find_char(s, '.', d1 + 1, to);
    let d3 = find_char(s, '.', d2 + 1, to);
    seq![
        (dec_val(s, from, d1) * 256 + dec_val(s, d1 + 1, d2)) as u16,
        (dec_val(s, d2 + 1, d3) * 256 + dec_val(s, d3 + 1, to)) as u16,
    ]
}

/// Like `hex_list_at`, except that the final segment may instead be a
/// version-4 literal, contributing the last two groups.
pub open spec fn tail_list_at(s: Seq<char>, from: int, to: int) -> Option<Seq<u16>>
    decreases to - from,
        via tail_list_at_dec
{
    let c = find_char(s, ':', from, to);
    if c >= to {
        if is_hex_group_at(s, from, to) {
            Some(seq![hex_val(s, from, to) as u16])
        } else if is_ipv4_at(s, from, to) {
            Some(v4_tail_groups(s, from, to))
        } else {
            None
        }
    } else {
        if is_hex_group_at(s, from, c) {
            match tail_list_at(s, c + 1, to) {
                Some(rest) => Some(seq![hex_val(s, from, c) as u16] + rest),
                None => None,
            }
        } else {
            None
        }
    }
}

#[via_fn]
proof fn tail_list_at_dec(s: Seq<char>, from: int, to: int) {
    if from <= to {
        lemma_find_char(s, ':', from, to);
    } else {
        assert(find_char(s, ':', from, to) == to);
    }
}

/// The first position in `[from, to)` where a `::` marker begins, or `to`
/// when there is none.
pub open spec fn find_dc(s: Seq<char>, from: int, to: int) -> int
    decreases to - from,
{
    if from + 1 >= to {
        to
    } else if s[from] == ':' && s[from + 1] == ':' {
        from
    } else {
        find_dc(s, from + 1, to)
    }
}

/// The groups written to the left of a `::` marker.
pub open spec fn left_groups(s: Seq<char>, from: int, d: int) -> Seq<u16> {
    if d == from {
        Seq::empty()
    } else {
        match hex_list_at(s, from, d) {
            Some(g) => g,
            None => Seq::empty(),
        }
    }
}

/// The groups written to the right of a `::` marker.
pub open spec fn right_groups(s: Seq<char>, d: int, to: int) -> Seq<u16> {
    if d + 2 == to {
        Seq::empty()
    } else {
        match tail_list_at(s, d + 2, to) {
            Some(g) => g,
            None => Seq::empty(),
        }
    }
}

/// The version-6 form over `[from, to)`: either exactly eight groups with
/// no `::`, or a `::` standing for at least one zero group, with at most
/// seven groups written out around it.
pub open spec fn is_ipv6_at(s: Seq<char>, from: int, to: int) -> bool {
    let d = find_dc(s, from, to);
    if d >= to {
        match tail_list_at(s, from, to) {
            Some(g) => g.len() == 8,
            None => false,
        }
    } else {
        &&& (d == from || hex_list_at(s, from, d) is Some)
        &&& (d + 2 == to || tail_list_at(s, d + 2, to) is Some)
        &&& left_groups(s, from, d).len() + right_groups(s, d, to).len() <= 7
    }
}

/// The eight groups of the version-6 form, meaningful when `is_ipv6_at`.
pub open spec fn ipv6_groups_at(s: Seq<char>, from: int, to: int) -> Seq<u16> {
    let d = find_dc(s, from, to);
    if d >= to {
        match tail_list_at(s, from, to) {
            Some(g) => g,
            None => Seq::empty(),
        }
    } else {
        let l = left_groups(s, from, d);
        let r = right_groups(s, d, to);
        l + Seq::new((8 - l.len() - r.len()) as nat, |i: int| 0u16) + r
    }
}

/// The address written at `[from, to)`, meaningful when `is_ipv6_at`.
pub open spec fn ipv6_at(s: Seq<char>, from: int, to: int) -> IpAddress {
    let g = ipv6_groups_at(s, from, to);
    IpAddress::V6(g[0], g[1], g[2], g[3], g[4], g[5], g[6], g[7])
}

// ---------------------------------------------------------------------
// Executable recognisers, each mirroring its specification.
// ---------------------------------------------------------------------

fn find_char_exec(v: &Vec<char>, c: char, from: usize, to: usize) -> (r: usize)
    requires
        from <= to <= v@.len(),
    ensures
        r == find_char(v@, c, from as int, to as int),
        from <= r <= to,
    decreases to - from,
{
    if from >= to {
        to
    } else if v[from] == c {
        from
    } else {
        find_char_exec(v, c, from + 1, to)
    }
}

/// Reads a decimal octet, returning its value exactly when the range is
/// one.
fn parse_octet(v: &Vec<char>, from: usize, to: usize) -> (r: Option<u8>)
    requires
        from <= to <= v@.len(),
    ensures
        r is Some <==> is_octet_at(v@, from as int, to as int),
        r matches Some(x) ==> x as int == dec_val(v@, from as int, to as int),
{
    let len = to - from;
    if len < 1 || len > 3 {
        return None;
    }
    let mut i: usize = from;
    while i < to
        invariant
            from <= i <= to <= v@.len(),
            forall|j: int| from <= j < i ==> is_dec_digit(v@[j]),
        decreases to - i,
    {
        let c = v[i];
        if (c as u32) < ('0' as u32) || (c as u32) > ('9' as u32) {
            return None;
        }
        i = i + 1;
    }
    if len > 1 && v[from] == '0' {
        return None;
    }
    proof {
        assert(dec_val(v@, from as int, from as int) == 0);
    }
    let mut val: u32 = 0;
    let mut k: usize = from;
    while k < to
        invariant
            from <= k <= to <= v@.len(),
            to - from <= 3,
            forall|j: int| from <= j < to ==> is_dec_digit(v@[j]),
            val as int == dec_val(v@, from as int, k as int),
            val <= 999,
        decreases to - k,
    {
        proof {
            assert(dec_val(v@, from as int, k as int + 1) == dec_val(
                v@,
                from as int,
                k as int,
            ) * 10 + dec_digit_val(v@[k as int]));
            assert(dec_val(v@, from as int, k as int) <= 99) by {
                lemma_dec_val_bound(v@, from as int, k as int);
            }
        }
        val = val * 10 + ((v[k] as u32) - ('0' as u32));
        k = k + 1;
    }
    if val > 255 {
        None
    } else {
        Some(val as u8)
    }
}

/// Decimal digit strings of bounded length have bounded value.
proof fn lemma_dec_val_bound(s: Seq<char>, from: int, to: int)
    requires
        forall|i: int| from <= i < to ==> is_dec_digit(s[i]),
    ensures
        to - from <= 0 ==> dec_val(s, from, to) == 0,
        to - from == 1 ==> dec_val(s, from, to) <= 9,
        to - from == 2 ==> dec_val(s, from, to) <= 99,
        to - from == 3 ==> dec_val(s, from, to) <= 999,
        to - from == 4 ==> dec_val(s, from, to) <= 9999,
        dec_val(s, from, to) >= 0,
    decreases to - from,
{
    if to > from {
        lemma_dec_val_bound(s, from, to - 1);
    }
}

/// Recognises the version-4 form over `[from, to)`.
fn parse_ipv4_range(v: &Vec<char>, from: usize, to: usize) -> (r: Option<IpAddress>)
    requires
        from <= to <= v@.len(),
    ensures
        r is Some <==> is_ipv4_at(v@, from as int, to as int),
        r matches Some(a) ==> a == ipv4_at(v@, from as int, to as int),
{
    let d1 = find_char_exec(v, '.', from, to);
    if d1 >= to {
        return None;
    }
    let d2 = find_char_exec(v, '.', d1 + 1, to);
    if d2 >= to {
        return None;
    }
    let d3 = find_char_exec(v, '.', d2 + 1, to);
    if d3 >= to {
        return None;
    }
    let d4 = find_char_exec(v, '.', d3 + 1, to);
    if d4 < to {
        return None;
    }
    let o1 = parse_octet(v, from, d1);
    let o2 = parse_octet(v, d1 + 1, d2);
    let o3 = parse_octet(v, d2 + 1, d3);
    let o4 = parse_octet(v, d3 + 1, to);
    match (o1, o2, o3, o4) {
        (Some(a), Some(b), Some(c), Some(d)) => Some(IpAddress::V4(a, b, c, d)),
        _ => None,
    }
}

/// Reads a hexadecimal 16-bit group, returning its value exactly when the
/// range is one.
fn parse_hex_group(v: &Vec<char>, from: usize, to: usize) -> (r: Option<u16>)
    requires
        from <= to <= v@.len(),
    ensures
        r is Some <==> is_hex_group_at(v@, from as int, to as int),
        r matches Some(x) ==> x as int == hex_val(v@, from as int, to as int),
{
    let len = to - from;
    if len < 1 || len > 4 {
        return None;
    }
    let mut i: usize = from;
    while i < to
        invariant
            from <= i <= to <= v@.len(),
            forall|j: int| from <= j < i ==> is_hex_digit(v@[j]),
        decreases to - i,
    {
        let u = v[i] as u32;
        let dec = ('0' as u32) <= u && u <= ('9' as u32);
        let low = ('a' as u32) <= u && u <= ('f' as u32);
        let upp = ('A' as u32) <= u && u <= ('F' as u32);
        if !(dec || low || upp) {
            return None;
        }
        i = i + 1;
    }
    proof {
        assert(hex_val(v@, from as int, from as int) == 0);
    }
    let mut val: u32 = 0;
    let mut k: usize = from;
    while k < to
        invariant
            from <= k <= to <= v@.len(),
            to - from <= 4,
            forall|j: int| from <= j < to ==> is_hex_digit(v@[j]),
            val as int == hex_val(v@, from as int, k as int),
            val <= 0xffff,
        decreases to - k,
    {
        proof {
            assert(hex_val(v@, from as int, k as int + 1) == hex_val(
                v@,
                from as int,
                k as int,
            ) * 16 + hex_digit_val(v@[k as int]));
            assert(hex_val(v@, from as int, k as int) <= 0xfff) by {
                lemma_hex_val_bound(v@, from as int, k as int);
            }
        }
        let u = v[k] as u32;
        let d: u32 = if ('0' as u32) <= u && u <= ('9' as u32) {
            u - ('0' as u32)
        } else if ('a' as u32) <= u && u <= ('f' as u32) {
            u - ('a' as u32) + 10
        } else {
            u - ('A' as u32) + 10
        };
        val = val * 16 + d;
        k = k + 1;
    }
    Some(val as u16)
}

fn find_dc_exec(v: &Vec<char>, from: usize, to: usize) -> (r: usize)
    requires
        from <= to <= v@.len(),
    ensures
        r == find_dc(v@, from as int, to as int),
        from <= r <= to,
        r < to ==> r + 2 <= to,
    decreases to - from,
{
    if to - from < 2 {
        to
    } else if v[from] == ':' && v[from + 1] == ':' {
        from
    } else {
        find_dc_exec(v, from + 1, to)
    }
}

/// Reads a colon-separated list of hexadecimal groups.
fn parse_hex_list(v: &Vec<char>, from: usize, to: usize) -> (r: Option<Vec<u16>>)
    requires
        from <= to <= v@.len(),
    ensures
        r is Some <==> hex_list_at(v@, from as int, to as int) is Some,
        r matches Some(g) ==> hex_list_at(v@, from as int, to as int) == Some(g@),
    decreases to - from,
{
    let c = find_char_exec(v, ':', from, to);
    if c >= to {
        match parse_hex_group(v, from, to) {
            Some(x) => {
                let mut g: Vec<u16> = Vec::new();
                g.push(x);
                proof {
                    assert(g@ =~= seq![hex_val(v@, from as int, to as int) as u16]);
                }
                Some(g)
            },
            None => None,
        }
    } else {
        match parse_hex_group(v, from, c) {
            Some(x) => {
                match parse_hex_list(v, c + 1, to) {
                    Some(rest) => {
                        let mut g = rest;
                        g.insert(0, x);
                        proof {
                            assert(g@ =~= seq![hex_val(v@, from as int, c as int) as u16]
                                + g@.drop_first());
                        }
                        Some(g)
                    },
                    None => None,
                }
            },
            None => None,
        }
    }
}

/// Reads a colon-separated list of groups whose final segment may be a
/// version-4 literal.
fn parse_tail_list(v: &Vec<char>, from: usize, to: usize) -> (r: Option<Vec<u16>>)
    requires
        from <= to <= v@.len(),
    ensures
        r is Some <==> tail_list_at(v@, from as int, to as int) is Some,
        r matches Some(g) ==> tail_list_at(v@, from as int, to as int) == Some(g@),
    decreases to - from,
{
    let c = find_char_exec(v, ':', from, to);
    if c >= to {
        match parse_hex_group(v, from, to) {
            Some(x) => {
                let mut g: Vec<u16> = Vec::new();
                g.push(x);
                proof {
                    assert(g@ =~= seq![hex_val(v@, from as int, to as int) as u16]);
                }
                Some(g)
            },
            None => {
                match parse_ipv4_range(v, from, to) {
                    Some(IpAddress::V4(a, b, c4, d)) => {
                        let mut g: Vec<u16> = Vec::new();
                        g.push((a as u16) * 256 + (b as u16));
                        g.push((c4 as u16) * 256 + (d as u16));
                        proof {
                            lemma_dec_val_bound_v4(v@, from as int, to as int);
                            assert(g@ =~= v4_tail_groups(v@, from as int, to as int));
                        }
                        Some(g)
                    },
                    _ => None,
                }
            },
        }
    } else {
        match parse_hex_group(v, from, c) {
            Some(x) => {
                match parse_tail_list(v, c + 1, to) {
                    Some(rest) => {
                        let mut g = rest;
                        g.insert(0, x);
                        proof {
                            assert(g@ =~= seq![hex_val(v@, from as int, c as int) as u16]
                                + g@.drop_first());
                        }
                        Some(g)
                    },
                    None => None,
                }
            },
            None => None,
        }
    }
}

/// The octet values of a version-4 range are non-negative.
proof fn lemma_dec_val_bound_v4(s: Seq<char>, from: int, to: int)
    requires
        is_ipv4_at(s, from, to),
    ensures
        ({
            let d1 = find_char(s, '.', from, to);
            let d2 = find_char(s, '.', d1 + 1, to);
            let d3 = find_char(s, '.', d2 + 1, to);
            &&& 0 <= dec_val(s, from, d1) <= 255
            &&& 0 <= dec_val(s, d1 + 1, d2) <= 255
            &&& 0 <= dec_val(s, d2 + 1, d3) <= 255
            &&& 0 <= dec_val(s, d3 + 1, to) <= 255
        }),
{
    let d1 = find_char(s, '.', from, to);
    let d2 = find_char(s, '.', d1 + 1, to);
    let d3 = find_char(s, '.', d2 + 1, to);
    lemma_dec_val_bound(s, from, d1);
    lemma_dec_val_bound(s, d1 + 1, d2);
    lemma_dec_val_bound(s, d2 + 1, d3);
    lemma_dec_val_bound(s, d3 + 1, to);
}

/// Recognises the version-6 form over `[from, to)`.
fn parse_ipv6_range(v: &Vec<char>, from: usize, to: usize) -> (r: Option<IpAddress>)
    requires
        from <= to <= v@.len(),
    ensures
        r is Some <==> is_ipv6_at(v@, from as int, to as int),
        r matches Some(a) ==> a == ipv6_at(v@, from as int, to as int),
{
    let d = find_dc_exec(v, from, to);
    if d >= to {
        match parse_tail_list(v, from, to) {
            Some(g) => {
                if g.len() == 8 {
                    Some(IpAddress::V6(g[0], g[1], g[2], g[3], g[4], g[5], g[6], g[7]))
                } else {
                    None
                }
            },
            None => None,
        }
    } else {
        let l: Vec<u16> = if d == from {
            Vec::new()
        } else {
            match parse_hex_list(v, from, d) {
                Some(g) => g,
                None => {
                    return None;
                },
            }
        };
        let r_tail: Vec<u16> = if d + 2 == to {
            Vec::new()
        } else {
            match parse_tail_list(v, d + 2, to) {
                Some(g) => g,
                None => {
                    return None;
                },
            }
        };
        proof {
            assert(l@ =~= left_groups(v@, from as int, d as int));
            assert(r_tail@ =~= right_groups(v@, d as int, to as int));
        }
        if l.len() <= 7 && r_tail.len() <= 7 - l.len() {
            let fill = 8 - l.len() - r_tail.len();
            let ghost l0 = l@;
            let mut g = l;
            let mut z: usize = 0;
            while z < fill
                invariant
                    z <= fill,
                    g@ =~= l0 + Seq::new(z as nat, |i: int| 0u16),
                decreases fill - z,
            {
                g.push(0);
                proof {
                    assert(g@ =~= l0 + Seq::new((z + 1) as nat, |i: int| 0u16));
                }
                z = z + 1;
            }
            let mut m: usize = 0;
            while m < r_tail.len()
                invariant
                    m <= r_tail@.len(),
                    g@ =~= l0 + Seq::new(fill as nat, |i: int| 0u16) + r_tail@.take(m as int),
                decreases r_tail@.len() - m,
            {
                g.push(r_tail[m]);
                proof {
                    assert(g@ =~= l0 + Seq::new(fill as nat, |i: int| 0u16) + r_tail@.take(
                        m as int + 1,
                    ));
                }
                m = m + 1;
            }
            proof {
                assert(r_tail@.take(r_tail@.len() as int) =~= r_tail@);
                assert(g@ =~= ipv6_groups_at(v@, from as int, to as int));
            }
            Some(IpAddress::V6(g[0], g[1], g[2], g[3], g[4], g[5], g[6], g[7]))
        } else {
            None
        }
    }
}

// ---------------------------------------------------------------------
// The public recogniser.
// ---------------------------------------------------------------------

/// True of the strings that read as address literals, of either family.
pub open spec fn is_ipv4_text(s: Seq<char>) -> bool {
    is_ipv4_at(s, 0, s.len() as int)
}

pub open spec fn is_ipv6_text(s: Seq<char>) -> bool {
    is_ipv6_at(s, 0, s.len() as int)
}

pub open spec fn is_ip_text(s: Seq<char>) -> bool {
    is_ipv4_text(s) || is_ipv6_text(s)
}

/// The address an address literal denotes, meaningful when `is_ip_text`.
pub open spec fn ip_text_value(s: Seq<char>) -> IpAddress {
    if is_ipv4_text(s) {
        ipv4_at(s, 0, s.len() as int)
    } else {
        ipv6_at(s, 0, s.len() as int)
    }
}

/// Every character of a version-4 text is a decimal digit or a dot.
proof fn lemma_v4_chars(s: Seq<char>, from: int, to: int)
    requires
        is_ipv4_at(s, from, to),
    ensures
        forall|j: int| from <= j < to ==> is_dec_digit(s[j]) || s[j] == '.',
{
    let d1 = find_char(s, '.', from, to);
    let d2 = find_char(s, '.', d1 + 1, to);
    let d3 = find_char(s, '.', d2 + 1, to);
    lemma_find_char(s, '.', from, to);
    lemma_find_char(s, '.', d1 + 1, to);
    lemma_find_char(s, '.', d2 + 1, to);
}

/// `find_dc` stays within its range and lands on a colon when it finds a
/// `::` marker.
proof fn lemma_find_dc_bounds(s: Seq<char>, from: int, to: int)
    requires
        from <= to,
    ensures
        from <= find_dc(s, from, to) <= to,
        find_dc(s, from, to) < to ==> s[find_dc(s, from, to)] == ':',
    decreases to - from,
{
    if from + 1 < to && !(s[from] == ':' && s[from + 1] == ':') {
        lemma_find_dc_bounds(s, from + 1, to);
    }
}

/// Any decomposition of a string into four octets around three dots is
/// recognised as a version-4 literal, with exactly those octet values: the
/// dot positions of such a decomposition are forced, since an octet
/// contains no dot.
pub proof fn lemma_dotted_quad_reads_as_ipv4(s: Seq<char>, i: int, j: int, k: int)
    requires
        0 <= i < j < k < s.len(),
        s[i] == '.',
        s[j] == '.',
        s[k] == '.',
        is_octet_at(s, 0, i),
        is_octet_at(s, i + 1, j),
        is_octet_at(s, j + 1, k),
        is_octet_at(s, k + 1, s.len() as int),
    ensures
        is_ipv4_text(s),
        ipv4_at(s, 0, s.len() as int) == IpAddress::V4(
            dec_val(s, 0, i) as u8,
            dec_val(s, i + 1, j) as u8,
            dec_val(s, j + 1, k) as u8,
            dec_val(s, k + 1, s.len() as int) as u8,
        ),
{
    let to = s.len() as int;
    assert(find_char(s, '.', 0, to) == i) by {
        lemma_find_char(s, '.', 0, to);
        let d = find_char(s, '.', 0, to);
        if d < i {
            assert(is_dec_digit(s[d]));
        }
    }
    assert(find_char(s, '.', i + 1, to) == j) by {
        lemma_find_char(s, '.', i + 1, to);
        let d = find_char(s, '.', i + 1, to);
        if d < j {
            assert(is_dec_digit(s[d]));
        }
    }
    assert(find_char(s, '.', j + 1, to) == k) by {
        lemma_find_char(s, '.', j + 1, to);
        let d = find_char(s, '.', j + 1, to);
        if d < k {
            assert(is_dec_digit(s[d]));
        }
    }
    assert(find_char(s, '.', k + 1, to) == to) by {
        lemma_find_char(s, '.', k + 1, to);
        let d = find_char(s, '.', k + 1, to);
        if d < to {
            assert(is_dec_digit(s[d]));
        }
    }
}

/// No string reads as a literal of both families: a version-4 text has no
/// colon, so it can never satisfy the version-6 form.
pub proof fn lemma_literal_families_disjoint(s: Seq<char>)
    requires
        is_ipv4_text(s),
    ensures
        !is_ipv6_text(s),
{
    let to = s.len() as int;
    let d1 = find_char(s, '.', 0, to);
    lemma_v4_chars(s, 0, to);
    lemma_find_char(s, '.', 0, to);
    assert(find_char(s, ':', 0, to) == to) by {
        lemma_find_char(s, ':', 0, to);
        if find_char(s, ':', 0, to) < to {
            assert(!is_dec_digit(':') && ':' != '.');
        }
    }
    assert(find_dc(s, 0, to) == to) by {
        lemma_find_dc_bounds(s, 0, to);
        if find_dc(s, 0, to) < to {
            let d = find_dc(s, 0, to);
            assert(is_dec_digit(s[d]) || s[d] == '.');
            assert(!is_dec_digit(':') && ':' != '.');
        }
    }
    assert(!is_hex_group_at(s, 0, to)) by {
        assert(!is_hex_digit(s[d1]));
    }
    assert(tail_list_at(s, 0, to) == Some(v4_tail_groups(s, 0, to)));
    assert(v4_tail_groups(s, 0, to).len() == 2);
}

/// Reads a target string as an address literal: returns the denoted
/// address exactly when the string is one, of either family.
pub fn parse_ip(s: &str) -> (r: Option<IpAddress>)
    ensures
        r is Some <==> is_ip_text(s@),
        r matches Some(a) ==> a == ip_text_value(s@),
{
    let n = s.unicode_len();
    let mut v: Vec<char> = Vec::new();
    let mut i: usize = 0;
    while i < n
        invariant
            i <= n,
            n == s@.len(),
            v@ =~= s@.take(i as int),
        decreases n - i,
    {
        let c = s.get_char(i);
        v.push(c);
        proof {
            assert(v@ =~= s@.take(i as int + 1));
        }
        i = i + 1;
    }
    proof {
        assert(v@ =~= s@);
    }
    match parse_ipv4_range(&v, 0, n) {
        Some(a) => Some(a),
        None => parse_ipv6_range(&v, 0, n),
    }
}

} // verus!
