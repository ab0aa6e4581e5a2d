//! Choosing one address among a resolver's candidates: the first
//! version-4 candidate in the returned order; if there is none, the first
//! version-6 candidate; an empty candidate set is a resolution failure.

use vstd::prelude::*;

use crate::ip::IpAddress;

verus! {

/// The index of the first version-4 candidate, or `s.len()` when there is
/// none.
pub open spec fn first_v4_index(s: Seq<IpAddress>) -> int
    decreases s.len(),
{
    if s.len() == 0 {
        0
    } else if s[0] is V4 {
        0
    } else {
        1 + first_v4_index(s.drop_first())
    }
}

/// The address the loop keeps for a candidate set: the first version-4
/// candidate; failing that, the first candidate of all (necessarily
/// version 6); `None` exactly when the set is empty.
pub open spec fn spec_select(s: Seq<IpAddress>) -> Option<IpAddress> {
    if s.len() == 0 {
        None
    } else if first_v4_index(s) < s.len() {
        Some(s[first_v4_index(s)])
    } else {
        Some(s[0])
    }
}

/// `first_v4_index` names what it should: the index it returns lies in the
/// candidate list exactly when a version-4 candidate exists, it points at a
/// version-4 candidate, and nothing before it is version 4.
pub proof fn lemma_first_v4_index(s: Seq<IpAddress>)
    ensures
        0 <= first_v4_index(s) <= s.len(),
        first_v4_index(s) < s.len() ==> s[first_v4_index(s)] is V4,
        forall|j: int| 0 <= j < first_v4_index(s) ==> !(s[j] is V4),
        first_v4_index(s) == s.len() ==> forall|j: int| 0 <= j < s.len() ==> !(s[j] is V4),
    decreases s.len(),
{
    if s.len() > 0 && !(s[0] is V4) {
        lemma_first_v4_index(s.drop_first());
        assert(forall|j: int| 0 < j < s.len() ==> s[j] == s.drop_first()[j - 1]);
    }
}

/// Picks the published address out of a candidate list, in the resolver's
/// returned order: the first version-4 address if any; otherwise the first
/// address (then version 6); `None` exactly on an empty list.
pub fn select_address(cands: &Vec<IpAddress>) -> (r: Option<IpAddress>)
    ensures
        r == spec_select(cands@),
        r is None <==> cands@.len() == 0,
        (exists|i: int| 0 <= i < cands@.len() && cands@[i] is V4) ==> (r matches Some(a)
            && exists|i: int|
            {
                &&& 0 <= i < cands@.len()
                &&& cands@[i] == a
                &&& a is V4
                &&& forall|j: int| 0 <= j < i ==> !(cands@[j] is V4)
            }),
        (cands@.len() > 0 && forall|i: int| 0 <= i < cands@.len() ==> !(cands@[i] is V4))
            ==> r == Some(cands@[0]),
{
    proof {
        lemma_first_v4_index(cands@);
    }
    let n = cands.len();
    let mut i: usize = 0;
    while i < n
        invariant
            n == cands@.len(),
            0 <= i <= n,
            forall|j: int| 0 <= j < i ==> !(cands@[j] is V4),
            first_v4_index(cands@) >= i,
        decreases n - i,
    {
        if cands[i].is_v4() {
            proof {
                lemma_first_v4_index(cands@);
            }
            return Some(cands[i]);
        }
        proof {
            lemma_first_v4_skip(cands@, i as int);
        }
        i = i + 1;
    }
    if n > 0 {
        Some(cands[0])
    } else {
        None
    }
}

/// If nothing up to and including position `i` is version 4, the first
/// version-4 candidate lies strictly beyond `i`.
proof fn lemma_first_v4_skip(s: Seq<IpAddress>, i: int)
    requires
        0 <= i < s.len(),
        first_v4_index(s) >= i,
        !(s[i] is V4),
    ensures
        first_v4_index(s) >= i + 1,
    decreases i,
{
    if i > 0 {
        assert(s.drop_first()[i - 1] == s[i]);
        lemma_first_v4_skip(s.drop_first(), i - 1);
    } else {
        lemma_first_v4_index(s.drop_first());
    }
}

} // verus!
