//! Hamming distance: the number of positions at which two sequences differ.

use vstd::prelude::*;

verus! {

/// The number of positions below `k` at which `s` and `t` differ.
pub open spec fn differing(s: Seq<char>, t: Seq<char>, k: int) -> nat
    decreases k,
{
    if k <= 0 {
        0
    } else {
        differing(s, t, k - 1) + if s[k - 1] != t[k - 1] {
            1nat
        } else {
            0nat
        }
    }
}

/// The Hamming distance of two sequences of one length.
pub open spec fn hamming_distance(s: Seq<char>, t: Seq<char>) -> nat
    recommends
        s.len() == t.len(),
{
    differing(s, t, s.len() as int)
}

/// At most `k` of the first `k` positions differ.
pub proof fn lemma_differing_bound(s: Seq<char>, t: Seq<char>, k: int)
    requires
        0 <= k,
    ensures
        differing(s, t, k) <= k,
    decreases k,
{
    if k > 0 {
        lemma_differing_bound(s, t, k - 1);
    }
}

/// A sequence differs from itself nowhere.
pub proof fn lemma_hamming_identity(s: Seq<char>)
    ensures
        hamming_distance(s, s) == 0,
{
    lemma_differing_same(s, s.len() as int);
}

proof fn lemma_differing_same(s: Seq<char>, k: int)
    ensures
        differing(s, s, k) == 0,
    decreases k,
{
    if k > 0 {
        lemma_differing_same(s, k - 1);
    }
}

/// The distance does not depend on the order of its operands.
pub proof fn lemma_hamming_symmetric(s: Seq<char>, t: Seq<char>)
    requires
        s.len() == t.len(),
    ensures
        hamming_distance(s, t) == hamming_distance(t, s),
{
    lemma_differing_symmetric(s, t, s.len() as int);
}

/// The count of differing positions does not depend on the order of the
/// sequences.
pub proof fn lemma_differing_symmetric(s: Seq<char>, t: Seq<char>, k: int)
    ensures
        differing(s, t, k) == differing(t, s, k),
    decreases k,
{
    if k > 0 {
        lemma_differing_symmetric(s, t, k - 1);
    }
}

/// Counts the positions below `k` at which `a` and `b` differ.
pub fn count_differing(a: &Vec<char>, b: &Vec<char>, k: usize) -> (d: usize)
    requires
        k <= a.len(),
        k <= b.len(),
    ensures
        d == differing(a@, b@, k as int),
        d <= k,
{
    let mut d: usize = 0;
    let mut i: usize = 0;
    while i < k
        invariant
            i <= k,
            k <= a.len(),
            k <= b.len(),
            d <= i,
            d == differing(a@, b@, i as int),
        decreases k - i,
    {
        if a[i] != b[i] {
            d = d + 1;
        }
        i = i + 1;
    }
    d
}

} // verus!
