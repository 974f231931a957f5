//! Ordering scored candidates, best first.

use std::cmp::Ordering;
use rayon::slice::ParallelSliceMut;
use vstd::prelude::*;
use crate::score::{Score, lemma_beats_transitive};

verus! {

/// Whether the entry `x`, the index of a candidate with its score, may stand
/// before the entry `y`: its score is better, or neither score is better and
/// its index is not the higher one.
pub open spec fn ranks_before(x: (usize, Score), y: (usize, Score), ascending: bool) -> bool {
    x.1.beats(y.1, ascending) || (!y.1.beats(x.1, ascending) && x.0 <= y.0)
}

/// Every entry may stand before all that follow it.
pub open spec fn ranked(entries: Seq<(usize, Score)>, ascending: bool) -> bool {
    forall|i: int, j: int|
        0 <= i < j < entries.len() ==> ranks_before(#[trigger] entries[i], #[trigger] entries[j], ascending)
}

/// Every score among the entries has a positive denominator.
pub open spec fn all_well_formed(entries: Seq<(usize, Score)>) -> bool {
    forall|i: int| 0 <= i < entries.len() ==> (#[trigger] entries[i]).1.wf()
}

/// Compares two entries: by score under the ordering convention, then by
/// index.
pub fn compare_entries(x: &(usize, Score), y: &(usize, Score), ascending: bool) -> (r: Ordering)
    ensures
        (r == Ordering::Less) == (x.1.beats(y.1, ascending) || (!y.1.beats(x.1, ascending) && x.0
            < y.0)),
        (r == Ordering::Equal) == (!x.1.beats(y.1, ascending) && !y.1.beats(x.1, ascending) && x.0
            == y.0),
        r != Ordering::Greater ==> ranks_before(*x, *y, ascending),
        r != Ordering::Less ==> ranks_before(*y, *x, ascending),
{
    if x.1.better_than(&y.1, ascending) {
        Ordering::Less
    } else if y.1.better_than(&x.1, ascending) {
        Ordering::Greater
    } else if x.0 < y.0 {
        Ordering::Less
    } else if x.0 == y.0 {
        Ordering::Equal
    } else {
        Ordering::Greater
    }
}

/// Calls `sort_unstable_by` of std's slices with `compare_entries`. The
/// contract claims what the documentation promises for a comparison that is
/// a total order, which this one is on scores with positive denominators:
/// the entries are kept, and each may stand before all that follow it.
#[verifier::external_body]
fn seq_sort_scores(scores: &mut Vec<(usize, Score)>, ascending: bool)
    requires
        all_well_formed(old(scores)@),
    ensures
        final(scores)@.to_multiset() == old(scores)@.to_multiset(),
        ranked(final(scores)@, ascending),
{
    scores.sort_unstable_by(|x, y| compare_entries(x, y, ascending));
}

/// Calls rayon's `par_sort_unstable_by` with `compare_entries`. The contract
/// claims the same as for the sequential sort: the entries are kept, and
/// each may stand before all that follow it.
#[verifier::external_body]
pub(crate) fn par_sort_scores(scores: &mut Vec<(usize, Score)>, ascending: bool)
    requires
        all_well_formed(old(scores)@),
    ensures
        final(scores)@.to_multiset() == old(scores)@.to_multiset(),
        ranked(final(scores)@, ascending),
{
    scores.par_sort_unstable_by(|x, y| compare_entries(x, y, ascending));
}

/// Orders the entries, best first: in one thread up to a thousand entries,
/// in parallel beyond.
pub fn sort_scores(scores: &mut Vec<(usize, Score)>, ascending: bool)
    requires
        all_well_formed(old(scores)@),
    ensures
        final(scores)@.to_multiset() == old(scores)@.to_multiset(),
        ranked(final(scores)@, ascending),
{
    if scores.len() > 1000 {
        par_sort_scores(scores, ascending);
    } else {
        seq_sort_scores(scores, ascending);
    }
}

/// On scores with positive denominators, standing before is a total order
/// of the entries with different indices: it is transitive, it holds one way
/// or the other, and both ways only between entries of one index.
pub proof fn lemma_ranks_before_orders(
    x: (usize, Score),
    y: (usize, Score),
    z: (usize, Score),
    ascending: bool,
)
    requires
        x.1.wf(),
        y.1.wf(),
        z.1.wf(),
    ensures
        ranks_before(x, y, ascending) && ranks_before(y, z, ascending) ==> ranks_before(
            x,
            z,
            ascending,
        ),
        ranks_before(x, y, ascending) || ranks_before(y, x, ascending),
        ranks_before(x, y, ascending) && ranks_before(y, x, ascending) ==> x.0 == y.0,
{
    lemma_beats_transitive(x.1, y.1, z.1, ascending);
    lemma_beats_transitive(z.1, y.1, x.1, ascending);
    lemma_beats_transitive(x.1, y.1, x.1, ascending);
    lemma_beats_transitive(y.1, z.1, y.1, ascending);
    lemma_beats_transitive(x.1, z.1, x.1, ascending);
}

} // verus!
