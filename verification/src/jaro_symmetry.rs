//! The Jaro similarity does not depend on the order of its operands:
//! matching from either side pairs the same positions.

use vstd::prelude::*;
use crate::hamming::lemma_differing_symmetric;
use crate::score::Threshold;
use crate::internal_scorer::{jaro_outcome, jaro_winkler_outcome};
use crate::jaro::{
    average_den,
    average_num,
    first_free,
    is_matched,
    jaro_fits,
    jaro_similarity,
    jaro_winkler_fits,
    jaro_winkler_similarity,
    lemma_jaro_winkler_symmetric,
    lemma_first_free,
    lemma_marked_len,
    lemma_matches_balanced,
    lemma_used_len,
    marked,
    matched_left,
    matched_right,
    match_count,
    partner,
    transpositions,
    used_after,
    window_end,
    window_start,
};

verus! {

/// Position `i` of `a` and position `j` of `b` hold the same character and
/// lie in each other's window.
pub open spec fn adjacent(a: Seq<char>, b: Seq<char>, i: int, j: int) -> bool {
    &&& 0 <= i < a.len()
    &&& 0 <= j < b.len()
    &&& window_start(i, a.len() as int, b.len() as int) <= j < window_end(
        i,
        a.len() as int,
        b.len() as int,
    )
    &&& a[i] == b[j]
}

/// The positions of `a` that are matched with a position of `b` below
/// `bound`.
pub open spec fn taken(a: Seq<char>, b: Seq<char>, bound: int) -> Seq<bool> {
    Seq::new(a.len(), |i: int| is_matched(a, b, i) && partner(a, b, i) < bound)
}

proof fn lemma_adjacent_symmetric(a: Seq<char>, b: Seq<char>, i: int, j: int)
    ensures
        adjacent(a, b, i, j) == adjacent(b, a, j, i),
{
}

proof fn lemma_first_free_least(
    x: char,
    s: Seq<char>,
    used: Seq<bool>,
    from: int,
    to: int,
    r: int,
)
    requires
        0 <= from <= r < to,
        s[r] == x,
        !used[r],
    ensures
        from <= first_free(x, s, used, from, to) <= r,
    decreases to - from,
{
    if !(s[from] == x && !used[from]) {
        lemma_first_free_least(x, s, used, from + 1, to, r);
    }
}

proof fn lemma_first_free_none(x: char, s: Seq<char>, used: Seq<bool>, from: int, to: int)
    requires
        0 <= from,
        forall|r: int| from <= r < to ==> !(s[r] == x && !used[r]),
    ensures
        first_free(x, s, used, from, to) == to,
    decreases to - from,
{
    if from < to {
        lemma_first_free_none(x, s, used, from + 1, to);
    }
}

proof fn lemma_partner_facts(a: Seq<char>, b: Seq<char>, i: int)
    requires
        0 <= i < a.len(),
    ensures
        used_after(a, b, i).len() == b.len(),
        used_after(a, b, i + 1).len() == b.len(),
        is_matched(a, b, i) ==> adjacent(a, b, i, partner(a, b, i)) && !used_after(
            a,
            b,
            i,
        )[partner(a, b, i)] && used_after(a, b, i + 1)[partner(a, b, i)],
        is_matched(a, b, i) ==> used_after(a, b, i + 1) == used_after(a, b, i).update(
            partner(a, b, i),
            true,
        ),
        !is_matched(a, b, i) ==> used_after(a, b, i + 1) == used_after(a, b, i),
{
    lemma_first_free(
        a[i],
        b,
        used_after(a, b, i),
        window_start(i, a.len() as int, b.len() as int),
        window_end(i, a.len() as int, b.len() as int),
    );
    lemma_used_len(a, b, i);
    lemma_used_len(a, b, i + 1);
}

proof fn lemma_used_grows(a: Seq<char>, b: Seq<char>, k: int, later: int, j: int)
    requires
        0 <= k <= later <= a.len(),
        0 <= j < b.len(),
        used_after(a, b, k)[j],
    ensures
        used_after(a, b, later)[j],
    decreases later - k,
{
    if k < later {
        lemma_used_grows(a, b, k, later - 1, j);
        lemma_partner_facts(a, b, later - 1);
    }
}

proof fn lemma_used_origin(a: Seq<char>, b: Seq<char>, k: int, j: int) -> (i: int)
    requires
        0 <= k <= a.len(),
        0 <= j < b.len(),
        used_after(a, b, k)[j],
    ensures
        0 <= i < k,
        is_matched(a, b, i),
        partner(a, b, i) == j,
    decreases k,
{
    if k <= 0 {
        assert(false);
        0
    } else {
        lemma_partner_facts(a, b, k - 1);
        if used_after(a, b, k - 1)[j] {
            lemma_used_origin(a, b, k - 1, j)
        } else {
            k - 1
        }
    }
}

proof fn lemma_partner_injective(a: Seq<char>, b: Seq<char>, first: int, second: int)
    requires
        0 <= first < second < a.len(),
        is_matched(a, b, first),
        is_matched(a, b, second),
    ensures
        partner(a, b, first) != partner(a, b, second),
{
    lemma_partner_facts(a, b, first);
    lemma_partner_facts(a, b, second);
    if partner(a, b, first) == partner(a, b, second) {
        lemma_used_grows(a, b, first + 1, second, partner(a, b, first));
    }
}

proof fn lemma_taken_earlier(a: Seq<char>, b: Seq<char>, i: int, j: int)
    requires
        adjacent(a, b, i, j),
        !used_after(a, b, i)[j],
        !(is_matched(a, b, i) && partner(a, b, i) == j),
    ensures
        is_matched(a, b, i),
        partner(a, b, i) < j,
{
    lemma_first_free_least(
        a[i],
        b,
        used_after(a, b, i),
        window_start(i, a.len() as int, b.len() as int),
        window_end(i, a.len() as int, b.len() as int),
        j,
    );
}

/// Matching from the side of `b` marks, after `j` positions, just the
/// positions of `a` that matching from the side of `a` pairs with a position
/// below `j`, and matches just the positions that the other side marks.
proof fn lemma_mirror(a: Seq<char>, b: Seq<char>, j: int)
    requires
        0 <= j <= b.len(),
    ensures
        used_after(b, a, j) == taken(a, b, j),
        forall|c: int|
            0 <= c < j ==> #[trigger] is_matched(b, a, c) == used_after(a, b, a.len() as int)[c],
    decreases j,
{
    let n = a.len() as int;
    let m = b.len() as int;
    lemma_used_len(b, a, j);
    if j <= 0 {
        assert(used_after(b, a, j) =~= taken(a, b, j)) by {
            assert forall|c: int| 0 <= c < n implies !(#[trigger] taken(a, b, j)[c]) by {
                lemma_partner_facts(a, b, c);
            }
        }
    } else {
        let jj = j - 1;
        lemma_mirror(a, b, jj);
        lemma_used_len(b, a, jj);
        lemma_used_len(a, b, n);
        let marks = used_after(b, a, jj);
        let from = window_start(jj, m, n);
        let to = window_end(jj, m, n);
        let x = b[jj];
        if used_after(a, b, n)[jj] {
            let i = lemma_used_origin(a, b, n, jj);
            lemma_partner_facts(a, b, i);
            lemma_adjacent_symmetric(a, b, i, jj);
            assert(from <= i < to);
            assert(!marks[i]);
            assert forall|r: int| from <= r < i implies !(a[r] == x && !marks[r]) by {
                if a[r] == x {
                    lemma_adjacent_symmetric(a, b, r, jj);
                    lemma_partner_facts(a, b, r);
                    if used_after(a, b, r)[jj] {
                        lemma_used_grows(a, b, r, i, jj);
                    }
                    if is_matched(a, b, r) && partner(a, b, r) == jj {
                        lemma_partner_injective(a, b, r, i);
                    }
                    lemma_taken_earlier(a, b, r, jj);
                    assert(taken(a, b, jj)[r]);
                }
            }
            lemma_first_free_least(x, a, marks, from, to, i);
            lemma_first_free(x, a, marks, from, to);
            assert(first_free(x, a, marks, from, to) == i);
            assert(partner(b, a, jj) == i);
            assert(is_matched(b, a, jj));
            lemma_partner_facts(b, a, jj);
            assert(used_after(b, a, j) =~= taken(a, b, j)) by {
                assert forall|c: int| 0 <= c < n implies used_after(b, a, j)[c] == taken(
                    a,
                    b,
                    j,
                )[c] by {
                    lemma_partner_facts(a, b, c);
                    assert(marks[c] == taken(a, b, jj)[c]);
                    if c != i && is_matched(a, b, c) && partner(a, b, c) == jj {
                        if c < i {
                            lemma_partner_injective(a, b, c, i);
                        } else {
                            lemma_partner_injective(a, b, i, c);
                        }
                    }
                }
            }
        } else {
            assert forall|r: int| from <= r < to implies !(a[r] == x && !marks[r]) by {
                if a[r] == x {
                    lemma_adjacent_symmetric(a, b, r, jj);
                    lemma_partner_facts(a, b, r);
                    if used_after(a, b, r)[jj] {
                        lemma_used_grows(a, b, r, n, jj);
                    }
                    if is_matched(a, b, r) && partner(a, b, r) == jj {
                        lemma_used_grows(a, b, r + 1, n, jj);
                    }
                    lemma_taken_earlier(a, b, r, jj);
                    assert(taken(a, b, jj)[r]);
                }
            }
            lemma_first_free_none(x, a, marks, from, to);
            assert(partner(b, a, jj) == to);
            assert(!is_matched(b, a, jj));
            lemma_partner_facts(b, a, jj);
            assert(used_after(b, a, j) =~= taken(a, b, j)) by {
                assert forall|c: int| 0 <= c < n implies used_after(b, a, j)[c] == taken(
                    a,
                    b,
                    j,
                )[c] by {
                    lemma_partner_facts(a, b, c);
                    assert(marks[c] == taken(a, b, jj)[c]);
                    if is_matched(a, b, c) && partner(a, b, c) == jj {
                        lemma_used_grows(a, b, c + 1, n, jj);
                    }
                }
            }
        }
    }
}

proof fn lemma_left_is_marked(s: Seq<char>, t: Seq<char>, flags: Seq<bool>, k: int)
    requires
        0 <= k <= s.len(),
        forall|c: int| 0 <= c < k ==> #[trigger] is_matched(s, t, c) == flags[c],
    ensures
        matched_left(s, t, k) == marked(s, flags, k),
    decreases k,
{
    if k > 0 {
        lemma_left_is_marked(s, t, flags, k - 1);
    }
}

/// Matching from the side of `b` matches the characters that matching from
/// the side of `a` marks, and marks the characters that it matches.
pub proof fn lemma_matched_sides_swap(a: Seq<char>, b: Seq<char>)
    ensures
        matched_left(b, a, b.len() as int) == matched_right(a, b),
        matched_right(b, a) == matched_left(a, b, a.len() as int),
        match_count(b, a) == match_count(a, b),
{
    let n = a.len() as int;
    let m = b.len() as int;
    lemma_mirror(a, b, m);
    lemma_left_is_marked(b, a, used_after(a, b, n), m);
    assert forall|c: int| 0 <= c < n implies #[trigger] is_matched(a, b, c) == used_after(
        b,
        a,
        m,
    )[c] by {
        lemma_partner_facts(a, b, c);
        assert(used_after(b, a, m)[c] == taken(a, b, m)[c]);
    }
    lemma_left_is_marked(a, b, used_after(b, a, m), n);
    lemma_matches_balanced(a, b, n);
    lemma_marked_len(b, used_after(a, b, n), m);
}

/// The Jaro similarity does not depend on the order of its operands.
pub proof fn lemma_jaro_symmetric(a: Seq<char>, b: Seq<char>)
    ensures
        jaro_similarity(a, b) == jaro_similarity(b, a),
{
    lemma_matched_sides_swap(a, b);
    lemma_differing_symmetric(
        matched_left(a, b, a.len() as int),
        matched_right(a, b),
        match_count(a, b) as int,
    );
    assert(transpositions(a, b) == transpositions(b, a));
    let c = match_count(a, b) as int;
    let t = transpositions(a, b) as int;
    let n = a.len() as int;
    let m = b.len() as int;
    assert(average_num(c, t, n, m) == average_num(c, t, m, n)) by (nonlinear_arith);
    assert(average_den(c, n, m) == average_den(c, m, n)) by (nonlinear_arith);
    if a == b {
        assert(b == a);
    }
}

/// The Jaro-Winkler similarity does not depend on the order of its operands
/// either: the Jaro similarity and the common prefix are the same both ways.
pub proof fn lemma_jaro_winkler_symmetric_too(a: Seq<char>, b: Seq<char>, threshold: Threshold)
    ensures
        jaro_winkler_similarity(a, b, threshold) == jaro_winkler_similarity(b, a, threshold),
{
    lemma_jaro_symmetric(a, b);
    lemma_jaro_winkler_symmetric(a, b, threshold);
}

/// Whether a Jaro similarity can be written down does not depend on the
/// order of the operands, so what Jaro and Jaro-Winkler give does not either.
pub proof fn lemma_outcomes_symmetric(a: Seq<char>, b: Seq<char>, threshold: Threshold)
    ensures
        jaro_fits(a, b) == jaro_fits(b, a),
        jaro_winkler_fits(a, b, threshold) == jaro_winkler_fits(b, a, threshold),
        jaro_outcome(a, b) == jaro_outcome(b, a),
        jaro_winkler_outcome(a, b, threshold) == jaro_winkler_outcome(b, a, threshold),
{
    lemma_matched_sides_swap(a, b);
    lemma_jaro_symmetric(a, b);
    lemma_jaro_winkler_symmetric_too(a, b, threshold);
    let c = match_count(a, b) as int;
    let n = a.len() as int;
    let m = b.len() as int;
    assert(average_den(c, n, m) == average_den(c, m, n)) by (nonlinear_arith);
    if a == b {
        assert(b == a);
    }
}

} // verus!
