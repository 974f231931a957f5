//! Jaro and Jaro-Winkler similarity as exact rational numbers.

use vstd::prelude::*;
use crate::score::{Score, Threshold, length, product, wide};
use crate::hamming::{differing, lemma_differing_bound, count_differing};

verus! {

/// Half the length of the longer operand: one more than the radius of the
/// matching window.
pub open spec fn half_span(n: int, m: int) -> int {
    if n >= m {
        n / 2
    } else {
        m / 2
    }
}

/// The first position of the second operand that position `i` of the first
/// may match.
pub open spec fn window_start(i: int, n: int, m: int) -> int {
    if i + 1 >= half_span(n, m) {
        i + 1 - half_span(n, m)
    } else {
        0
    }
}

/// One past the last position of the second operand that position `i` of
/// the first may match.
pub open spec fn window_end(i: int, n: int, m: int) -> int {
    if i + half_span(n, m) <= m {
        i + half_span(n, m)
    } else {
        m
    }
}

/// The first position in `from..to` that holds `x` and is not yet used, or
/// `to` where there is none.
pub open spec fn first_free(x: char, b: Seq<char>, used: Seq<bool>, from: int, to: int) -> int
    decreases to - from,
{
    if from >= to {
        to
    } else if b[from] == x && !used[from] {
        from
    } else {
        first_free(x, b, used, from + 1, to)
    }
}

/// The positions of `b` that are matched once the first `k` characters of
/// `a` have each taken the first free equal character in their window.
pub open spec fn used_after(a: Seq<char>, b: Seq<char>, k: int) -> Seq<bool>
    decreases k,
{
    if k <= 0 {
        Seq::new(b.len(), |j: int| false)
    } else {
        let before = used_after(a, b, k - 1);
        let j = first_free(
            a[k - 1],
            b,
            before,
            window_start(k - 1, a.len() as int, b.len() as int),
            window_end(k - 1, a.len() as int, b.len() as int),
        );
        if j < window_end(k - 1, a.len() as int, b.len() as int) {
            before.update(j, true)
        } else {
            before
        }
    }
}

/// The position of `b` that position `i` of `a` is matched with, or the end
/// of its window where it is matched with none.
pub open spec fn partner(a: Seq<char>, b: Seq<char>, i: int) -> int {
    first_free(
        a[i],
        b,
        used_after(a, b, i),
        window_start(i, a.len() as int, b.len() as int),
        window_end(i, a.len() as int, b.len() as int),
    )
}

/// Whether position `i` of `a` finds a match in `b`.
pub open spec fn is_matched(a: Seq<char>, b: Seq<char>, i: int) -> bool {
    partner(a, b, i) < window_end(i, a.len() as int, b.len() as int)
}

/// The matched characters among the first `k` of `a`, in order.
pub open spec fn matched_left(a: Seq<char>, b: Seq<char>, k: int) -> Seq<char>
    decreases k,
{
    if k <= 0 {
        Seq::empty()
    } else if is_matched(a, b, k - 1) {
        matched_left(a, b, k - 1).push(a[k - 1])
    } else {
        matched_left(a, b, k - 1)
    }
}

/// The characters among the first `k` of `b` whose position is marked in
/// `used`, in order.
pub open spec fn marked(b: Seq<char>, used: Seq<bool>, k: int) -> Seq<char>
    decreases k,
{
    if k <= 0 {
        Seq::empty()
    } else if used[k - 1] {
        marked(b, used, k - 1).push(b[k - 1])
    } else {
        marked(b, used, k - 1)
    }
}

/// The matched characters of `b`, in order.
pub open spec fn matched_right(a: Seq<char>, b: Seq<char>) -> Seq<char> {
    marked(b, used_after(a, b, a.len() as int), b.len() as int)
}

/// The number of matches between `a` and `b`.
pub open spec fn match_count(a: Seq<char>, b: Seq<char>) -> nat {
    matched_left(a, b, a.len() as int).len()
}

/// The number of transpositions: half the number of places at which the
/// matched characters of `a` and of `b`, each in its own order, differ.
pub open spec fn transpositions(a: Seq<char>, b: Seq<char>) -> nat {
    differing(matched_left(a, b, a.len() as int), matched_right(a, b), match_count(a, b) as int) / 2
}

/// The numerator of the average of `m / n`, `m / k` and `(m - t) / m` over
/// the denominator `3 * n * k * m`.
pub open spec fn average_num(m: int, t: int, n: int, k: int) -> int {
    m * k * m + m * n * m + (m - t) * n * k
}

/// The denominator `3 * n * k * m`.
pub open spec fn average_den(m: int, n: int, k: int) -> int {
    3 * (n * k * m)
}

/// The Jaro similarity of `a` and `b`: one for equal sequences, zero where
/// nothing matches, and else the average of the share of matched characters
/// in each operand and the share of matches that are not transposed.
pub open spec fn jaro_similarity(a: Seq<char>, b: Seq<char>) -> Score {
    if a == b {
        Score { num: 1, den: 1 }
    } else if match_count(a, b) == 0 {
        Score { num: 0, den: 1 }
    } else {
        Score {
            num: average_num(
                match_count(a, b) as int,
                transpositions(a, b) as int,
                a.len() as int,
                b.len() as int,
            ) as u128,
            den: average_den(match_count(a, b) as int, a.len() as int, b.len() as int) as u128,
        }
    }
}

/// Whether the Jaro similarity of `a` and `b` can be written down: it is one
/// or zero, or its denominator `3 * n * k * m` fits in 128 bits.
pub open spec fn jaro_fits(a: Seq<char>, b: Seq<char>) -> bool {
    a == b || match_count(a, b) == 0 || average_den(
        match_count(a, b) as int,
        a.len() as int,
        b.len() as int,
    ) <= u128::MAX
}

/// Whether ten times the denominator of `jaro`, over which the boosted
/// similarity is written, fits in 128 bits.
pub open spec fn boost_fits(jaro: Score) -> bool {
    10 * jaro.den <= u128::MAX
}

/// Whether the Jaro-Winkler similarity of `a` and `b` can be written down.
pub open spec fn jaro_winkler_fits(a: Seq<char>, b: Seq<char>, threshold: Threshold) -> bool {
    jaro_fits(a, b) && (threshold.exceeded_by(jaro_similarity(a, b)) ==> boost_fits(
        jaro_similarity(a, b),
    ))
}

/// The number of leading positions from `from` on at which `a` and `b` agree.
pub open spec fn agreeing_from(a: Seq<char>, b: Seq<char>, from: int) -> nat
    decreases a.len() - from,
{
    if 0 <= from < a.len() && from < b.len() && a[from] == b[from] {
        1 + agreeing_from(a, b, from + 1)
    } else {
        0
    }
}

/// The length of the common prefix of `a` and `b`, counted up to four.
pub open spec fn prefix_weight(a: Seq<char>, b: Seq<char>) -> nat {
    if agreeing_from(a, b, 0) < 4 {
        agreeing_from(a, b, 0)
    } else {
        4
    }
}

/// `jaro + 0.1 * p * (1 - jaro)`, over ten times the denominator.
pub open spec fn boosted(jaro: Score, p: nat) -> Score {
    Score {
        num: (10 * jaro.num + p * (jaro.den - jaro.num)) as u128,
        den: (10 * jaro.den) as u128,
    }
}

/// The Jaro-Winkler similarity of `a` and `b`: their Jaro similarity,
/// boosted by the common prefix where it exceeds the threshold.
pub open spec fn jaro_winkler_similarity(a: Seq<char>, b: Seq<char>, threshold: Threshold) -> Score {
    let jaro = jaro_similarity(a, b);
    if threshold.exceeded_by(jaro) {
        boosted(jaro, prefix_weight(a, b))
    } else {
        jaro
    }
}

/// The number of marked positions below `k`.
pub open spec fn marked_count(used: Seq<bool>, k: int) -> nat
    decreases k,
{
    if k <= 0 {
        0
    } else {
        marked_count(used, k - 1) + if used[k - 1] {
            1nat
        } else {
            0nat
        }
    }
}

pub proof fn lemma_marked_len(b: Seq<char>, used: Seq<bool>, k: int)
    requires
        0 <= k,
    ensures
        marked(b, used, k).len() == marked_count(used, k),
        marked_count(used, k) <= k,
    decreases k,
{
    if k > 0 {
        lemma_marked_len(b, used, k - 1);
    }
}

proof fn lemma_mark_one(used: Seq<bool>, j: int, k: int)
    requires
        0 <= j < used.len(),
        !used[j],
        0 <= k <= used.len(),
    ensures
        marked_count(used.update(j, true), k) == marked_count(used, k) + if j < k {
            1nat
        } else {
            0nat
        },
    decreases k,
{
    if k > 0 {
        lemma_mark_one(used, j, k - 1);
    }
}

pub proof fn lemma_first_free(x: char, b: Seq<char>, used: Seq<bool>, from: int, to: int)
    requires
        0 <= from,
    ensures
        first_free(x, b, used, from, to) <= to || from > to,
        first_free(x, b, used, from, to) < to ==> {
            let j = first_free(x, b, used, from, to);
            from <= j && b[j] == x && !used[j]
        },
    decreases to - from,
{
    if from < to && !(b[from] == x && !used[from]) {
        lemma_first_free(x, b, used, from + 1, to);
    }
}

pub proof fn lemma_used_len(a: Seq<char>, b: Seq<char>, k: int)
    ensures
        used_after(a, b, k).len() == b.len(),
    decreases k,
{
    if k > 0 {
        lemma_used_len(a, b, k - 1);
        lemma_first_free(
            a[k - 1],
            b,
            used_after(a, b, k - 1),
            window_start(k - 1, a.len() as int, b.len() as int),
            window_end(k - 1, a.len() as int, b.len() as int),
        );
    }
}

proof fn lemma_none_marked(used: Seq<bool>, k: int)
    requires
        0 <= k <= used.len(),
        forall|j: int| 0 <= j < used.len() ==> !used[j],
    ensures
        marked_count(used, k) == 0,
    decreases k,
{
    if k > 0 {
        lemma_none_marked(used, k - 1);
    }
}

/// As many characters of `b` are marked as characters of `a` are matched.
pub proof fn lemma_matches_balanced(a: Seq<char>, b: Seq<char>, k: int)
    requires
        0 <= k <= a.len(),
    ensures
        matched_left(a, b, k).len() == marked_count(used_after(a, b, k), b.len() as int),
        matched_left(a, b, k).len() <= k,
        matched_left(a, b, k).len() <= b.len(),
    decreases k,
{
    lemma_marked_len(b, used_after(a, b, k), b.len() as int);
    if k > 0 {
        lemma_matches_balanced(a, b, k - 1);
        lemma_used_len(a, b, k - 1);
        let before = used_after(a, b, k - 1);
        let from = window_start(k - 1, a.len() as int, b.len() as int);
        let to = window_end(k - 1, a.len() as int, b.len() as int);
        lemma_first_free(a[k - 1], b, before, from, to);
        if is_matched(a, b, k - 1) {
            lemma_mark_one(before, partner(a, b, k - 1), b.len() as int);
        }
    } else {
        lemma_none_marked(used_after(a, b, 0), b.len() as int);
    }
}

/// A similarity is at most one: the numerator does not exceed the
/// denominator.
pub proof fn lemma_average_bounds(m: int, t: int, n: int, k: int)
    requires
        0 < m <= n,
        m <= k,
        0 <= t <= m,
    ensures
        0 <= average_num(m, t, n, k) <= average_den(m, n, k),
        0 < average_den(m, n, k),
        0 <= m * k * m <= n * k * m,
        0 <= m * n * m <= n * k * m,
        0 <= (m - t) * n * k <= n * k * m,
{
    assert(m * k * m <= n * k * m && 0 <= m * k * m) by (nonlinear_arith)
        requires
            0 < m <= n,
            m <= k,
    ;
    assert(m * n * m <= n * k * m && 0 <= m * n * m) by (nonlinear_arith)
        requires
            0 < m <= n,
            m <= k,
    ;
    assert((m - t) * n * k <= n * k * m && 0 <= (m - t) * n * k) by (nonlinear_arith)
        requires
            0 < m <= n,
            m <= k,
            0 <= t <= m,
    ;
    assert(0 < n * k * m) by (nonlinear_arith)
        requires
            0 < m <= n,
            m <= k,
    ;
}

/// A Jaro similarity that can be written down is a number between zero and
/// one.
pub proof fn lemma_jaro_in_unit_range(a: Seq<char>, b: Seq<char>)
    requires
        jaro_fits(a, b),
    ensures
        jaro_similarity(a, b).wf(),
        jaro_similarity(a, b).num <= jaro_similarity(a, b).den,
{
    if a != b && match_count(a, b) != 0 {
        lemma_matches_balanced(a, b, a.len() as int);
        lemma_differing_bound(
            matched_left(a, b, a.len() as int),
            matched_right(a, b),
            match_count(a, b) as int,
        );
        lemma_average_bounds(
            match_count(a, b) as int,
            transpositions(a, b) as int,
            a.len() as int,
            b.len() as int,
        );
    }
}

/// Operands of up to two to the power of 41 characters each always have
/// similarities that can be written down.
pub proof fn lemma_fits_within(a: Seq<char>, b: Seq<char>, threshold: Threshold)
    requires
        a.len() <= 0x200_0000_0000,
        b.len() <= 0x200_0000_0000,
    ensures
        jaro_fits(a, b),
        jaro_winkler_fits(a, b, threshold),
{
    lemma_matches_balanced(a, b, a.len() as int);
    let m = match_count(a, b) as int;
    let n = a.len() as int;
    let k = b.len() as int;
    assert(n * k * m <= 0x200_0000_0000 * 0x200_0000_0000 * 0x200_0000_0000) by (nonlinear_arith)
        requires
            0 <= m <= n,
            0 <= n <= 0x200_0000_0000,
            0 <= k <= 0x200_0000_0000,
    ;
}

/// The Jaro-Winkler similarity is never below the Jaro similarity, and equals
/// it where the Jaro similarity does not exceed the threshold or the operands
/// share no prefix.
pub proof fn lemma_jaro_winkler_not_below(a: Seq<char>, b: Seq<char>, threshold: Threshold)
    requires
        jaro_winkler_fits(a, b, threshold),
    ensures
        jaro_similarity(a, b).le(jaro_winkler_similarity(a, b, threshold)),
        !threshold.exceeded_by(jaro_similarity(a, b)) ==> jaro_winkler_similarity(a, b, threshold)
            == jaro_similarity(a, b),
        prefix_weight(a, b) == 0 ==> jaro_similarity(a, b).same(
            jaro_winkler_similarity(a, b, threshold),
        ),
        threshold.exceeded_by(jaro_similarity(a, b)) && prefix_weight(a, b) > 0 && jaro_similarity(
            a,
            b,
        ).num < jaro_similarity(a, b).den ==> jaro_similarity(a, b).lt(
            jaro_winkler_similarity(a, b, threshold),
        ),
        jaro_winkler_similarity(a, b, threshold).wf(),
        jaro_winkler_similarity(a, b, threshold).num <= jaro_winkler_similarity(
            a,
            b,
            threshold,
        ).den,
{
    lemma_jaro_in_unit_range(a, b);
    let jaro = jaro_similarity(a, b);
    if boost_fits(jaro) {
        lemma_boost_not_below(jaro, prefix_weight(a, b));
    }
    let p = prefix_weight(a, b) as int;
    let rest = jaro.den - jaro.num;
    assert(0 <= p * rest <= 4 * rest) by (nonlinear_arith)
        requires
            0 <= p <= 4,
            rest >= 0,
    ;
}

/// The number of leading positions at which two sequences agree does not
/// depend on their order.
pub proof fn lemma_agreeing_symmetric(a: Seq<char>, b: Seq<char>, from: int)
    ensures
        agreeing_from(a, b, from) == agreeing_from(b, a, from),
    decreases a.len() - from,
{
    if 0 <= from < a.len() && from < b.len() && a[from] == b[from] {
        lemma_agreeing_symmetric(a, b, from + 1);
    }
}

/// The boost depends on the order of the operands only through their Jaro
/// similarity: the prefix weight is the same both ways, so where the Jaro
/// similarity is the same both ways, the Jaro-Winkler similarity is too.
pub proof fn lemma_jaro_winkler_symmetric(a: Seq<char>, b: Seq<char>, threshold: Threshold)
    ensures
        prefix_weight(a, b) == prefix_weight(b, a),
        jaro_similarity(a, b) == jaro_similarity(b, a) ==> jaro_winkler_similarity(
            a,
            b,
            threshold,
        ) == jaro_winkler_similarity(b, a, threshold),
{
    lemma_agreeing_symmetric(a, b, 0);
}

/// The Jaro similarity of a sequence with itself is one.
pub proof fn lemma_jaro_identity(s: Seq<char>)
    ensures
        jaro_similarity(s, s) == (Score { num: 1, den: 1 }),
{
}

/// The boost never lowers a similarity that is at most one.
pub proof fn lemma_boost_not_below(jaro: Score, p: nat)
    requires
        jaro.wf(),
        jaro.num <= jaro.den,
        p <= 4,
        10 * jaro.den <= u128::MAX,
    ensures
        jaro.le(boosted(jaro, p)),
        p == 0 ==> jaro.same(boosted(jaro, p)),
        p > 0 && jaro.num < jaro.den ==> jaro.lt(boosted(jaro, p)),
{
    let n = jaro.num as int;
    let d = jaro.den as int;
    let q = p as int;
    assert(0 <= q * (d - n) <= 4 * (d - n)) by (nonlinear_arith)
        requires
            0 <= q <= 4,
            0 <= n <= d,
    ;
    assert(n * (10 * d) + (q * (d - n)) * d == (10 * n + q * (d - n)) * d) by (nonlinear_arith);
    assert(q == 0 ==> q * (d - n) == 0) by (nonlinear_arith);
    assert(boosted(jaro, p).num == 10 * n + q * (d - n));
    assert(boosted(jaro, p).den == 10 * d);
    assert((q * (d - n)) * d >= 0) by (nonlinear_arith)
        requires
            q * (d - n) >= 0,
            d > 0,
    ;
    if q > 0 && n < d {
        assert((q * (d - n)) * d > 0) by (nonlinear_arith)
            requires
                q > 0,
                d - n > 0,
                d > 0,
        ;
    }
}

/// Decides whether two sequences are equal.
pub fn same_chars(a: &Vec<char>, b: &Vec<char>) -> (r: bool)
    ensures
        r == (a@ == b@),
{
    if a.len() != b.len() {
        return false;
    }
    let mut i: usize = 0;
    while i < a.len()
        invariant
            a.len() == b.len(),
            i <= a.len(),
            forall|k: int| 0 <= k < i ==> a[k] == b[k],
        decreases a.len() - i,
    {
        if a[i] != b[i] {
            return false;
        }
        i = i + 1;
    }
    proof {
        assert(a@ =~= b@);
    }
    true
}

/// A row of `m` unmarked positions.
fn unmarked(m: usize) -> (used: Vec<bool>)
    ensures
        used@ == Seq::new(m as nat, |j: int| false),
{
    let mut used: Vec<bool> = Vec::with_capacity(m);
    let mut j: usize = 0;
    while j < m
        invariant
            j <= m,
            used.len() == j,
            forall|c: int| 0 <= c < j ==> !used[c],
        decreases m - j,
    {
        used.push(false);
        j = j + 1;
    }
    proof {
        assert(used@ =~= Seq::new(m as nat, |j: int| false));
    }
    used
}

/// The Jaro similarity of `a` and `b`.
/// `None` stands for a similarity whose denominator does not fit in 128
/// bits.
pub fn similarity(a: &Vec<char>, b: &Vec<char>) -> (r: Option<Score>)
    ensures
        r is Some == jaro_fits(a@, b@),
        r is Some ==> r->Some_0 == jaro_similarity(a@, b@) && r->Some_0.wf() && r->Some_0.num
            <= r->Some_0.den,
{
    if same_chars(a, b) {
        return Some(Score { num: 1, den: 1 });
    }
    let n = a.len();
    let m = b.len();
    let half = if n >= m {
        n / 2
    } else {
        m / 2
    };
    let mut used = unmarked(m);
    let mut left: Vec<char> = Vec::new();
    let mut i: usize = 0;
    while i < n
        invariant
            n == a.len(),
            m == b.len(),
            half == half_span(n as int, m as int),
            i <= n,
            used.len() == m,
            used@ == used_after(a@, b@, i as int),
            left@ == matched_left(a@, b@, i as int),
            left.len() <= i,
        decreases n - i,
    {
        let from = if i + 1 >= half {
            i + 1 - half
        } else {
            0
        };
        let to = if half <= m && i <= m - half {
            i + half
        } else {
            m
        };
        let x = a[i];
        let mut j = from;
        let mut found = false;
        while j < to && !found
            invariant
                m == b.len(),
                used.len() == m,
                to <= m,
                from <= j,
                found ==> j < to,
                found ==> first_free(x, b@, used@, from as int, to as int) == j,
                !found ==> first_free(x, b@, used@, from as int, to as int) == first_free(
                    x,
                    b@,
                    used@,
                    j as int,
                    to as int,
                ),
            decreases to - j + if found { 0int } else { 1int },
        {
            if x == b[j] && !used[j] {
                found = true;
            } else {
                j = j + 1;
            }
        }
        if found {
            used.set(j, true);
            left.push(x);
        }
        i = i + 1;
    }
    let count = left.len();
    if count == 0 {
        return Some(Score { num: 0, den: 1 });
    }
    let mut right: Vec<char> = Vec::new();
    let mut j: usize = 0;
    while j < m
        invariant
            m == b.len(),
            used.len() == m,
            j <= m,
            right@ == marked(b@, used@, j as int),
        decreases m - j,
    {
        if used[j] {
            right.push(b[j]);
        }
        j = j + 1;
    }
    proof {
        lemma_matches_balanced(a@, b@, n as int);
        lemma_marked_len(b@, used@, m as int);
    }
    let swapped = count_differing(&left, &right, count) / 2;
    proof {
        lemma_average_bounds(count as int, swapped as int, n as int, m as int);
    }
    let shared = length(count);
    let span = product(length(n), length(m));
    let whole = match span.checked_mul(wide(shared)) {
        None => {
            return None;
        },
        Some(whole) => whole,
    };
    let den = match whole.checked_mul(3) {
        None => {
            return None;
        },
        Some(den) => den,
    };
    let first = product(shared, length(m)) * wide(shared);
    let second = product(shared, length(n)) * wide(shared);
    let third = product(shared - length(swapped), length(n)) * wide(length(m));
    Some(Score { num: first + second + third, den })
}

/// The length of the common prefix of `a` and `b`, counted up to four.
pub fn common_prefix_weight(a: &Vec<char>, b: &Vec<char>) -> (p: u64)
    ensures
        p == prefix_weight(a@, b@),
        p <= 4,
{
    let mut i: usize = 0;
    while i < a.len() && i < b.len() && a[i] == b[i]
        invariant
            i <= a.len(),
            i <= b.len(),
            i + agreeing_from(a@, b@, i as int) == agreeing_from(a@, b@, 0),
        decreases a.len() - i,
    {
        i = i + 1;
    }
    if i < 4 {
        length(i)
    } else {
        4
    }
}

/// The Jaro-Winkler similarity of `a` and `b` under a threshold in `[0, 1]`.
/// `None` stands for a similarity whose denominator does not fit in 128
/// bits.
pub fn boosted_similarity(a: &Vec<char>, b: &Vec<char>, threshold: &Threshold) -> (r: Option<
    Score,
>)
    requires
        threshold.in_unit_range(),
    ensures
        r is Some == jaro_winkler_fits(a@, b@, *threshold),
        r is Some ==> r->Some_0 == jaro_winkler_similarity(a@, b@, *threshold) && r->Some_0.wf()
            && r->Some_0.num <= r->Some_0.den,
{
    let jaro = match similarity(a, b) {
        None => {
            return None;
        },
        Some(jaro) => jaro,
    };
    if threshold.is_exceeded_by(&jaro) {
        let den = match jaro.den.checked_mul(10) {
            None => {
                return None;
            },
            Some(den) => den,
        };
        let p = wide(common_prefix_weight(a, b));
        let rest = jaro.den - jaro.num;
        proof {
            assert(p * rest <= 4 * rest) by (nonlinear_arith)
                requires
                    p <= 4,
                    rest >= 0,
            ;
        }
        Some(Score { num: 10 * jaro.num + p * rest, den })
    } else {
        Some(jaro)
    }
}

} // verus!
