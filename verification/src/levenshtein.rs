//! Edit distance: its definition, its laws, and the table that computes it.

use vstd::prelude::*;

verus! {

/// The smallest of three numbers.
pub open spec fn min3(a: nat, b: nat, c: nat) -> nat {
    if a <= b && a <= c {
        a
    } else if b <= c {
        b
    } else {
        c
    }
}

/// What it costs to put `y` in the place of `x`.
pub open spec fn substitution_cost(x: char, y: char) -> nat {
    if x == y {
        0
    } else {
        1
    }
}

/// The edit distance of `s` and `t`: the least number of insertions,
/// deletions and substitutions of one character that turn `s` into `t`.
pub open spec fn edit_distance(s: Seq<char>, t: Seq<char>) -> nat
    decreases s.len() + t.len(),
{
    if s.len() == 0 {
        t.len()
    } else if t.len() == 0 {
        s.len()
    } else {
        min3(
            edit_distance(s.drop_last(), t) + 1,
            edit_distance(s, t.drop_last()) + 1,
            edit_distance(s.drop_last(), t.drop_last()) + substitution_cost(s.last(), t.last()),
        )
    }
}

/// The distance is at most the length of the longer sequence.
pub proof fn lemma_distance_upper(s: Seq<char>, t: Seq<char>)
    ensures
        edit_distance(s, t) <= s.len() || edit_distance(s, t) <= t.len(),
    decreases s.len() + t.len(),
{
    if s.len() > 0 && t.len() > 0 {
        lemma_distance_upper(s.drop_last(), t.drop_last());
    }
}

/// The distance is at least the difference of the lengths.
pub proof fn lemma_distance_lower(s: Seq<char>, t: Seq<char>)
    ensures
        edit_distance(s, t) + t.len() >= s.len(),
        edit_distance(s, t) + s.len() >= t.len(),
    decreases s.len() + t.len(),
{
    if s.len() > 0 && t.len() > 0 {
        lemma_distance_lower(s.drop_last(), t);
        lemma_distance_lower(s, t.drop_last());
        lemma_distance_lower(s.drop_last(), t.drop_last());
    }
}

/// A sequence is at distance zero from itself.
pub proof fn lemma_distance_identity(s: Seq<char>)
    ensures
        edit_distance(s, s) == 0,
    decreases s.len(),
{
    if s.len() > 0 {
        lemma_distance_identity(s.drop_last());
    }
}

/// The distance does not depend on the order of its operands.
pub proof fn lemma_distance_symmetric(s: Seq<char>, t: Seq<char>)
    ensures
        edit_distance(s, t) == edit_distance(t, s),
    decreases s.len() + t.len(),
{
    if s.len() > 0 && t.len() > 0 {
        lemma_distance_symmetric(s.drop_last(), t);
        lemma_distance_symmetric(s, t.drop_last());
        lemma_distance_symmetric(s.drop_last(), t.drop_last());
    }
}

/// Dropping the last character of the first operand changes the distance by
/// at most one.
proof fn lemma_drop_left(s: Seq<char>, t: Seq<char>)
    requires
        s.len() > 0,
    ensures
        edit_distance(s, t) <= edit_distance(s.drop_last(), t) + 1,
{
    if t.len() == 0 {
        assert(edit_distance(s.drop_last(), t) == s.len() - 1);
    }
}

/// Dropping the last character of the second operand changes the distance by
/// at most one.
proof fn lemma_drop_right(s: Seq<char>, t: Seq<char>)
    requires
        t.len() > 0,
    ensures
        edit_distance(s, t) <= edit_distance(s, t.drop_last()) + 1,
{
    if s.len() == 0 {
        assert(edit_distance(s, t.drop_last()) == t.len() - 1);
    }
}

/// The triangle inequality: going from `a` to `c` directly costs no more
/// than going through `b`.
pub proof fn lemma_distance_triangle(a: Seq<char>, b: Seq<char>, c: Seq<char>)
    ensures
        edit_distance(a, c) <= edit_distance(a, b) + edit_distance(b, c),
    decreases a.len() + b.len() + c.len(),
{
    if a.len() == 0 {
        lemma_distance_lower(b, c);
    } else if c.len() == 0 {
        lemma_distance_lower(a, b);
    } else if b.len() == 0 {
        lemma_distance_upper(a, c);
    } else {
        lemma_drop_left(a, c);
        lemma_drop_right(a, c);
        lemma_distance_triangle(a.drop_last(), b, c);
        lemma_distance_triangle(a, b, c.drop_last());
        lemma_distance_triangle(a, b.drop_last(), c);
        lemma_distance_triangle(a, b.drop_last(), c.drop_last());
        lemma_distance_triangle(a.drop_last(), b.drop_last(), c);
        lemma_distance_triangle(a.drop_last(), b.drop_last(), c.drop_last());
    }
}

/// The first row of the table: the distances from the empty sequence.
fn first_row(m: usize) -> (row: Vec<usize>)
    requires
        m < usize::MAX,
    ensures
        row.len() == m + 1,
        forall|j: int| 0 <= j <= m ==> row[j] == j,
{
    let mut row: Vec<usize> = Vec::with_capacity(m + 1);
    let mut j: usize = 0;
    while j <= m
        invariant
            m < usize::MAX,
            j <= m + 1,
            row.len() == j,
            forall|c: int| 0 <= c < j ==> row[c] == c,
        decreases m + 1 - j,
    {
        row.push(j);
        j = j + 1;
    }
    row
}

/// The smaller of two numbers.
fn smaller(a: usize, b: usize) -> (r: usize)
    ensures
        r == if a <= b { a } else { b },
{
    if a <= b {
        a
    } else {
        b
    }
}

/// The edit distance of `a` and `b`, by the full table of the distances
/// between their prefixes.
pub fn distance(a: &Vec<char>, b: &Vec<char>) -> (d: usize)
    requires
        a.len() < usize::MAX,
        b.len() < usize::MAX,
    ensures
        d == edit_distance(a@, b@),
{
    let n = a.len();
    let m = b.len();
    let mut table: Vec<Vec<usize>> = Vec::with_capacity(n + 1);
    let top = first_row(m);
    proof {
        assert forall|c: int| 0 <= c <= m implies top[c] == edit_distance(
            a@.take(0),
            b@.take(c),
        ) by {}
    }
    table.push(top);
    let mut i: usize = 1;
    while i <= n
        invariant
            n == a.len(),
            m == b.len(),
            n < usize::MAX,
            m < usize::MAX,
            1 <= i <= n + 1,
            table.len() == i,
            forall|r: int| 0 <= r < i ==> (#[trigger] table[r]).len() == m + 1,
            forall|r: int, c: int|
                0 <= r < i && 0 <= c <= m ==> #[trigger] table[r][c] == edit_distance(
                    a@.take(r),
                    b@.take(c),
                ),
        decreases n + 1 - i,
    {
        let mut row: Vec<usize> = Vec::with_capacity(m + 1);
        row.push(i);
        let mut j: usize = 1;
        while j <= m
            invariant
                n == a.len(),
                m == b.len(),
                n < usize::MAX,
                m < usize::MAX,
                1 <= i <= n,
                1 <= j <= m + 1,
                table.len() == i,
                row.len() == j,
                forall|r: int| 0 <= r < i ==> (#[trigger] table[r]).len() == m + 1,
                forall|r: int, c: int|
                    0 <= r < i && 0 <= c <= m ==> #[trigger] table[r][c] == edit_distance(
                        a@.take(r),
                        b@.take(c),
                    ),
                forall|c: int|
                    0 <= c < j ==> #[trigger] row[c] == edit_distance(a@.take(i as int), b@.take(c)),
            decreases m + 1 - j,
        {
            let above = table[i - 1][j];
            let left = row[j - 1];
            let diagonal = table[i - 1][j - 1];
            proof {
                let s = a@.take(i as int);
                let t = b@.take(j as int);
                assert(s.drop_last() =~= a@.take(i - 1));
                assert(t.drop_last() =~= b@.take(j - 1));
                assert(s.last() == a@[i - 1]);
                assert(t.last() == b@[j - 1]);
                lemma_distance_upper(a@.take(i - 1), t);
                lemma_distance_upper(s, b@.take(j - 1));
                lemma_distance_upper(a@.take(i - 1), b@.take(j - 1));
            }
            let substituted = if a[i - 1] == b[j - 1] {
                diagonal
            } else {
                diagonal + 1
            };
            let cell = smaller(above + 1, smaller(left + 1, substituted));
            row.push(cell);
            j = j + 1;
        }
        table.push(row);
        i = i + 1;
    }
    proof {
        assert(a@.take(n as int) =~= a@);
        assert(b@.take(m as int) =~= b@);
    }
    table[n][m]
}

} // verus!
