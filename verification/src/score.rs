//! Scores, thresholds and errors shared by the metrics and the searches.

use vstd::prelude::*;

verus! {

/// An exact score: the rational number `num / den`.
///
/// A distance is a whole number and has `den == 1`; a similarity lies
/// between zero and one.
#[derive(Clone, Copy, Debug, PartialEq, Eq)]
pub struct Score {
    pub num: u128,
    pub den: u128,
}

/// A similarity threshold: the rational number `num / den`.
#[derive(Clone, Copy, Debug, PartialEq, Eq)]
pub struct Threshold {
    pub num: i64,
    pub den: u64,
}

/// Why a comparison or a search was refused.
#[derive(Clone, Copy, Debug, PartialEq, Eq, Structural)]
pub enum MatchError {
    /// No candidates, a count outside `1..=candidates`, or an unknown
    /// algorithm name.
    InvalidArgument,
    /// Hamming distance asked of operands of different lengths.
    IncompatibleOperands,
    /// A threshold outside `[0, 1]`.
    InvalidRange,
    /// Operands beyond what the machine's widest words hold: a sequence of
    /// `usize::MAX` characters, or a similarity whose exact denominator does
    /// not fit in 128 bits.
    OperandTooLong,
}

impl Score {
    /// A score has a positive denominator.
    pub open spec fn wf(self) -> bool {
        self.den > 0
    }

    /// `self < other` as rational numbers.
    pub open spec fn lt(self, other: Score) -> bool {
        self.num * other.den < other.num * self.den
    }

    /// `self <= other` as rational numbers.
    pub open spec fn le(self, other: Score) -> bool {
        self.num * other.den <= other.num * self.den
    }

    /// The same rational number, whatever the representation.
    pub open spec fn same(self, other: Score) -> bool {
        self.num * other.den == other.num * self.den
    }

    /// The whole number `d` as a score.
    pub fn whole(d: u64) -> (r: Score)
        ensures
            r == (Score { num: d as u128, den: 1 }),
    {
        Score { num: wide(d), den: 1 }
    }

    /// Decides `self < other`.
    pub fn less_than(&self, other: &Score) -> (r: bool)
        ensures
            r == self.lt(*other),
    {
        proof {
            let a = self.num as int;
            let b = self.den as int;
            let c = other.num as int;
            let d = other.den as int;
            assert(0 <= a * d && (d == 0 ==> a * d == 0)) by (nonlinear_arith)
                requires
                    0 <= a,
                    0 <= d,
            ;
            assert((b == 0 ==> c * b == 0) && (b > 0 && c > 0 ==> c * b > 0) && (c == 0 ==> c * b
                == 0)) by (nonlinear_arith)
                requires
                    0 <= b,
                    0 <= c,
            ;
        }
        if self.den == 0 {
            false
        } else if other.den == 0 {
            other.num > 0
        } else {
            fraction_less(self.num, self.den, other.num, other.den)
        }
    }

    /// Decides whether `self` is strictly better than `other`: smaller when
    /// `ascending` (distances), larger otherwise (similarities).
    pub fn better_than(&self, other: &Score, ascending: bool) -> (r: bool)
        ensures
            r == self.beats(*other, ascending),
    {
        if ascending {
            self.less_than(other)
        } else {
            other.less_than(self)
        }
    }

    /// `self` is strictly better than `other` under the ordering convention.
    pub open spec fn beats(self, other: Score, ascending: bool) -> bool {
        if ascending {
            self.lt(other)
        } else {
            other.lt(self)
        }
    }
}

impl Threshold {
    /// The threshold lies in `[0, 1]`.
    pub open spec fn in_unit_range(self) -> bool {
        self.den > 0 && 0 <= self.num <= self.den
    }

    /// Decides whether the threshold lies in `[0, 1]`.
    pub fn is_in_unit_range(&self) -> (r: bool)
        ensures
            r == self.in_unit_range(),
    {
        self.den > 0 && self.num >= 0 && to_unsigned(self.num) <= self.den
    }

    /// `score > self` as rational numbers.
    pub open spec fn exceeded_by(self, score: Score) -> bool {
        score.num * self.den > self.num * score.den
    }

    /// Decides whether `score` strictly exceeds the threshold.
    pub fn is_exceeded_by(&self, score: &Score) -> (r: bool)
        requires
            self.in_unit_range(),
            score.wf(),
        ensures
            r == self.exceeded_by(*score),
    {
        fraction_less(wide(to_unsigned(self.num)), wide(self.den), score.num, score.den)
    }
}

/// A 64-bit value in 128 bits.
pub fn wide(x: u64) -> (r: u128)
    ensures
        r == x,
{
    x as u128
}

/// One step of comparing `a / b` with `c / d` by whole parts and
/// remainders: different whole parts decide, and with equal whole parts the
/// fractions compare as their remainders over the same denominators, which
/// is as the reciprocals `d / (c % d)` and `b / (a % b)` compare.
proof fn lemma_fraction_step(a: int, b: int, c: int, d: int)
    requires
        0 <= a,
        0 <= c,
        0 < b,
        0 < d,
    ensures
        0 <= a % b < b,
        0 <= c % d < d,
        a / b < c / d ==> a * d < c * b,
        a / b > c / d ==> !(a * d < c * b),
        a / b == c / d ==> ((a * d < c * b) == (d * (a % b) < b * (c % d))),
        0 <= d * (a % b),
        0 <= b * (c % d),
        a % b == 0 ==> d * (a % b) == 0,
        c % d == 0 ==> b * (c % d) == 0,
        c % d > 0 ==> b * (c % d) > 0,
{
    let q1 = a / b;
    let q2 = c / d;
    let r1 = a % b;
    let r2 = c % d;
    vstd::arithmetic::div_mod::lemma_fundamental_div_mod(a, b);
    vstd::arithmetic::div_mod::lemma_fundamental_div_mod(c, d);
    vstd::arithmetic::div_mod::lemma_mod_bound(a, b);
    vstd::arithmetic::div_mod::lemma_mod_bound(c, d);
    assert(a * d == q1 * (b * d) + d * r1) by (nonlinear_arith)
        requires
            a == b * q1 + r1,
    ;
    assert(c * b == q2 * (b * d) + b * r2) by (nonlinear_arith)
        requires
            c == d * q2 + r2,
    ;
    assert(0 <= d * r1 < b * d) by (nonlinear_arith)
        requires
            0 <= r1 < b,
            0 < d,
    ;
    assert(0 <= b * r2 < b * d) by (nonlinear_arith)
        requires
            0 <= r2 < d,
            0 < b,
    ;
    assert(r1 == 0 ==> d * r1 == 0) by (nonlinear_arith);
    assert(r2 == 0 ==> b * r2 == 0) by (nonlinear_arith);
    assert(r2 > 0 ==> b * r2 > 0) by (nonlinear_arith)
        requires
            0 < b,
    ;
    if q1 < q2 {
        assert(q1 * (b * d) + b * d <= q2 * (b * d)) by (nonlinear_arith)
            requires
                q1 + 1 <= q2,
                0 < b * d,
        ;
    }
    if q1 > q2 {
        assert(q2 * (b * d) + b * d <= q1 * (b * d)) by (nonlinear_arith)
            requires
                q2 + 1 <= q1,
                0 < b * d,
        ;
    }
}

/// Decides `a / b < c / d` exactly, without forming a product: by whole
/// parts and remainders, as Euclid's algorithm goes.
pub fn fraction_less(a: u128, b: u128, c: u128, d: u128) -> (r: bool)
    requires
        b > 0,
        d > 0,
    ensures
        r == (a * d < c * b),
{
    let mut left_num = a;
    let mut left_den = b;
    let mut right_num = c;
    let mut right_den = d;
    loop
        invariant
            left_den > 0,
            right_den > 0,
            (a * d < c * b) == (left_num * right_den < right_num * left_den),
        decreases left_den + right_den,
    {
        proof {
            lemma_fraction_step(
                left_num as int,
                left_den as int,
                right_num as int,
                right_den as int,
            );
        }
        let left_whole = left_num / left_den;
        let right_whole = right_num / right_den;
        let left_rest = left_num % left_den;
        let right_rest = right_num % right_den;
        if left_whole < right_whole {
            return true;
        }
        if left_whole > right_whole {
            return false;
        }
        if right_rest == 0 {
            return false;
        }
        if left_rest == 0 {
            return true;
        }
        left_num = right_den;
        right_num = left_den;
        left_den = right_rest;
        right_den = left_rest;
    }
}

/// The product of two 64-bit values, which always fits in 128 bits.
pub fn product(a: u64, b: u64) -> (r: u128)
    ensures
        r == a * b,
{
    proof {
        assert(a * b <= 0xffff_ffff_ffff_ffff * 0xffff_ffff_ffff_ffff) by (nonlinear_arith)
            requires
                a <= 0xffff_ffff_ffff_ffff,
                b <= 0xffff_ffff_ffff_ffff,
        ;
    }
    (a as u128) * (b as u128)
}

/// A non-negative signed value as an unsigned one.
pub fn to_unsigned(x: i64) -> (r: u64)
    requires
        x >= 0,
    ensures
        r == x,
{
    x as u64
}

/// A length as a 64-bit value.
pub fn length(n: usize) -> (r: u64)
    ensures
        r == n,
{
    n as u64
}

/// Multiplying both sides by a positive number keeps an inequality, and
/// dividing both sides by one keeps it too.
proof fn lemma_scale(x: int, y: int, k: int)
    requires
        k > 0,
    ensures
        x < y <==> x * k < y * k,
        x <= y <==> x * k <= y * k,
{
    assert(x < y ==> x * k < y * k) by (nonlinear_arith)
        requires
            k > 0,
    ;
    assert(x >= y ==> x * k >= y * k) by (nonlinear_arith)
        requires
            k > 0,
    ;
    assert(x <= y ==> x * k <= y * k) by (nonlinear_arith)
        requires
            k > 0,
    ;
    assert(x > y ==> x * k > y * k) by (nonlinear_arith)
        requires
            k > 0,
    ;
}

/// The order of scores with positive denominators is transitive.
pub proof fn lemma_order_transitive(a: Score, b: Score, c: Score)
    requires
        a.wf(),
        b.wf(),
        c.wf(),
    ensures
        a.lt(b) && b.le(c) ==> a.lt(c),
        a.le(b) && b.lt(c) ==> a.lt(c),
        a.le(b) && b.le(c) ==> a.le(c),
{
    let an = a.num as int;
    let ad = a.den as int;
    let bn = b.num as int;
    let bd = b.den as int;
    let cn = c.num as int;
    let cd = c.den as int;
    lemma_scale(an * bd, bn * ad, cd);
    lemma_scale(bn * cd, cn * bd, ad);
    lemma_scale(an * cd, cn * ad, bd);
    assert((bn * ad) * cd == (bn * cd) * ad) by (nonlinear_arith);
    assert((an * cd) * bd == (an * bd) * cd) by (nonlinear_arith);
    assert((cn * ad) * bd == (cn * bd) * ad) by (nonlinear_arith);
}

/// Under either ordering convention, a score that beats a second one beats
/// every score that does not beat the second.
pub proof fn lemma_beats_transitive(a: Score, b: Score, c: Score, ascending: bool)
    requires
        a.wf(),
        b.wf(),
        c.wf(),
    ensures
        a.beats(b, ascending) && !c.beats(b, ascending) ==> a.beats(c, ascending),
        !b.beats(a, ascending) && b.beats(c, ascending) ==> a.beats(c, ascending),
        !b.beats(a, ascending) && !c.beats(b, ascending) ==> !c.beats(a, ascending),
        !(a.beats(b, ascending) && b.beats(a, ascending)),
{
    lemma_order_transitive(a, b, c);
    lemma_order_transitive(c, b, a);
}

} // verus!
