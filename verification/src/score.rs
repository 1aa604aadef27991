//! Correlation scores as exact ratios, and the order on them.
//!
//! A score stands for the real number `num / sqrt(den_sq)`. Two scores are
//! ordered by cross-multiplying their signed squares, which needs no square
//! root and no rounding.

use crate::wide::{Quad, Wide};
use vstd::prelude::*;

verus! {

/// The square of `n` with the sign of `n`. It grows strictly with `n`, so it
/// orders numbers as they are ordered themselves.
pub open spec fn signed_square(n: int) -> int {
    if n >= 0 {
        n * n
    } else {
        -(n * n)
    }
}

/// The mathematical value of a score: `num / sqrt(den_sq)`.
pub struct Corr {
    pub num: int,
    pub den_sq: int,
}

impl Corr {
    /// The denominator is positive.
    pub open spec fn wf(self) -> bool {
        self.den_sq >= 1
    }

    /// `self >= other` as real numbers.
    pub open spec fn ge(self, other: Corr) -> bool {
        signed_square(self.num) * other.den_sq >= signed_square(other.num) * self.den_sq
    }

    /// `self > other` as real numbers.
    pub open spec fn gt(self, other: Corr) -> bool {
        !other.ge(self)
    }

    /// The score of a window or a template without contrast.
    pub open spec fn zero() -> Corr {
        Corr { num: 0, den_sq: 1 }
    }

    /// The value lies in `[-1, 1]`.
    pub open spec fn in_unit_range(self) -> bool {
        self.num * self.num <= self.den_sq
    }

    /// The value is exactly 1.
    pub open spec fn is_one(self) -> bool {
        self.num > 0 && self.num * self.num == self.den_sq
    }
}

/// The order on scores is total.
pub proof fn lemma_ge_total(a: Corr, b: Corr)
    ensures
        a.ge(b) || b.ge(a),
{
}

/// The order on scores is transitive.
pub proof fn lemma_ge_transitive(a: Corr, b: Corr, c: Corr)
    requires
        a.wf(),
        b.wf(),
        c.wf(),
        a.ge(b),
        b.ge(c),
    ensures
        a.ge(c),
{
    let x = signed_square(a.num);
    let y = signed_square(b.num);
    let z = signed_square(c.num);
    assert(x * c.den_sq >= z * a.den_sq) by (nonlinear_arith)
        requires
            x * b.den_sq >= y * a.den_sq,
            y * c.den_sq >= z * b.den_sq,
            a.den_sq >= 1,
            b.den_sq >= 1,
            c.den_sq >= 1,
    {
        assert((x * b.den_sq) * c.den_sq >= (y * a.den_sq) * c.den_sq);
        assert((y * c.den_sq) * a.den_sq >= (z * b.den_sq) * a.den_sq);
        assert((x * c.den_sq) * b.den_sq >= (z * a.den_sq) * b.den_sq);
    }
}

/// A strictly greater score stays strictly greater than whatever the smaller
/// one is at least.
pub proof fn lemma_gt_ge_transitive(a: Corr, b: Corr, c: Corr)
    requires
        a.wf(),
        b.wf(),
        c.wf(),
        a.gt(b),
        b.ge(c),
    ensures
        a.gt(c),
{
    if c.ge(a) {
        lemma_ge_transitive(b, c, a);
    }
}

/// A score in `[-1, 1]` is below every ratio above 1.
pub proof fn lemma_unit_range_below(s: Corr, num: int, den: int)
    requires
        s.wf(),
        s.in_unit_range(),
        num > den >= 1,
    ensures
        !s.ge(Corr { num: num, den_sq: den * den }),
{
    let sq = signed_square(s.num);
    assert(sq <= s.num * s.num) by (nonlinear_arith)
        requires
            sq == signed_square(s.num),
    ;
    assert(sq * (den * den) < (num * num) * s.den_sq) by (nonlinear_arith)
        requires
            sq <= s.den_sq,
            s.den_sq >= 1,
            num > den >= 1,
    {
        assert(den * den < num * num);
        assert(sq * (den * den) <= s.den_sq * (den * den));
        assert(s.den_sq * (den * den) < s.den_sq * (num * num));
    }
    assert(signed_square(num) == num * num);
}

/// The ratio `num / den` as a score value.
pub open spec fn ratio(num: int, den: int) -> Corr {
    Corr { num: num, den_sq: den * den }
}

/// Ratios over one positive denominator are ordered as their numerators.
pub proof fn lemma_ratio_order(a: int, b: int, den: int)
    requires
        a >= b,
        den >= 1,
    ensures
        ratio(a, den).ge(ratio(b, den)),
{
    let d = den * den;
    assert(signed_square(a) >= signed_square(b)) by (nonlinear_arith)
        requires
            a >= b,
            signed_square(a) == if a >= 0 {
                a * a
            } else {
                -(a * a)
            },
            signed_square(b) == if b >= 0 {
                b * b
            } else {
                -(b * b)
            },
    ;
    assert(signed_square(a) * d >= signed_square(b) * d) by (nonlinear_arith)
        requires
            signed_square(a) >= signed_square(b),
            d == den * den,
            den >= 1,
    ;
}

/// A score in `[-1, 1]` is at least every ratio below -1.
pub proof fn lemma_unit_range_above(s: Corr, num: int, den: int)
    requires
        s.wf(),
        s.in_unit_range(),
        den >= 1,
        num < -den,
    ensures
        s.ge(ratio(num, den)),
{
    let sq = signed_square(s.num);
    assert(sq >= -(s.num * s.num)) by (nonlinear_arith)
        requires
            sq == signed_square(s.num),
    ;
    assert(sq * (den * den) >= (-(num * num)) * s.den_sq) by (nonlinear_arith)
        requires
            sq >= -s.den_sq,
            s.den_sq >= 1,
            den >= 1,
            num < -den,
    {
        assert(den * den <= num * num);
        assert(sq * (den * den) >= (-s.den_sq) * (den * den));
        assert(s.den_sq * (den * den) <= s.den_sq * (num * num));
    }
    assert(signed_square(num) == -(num * num));
}

/// `k` is the whole number nearest to 10 000 times the value, the greater of
/// two that are equally near: the value lies from `(2k - 1) / 20000` up to,
/// but not at, `(2k + 1) / 20000`.
pub open spec fn is_ten_thousandths(value: Corr, k: int) -> bool {
    value.ge(ratio(2 * k - 1, 20_000)) && !value.ge(ratio(2 * k + 1, 20_000))
}

/// A value has one nearest number of ten-thousandths.
pub proof fn lemma_ten_thousandths_unique(value: Corr, j: int, k: int)
    requires
        value.wf(),
        is_ten_thousandths(value, j),
        is_ten_thousandths(value, k),
    ensures
        j == k,
{
    if j < k {
        lemma_ratio_order(2 * k - 1, 2 * j + 1, 20_000);
        lemma_ge_transitive(value, ratio(2 * k - 1, 20_000), ratio(2 * j + 1, 20_000));
    } else if k < j {
        lemma_ratio_order(2 * j - 1, 2 * k + 1, 20_000);
        lemma_ge_transitive(value, ratio(2 * j - 1, 20_000), ratio(2 * k + 1, 20_000));
    }
}

/// The whole number nearest to 10 000 times the value.
pub open spec fn ten_thousandths_of(value: Corr) -> int {
    choose|k: int| is_ten_thousandths(value, k)
}

/// An exact correlation score, `num / sqrt(den_sq)`.
#[derive(Clone, Copy, Debug, PartialEq, Eq)]
pub struct Score {
    pub num: i128,
    pub den_sq: Wide,
}

impl View for Score {
    type V = Corr;

    open spec fn view(&self) -> Corr {
        Corr { num: self.num as int, den_sq: self.den_sq@ }
    }
}

impl Score {
    /// The denominator is positive, and the numerator has a magnitude of 128
    /// bits.
    pub open spec fn wf(&self) -> bool {
        &&& self.den_sq@ >= 1
        &&& self.num > i128::MIN
    }

    /// The score `num / sqrt(den_sq)`.
    pub fn from_parts(num: i128, den_sq: u128) -> (r: Score)
        ensures
            r.num == num,
            r.den_sq@ == den_sq,
    {
        Score { num, den_sq: Wide { hi: 0, lo: den_sq } }
    }

    /// The score 0.
    pub fn zero() -> (r: Score)
        ensures
            r.wf(),
            r@ == Corr::zero(),
    {
        Score { num: 0, den_sq: Wide { hi: 0, lo: 1 } }
    }

    /// The magnitude of the numerator.
    fn magnitude(&self) -> (m: u128)
        requires
            self.wf(),
        ensures
            m == if self.num >= 0 { self.num as int } else { -(self.num as int) },
    {
        if self.num >= 0 {
            self.num as u128
        } else {
            (-self.num) as u128
        }
    }

    /// Whether `self >= other` as real numbers.
    pub fn ge(&self, other: &Score) -> (b: bool)
        requires
            self.wf(),
            other.wf(),
        ensures
            b == self@.ge(other@),
    {
        let m: u128 = self.magnitude();
        let n: u128 = other.magnitude();
        let left = Quad::product(&Wide::product(m, m), &other.den_sq);
        let right = Quad::product(&Wide::product(n, n), &self.den_sq);
        proof {
            let da = self.den_sq@;
            let db = other.den_sq@;
            assert(m * m == self.num * self.num) by (nonlinear_arith)
                requires
                    m == self.num || m == -self.num,
            ;
            assert(n * n == other.num * other.num) by (nonlinear_arith)
                requires
                    n == other.num || n == -other.num,
            ;
            assert((-(m * m)) * db == -((m * m) * db)) by (nonlinear_arith);
            assert((-(n * n)) * da == -((n * n) * da)) by (nonlinear_arith);
            if self.num < 0 {
                assert((m * m) * db >= 1) by (nonlinear_arith)
                    requires
                        m >= 1,
                        db >= 1,
                ;
            }
        }
        if self.num >= 0 {
            other.num < 0 || left.ge(&right)
        } else {
            other.num < 0 && right.ge(&left)
        }
    }

    /// Whether the score is at least `(2k - 1) / 20000`.
    fn reaches_step(&self, k: i32) -> (b: bool)
        requires
            self.wf(),
            -10_001 <= k <= 10_001,
        ensures
            b == self@.ge(ratio(2 * k - 1, 20_000)),
    {
        let bar = Score::from_parts((2 * k - 1) as i128, 400_000_000);
        self.ge(&bar)
    }

    /// The score in ten-thousandths, rounded to the nearest whole number; a
    /// score half-way between two is rounded up.
    pub fn ten_thousandths(&self) -> (k: i32)
        requires
            self.wf(),
            self@.in_unit_range(),
        ensures
            -10_000 <= k <= 10_000,
            is_ten_thousandths(self@, k as int),
            k == ten_thousandths_of(self@),
    {
        let mut lo: i32 = -10_000;
        let mut hi: i32 = 10_001;
        proof {
            lemma_unit_range_above(self@, -20_001, 20_000);
            lemma_unit_range_below(self@, 20_001, 20_000);
        }
        while hi - lo > 1
            invariant
                self.wf(),
                -10_000 <= lo < hi <= 10_001,
                self@.ge(ratio(2 * lo - 1, 20_000)),
                !self@.ge(ratio(2 * hi - 1, 20_000)),
            decreases hi - lo,
        {
            let mid: i32 = lo + (hi - lo) / 2;
            if self.reaches_step(mid) {
                lo = mid;
            } else {
                hi = mid;
            }
        }
        proof {
            lemma_ten_thousandths_unique(self@, lo as int, ten_thousandths_of(self@));
        }
        lo
    }

    /// Whether `self > other` as real numbers.
    pub fn gt(&self, other: &Score) -> (b: bool)
        requires
            self.wf(),
            other.wf(),
        ensures
            b == self@.gt(other@),
    {
        !other.ge(self)
    }
}

/// A match threshold in billionths: the value `billionths / 10^9`.
#[derive(Clone, Copy, Debug, PartialEq, Eq)]
pub struct Threshold {
    pub billionths: i32,
}

impl Threshold {
    /// The threshold as a score value.
    pub open spec fn level(self) -> Corr {
        Corr { num: self.billionths as int, den_sq: 1_000_000_000_000_000_000 }
    }

    /// Half the threshold, the bar for a match on decimated images.
    pub open spec fn half_level(self) -> Corr {
        Corr { num: self.billionths as int, den_sq: 4_000_000_000_000_000_000 }
    }

    /// Nine tenths of the threshold, the bar for a candidate of the strided
    /// sweep.
    pub open spec fn candidate_level(self) -> Corr {
        Corr { num: 9 * self.billionths, den_sq: 100_000_000_000_000_000_000 }
    }

    /// The threshold `billionths / 10^9`.
    pub fn from_billionths(billionths: i32) -> (t: Threshold)
        ensures
            t.billionths == billionths,
    {
        Threshold { billionths }
    }

    /// The threshold itself as a score.
    pub fn score(&self) -> (s: Score)
        ensures
            s.wf(),
            s@ == self.level(),
    {
        Score::from_parts(self.billionths as i128, 1_000_000_000_000_000_000)
    }

    /// Half the threshold as a score.
    pub fn half(&self) -> (s: Score)
        ensures
            s.wf(),
            s@ == self.half_level(),
    {
        Score::from_parts(self.billionths as i128, 4_000_000_000_000_000_000)
    }

    /// Nine tenths of the threshold as a score.
    pub fn nine_tenths(&self) -> (s: Score)
        ensures
            s.wf(),
            s@ == self.candidate_level(),
    {
        Score::from_parts(9 * (self.billionths as i128), 100_000_000_000_000_000_000)
    }
}

impl Default for Threshold {
    /// The threshold 0.8.
    fn default() -> (t: Threshold)
        ensures
            t.billionths == 800_000_000,
    {
        Threshold { billionths: 800_000_000 }
    }
}

} // verus!
