//! Products of two 128-bit integers, kept in 256 bits.

use vstd::prelude::*;

verus! {

/// 2^128 as a mathematical integer.
pub open spec fn two_pow_128() -> int {
    0x1_0000_0000_0000_0000_0000_0000_0000_0000int
}

/// An unsigned 256-bit integer: `hi * 2^128 + lo`.
#[derive(Clone, Copy, Debug, PartialEq, Eq)]
pub struct Wide {
    pub hi: u128,
    pub lo: u128,
}

impl View for Wide {
    type V = int;

    open spec fn view(&self) -> int {
        self.hi * 0x1_0000_0000_0000_0000_0000_0000_0000_0000int + self.lo
    }
}

proof fn lemma_limb_product(x: u128, y: u128)
    requires
        x < 0x1_0000_0000_0000_0000,
        y < 0x1_0000_0000_0000_0000,
    ensures
        x * y <= 0xffff_ffff_ffff_fffe_0000_0000_0000_0001,
{
    assert(x * y <= 0xffff_ffff_ffff_ffff * 0xffff_ffff_ffff_ffff) by (nonlinear_arith)
        requires
            0 <= x <= 0xffff_ffff_ffff_ffff,
            0 <= y <= 0xffff_ffff_ffff_ffff,
    ;
}

proof fn lemma_split_product(a1: int, a0: int, b1: int, b0: int, base: int)
    ensures
        (a1 * base + a0) * (b1 * base + b0) == (a1 * b1) * (base * base) + (a0 * b1) * base + (a1
            * b0) * base + a0 * b0,
{
    let x = a1 * base;
    let y = b1 * base;
    assert((x + a0) * (y + b0) == x * y + x * b0 + a0 * y + a0 * b0) by (nonlinear_arith);
    assert(x * y == (a1 * b1) * (base * base)) by (nonlinear_arith)
        requires
            x == a1 * base,
            y == b1 * base,
    ;
    assert(x * b0 == (a1 * b0) * base) by (nonlinear_arith)
        requires
            x == a1 * base,
    ;
    assert(a0 * y == (a0 * b1) * base) by (nonlinear_arith)
        requires
            y == b1 * base,
    ;
}

impl Wide {
    /// The full product of two 128-bit integers.
    pub fn product(a: u128, b: u128) -> (r: Wide)
        ensures
            r@ == a * b,
    {
        let a0: u128 = a % 0x1_0000_0000_0000_0000;
        let a1: u128 = a / 0x1_0000_0000_0000_0000;
        let b0: u128 = b % 0x1_0000_0000_0000_0000;
        let b1: u128 = b / 0x1_0000_0000_0000_0000;
        proof {
            lemma_limb_product(a0, b0);
            lemma_limb_product(a0, b1);
            lemma_limb_product(a1, b0);
            lemma_limb_product(a1, b1);
        }
        let p00: u128 = a0 * b0;
        let p01: u128 = a0 * b1;
        let p10: u128 = a1 * b0;
        let p11: u128 = a1 * b1;
        let carry: u128 = p00 / 0x1_0000_0000_0000_0000 + p01 % 0x1_0000_0000_0000_0000 + p10
            % 0x1_0000_0000_0000_0000;
        let lo: u128 = (carry % 0x1_0000_0000_0000_0000) * 0x1_0000_0000_0000_0000 + p00
            % 0x1_0000_0000_0000_0000;
        proof {
            let base: int = 0x1_0000_0000_0000_0000;
            let top: int = p11 + p01 / 0x1_0000_0000_0000_0000 + p10 / 0x1_0000_0000_0000_0000
                + carry / 0x1_0000_0000_0000_0000;
            lemma_split_product(a1 as int, a0 as int, b1 as int, b0 as int, base);
            assert(base * base == two_pow_128());
            assert(a * b == p11 * two_pow_128() + p01 * base + p10 * base + p00);
            assert(top * two_pow_128() + lo == a * b);
            assert(a * b <= (two_pow_128() - 1) * (two_pow_128() - 1)) by (nonlinear_arith)
                requires
                    0 <= a <= two_pow_128() - 1,
                    0 <= b <= two_pow_128() - 1,
            ;
            assert(top < two_pow_128());
        }
        let hi: u128 = p11 + p01 / 0x1_0000_0000_0000_0000 + p10 / 0x1_0000_0000_0000_0000 + carry
            / 0x1_0000_0000_0000_0000;
        Wide { hi, lo }
    }

    /// Whether `self` is at least `other`.
    pub fn ge(&self, other: &Wide) -> (b: bool)
        ensures
            b == (self@ >= other@),
    {
        self.hi > other.hi || (self.hi == other.hi && self.lo >= other.lo)
    }
}

/// 2^256 as a mathematical integer.
pub open spec fn two_pow_256() -> int {
    0x1_0000_0000_0000_0000_0000_0000_0000_0000_0000_0000_0000_0000_0000_0000_0000_0000int
}

/// 2^384 as a mathematical integer.
pub open spec fn two_pow_384() -> int {
    0x1_0000_0000_0000_0000_0000_0000_0000_0000_0000_0000_0000_0000_0000_0000_0000_0000_0000_0000_0000_0000_0000_0000_0000_0000int
}

/// An unsigned 512-bit integer in four limbs of 128 bits, the lowest first.
#[derive(Clone, Copy, Debug)]
pub struct Quad {
    pub limbs: [u128; 4],
}

impl View for Quad {
    type V = int;

    open spec fn view(&self) -> int {
        self.limbs[0] + self.limbs[1] * 0x1_0000_0000_0000_0000_0000_0000_0000_0000int
            + self.limbs[2]
            * 0x1_0000_0000_0000_0000_0000_0000_0000_0000_0000_0000_0000_0000_0000_0000_0000_0000int
            + self.limbs[3]
            * 0x1_0000_0000_0000_0000_0000_0000_0000_0000_0000_0000_0000_0000_0000_0000_0000_0000_0000_0000_0000_0000_0000_0000_0000_0000int
    }
}

/// The sum of three 128-bit integers and a small carry, as a low limb and the
/// carry out of it.
fn add_limbs(a: u128, b: u128, c: u128, carry_in: u128) -> (r: (u128, u128))
    requires
        carry_in <= 3,
    ensures
        r.0 + r.1 * two_pow_128() == a + b + c + carry_in,
        r.1 <= 3,
{
    let low: u128 = a % 0x1_0000_0000_0000_0000 + b % 0x1_0000_0000_0000_0000 + c
        % 0x1_0000_0000_0000_0000 + carry_in;
    let high: u128 = a / 0x1_0000_0000_0000_0000 + b / 0x1_0000_0000_0000_0000 + c
        / 0x1_0000_0000_0000_0000 + low / 0x1_0000_0000_0000_0000;
    let limb: u128 = (high % 0x1_0000_0000_0000_0000) * 0x1_0000_0000_0000_0000 + low
        % 0x1_0000_0000_0000_0000;
    (limb, high / 0x1_0000_0000_0000_0000)
}

impl Quad {
    /// The full product of two 256-bit integers.
    pub fn product(a: &Wide, b: &Wide) -> (r: Quad)
        ensures
            r@ == a@ * b@,
    {
        let p0 = Wide::product(a.lo, b.lo);
        let p1 = Wide::product(a.hi, b.lo);
        let p2 = Wide::product(a.lo, b.hi);
        let p3 = Wide::product(a.hi, b.hi);
        let (l1, c1) = add_limbs(p0.hi, p1.lo, p2.lo, 0);
        let (l2, c2) = add_limbs(p1.hi, p2.hi, p3.lo, c1);
        proof {
            let base = two_pow_128();
            lemma_split_product(a.hi as int, a.lo as int, b.hi as int, b.lo as int, base);
            assert(base * base == two_pow_256());
            assert(base * two_pow_256() == two_pow_384());
            assert(a@ * b@ == p3@ * two_pow_256() + p2@ * base + p1@ * base + p0@);
            let top: int = p3.hi + c2;
            assert(a@ * b@ == p0.lo + l1 * base + l2 * two_pow_256() + top * two_pow_384());
            assert(a@ * b@ <= (two_pow_256() - 1) * (two_pow_256() - 1)) by (nonlinear_arith)
                requires
                    0 <= a@ <= two_pow_256() - 1,
                    0 <= b@ <= two_pow_256() - 1,
            ;
            assert(top < base);
        }
        Quad { limbs: [p0.lo, l1, l2, p3.hi + c2] }
    }

    /// Whether `self` is at least `other`.
    pub fn ge(&self, other: &Quad) -> (b: bool)
        ensures
            b == (self@ >= other@),
    {
        if self.limbs[3] != other.limbs[3] {
            self.limbs[3] > other.limbs[3]
        } else if self.limbs[2] != other.limbs[2] {
            self.limbs[2] > other.limbs[2]
        } else if self.limbs[1] != other.limbs[1] {
            self.limbs[1] > other.limbs[1]
        } else {
            self.limbs[0] >= other.limbs[0]
        }
    }
}

} // verus!
