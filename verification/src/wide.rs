//! Unsigned 256-bit numbers, just wide enough to hold products of the
//! 128-bit quantities that the geometry produces.

use vstd::prelude::*;

verus! {

/// Two to the power 64.
pub open spec fn limb() -> int {
    0x1_0000_0000_0000_0000
}

/// Two to the power 128.
pub open spec fn half_range() -> int {
    0x1_0000_0000_0000_0000_0000_0000_0000_0000int
}

/// An unsigned number below two to the power 256, stored as two halves.
#[derive(Clone, Copy, Debug, PartialEq, Eq, Structural)]
pub struct Wide {
    pub hi: u128,
    pub lo: u128,
}

proof fn lemma_limb_product(a: int, b: int)
    by (nonlinear_arith)
    requires
        0 <= a < 0x1_0000_0000_0000_0000,
        0 <= b < 0x1_0000_0000_0000_0000,
    ensures
        0 <= a * b <= 0xffff_ffff_ffff_fffe_0000_0000_0000_0001,
{
}

proof fn lemma_schoolbook(a1: int, a0: int, b1: int, b0: int, m: int)
    ensures
        (a1 * m + a0) * (b1 * m + b0) == (a1 * b1) * (m * m) + (a0 * b1) * m + (a1 * b0) * m + a0
            * b0,
{
    let x = a1 * m;
    let y = b1 * m;
    assert((x + a0) * (y + b0) == x * y + x * b0 + a0 * y + a0 * b0) by (nonlinear_arith);
    assert((a1 * m) * (b1 * m) == (a1 * b1) * (m * m)) by (nonlinear_arith);
    assert((a1 * m) * b0 == (a1 * b0) * m) by (nonlinear_arith);
    assert(a0 * (b1 * m) == (a0 * b1) * m) by (nonlinear_arith);
}

proof fn lemma_scale_split(hi: int, lo: int, k: int, m: int)
    by (nonlinear_arith)
    ensures
        (hi * m + lo) * k == (hi * k) * m + lo * k,
{
}

proof fn lemma_scale_monotone(a: int, b: int, m: int)
    by (nonlinear_arith)
    requires
        a <= b,
        0 <= m,
    ensures
        a * m <= b * m,
{
}

impl Wide {
    /// The number that the two halves stand for.
    pub open spec fn value(self) -> int {
        self.hi * half_range() + self.lo
    }

    /// The full product of two 128-bit numbers.
    pub fn product(a: u128, b: u128) -> (w: Wide)
        ensures
            w.value() == a * b,
    {
        let a1: u128 = a / 0x1_0000_0000_0000_0000;
        let a0: u128 = a % 0x1_0000_0000_0000_0000;
        let b1: u128 = b / 0x1_0000_0000_0000_0000;
        let b0: u128 = b % 0x1_0000_0000_0000_0000;
        proof {
            lemma_limb_product(a0 as int, b0 as int);
            lemma_limb_product(a0 as int, b1 as int);
            lemma_limb_product(a1 as int, b0 as int);
            lemma_limb_product(a1 as int, b1 as int);
        }
        let low_low: u128 = a0 * b0;
        let low_high: u128 = a0 * b1;
        let high_low: u128 = a1 * b0;
        let high_high: u128 = a1 * b1;
        let t: u128 = low_low / 0x1_0000_0000_0000_0000 + low_high % 0x1_0000_0000_0000_0000 + high_low
            % 0x1_0000_0000_0000_0000;
        let lo: u128 = low_low % 0x1_0000_0000_0000_0000 + (t % 0x1_0000_0000_0000_0000)
            * 0x1_0000_0000_0000_0000;
        let hi: u128 = high_high + low_high / 0x1_0000_0000_0000_0000 + high_low / 0x1_0000_0000_0000_0000 + t
            / 0x1_0000_0000_0000_0000;
        proof {
            lemma_schoolbook(a1 as int, a0 as int, b1 as int, b0 as int, limb());
            assert(limb() * limb() == half_range());
            assert(a == a1 * limb() + a0);
            assert(b == b1 * limb() + b0);
            assert(hi * half_range() + lo == high_high * half_range() + low_high * limb() + high_low * limb()
                + low_low);
        }
        Wide { hi, lo }
    }

    /// Whether this number is strictly smaller than the other.
    pub fn less_than(&self, other: &Wide) -> (smaller: bool)
        ensures
            smaller == (self.value() < other.value()),
    {
        self.hi < other.hi || (self.hi == other.hi && self.lo < other.lo)
    }

    /// This number multiplied by `k`, where the result still fits.
    pub fn times(&self, k: u128) -> (w: Wide)
        requires
            self.value() * k < half_range() * half_range(),
        ensures
            w.value() == self.value() * k,
    {
        let low: Wide = Wide::product(self.lo, k);
        proof {
            lemma_scale_split(self.hi as int, self.lo as int, k as int, half_range());
            assert(self.value() * k == (self.hi * k) * half_range() + low.hi * half_range()
                + low.lo);
            if self.hi * k + low.hi >= half_range() {
                lemma_scale_monotone(half_range(), self.hi * k + low.hi, half_range());
                assert((self.hi * k + low.hi) * half_range() == (self.hi * k) * half_range()
                    + low.hi * half_range()) by (nonlinear_arith);
            }
            assert(self.hi * k >= 0) by (nonlinear_arith)
                requires
                    self.hi >= 0,
                    k >= 0,
            ;
        }
        let high: u128 = self.hi * k + low.hi;
        proof {
            assert((self.hi * k + low.hi) * half_range() == (self.hi * k) * half_range() + low.hi
                * half_range()) by (nonlinear_arith);
        }
        Wide { hi: high, lo: low.lo }
    }
}

} // verus!
