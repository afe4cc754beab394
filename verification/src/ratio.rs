//! Exact ratios of two counts.

use vstd::prelude::*;

verus! {

/// A ratio of two counts, `num / den`. A ratio with the denominator 0 and a
/// numerator above 0 is greater than every ratio with a denominator above 0.
#[derive(Clone, Copy, Debug)]
pub struct Ratio {
    /// The numerator
    pub num: u64,
    /// The denominator
    pub den: u64,
}

impl Ratio {
    /// The ratio 0.
    pub open spec fn zero() -> Ratio {
        Ratio { num: 0, den: 1 }
    }

    /// Whether `self` is greater than `other`, by cross-multiplication.
    pub open spec fn gt(self, other: Ratio) -> bool {
        self.num * other.den > other.num * self.den
    }

    /// Whether `self` is at most `other`.
    pub open spec fn le(self, other: Ratio) -> bool {
        !self.gt(other)
    }

    /// Whether the ratio is the whole number `n`.
    pub open spec fn is_whole(self, n: nat) -> bool {
        self.den > 0 && self.num == n * self.den
    }

    /// The ratio `num / den`.
    pub fn new(num: u64, den: u64) -> (r: Self)
        ensures
            r.num == num,
            r.den == den,
    {
        Ratio { num, den }
    }

    /// Whether `self` is greater than `other`.
    pub fn is_gt(&self, other: &Ratio) -> (r: bool)
        ensures
            r == self.gt(*other),
    {
        let left: u128 = mul_wide(self.num, other.den);
        let right: u128 = mul_wide(other.num, self.den);
        left > right
    }

    /// Whether `self` is at most `other`.
    pub fn is_le(&self, other: &Ratio) -> (r: bool)
        ensures
            r == self.le(*other),
    {
        !self.is_gt(other)
    }
}

/// The product of two `u64`, which fits 128 bits.
pub fn mul_wide(a: u64, b: u64) -> (r: u128)
    ensures
        r == a * b,
{
    assert(a * b <= 0xffff_ffff_ffff_ffff * 0xffff_ffff_ffff_ffff) by (nonlinear_arith)
        requires
            0 <= a <= 0xffff_ffff_ffff_ffff,
            0 <= b <= 0xffff_ffff_ffff_ffff,
    ;
    (a as u128) * (b as u128)
}

} // verus!
