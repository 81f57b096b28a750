//! Exact ratios of two unsigned integers. Densities, thresholds and rewards
//! are all of this form, and they are compared by cross multiplication.

use vstd::prelude::*;

verus! {

/// The product of two 64-bit numbers fits in 128 bits.
pub proof fn lemma_product_fits(a: u64, b: u64)
    ensures
        0 <= a * b <= u128::MAX,
        a * b <= 0xFFFF_FFFF_FFFF_FFFF * 0xFFFF_FFFF_FFFF_FFFF,
{
    assert(0 <= a * b <= 0xFFFF_FFFF_FFFF_FFFF * 0xFFFF_FFFF_FFFF_FFFF) by (nonlinear_arith)
        requires
            0 <= a <= 0xFFFF_FFFF_FFFF_FFFF,
            0 <= b <= 0xFFFF_FFFF_FFFF_FFFF,
    ;
}

/// A ratio that is greater than another has a positive numerator.
pub proof fn lemma_greater_is_positive(a: Ratio, b: Ratio)
    requires
        b.lt(&a),
    ensures
        a.num > 0,
{
    if a.num == 0 {
        assert(a.num * b.den == 0) by (nonlinear_arith)
            requires
                a.num == 0,
        ;
        assert(b.num * a.den >= 0) by (nonlinear_arith)
            requires
                b.num >= 0,
                a.den >= 0,
        ;
    }
}

/// What is not above `a` lies below whatever `a` lies below.
pub proof fn lemma_below_chain(c: Ratio, a: Ratio, b: Ratio)
    requires
        a.wf(),
        b.wf(),
        c.wf(),
        !a.lt(&c),
        a.lt(&b),
    ensures
        c.lt(&b),
        !b.lt(&c),
{
    let cn = c.num as int;
    let cd = c.den as int;
    let an = a.num as int;
    let ad = a.den as int;
    let bn = b.num as int;
    let bd = b.den as int;
    assert(cn * ad * bd <= an * cd * bd) by (nonlinear_arith)
        requires
            cn * ad <= an * cd,
            bd >= 0,
    ;
    assert(an * bd * cd < bn * ad * cd) by (nonlinear_arith)
        requires
            an * bd < bn * ad,
            cd > 0,
    ;
    let x = cn * bd;
    let y = bn * cd;
    assert(x * ad == cn * ad * bd && y * ad == bn * ad * cd && an * cd * bd == an * bd * cd)
        by (nonlinear_arith)
        requires
            x == cn * bd,
            y == bn * cd,
    ;
    assert(x < y) by (nonlinear_arith)
        requires
            x * ad < y * ad,
            ad > 0,
    ;
}

/// The floor of a multiple grows with the factor, and for a ratio of at most
/// one it does not exceed the factor.
pub proof fn lemma_floor_monotone(r: Ratio, x: int, y: int)
    requires
        r.wf(),
        0 <= x <= y,
    ensures
        0 <= r.floor_of(x) <= r.floor_of(y),
        r.num <= r.den ==> r.floor_of(y) <= y,
{
    assert(0 <= r.num * x <= r.num * y) by (nonlinear_arith)
        requires
            0 <= x <= y,
            0 <= r.num,
    ;
    vstd::arithmetic::div_mod::lemma_div_is_ordered(r.num * x, r.num * y, r.den as int);
    vstd::arithmetic::div_mod::lemma_div_is_ordered(0, r.num * x, r.den as int);
    if r.num <= r.den {
        assert(r.num * y <= r.den * y) by (nonlinear_arith)
            requires
                0 <= y,
                0 <= r.num <= r.den,
        ;
        vstd::arithmetic::div_mod::lemma_div_is_ordered(r.num * y, r.den * y, r.den as int);
        vstd::arithmetic::div_mod::lemma_div_multiples_vanish(y, r.den as int);
        assert(r.den * y == y * r.den) by (nonlinear_arith);
    }
}

/// The ratio `num / den`. It is meaningful where `den` is positive.
#[derive(Clone, Copy, Debug)]
pub struct Ratio {
    pub num: u64,
    pub den: u64,
}

impl Ratio {
    /// The denominator is positive.
    pub open spec fn wf(&self) -> bool {
        self.den > 0
    }

    /// The ratio lies in the half open interval from zero (excluded) to one
    /// (included).
    pub open spec fn is_fraction(&self) -> bool {
        0 < self.num <= self.den
    }

    /// `self < other` as rational numbers.
    pub open spec fn lt(&self, other: &Ratio) -> bool {
        self.num * other.den < other.num * self.den
    }

    /// The largest integer that does not exceed `self * x`.
    pub open spec fn floor_of(&self, x: int) -> int {
        (self.num * x) / (self.den as int)
    }

    /// The smallest integer that is not below `self * x`.
    pub open spec fn ceil_of(&self, x: int) -> int {
        (self.num * x + self.den - 1) / (self.den as int)
    }

    /// The ratio `num / den`.
    pub fn new(num: u64, den: u64) -> (r: Ratio)
        ensures
            r.num == num,
            r.den == den,
    {
        Ratio { num, den }
    }

    /// The ratio zero.
    pub fn zero() -> (r: Ratio)
        ensures
            r.num == 0,
            r.den == 1,
    {
        Ratio { num: 0, den: 1 }
    }

    /// Whether `self` is strictly greater than `other`.
    pub fn greater_than(&self, other: &Ratio) -> (b: bool)
        ensures
            b == other.lt(self),
    {
        proof {
            lemma_product_fits(other.num, self.den);
            lemma_product_fits(self.num, other.den);
        }
        let left: u128 = (other.num as u128) * (self.den as u128);
        let right: u128 = (self.num as u128) * (other.den as u128);
        left < right
    }

    /// `floor(self * x)`, for a ratio and a factor of at most 32 bits each.
    pub fn floor_times(&self, x: u64) -> (f: u64)
        requires
            self.wf(),
            self.num <= u32::MAX,
            x <= u32::MAX,
        ensures
            f == self.floor_of(x as int),
    {
        assert(self.num * x <= 0xFFFF_FFFF * 0xFFFF_FFFF) by (nonlinear_arith)
            requires
                self.num <= 0xFFFF_FFFF,
                x <= 0xFFFF_FFFF,
        ;
        let prod: u64 = self.num * x;
        prod / self.den
    }
}

} // verus!
