//! Exact non-negative rationals and their order.

use vstd::prelude::*;

verus! {

/// 2^64, the base in which 128-bit factors are split for wide multiplication.
pub const LIMB: u128 = 0x1_0000_0000_0000_0000;

/// 2^128 as a mathematical integer.
#[verifier::inline]
pub open spec fn two_128() -> int {
    u128::MAX + 1
}

/// The full 256-bit product of two 128-bit numbers, as `(high, low)` words.
pub fn mul_wide(a: u128, b: u128) -> (r: (u128, u128))
    ensures
        r.0 * two_128() + r.1 == a * b,
{
    let al: u128 = a % LIMB;
    let ah: u128 = a / LIMB;
    let bl: u128 = b % LIMB;
    let bh: u128 = b / LIMB;
    proof {
        let m: int = 0xFFFF_FFFF_FFFF_FFFF;
        assert(al * bl <= m * m && al * bh <= m * m && ah * bl <= m * m && ah * bh <= m * m)
            by (nonlinear_arith)
            requires
                0 <= al <= m,
                0 <= ah <= m,
                0 <= bl <= m,
                0 <= bh <= m,
        ;
        assert(m * m == 0xFFFF_FFFF_FFFF_FFFE_0000_0000_0000_0001);
    }
    let ll: u128 = al * bl;
    let lh: u128 = al * bh;
    let hl: u128 = ah * bl;
    let hh: u128 = ah * bh;
    let t: u128 = ll / LIMB + lh % LIMB + hl % LIMB;
    let lo: u128 = (t % LIMB) * LIMB + ll % LIMB;
    let hi: u128 = hh + lh / LIMB + hl / LIMB + t / LIMB;
    proof {
        let base: int = LIMB as int;
        assert(a * b == (hh * base) * base + (lh + hl) * base + ll) by (nonlinear_arith)
            requires
                a == ah * base + al,
                b == bh * base + bl,
                hh == ah * bh,
                lh == al * bh,
                hl == ah * bl,
                ll == al * bl,
        ;
        assert(hi * two_128() == (hi * base) * base);
        assert((hh * base) * base == hh * two_128());
    }
    (hi, lo)
}

/// A non-negative rational `num / den`, stored exactly as it was computed
/// (not reduced to lowest terms).
#[derive(Debug, Clone, Copy)]
pub struct Ratio {
    pub num: u128,
    pub den: u128,
}

/// `a/b < c/d` for positive denominators, by cross multiplication.
pub open spec fn frac_lt(a: int, b: int, c: int, d: int) -> bool {
    a * d < c * b
}

/// `a/b <= c/d` for positive denominators, by cross multiplication.
pub open spec fn frac_le(a: int, b: int, c: int, d: int) -> bool {
    a * d <= c * b
}

/// `a/b == c/d` for positive denominators, by cross multiplication.
pub open spec fn frac_eq(a: int, b: int, c: int, d: int) -> bool {
    a * d == c * b
}

impl Ratio {
    /// The denominator is positive.
    pub open spec fn wf(self) -> bool {
        self.den > 0
    }

    /// `self < other` as rationals.
    pub open spec fn lt_spec(self, other: Ratio) -> bool {
        frac_lt(self.num as int, self.den as int, other.num as int, other.den as int)
    }

    /// `self == other` as rationals.
    pub open spec fn same_value(self, other: Ratio) -> bool {
        frac_eq(self.num as int, self.den as int, other.num as int, other.den as int)
    }

    /// The rational is zero.
    pub open spec fn is_zero_spec(self) -> bool {
        self.num == 0
    }

    /// Strict comparison of two rationals; exact for all 128-bit values.
    pub fn lt(&self, other: &Ratio) -> (b: bool)
        ensures
            b == self.lt_spec(*other),
    {
        let (h1, l1) = mul_wide(self.num, other.den);
        let (h2, l2) = mul_wide(other.num, self.den);
        h1 < h2 || (h1 == h2 && l1 < l2)
    }

    /// Equality of two rationals as numbers; exact for all 128-bit values.
    pub fn same(&self, other: &Ratio) -> (b: bool)
        ensures
            b == self.same_value(*other),
    {
        let (h1, l1) = mul_wide(self.num, other.den);
        let (h2, l2) = mul_wide(other.num, self.den);
        h1 == h2 && l1 == l2
    }

    /// Tells whether the rational is zero.
    pub fn is_zero(&self) -> (b: bool)
        ensures
            b == self.is_zero_spec(),
    {
        self.num == 0
    }
}

} // verus!
