//! Binary logarithm in fixed point, by repeated squaring of the mantissa.
//!
//! The value has 56 fractional bits, computed on a 127-bit mantissa. It never exceeds the true logarithm
//! and falls short of it by less than two units of the last place. It is
//! monotone in its argument and adds exactly 1.0 when the argument doubles,
//! which is what entropy needs to be a non-negative score that vanishes
//! exactly on pure regions.

use vstd::prelude::*;
use vstd::arithmetic::power::{
    pow, lemma_pow1, lemma1_pow, lemma_pow_adds, lemma_pow_multiplies,
    lemma_pow_distributes, lemma_pow_positive, lemma_square_is_pow2,
};
use vstd::arithmetic::power2::{
    pow2, lemma_pow2, lemma_pow2_adds, lemma_pow2_unfold, lemma2_to64, lemma2_to64_rest,
    lemma_pow2_pos,
};
use crate::ratio::mul_wide;

verus! {

/// The fixed-point representation of 1.0: 2^56.
pub const LOG_ONE: u64 = 0x100_0000_0000_0000;

/// 2^126, the least normalised mantissa.
pub const HALF: u128 = 0x4000_0000_0000_0000_0000_0000_0000_0000;

/// Number of fractional bits of the logarithm.
pub const FRAC_BITS: u32 = 56;

/// `floor(log2(x))` for `x >= 1`, and 0 for `x == 0`.
pub open spec fn floor_log2(x: nat) -> nat
    decreases x,
{
    if x <= 1 {
        0
    } else {
        1 + floor_log2(x / 2)
    }
}

/// `x` doubled until it lies in `[2^126, 2^127)`.
pub open spec fn mantissa(x: nat) -> nat
    decreases 2 * HALF - x,
{
    if x == 0 || x >= HALF {
        x
    } else {
        mantissa(2 * x)
    }
}

/// The next `k` bits of `log2(m / 2^126)` appended to the bits in `acc`.
///
/// Each step squares the mantissa; the square reaches 2 exactly when the next
/// bit of the logarithm is 1. Squares are truncated to 128 bits.
pub open spec fn frac_acc(m: nat, k: nat, acc: nat) -> nat
    decreases k,
{
    if k == 0 {
        acc
    } else {
        let s = m * m / (HALF as nat);
        if s >= 2 * HALF {
            frac_acc(s / 2, (k - 1) as nat, 2 * acc + 1)
        } else {
            frac_acc(s, (k - 1) as nat, 2 * acc)
        }
    }
}

/// `log2(x)` scaled by 2^56 and rounded down, short of the true value by at
/// most what truncating the squares loses; 0 for `x == 0`.
pub open spec fn log2_fixed(x: nat) -> nat {
    floor_log2(x) * (LOG_ONE as nat) + frac_acc(mantissa(x), FRAC_BITS as nat, 0)
}

/// The powers of two behind the constants.
pub proof fn lemma_pow2_values()
    ensures
        pow2(56) == LOG_ONE,
        pow2(112) == LOG_ONE * LOG_ONE,
        pow2(126) == HALF,
        pow2(127) == 2 * HALF,
{
    lemma2_to64();
    lemma2_to64_rest();
    lemma_pow2_adds(56, 56);
    lemma_pow2_adds(63, 63);
    lemma_pow2_adds(63, 64);
    let a = pow2(56) as int;
    let b = pow2(63) as int;
    let c = pow2(64) as int;
    assert(a * a == 0x1_0000_0000_0000_0000_0000_0000_0000 && b * b
        == 0x4000_0000_0000_0000_0000_0000_0000_0000 && b * c
        == 0x8000_0000_0000_0000_0000_0000_0000_0000) by (nonlinear_arith)
        requires
            a == 0x100_0000_0000_0000,
            b == 0x8000_0000_0000_0000,
            c == 0x1_0000_0000_0000_0000,
    ;
}

pub proof fn lemma_floor_log2_upper(x: nat, j: nat)
    requires
        j >= 1,
        x < pow2(j),
    ensures
        floor_log2(x) < j,
    decreases j,
{
    if x > 1 {
        lemma_pow2_unfold(j);
        if j == 1 {
            lemma2_to64();
        } else {
            lemma_floor_log2_upper(x / 2, (j - 1) as nat);
        }
    }
}

pub proof fn lemma_floor_log2_lower(x: nat, j: nat)
    requires
        x >= pow2(j),
    ensures
        floor_log2(x) >= j,
    decreases j,
{
    if j > 0 {
        lemma_pow2_unfold(j);
        lemma_pow2_pos((j - 1) as nat);
        lemma_floor_log2_lower(x / 2, (j - 1) as nat);
    }
}

pub proof fn lemma_floor_log2_monotone(x: nat, y: nat)
    requires
        x <= y,
    ensures
        floor_log2(x) <= floor_log2(y),
    decreases x,
{
    if x > 1 {
        lemma_floor_log2_monotone(x / 2, y / 2);
    }
}

/// The mantissa is the argument shifted left until bit 126 is set.
pub proof fn lemma_mantissa_closed_form(x: nat)
    requires
        0 < x < 2 * HALF,
    ensures
        floor_log2(x) <= 126,
        mantissa(x) == x * pow2((126 - floor_log2(x)) as nat),
        HALF <= mantissa(x) < 2 * HALF,
    decreases 2 * HALF - x,
{
    lemma2_to64();
    lemma_pow2_values();
    lemma_floor_log2_upper(x, 127);
    if x >= HALF {
        lemma_floor_log2_lower(x, 126);
        assert(x * pow2(0) == x) by (nonlinear_arith)
            requires
                pow2(0) == 1,
        ;
    } else {
        lemma_mantissa_closed_form(2 * x);
        assert(floor_log2(2 * x) == 1 + floor_log2(x));
        let j = (126 - floor_log2(2 * x)) as nat;
        lemma_pow2_unfold(j + 1);
        assert(2 * x * pow2(j) == x * (2 * pow2(j))) by (nonlinear_arith);
    }
}

pub proof fn lemma_frac_bounds(m: nat, k: nat, acc: nat)
    ensures
        acc * pow2(k) <= frac_acc(m, k, acc) < (acc + 1) * pow2(k),
    decreases k,
{
    if k == 0 {
        lemma2_to64();
    } else {
        let s = m * m / (HALF as nat);
        let p = pow2((k - 1) as nat);
        lemma_pow2_unfold(k);
        if s >= 2 * HALF {
            lemma_frac_bounds(s / 2, (k - 1) as nat, 2 * acc + 1);
            assert(acc * (2 * p) <= (2 * acc + 1) * p && (2 * acc + 1 + 1) * p == (acc + 1) * (2 * p))
                by (nonlinear_arith);
        } else {
            lemma_frac_bounds(s, (k - 1) as nat, 2 * acc);
            assert(acc * (2 * p) == (2 * acc) * p && (2 * acc + 1) * p <= (acc + 1) * (2 * p))
                by (nonlinear_arith);
        }
    }
}

pub proof fn lemma_frac_monotone(m1: nat, m2: nat, k: nat, acc: nat)
    requires
        m1 <= m2,
    ensures
        frac_acc(m1, k, acc) <= frac_acc(m2, k, acc),
    decreases k,
{
    if k > 0 {
        let s1 = m1 * m1 / (HALF as nat);
        let s2 = m2 * m2 / (HALF as nat);
        assert(m1 * m1 <= m2 * m2) by (nonlinear_arith)
            requires
                m1 <= m2,
        ;
        let j = (k - 1) as nat;
        if s2 >= 2 * HALF {
            if s1 >= 2 * HALF {
                lemma_frac_monotone(s1 / 2, s2 / 2, j, 2 * acc + 1);
            } else {
                lemma_frac_bounds(s1, j, 2 * acc);
                lemma_frac_bounds(s2 / 2, j, 2 * acc + 1);
            }
        } else {
            lemma_frac_monotone(s1, s2, j, 2 * acc);
        }
    }
}

/// The fractional part of the logarithm is below 1.0.
pub proof fn lemma_log2_frac(x: nat)
    ensures
        floor_log2(x) * LOG_ONE <= log2_fixed(x) < (floor_log2(x) + 1) * LOG_ONE,
{
    lemma_pow2_values();
    lemma_frac_bounds(mantissa(x), FRAC_BITS as nat, 0);
    let f = floor_log2(x) as int;
    let one = LOG_ONE as int;
    assert((f + 1) * one == f * one + one && 0 * one == 0 && (0 + 1) * one == one)
        by (nonlinear_arith);
}

/// The logarithm of a 64-bit number is below 64.0.
pub proof fn lemma_log2_bounds(x: nat)
    requires
        x <= u64::MAX,
    ensures
        floor_log2(x) <= 63,
        floor_log2(x) * LOG_ONE <= log2_fixed(x) < (floor_log2(x) + 1) * LOG_ONE,
        log2_fixed(x) < 64 * LOG_ONE,
{
    lemma2_to64();
    lemma2_to64_rest();
    lemma_floor_log2_upper(x, 64);
    lemma_log2_frac(x);
}

/// The logarithm is monotone.
pub proof fn lemma_log2_monotone(x: nat, y: nat)
    requires
        x <= y < 2 * HALF,
    ensures
        log2_fixed(x) <= log2_fixed(y),
{
    lemma_log2_frac(x);
    lemma_log2_frac(y);
    lemma_floor_log2_monotone(x, y);
    if x == 0 {
        lemma_frac_monotone(0, mantissa(y), FRAC_BITS as nat, 0);
    } else if floor_log2(x) == floor_log2(y) {
        lemma_mantissa_closed_form(x);
        lemma_mantissa_closed_form(y);
        let p = pow2((126 - floor_log2(x)) as nat);
        assert(x * p <= y * p) by (nonlinear_arith)
            requires
                x <= y,
        ;
        lemma_frac_monotone(mantissa(x), mantissa(y), FRAC_BITS as nat, 0);
    } else {
        assert((floor_log2(x) + 1) * LOG_ONE <= floor_log2(y) * LOG_ONE) by (nonlinear_arith)
            requires
                floor_log2(x) + 1 <= floor_log2(y),
        ;
    }
}

/// Doubling the argument adds exactly 1.0 to the logarithm.
pub proof fn lemma_log2_double(x: nat)
    requires
        0 < x < HALF,
    ensures
        log2_fixed(2 * x) == log2_fixed(x) + LOG_ONE,
{
    assert(floor_log2(2 * x) == 1 + floor_log2(x));
    assert(mantissa(x) == mantissa(2 * x));
    assert((1 + floor_log2(x)) * LOG_ONE == floor_log2(x) * LOG_ONE + LOG_ONE) by (nonlinear_arith);
}

/// Powers are monotone in a non-negative base.
pub proof fn lemma_pow_base_monotone(a: int, b: int, e: nat)
    requires
        0 <= a <= b,
    ensures
        0 <= pow(a, e) <= pow(b, e),
    decreases e,
{
    reveal(pow);
    if e > 0 {
        lemma_pow_base_monotone(a, b, (e - 1) as nat);
        let x = pow(a, (e - 1) as nat);
        let y = pow(b, (e - 1) as nat);
        assert(0 <= a * x <= b * y) by (nonlinear_arith)
            requires
                0 <= a <= b,
                0 <= x <= y,
        ;
    }
}

/// The bits that squaring appends never overshoot: with `d` the value of
/// the `k` appended bits, `2^d · (2^63)^(2^k) <= m^(2^k)`.
pub proof fn lemma_frac_below(m: nat, k: nat, acc: nat)
    requires
        m >= HALF,
    ensures
        frac_acc(m, k, acc) >= acc * pow2(k),
        pow2((frac_acc(m, k, acc) - acc * pow2(k)) as nat) * pow(HALF as int, pow2(k)) <= pow(
            m as int,
            pow2(k),
        ),
    decreases k,
{
    let h = HALF as int;
    lemma_frac_bounds(m, k, acc);
    lemma2_to64();
    if k == 0 {
        assert(acc * pow2(0) == acc) by (nonlinear_arith)
            requires
                pow2(0) == 1,
        ;
        lemma_pow1(h);
        lemma_pow1(m as int);
        assert(pow2(0) * pow(h, 1) == pow(h, 1)) by (nonlinear_arith)
            requires
                pow2(0) == 1,
        ;
    } else {
        let q = pow2((k - 1) as nat);
        lemma_pow2_unfold(k);
        lemma_pow2_pos((k - 1) as nat);
        let s = m * m / (HALF as nat);
        let mi = m as int;
        assert(mi * mi >= h * h) by (nonlinear_arith)
            requires
                mi >= h,
                h >= 0,
        ;
        assert(s * h <= mi * mi && s >= h) by (nonlinear_arith)
            requires
                s == (mi * mi) / h,
                mi * mi >= h * h,
                h > 0,
        ;
        let b: nat = if s >= 2 * HALF { 1 } else { 0 };
        let next: nat = if s >= 2 * HALF { s / 2 } else { s };
        let acc2: nat = 2 * acc + b;
        let r = frac_acc(m, k, acc);
        assert(r == frac_acc(next, (k - 1) as nat, acc2));
        lemma_frac_below(next, (k - 1) as nat, acc2);
        lemma_frac_bounds(next, (k - 1) as nat, acc2);
        let d = (r - acc2 * q) as nat;
        let two_b: int = if b == 1 { 2 } else { 1 };
        assert(acc2 * q == acc * (2 * q) + b * q) by (nonlinear_arith)
            requires
                acc2 == 2 * acc + b,
        ;
        assert(b * q == (if b == 1 { q } else { 0 })) by (nonlinear_arith)
            requires
                b == 0 || b == 1,
        ;
        let bq: nat = if b == 1 { q } else { 0 };
        assert(r - acc * pow2(k) == d + bq);
        // 2^(d + b q) = 2^d (2^b)^q
        lemma_pow2_adds(d, bq);
        assert(pow2(bq) == pow(two_b, q)) by {
            if b == 1 {
                lemma_pow2(q);
            } else {
                lemma1_pow(q);
            }
        }
        // H^(2q) = H^q H^q and m^(2q) = (m m)^q
        lemma_pow_adds(h, q, q);
        lemma_square_is_pow2(m as int);
        lemma_pow_multiplies(m as int, 2, q);
        assert(pow(mi, pow2(k)) == pow(mi * mi, q));
        // (next 2^b H)^q = next^q (2^b)^q H^q <= (m m)^q
        lemma_pow_distributes(next as int * two_b, h, q);
        lemma_pow_distributes(next as int, two_b, q);
        assert(0 <= next * two_b * h <= mi * mi) by (nonlinear_arith)
            requires
                0 <= next * two_b <= s,
                s * h <= mi * mi,
                h > 0,
        ;
        lemma_pow_base_monotone(next as int * two_b * h, mi * mi, q);
        lemma_pow_positive(h, q);
        lemma_pow_positive(two_b, q);
        let pd = pow2(d) as int;
        let ph = pow(h, q);
        let pn = pow(next as int, q);
        let pb = pow(two_b, q);
        assert(pd * pb * (ph * ph) <= pn * pb * ph) by (nonlinear_arith)
            requires
                pd * ph <= pn,
                pb > 0,
                ph > 0,
        {
            assert((pd * ph) * (pb * ph) <= pn * (pb * ph));
        }
        assert(pow2((d + bq) as nat) * pow(h, pow2(k)) == pd * pb * (ph * ph)) by (nonlinear_arith)
            requires
                pow2((d + bq) as nat) == pd * pb,
                pow(h, pow2(k)) == ph * ph,
        ;
    }
}

/// The fixed-point logarithm never exceeds the true one:
/// `2^log2_fixed(x) <= x^(2^56)`, that is `log2_fixed(x) / 2^56 <= log2(x)`.
pub proof fn lemma_log2_below(x: nat)
    requires
        0 < x < 2 * HALF,
    ensures
        pow2(log2_fixed(x)) <= pow(x as int, pow2(56)),
{
    lemma2_to64();
    lemma_pow2_values();
    lemma_mantissa_closed_form(x);
    let e = floor_log2(x);
    let sh = (126 - e) as nat;
    let q = pow2(56);
    let m = mantissa(x);
    let r = frac_acc(m, FRAC_BITS as nat, 0);
    let h = HALF as int;
    lemma_frac_below(m, 56, 0);
    assert(0 * pow2(56) == 0);
    // m^q = x^q (2^sh)^q and H^q = (2^e)^q (2^sh)^q
    lemma_pow_distributes(x as int, pow2(sh) as int, q);
    lemma_pow2_adds(e, sh);
    lemma_pow_distributes(pow2(e) as int, pow2(sh) as int, q);
    // (2^e)^q = 2^(e q)
    lemma_pow2(e);
    lemma_pow_multiplies(2, e, q);
    lemma_pow2(e * q);
    lemma_pow2_adds(e * q, r);
    lemma_pow2_pos(sh);
    lemma_pow_positive(pow2(sh) as int, q);
    let c = pow(pow2(sh) as int, q);
    let pe = pow2(e * q) as int;
    let pr = pow2(r) as int;
    let px = pow(x as int, q);
    assert(pow(h, q) == pe * c);
    assert(pow(m as int, q) == px * c);
    assert(pe * pr <= px) by (nonlinear_arith)
        requires
            pr * (pe * c) <= px * c,
            c > 0,
    {
        assert((pe * pr) * c <= px * c);
    }
    assert(log2_fixed(x) == e * q + r) by (nonlinear_arith)
        requires
            log2_fixed(x) == e * 0x100_0000_0000_0000 + r,
            q == 0x100_0000_0000_0000,
    ;
}

/// The bits that squaring appends stay close: if the true mantissa lies
/// within `err` above `m`, and `err` is small enough to grow fourfold at
/// each of the `k` steps, then with `d` the value of the `k` appended bits,
/// `(m + err)^(2^k) <= 4 · 2^d · (2^126)^(2^k)`.
pub proof fn lemma_frac_above(m: nat, k: nat, acc: nat, err: nat)
    requires
        HALF <= m < 2 * HALF,
        (3 * err + 1) * pow2(2 * k) <= 6 * HALF,
    ensures
        frac_acc(m, k, acc) >= acc * pow2(k),
        pow((m + err) as int, pow2(k)) <= 4 * pow2((frac_acc(m, k, acc) - acc * pow2(k)) as nat)
            * pow(HALF as int, pow2(k)),
    decreases k,
{
    let h = HALF as int;
    let mi = m as int;
    let e = err as int;
    lemma_frac_bounds(m, k, acc);
    lemma2_to64();
    lemma2_to64_rest();
    if k == 0 {
        assert(acc * pow2(0) == acc) by (nonlinear_arith)
            requires
                pow2(0) == 1,
        ;
        lemma_pow1(h);
        lemma_pow1(mi + e);
        assert(3 * e + 1 <= 6 * h) by (nonlinear_arith)
            requires
                (3 * e + 1) * pow2(0) <= 6 * h,
                pow2(0) == 1,
        ;
        assert(4 * pow2(0) * pow(h, 1) == 4 * h) by (nonlinear_arith)
            requires
                pow2(0) == 1,
                pow(h, 1) == h,
        ;
    } else {
        let q = pow2((k - 1) as nat);
        lemma_pow2_unfold(k);
        lemma_pow2_pos((k - 1) as nat);
        lemma_pow2_adds(2, (2 * (k - 1)) as nat);
        lemma_pow2_pos((2 * (k - 1)) as nat);
        let g = pow2((2 * (k - 1)) as nat) as int;
        assert(pow2(2 * k) == 4 * g);
        assert(e <= h) by (nonlinear_arith)
            requires
                (3 * e + 1) * (4 * g) <= 6 * h,
                g >= 1,
                e >= 0,
        ;
        let s = m * m / (HALF as nat);
        assert(mi * mi >= h * h && mi * mi < 4 * h * h) by (nonlinear_arith)
            requires
                h <= mi < 2 * h,
                h >= 0,
        ;
        assert(s * h <= mi * mi < (s + 1) * h && h <= s < 4 * h) by (nonlinear_arith)
            requires
                s == (mi * mi) / h,
                h * h <= mi * mi < 4 * h * h,
                h > 0,
        ;
        let b: nat = if s >= 2 * HALF { 1 } else { 0 };
        let next: nat = if s >= 2 * HALF { s / 2 } else { s };
        let acc2: nat = 2 * acc + b;
        let err2: nat = 4 * err + 1;
        let two_b: int = if b == 1 { 2 } else { 1 };
        let r = frac_acc(m, k, acc);
        assert(r == frac_acc(next, (k - 1) as nat, acc2));
        assert((3 * err2 + 1) * g == (3 * e + 1) * (4 * g)) by (nonlinear_arith)
            requires
                err2 == 4 * e + 1,
        ;
        lemma_frac_above(next, (k - 1) as nat, acc2, err2);
        lemma_frac_bounds(next, (k - 1) as nat, acc2);
        // one step: (m + err)^2 <= 2^b H (next + err2)
        let step = two_b * h * (next + err2);
        if b == 0 {
            assert(2 * mi <= 3 * h) by (nonlinear_arith)
                requires
                    mi * mi < 2 * h * h,
                    h > 0,
                    mi >= 0,
            {
                if 2 * mi > 3 * h {
                    assert(4 * (mi * mi) > 9 * (h * h));
                }
            }
            assert((mi + e) * (mi + e) <= h * (s + (4 * e + 1))) by (nonlinear_arith)
                requires
                    mi * mi < (s + 1) * h,
                    2 * mi <= 3 * h,
                    0 <= e <= h,
            {
                assert((mi + e) * (mi + e) == mi * mi + 2 * mi * e + e * e);
                assert(2 * mi * e <= 3 * h * e);
                assert(e * e <= h * e);
            }
            assert(step == h * (s + (4 * e + 1))) by (nonlinear_arith)
                requires
                    step == 1 * h * (s + (4 * e + 1)),
            ;
        } else {
            assert((mi + e) * (mi + e) <= 2 * h * (next + (4 * e + 1))) by (nonlinear_arith)
                requires
                    mi * mi < (s + 1) * h,
                    s <= 2 * next + 1,
                    mi < 2 * h,
                    0 <= e <= h,
                    mi >= 0,
            {
                assert((mi + e) * (mi + e) == mi * mi + 2 * mi * e + e * e);
                assert(2 * mi * e <= 4 * h * e);
                assert(e * e <= h * e);
                assert((s + 1) * h <= (2 * next + 2) * h);
            }
        }
        assert(0 <= (mi + e) * (mi + e) <= step);
        let d = (r - acc2 * q) as nat;
        assert(acc2 * q == acc * (2 * q) + b * q) by (nonlinear_arith)
            requires
                acc2 == 2 * acc + b,
        ;
        assert(b * q == (if b == 1 { q } else { 0 })) by (nonlinear_arith)
            requires
                b == 0 || b == 1,
        ;
        let bq: nat = if b == 1 { q } else { 0 };
        assert(r - acc * pow2(k) == d + bq);
        lemma_pow2_adds(d, bq);
        assert(pow2(bq) == pow(two_b, q)) by {
            if b == 1 {
                lemma_pow2(q);
            } else {
                lemma1_pow(q);
            }
        }
        lemma_pow_adds(h, q, q);
        lemma_square_is_pow2(mi + e);
        lemma_pow_multiplies(mi + e, 2, q);
        assert(pow(mi + e, pow2(k)) == pow((mi + e) * (mi + e), q));
        lemma_pow_distributes(two_b * h, (next + err2) as int, q);
        lemma_pow_distributes(two_b, h, q);
        lemma_pow_base_monotone((mi + e) * (mi + e), step, q);
        lemma_pow_positive(h, q);
        lemma_pow_positive(two_b, q);
        let pd = pow2(d) as int;
        let ph = pow(h, q);
        let pn = pow((next + err2) as int, q);
        let pb = pow(two_b, q);
        assert(pow(step, q) == pb * ph * pn);
        assert(pb * ph * pn <= 4 * (pd * pb) * (ph * ph)) by (nonlinear_arith)
            requires
                pn <= 4 * pd * ph,
                pb > 0,
                ph > 0,
        {
            assert((pb * ph) * pn <= (pb * ph) * (4 * pd * ph));
        }
        assert(4 * pow2((d + bq) as nat) * pow(h, pow2(k)) == 4 * (pd * pb) * (ph * ph))
            by (nonlinear_arith)
            requires
                pow2((d + bq) as nat) == pd * pb,
                pow(h, pow2(k)) == ph * ph,
        ;
    }
}

/// The fixed-point logarithm is within two units of the last place of the
/// true one: `x^(2^56) <= 2^(log2_fixed(x) + 2)`, that is
/// `log2(x) <= (log2_fixed(x) + 2) / 2^56`.
pub proof fn lemma_log2_above(x: nat)
    requires
        0 < x < 2 * HALF,
    ensures
        pow(x as int, pow2(56)) <= pow2(log2_fixed(x) + 2),
{
    lemma2_to64();
    lemma_pow2_values();
    lemma_mantissa_closed_form(x);
    let e = floor_log2(x);
    let sh = (126 - e) as nat;
    let q = pow2(56);
    let m = mantissa(x);
    let r = frac_acc(m, FRAC_BITS as nat, 0);
    let h = HALF as int;
    assert((3 * 0 + 1) * pow2(2 * 56) <= 6 * HALF) by (nonlinear_arith)
        requires
            pow2(2 * 56) == LOG_ONE * LOG_ONE,
            LOG_ONE == 0x100_0000_0000_0000,
            HALF == 0x4000_0000_0000_0000_0000_0000_0000_0000,
    ;
    lemma_frac_above(m, 56, 0, 0);
    assert(0 * pow2(56) == 0);
    lemma_pow_distributes(x as int, pow2(sh) as int, q);
    lemma_pow2_adds(e, sh);
    lemma_pow_distributes(pow2(e) as int, pow2(sh) as int, q);
    lemma_pow2(e);
    lemma_pow_multiplies(2, e, q);
    lemma_pow2(e * q);
    lemma_pow2_adds(e * q, r);
    lemma_pow2_adds(e * q + r, 2);
    lemma_pow2_pos(sh);
    lemma_pow_positive(pow2(sh) as int, q);
    let c = pow(pow2(sh) as int, q);
    let pe = pow2(e * q) as int;
    let pr = pow2(r) as int;
    let px = pow(x as int, q);
    assert(pow(h, q) == pe * c);
    assert(pow(m as int, q) == px * c);
    assert(px <= 4 * (pe * pr)) by (nonlinear_arith)
        requires
            px * c <= 4 * pr * (pe * c),
            c > 0,
    {
        assert(px * c <= (4 * (pe * pr)) * c);
    }
    assert(log2_fixed(x) == e * q + r) by (nonlinear_arith)
        requires
            log2_fixed(x) == e * 0x100_0000_0000_0000 + r,
            q == 0x100_0000_0000_0000,
    ;
}

/// Computes the fixed-point binary logarithm of a positive number.
pub fn log2_fixed_of(x: u64) -> (r: u64)
    requires
        x > 0,
    ensures
        r == log2_fixed(x as nat),
{
    let mut t: u64 = x;
    let mut e: u64 = 0;
    while t > 1
        invariant
            t >= 1,
            e + t <= x,
            floor_log2(x as nat) == e + floor_log2(t as nat),
        decreases t,
    {
        t = t / 2;
        e = e + 1;
    }
    let mut m: u128 = x as u128;
    while m < HALF
        invariant
            0 < m < 2 * HALF,
            mantissa(m as nat) == mantissa(x as nat),
        decreases 2 * HALF - m,
    {
        m = 2 * m;
    }
    proof {
        lemma_log2_bounds(x as nat);
        lemma_frac_bounds(mantissa(x as nat), FRAC_BITS as nat, 0);
        lemma2_to64();
        lemma_pow2_values();
    }
    let mut acc: u64 = 0;
    let mut k: u32 = FRAC_BITS;
    while k > 0
        invariant
            HALF <= m < 2 * HALF,
            k <= FRAC_BITS,
            frac_acc(m as nat, k as nat, acc as nat) == frac_acc(
                mantissa(x as nat),
                FRAC_BITS as nat,
                0,
            ),
            frac_acc(mantissa(x as nat), FRAC_BITS as nat, 0) < LOG_ONE,
        decreases k,
    {
        proof {
            lemma_frac_bounds(m as nat, k as nat, acc as nat);
            lemma_pow2_pos(k as nat);
            assert(acc <= acc * pow2(k as nat)) by (nonlinear_arith)
                requires
                    pow2(k as nat) >= 1,
            ;
            assert(HALF * HALF <= m * m < 4 * HALF * HALF) by (nonlinear_arith)
                requires
                    HALF <= m < 2 * HALF,
            ;
        }
        let (hi, lo) = mul_wide(m, m);
        proof {
            assert(hi < HALF) by (nonlinear_arith)
                requires
                    hi * (4 * HALF) + lo == m * m,
                    m * m < 4 * HALF * HALF,
                    lo >= 0,
                    HALF > 0,
            {
                if hi >= HALF {
                    assert(hi * (4 * HALF) >= HALF * (4 * HALF));
                }
            }
            assert((m * m) as int / (HALF as int) == 4 * hi + lo as int / (HALF as int)) by {
                assert(m * m == (4 * hi) * HALF + lo);
            }
        }
        let s: u128 = 4 * hi + lo / HALF;
        if s >= 2 * HALF {
            m = s / 2;
            acc = 2 * acc + 1;
        } else {
            m = s;
            acc = 2 * acc;
        }
        k = k - 1;
    }
    proof {
        assert(e * LOG_ONE <= 63 * LOG_ONE) by (nonlinear_arith)
            requires
                e <= 63,
        ;
    }
    e * LOG_ONE + acc
}

} // verus!
