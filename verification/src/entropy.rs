//! How large entropy gets: never more than the logarithm of the number of
//! classes, up to the precision of the fixed-point logarithm.

use vstd::prelude::*;
use vstd::arithmetic::power::{
    pow, lemma_pow0, lemma_pow1, lemma_pow_adds, lemma_pow_multiplies, lemma_pow_distributes,
    lemma_pow_positive,
};
use vstd::arithmetic::power::lemma1_pow;
use vstd::arithmetic::power2::{
    pow2, lemma_pow2, lemma_pow2_adds, lemma_pow2_strictly_increases, lemma2_to64,
};
use crate::criterion::SplitCriterion;
use crate::impurity::{
    total, sum_logs, log_weight, mass_num, impurity_num, impurity_den, lemma_total_bounds,
    lemma_sum_logs_bound,
};
use crate::log2::{
    log2_fixed, lemma_pow_base_monotone, lemma_log2_below, lemma_log2_above, LOG_ONE, HALF,
};
use crate::ratio::frac_le;

verus! {

/// `Π c_i^c_i` over the counts, with `0^0 = 1`.
pub open spec fn self_powers(counts: Seq<usize>) -> int
    decreases counts.len(),
{
    if counts.len() == 0 {
        1
    } else {
        self_powers(counts.drop_last()) * pow(counts.last() as int, counts.last() as nat)
    }
}

/// Powers of non-negative numbers are non-negative.
proof fn lemma_pow_nonneg(a: int, e: nat)
    requires
        a >= 0,
    ensures
        pow(a, e) >= 0,
{
    lemma_pow_base_monotone(0, a, e);
}

/// `pow(a, e + 1) == a * pow(a, e)`.
proof fn lemma_pow_succ(a: int, e: nat)
    ensures
        pow(a, e + 1) == a * pow(a, e),
{
    lemma_pow_adds(a, 1, e);
    lemma_pow1(a);
}

/// Bernoulli's inequality: `(a + d)^m >= a^(m-1) · (a + m·d)`.
proof fn lemma_bernoulli(a: int, d: int, m: nat)
    requires
        a >= 0,
        a + d >= 0,
        m >= 1,
    ensures
        pow(a + d, m) >= pow(a, (m - 1) as nat) * (a + m * d),
    decreases m,
{
    if m == 1 {
        lemma_pow1(a + d);
        lemma_pow0(a);
        assert(1 * (a + 1 * d) == a + d);
    } else {
        let j = (m - 1) as nat;
        lemma_bernoulli(a, d, j);
        lemma_pow_succ(a + d, j);
        lemma_pow_succ(a, (j - 1) as nat);
        lemma_pow_nonneg(a, (j - 1) as nat);
        let p = pow(a + d, j);
        let a2 = pow(a, (j - 1) as nat);
        let b = a + j * d;
        assert((a + d) * p >= (a * a2) * (a + m * d)) by (nonlinear_arith)
            requires
                p >= a2 * b,
                b == a + j * d,
                m == j + 1,
                a >= 0,
                a + d >= 0,
                a2 >= 0,
                j >= 1,
        {
            assert((a + d) * p >= (a + d) * (a2 * b));
            assert((a + d) * b == a * a + m * (a * d) + j * (d * d));
            assert(j * (d * d) >= 0);
            assert((a + d) * b >= a * (a + m * d));
            assert(a2 * ((a + d) * b) >= a2 * (a * (a + m * d)));
        }
    }
}

/// Adding a term `y` to `n` terms of sum `s`:
/// `(s + y)^(n+1) · n^n >= (n+1)^(n+1) · s^n · y`.
proof fn lemma_mean_step(s: int, y: int, n: nat)
    requires
        s >= 0,
        y >= 0,
        n >= 1,
    ensures
        pow(s + y, n + 1) * pow(n as int, n) >= pow((n + 1) as int, n + 1) * pow(s, n) * y,
{
    let ni = n as int;
    let a = (ni + 1) * s;
    let d = ni * y - s;
    assert(a >= 0 && a + d == ni * (s + y) && a + (ni + 1) * d == (ni + 1) * (ni * y)
        && ni * (s + y) >= 0) by (nonlinear_arith)
        requires
            a == (ni + 1) * s,
            d == ni * y - s,
            s >= 0,
            y >= 0,
            ni >= 1,
    ;
    lemma_bernoulli(a, d, n + 1);
    lemma_pow_distributes(ni, s + y, n + 1);
    lemma_pow_distributes(ni + 1, s, n);
    lemma_pow_succ(ni, n);
    lemma_pow_succ(ni + 1, n);
    lemma_pow_nonneg(s + y, n + 1);
    lemma_pow_nonneg(s, n);
    lemma_pow_positive(ni, n);
    lemma_pow_positive(ni + 1, n);
    let pt = pow(s + y, n + 1);
    let pn = pow(ni, n);
    let pm = pow(ni + 1, n);
    let ps = pow(s, n);
    assert(pt * pn >= ((ni + 1) * pm) * ps * y) by (nonlinear_arith)
        requires
            (ni * pn) * pt >= (pm * ps) * ((ni + 1) * (ni * y)),
            ni >= 1,
    {
        assert((pm * ps) * ((ni + 1) * (ni * y)) == ni * (((ni + 1) * pm) * ps * y));
        assert((ni * pn) * pt == ni * (pt * pn));
    }
}

/// The weighted inequality of the arithmetic and geometric means, for
/// whole weights: `(p+q)^(p+q) · x^p · y^q <= (p·x + q·y)^(p+q)`.
proof fn lemma_weighted_means(x: int, y: int, p: nat, q: nat)
    requires
        x >= 0,
        y >= 0,
    ensures
        pow((p + q) as int, p + q) * pow(x, p) * pow(y, q) <= pow(p * x + q * y, p + q),
    decreases q,
{
    if q == 0 {
        lemma_pow0(y);
        lemma_pow_distributes(p as int, x, p);
        assert(pow(p as int, p) * pow(x, p) * 1 == pow(p as int, p) * pow(x, p));
    } else {
        let r = (q - 1) as nat;
        let n = (p + r) as nat;
        let s = p * x + r * y;
        lemma_weighted_means(x, y, p, r);
        lemma_pow_succ(y, r);
        lemma_pow_nonneg(x, p);
        lemma_pow_nonneg(y, r);
        assert(s >= 0 && s + y == p * x + q * y) by (nonlinear_arith)
            requires
                s == p * x + r * y,
                q == r + 1,
                x >= 0,
                y >= 0,
        ;
        let px = pow(x, p);
        let py = pow(y, r);
        if n == 0 {
            lemma_pow1(1);
            lemma_pow1(s + y);
            lemma_pow0(x);
            lemma_pow0(y);
            assert(s == 0) by (nonlinear_arith)
                requires
                    s == p * x + r * y,
                    p == 0,
                    r == 0,
            ;
            assert(1 * 1 * (y * 1) == y);
        } else {
            lemma_mean_step(s, y, n);
            lemma_pow_positive(n as int, n);
            let pn = pow(n as int, n);
            let pm = pow((n + 1) as int, n + 1);
            let ps = pow(s, n);
            let pt = pow(s + y, n + 1);
            lemma_pow_nonneg(s, n);
            lemma_pow_nonneg((n + 1) as int, n + 1);
            assert(pm * px * (y * py) <= pt) by (nonlinear_arith)
                requires
                    pt * pn >= pm * ps * y,
                    pn * px * py <= ps,
                    pn > 0,
                    pm >= 0,
                    y >= 0,
                    px >= 0,
                    py >= 0,
            {
                assert(pm * y >= 0);
                assert((pm * y) * (pn * px * py) <= (pm * y) * ps);
                assert((pm * px * (y * py)) * pn == (pm * y) * (pn * px * py));
                assert((pm * px * (y * py)) * pn <= pt * pn);
            }
        }
    }
}

/// One more class of `c` samples beside `n` samples in `k` classes:
/// `(n+c)^(n+c) · k^n <= (k+1)^(n+c) · n^n · c^c`.
proof fn lemma_one_more_class(n: nat, c: nat, k: nat)
    ensures
        pow((n + c) as int, n + c) * pow(k as int, n) <= pow((k + 1) as int, n + c) * pow(
            n as int,
            n,
        ) * pow(
            c as int,
            c,
        ),
{
    let ni = n as int;
    let ci = c as int;
    let ki = k as int;
    lemma_pow_nonneg(ni, n);
    lemma_pow_positive(ki + 1, n + c);
    if c == 0 {
        lemma_pow0(ci);
        lemma_pow_base_monotone(ki, ki + 1, n);
        let a = pow(ni, n);
        let b = pow(ki, n);
        let d = pow(ki + 1, n);
        assert(a * b <= d * a * 1) by (nonlinear_arith)
            requires
                a >= 0,
                0 <= b <= d,
        ;
    } else if n == 0 {
        lemma_pow0(ni);
        lemma_pow0(ki);
        lemma_pow_nonneg(ci, c);
        let a = pow(ci, c);
        let d = pow(ki + 1, c);
        assert(a * 1 <= d * 1 * a) by (nonlinear_arith)
            requires
                a >= 0,
                d >= 1,
        ;
    } else {
        let x = ki * ci;
        let y = ni;
        assert(x >= 0 && ni * x + ci * y == (ni * ci) * (ki + 1)) by (nonlinear_arith)
            requires
                x == ki * ci,
                y == ni,
                ki >= 0,
                ci >= 0,
        ;
        lemma_weighted_means(x, y, n, c);
        lemma_pow_distributes(ki, ci, n);
        lemma_pow_distributes(ni * ci, ki + 1, n + c);
        lemma_pow_distributes(ni, ci, n + c);
        lemma_pow_adds(ni, n, c);
        lemma_pow_adds(ci, n, c);
        lemma_pow_positive(ni, c);
        lemma_pow_positive(ci, n);
        lemma_pow_nonneg(ki, n);
        lemma_pow_nonneg(ci, c);
        let t = pow((n + c) as int, n + c);
        let pk = pow(ki, n);
        let pcn = pow(ci, n);
        let pnc = pow(ni, c);
        let pnn = pow(ni, n);
        let pcc = pow(ci, c);
        let pk1 = pow(ki + 1, n + c);
        assert(t * pk <= pk1 * pnn * pcc) by (nonlinear_arith)
            requires
                t * (pk * pcn) * pnc <= ((pnn * pnc) * (pcn * pcc)) * pk1,
                pcn > 0,
                pnc > 0,
        {
            assert(t * (pk * pcn) * pnc == (t * pk) * (pcn * pnc));
            assert(((pnn * pnc) * (pcn * pcc)) * pk1 == (pk1 * pnn * pcc) * (pcn * pnc));
            assert(pcn * pnc > 0);
        }
    }
}

/// Gibbs' inequality in whole numbers: for `n` samples in `k` classes,
/// `n^n <= k^n · Π c_i^c_i`.
pub proof fn lemma_gibbs(counts: Seq<usize>)
    ensures
        total(counts) >= 0,
        self_powers(counts) > 0,
        counts.len() == 0 ==> total(counts) == 0,
        pow(total(counts), total(counts) as nat) <= pow(
            counts.len() as int,
            total(counts) as nat,
        ) * self_powers(counts),
    decreases counts.len(),
{
    if counts.len() == 0 {
        lemma_pow0(0);
    } else {
        let rest = counts.drop_last();
        let c = counts.last() as nat;
        lemma_gibbs(rest);
        let n = total(rest) as nat;
        let k = rest.len();
        lemma_one_more_class(n, c, k);
        if c > 0 {
            lemma_pow_positive(c as int, c);
        } else {
            lemma_pow0(0);
        }
        if k > 0 {
            lemma_pow_positive(k as int, n);
        } else {
            lemma_pow0(0);
        }
        lemma_pow_nonneg((k + 1) as int, n + c);
        let t = pow((n + c) as int, n + c);
        let pk = pow(k as int, n);
        let pk1 = pow((k + 1) as int, n + c);
        let pnn = pow(n as int, n);
        let pcc = pow(c as int, c);
        let sp = self_powers(rest);
        assert(sp * pcc > 0 && t <= pk1 * (sp * pcc)) by (nonlinear_arith)
            requires
                t * pk <= pk1 * pnn * pcc,
                pnn <= pk * sp,
                pk > 0,
                pcc > 0,
                sp > 0,
                pk1 >= 0,
        {
            assert(pk1 * pnn * pcc <= pk1 * (pk * sp) * pcc) by {
                assert(pk1 * pcc >= 0);
                assert((pk1 * pcc) * pnn <= (pk1 * pcc) * (pk * sp));
            }
            assert(pk1 * (pk * sp) * pcc == (pk1 * (sp * pcc)) * pk);
            assert(t * pk <= (pk1 * (sp * pcc)) * pk);
        }
    }
}

/// `2^(e·n) == (2^e)^n`.
proof fn lemma_pow2_of_product(e: nat, n: nat)
    ensures
        e * n >= 0,
        pow2(e * n) == pow(pow2(e) as int, n),
{
    lemma_pow2(e);
    lemma_pow2(e * n);
    lemma_pow_multiplies(2, e, n);
}

/// `(a^b)^c == (a^c)^b`.
proof fn lemma_pow_swap(a: int, b: nat, c: nat)
    ensures
        pow(pow(a, b), c) == pow(pow(a, c), b),
{
    lemma_pow_multiplies(a, b, c);
    lemma_pow_multiplies(a, c, b);
    assert(b * c == c * b) by (nonlinear_arith);
}

/// The logarithm of a product is at least the sum of the logarithms, up
/// to two units of the last place.
pub proof fn lemma_log2_of_product(a: nat, b: nat)
    requires
        0 < a,
        0 < b,
        a * b < 2 * HALF,
    ensures
        log2_fixed(a) + log2_fixed(b) <= log2_fixed(a * b) + 2,
{
    let q = pow2(56);
    assert(a < 2 * HALF && b < 2 * HALF && 0 < a * b) by (nonlinear_arith)
        requires
            0 < a,
            0 < b,
            a * b < 2 * HALF,
    ;
    lemma_log2_below(a);
    lemma_log2_below(b);
    lemma_log2_above(a * b);
    lemma_pow2_adds(log2_fixed(a), log2_fixed(b));
    lemma_pow_distributes(a as int, b as int, q);
    lemma_pow_nonneg(a as int, q);
    lemma_pow_nonneg(b as int, q);
    let x = pow2(log2_fixed(a)) as int;
    let y = pow2(log2_fixed(b)) as int;
    let xx = pow(a as int, q);
    let yy = pow(b as int, q);
    assert(x * y <= xx * yy) by (nonlinear_arith)
        requires
            0 <= x <= xx,
            0 <= y <= yy,
    ;
    if log2_fixed(a) + log2_fixed(b) > log2_fixed(a * b) + 2 {
        lemma_pow2_strictly_increases(log2_fixed(a * b) + 2, log2_fixed(a) + log2_fixed(b));
    }
}

/// `(Π c_i^c_i)^(2^56) <= 2^(Σ c_i·log2(c_i) + 2·Σ c_i)`: the sum of the
/// logarithms falls short of the true one by at most two units per sample.
proof fn lemma_self_powers_below(counts: Seq<usize>)
    ensures
        sum_logs(counts) >= 0,
        total(counts) >= 0,
        self_powers(counts) > 0,
        pow(self_powers(counts), pow2(56)) <= pow2((sum_logs(counts) + 2 * total(counts)) as nat),
    decreases counts.len(),
{
    let q = pow2(56);
    lemma2_to64();
    lemma_gibbs(counts);
    lemma_total_bounds(counts, 0);
    if counts.len() == 0 {
        lemma1_pow(q);
    } else {
        let rest = counts.drop_last();
        let c = counts.last() as nat;
        lemma_self_powers_below(rest);
        lemma_gibbs(rest);
        let sp = self_powers(rest);
        let pcc = pow(c as int, c);
        lemma_pow_distributes(sp, pcc, q);
        lemma_pow_nonneg(sp, q);
        let e1 = (sum_logs(rest) + 2 * total(rest)) as nat;
        let l = log2_fixed(c);
        assert(log_weight()(counts.last()) == c * l);
        if c == 0 {
            lemma_pow0(0);
            lemma1_pow(q);
            assert(c * l == 0) by (nonlinear_arith)
                requires
                    c == 0,
            ;
            assert(pow(sp, q) * 1 == pow(sp, q));
        } else {
            lemma_log2_above(c);
            lemma_pow_swap(c as int, c, q);
            lemma_pow_nonneg(c as int, q);
            lemma_pow_base_monotone(pow(c as int, q), pow2(l + 2) as int, c);
            lemma_pow2_of_product(l + 2, c);
            assert((l + 2) * c == c * l + 2 * c) by (nonlinear_arith);
            let e2 = (c * l + 2 * c) as nat;
            lemma_pow2_adds(e1, e2);
            let a = pow(sp, q);
            let b = pow(pcc, q);
            let aa = pow2(e1) as int;
            let bb = pow2(e2) as int;
            lemma_pow_nonneg(c as int, c);
            lemma_pow_nonneg(pcc, q);
            assert(a * b <= aa * bb) by (nonlinear_arith)
                requires
                    0 <= a <= aa,
                    0 <= b <= bb,
            ;
        }
    }
}

/// Entropy never exceeds the logarithm of the number of classes by more
/// than four units of the last place of the logarithm: over `k` classes,
/// `entropy <= (log2_fixed(k) + 4) / 2^56`.
pub proof fn lemma_entropy_at_most_log_classes(counts: Seq<usize>, n: usize)
    requires
        n > 0,
        total(counts) == n,
        counts.len() <= usize::MAX,
    ensures
        impurity_num(SplitCriterion::Entropy, counts, n as int) <= n * (log2_fixed(
            counts.len(),
        ) + 4),
        frac_le(
            impurity_num(SplitCriterion::Entropy, counts, n as int),
            impurity_den(SplitCriterion::Entropy, n as int),
            (log2_fixed(counts.len()) + 4) as int,
            LOG_ONE as int,
        ),
{
    let q = pow2(56);
    let m = n as nat;
    let k = counts.len();
    let ln = log2_fixed(m);
    let lk = log2_fixed(k);
    let sl = sum_logs(counts);
    lemma2_to64();
    lemma_gibbs(counts);
    lemma_self_powers_below(counts);
    assert(k > 0);
    lemma_log2_below(m);
    lemma_log2_above(k);
    // 2^(ln m) = (2^ln)^m <= (m^q)^m = (m^m)^q
    lemma_pow2_of_product(ln, m);
    lemma_pow_base_monotone(pow2(ln) as int, pow(m as int, q), m);
    lemma_pow_swap(m as int, q, m);
    // (m^m)^q <= (k^m sp)^q = (k^q)^m sp^q
    let sp = self_powers(counts);
    lemma_pow_nonneg(m as int, m);
    lemma_pow_base_monotone(pow(m as int, m), pow(k as int, m) * sp, q);
    lemma_pow_distributes(pow(k as int, m), sp, q);
    lemma_pow_swap(k as int, m, q);
    // (k^q)^m <= (2^(lk + 2))^m = 2^((lk + 2) m)
    lemma_pow_nonneg(k as int, q);
    lemma_pow_base_monotone(pow(k as int, q), pow2(lk + 2) as int, m);
    lemma_pow2_of_product(lk + 2, m);
    let e1 = ((lk + 2) * m) as nat;
    let e2 = (sl + 2 * m) as nat;
    lemma_pow2_adds(e1, e2);
    lemma_pow_nonneg(sp, q);
    let a = pow(pow(k as int, q), m);
    let b = pow(sp, q);
    let aa = pow2(e1) as int;
    let bb = pow2(e2) as int;
    lemma_pow_nonneg(pow(k as int, q), m);
    assert(a * b <= aa * bb) by (nonlinear_arith)
        requires
            0 <= a <= aa,
            0 <= b <= bb,
    ;
    assert(pow2(ln * m) <= pow2(e1 + e2));
    if ln * m > e1 + e2 {
        lemma_pow2_strictly_increases(e1 + e2, ln * m);
    }
    assert(m * ln - sl <= m * (lk + 4)) by (nonlinear_arith)
        requires
            ln * m <= e1 + e2,
            e1 == (lk + 2) * m,
            e2 == sl + 2 * m,
    ;
    let num = impurity_num(SplitCriterion::Entropy, counts, n as int);
    assert(num * LOG_ONE <= (lk + 4) * (LOG_ONE * n)) by (nonlinear_arith)
        requires
            num <= n * (lk + 4),
    ;
}

/// `2^(Σ c_i·log2(c_i)) <= (Π c_i^c_i)^(2^56)`: the sum of the logarithms
/// never exceeds the true one.
proof fn lemma_self_powers_above(counts: Seq<usize>)
    ensures
        sum_logs(counts) >= 0,
        self_powers(counts) > 0,
        pow2(sum_logs(counts) as nat) <= pow(self_powers(counts), pow2(56)),
    decreases counts.len(),
{
    let q = pow2(56);
    lemma2_to64();
    lemma_gibbs(counts);
    lemma_total_bounds(counts, 0);
    if counts.len() == 0 {
        lemma1_pow(q);
    } else {
        let rest = counts.drop_last();
        let c = counts.last() as nat;
        lemma_self_powers_above(rest);
        lemma_gibbs(rest);
        let sp = self_powers(rest);
        let pcc = pow(c as int, c);
        lemma_pow_distributes(sp, pcc, q);
        let e1 = sum_logs(rest) as nat;
        let l = log2_fixed(c);
        assert(log_weight()(counts.last()) == c * l);
        if c == 0 {
            lemma_pow0(0);
            lemma1_pow(q);
            assert(c * l == 0) by (nonlinear_arith)
                requires
                    c == 0,
            ;
            assert(pow(sp, q) * 1 == pow(sp, q));
        } else {
            lemma_number_power(c);
            let e2 = (c * l) as nat;
            lemma_pow2_adds(e1, e2);
            let a = pow2(e1) as int;
            let b = pow2(e2) as int;
            let aa = pow(sp, q);
            let bb = pow(pcc, q);
            assert(a * b <= aa * bb) by (nonlinear_arith)
                requires
                    0 <= a <= aa,
                    0 <= b <= bb,
            ;
        }
    }
}

/// `2^(m·log2(m)) <= (m^m)^(2^56) <= 2^(m·log2(m) + 2·m)` in fixed point.
proof fn lemma_number_power(m: nat)
    requires
        m < 2 * HALF,
    ensures
        m * log2_fixed(m) >= 0,
        pow(m as int, m) > 0,
        pow2(m * log2_fixed(m)) <= pow(pow(m as int, m), pow2(56)),
        pow(pow(m as int, m), pow2(56)) <= pow2(m * log2_fixed(m) + 2 * m),
{
    let q = pow2(56);
    let l = log2_fixed(m);
    lemma2_to64();
    assert(m * l >= 0) by (nonlinear_arith)
        requires
            m >= 0,
            l >= 0,
    ;
    if m == 0 {
        lemma_pow0(0);
        lemma1_pow(q);
        assert(m * l == 0 && m * l + 2 * m == 0) by (nonlinear_arith)
            requires
                m == 0,
        ;
    } else {
        lemma_pow_positive(m as int, m);
        lemma_log2_below(m);
        lemma_log2_above(m);
        lemma_pow_swap(m as int, m, q);
        lemma_pow_nonneg(m as int, q);
        lemma_pow_base_monotone(pow2(l) as int, pow(m as int, q), m);
        lemma_pow_base_monotone(pow(m as int, q), pow2(l + 2) as int, m);
        lemma_pow2_of_product(l, m);
        lemma_pow2_of_product(l + 2, m);
        assert(l * m == m * l && (l + 2) * m == m * l + 2 * m) by (nonlinear_arith);
    }
}

/// From a comparison of products to a comparison of exponents: if each
/// `2^e_i <= u_i^q`, each `v_i^q <= 2^g_i`, and `u_1 u_2 u_3 <= v_1 v_2 v_3`,
/// then `e_1 + e_2 + e_3 <= g_1 + g_2 + g_3`.
proof fn lemma_exponents(
    e: (nat, nat, nat),
    u: (int, int, int),
    v: (int, int, int),
    g: (nat, nat, nat),
    q: nat,
)
    requires
        u.0 >= 0 && u.1 >= 0 && u.2 >= 0,
        v.0 >= 0 && v.1 >= 0 && v.2 >= 0,
        pow2(e.0) <= pow(u.0, q) && pow2(e.1) <= pow(u.1, q) && pow2(e.2) <= pow(u.2, q),
        pow(v.0, q) <= pow2(g.0) && pow(v.1, q) <= pow2(g.1) && pow(v.2, q) <= pow2(g.2),
        u.0 * u.1 * u.2 <= v.0 * v.1 * v.2,
    ensures
        e.0 + e.1 + e.2 <= g.0 + g.1 + g.2,
{
    lemma_pow2_adds(e.0, e.1);
    lemma_pow2_adds(e.0 + e.1, e.2);
    lemma_pow2_adds(g.0, g.1);
    lemma_pow2_adds(g.0 + g.1, g.2);
    lemma_pow_distributes(u.0, u.1, q);
    lemma_pow_distributes(u.0 * u.1, u.2, q);
    lemma_pow_distributes(v.0, v.1, q);
    lemma_pow_distributes(v.0 * v.1, v.2, q);
    assert(u.0 * u.1 * u.2 >= 0) by (nonlinear_arith)
        requires
            u.0 >= 0 && u.1 >= 0 && u.2 >= 0,
    ;
    lemma_pow_base_monotone(u.0 * u.1 * u.2, v.0 * v.1 * v.2, q);
    lemma_pow_nonneg(v.0, q);
    lemma_pow_nonneg(v.1, q);
    lemma_pow_nonneg(v.2, q);
    let a0 = pow2(e.0) as int;
    let a1 = pow2(e.1) as int;
    let a2 = pow2(e.2) as int;
    let b0 = pow(u.0, q);
    let b1 = pow(u.1, q);
    let b2 = pow(u.2, q);
    let c0 = pow(v.0, q);
    let c1 = pow(v.1, q);
    let c2 = pow(v.2, q);
    let d0 = pow2(g.0) as int;
    let d1 = pow2(g.1) as int;
    let d2 = pow2(g.2) as int;
    assert(a0 * a1 * a2 <= b0 * b1 * b2) by (nonlinear_arith)
        requires
            0 <= a0 <= b0,
            0 <= a1 <= b1,
            0 <= a2 <= b2,
    {
        assert(a0 * a1 <= b0 * b1);
        assert(0 <= a0 * a1);
    }
    assert(c0 * c1 * c2 <= d0 * d1 * d2) by (nonlinear_arith)
        requires
            0 <= c0 <= d0,
            0 <= c1 <= d1,
            0 <= c2 <= d2,
    {
        assert(c0 * c1 <= d0 * d1);
        assert(0 <= c0 * c1);
    }
    assert(pow2(e.0 + e.1 + e.2) <= pow2(g.0 + g.1 + g.2));
    if e.0 + e.1 + e.2 > g.0 + g.1 + g.2 {
        lemma_pow2_strictly_increases(g.0 + g.1 + g.2, e.0 + e.1 + e.2);
    }
}

/// One class with `l` samples on one side and `r` on the other, beside
/// sides of `a` and `b` samples:
/// `(l+r)^(l+r) · a^l · b^r <= l^l · r^r · (a+b)^(l+r)`,
/// with equality when the class has the proportions of the sides.
proof fn lemma_class_share(l: nat, r: nat, a: nat, b: nat)
    ensures
        pow((l + r) as int, l + r) * pow(a as int, l) * pow(b as int, r) <= pow(l as int, l) * pow(
            r as int,
            r,
        ) * pow((a + b) as int, l + r),
        l * b == r * a ==> pow((l + r) as int, l + r) * pow(a as int, l) * pow(b as int, r) == pow(
            l as int,
            l,
        ) * pow(r as int, r) * pow((a + b) as int, l + r),
{
    let li = l as int;
    let ri = r as int;
    let ai = a as int;
    let bi = b as int;
    let t = pow(li + ri, l + r);
    let pal = pow(ai, l);
    let pbr = pow(bi, r);
    let pll = pow(li, l);
    let prr = pow(ri, r);
    let pc = pow(ai + bi, l + r);
    lemma_pow_nonneg(li + ri, l + r);
    lemma_pow_nonneg(ai, l);
    lemma_pow_nonneg(bi, r);
    lemma_pow_nonneg(li, l);
    lemma_pow_nonneg(ri, r);
    lemma_pow_nonneg(ai + bi, l + r);
    lemma_pow_adds(ai + bi, l, r);
    lemma_pow_adds(li + ri, l, r);
    let pcl = pow(ai + bi, l);
    let pcr = pow(ai + bi, r);
    let tl = pow(li + ri, l);
    let tr = pow(li + ri, r);
    lemma_pow_nonneg(ai + bi, l);
    lemma_pow_nonneg(ai + bi, r);
    lemma_pow_nonneg(li + ri, l);
    lemma_pow_nonneg(li + ri, r);
    if li * bi == ri * ai {
        // l (a + b) = a (l + r) and r (a + b) = b (l + r)
        assert(li * (ai + bi) == ai * (li + ri) && ri * (ai + bi) == bi * (li + ri))
            by (nonlinear_arith)
            requires
                li * bi == ri * ai,
        ;
        lemma_pow_distributes(li, ai + bi, l);
        lemma_pow_distributes(ai, li + ri, l);
        lemma_pow_distributes(ri, ai + bi, r);
        lemma_pow_distributes(bi, li + ri, r);
        assert(pll * pcl == pal * tl);
        assert(prr * pcr == pbr * tr);
        assert((tl * tr) * pal * pbr == pll * prr * (pcl * pcr)) by (nonlinear_arith)
            requires
                pll * pcl == pal * tl,
                prr * pcr == pbr * tr,
        {
            assert((pal * tl) * (pbr * tr) == (pll * pcl) * (prr * pcr));
        }
    } else if l == 0 {
        lemma_pow0(li);
        lemma_pow0(ai);
        lemma_pow_base_monotone(bi, ai + bi, r);
        assert(t * 1 * pbr <= 1 * prr * pc) by (nonlinear_arith)
            requires
                t == prr,
                0 <= pbr <= pc,
                prr >= 0,
        ;
    } else if r == 0 {
        lemma_pow0(ri);
        lemma_pow0(bi);
        lemma_pow_base_monotone(ai, ai + bi, l);
        assert(t * pal * 1 <= pll * 1 * pc) by (nonlinear_arith)
            requires
                t == pll,
                0 <= pal <= pc,
                pll >= 0,
        ;
    } else {
        let x = ai * ri;
        let y = bi * li;
        assert(x >= 0 && y >= 0 && li * x + ri * y == (li * ri) * (ai + bi)) by (nonlinear_arith)
            requires
                x == ai * ri,
                y == bi * li,
                ai >= 0,
                bi >= 0,
                li >= 0,
                ri >= 0,
        ;
        lemma_weighted_means(x, y, l, r);
        lemma_pow_distributes(ai, ri, l);
        lemma_pow_distributes(bi, li, r);
        lemma_pow_distributes(li * ri, ai + bi, l + r);
        lemma_pow_distributes(li, ri, l + r);
        lemma_pow_adds(li, l, r);
        lemma_pow_adds(ri, l, r);
        lemma_pow_positive(li, r);
        lemma_pow_positive(ri, l);
        let plr = pow(li, r);
        let prl = pow(ri, l);
        assert(t * pal * pbr <= pll * prr * pc) by (nonlinear_arith)
            requires
                t * (pal * prl) * (pbr * plr) <= ((pll * plr) * (prl * prr)) * pc,
                plr > 0,
                prl > 0,
        {
            assert(t * (pal * prl) * (pbr * plr) == (t * pal * pbr) * (prl * plr));
            assert(((pll * plr) * (prl * prr)) * pc == (pll * prr * pc) * (prl * plr));
            assert(prl * plr > 0);
        }
    }
}

/// The counts of the two sides add up to the counts of the region, class
/// by class.
pub open spec fn adds_up(l: Seq<usize>, r: Seq<usize>, p: Seq<usize>) -> bool {
    &&& l.len() == p.len()
    &&& r.len() == p.len()
    &&& forall|i: int| 0 <= i < p.len() ==> #[trigger] p[i] == l[i] + r[i]
}

/// Every class is shared between the sides as the samples are:
/// `l_i / n_l == r_i / n_r`.
pub open spec fn same_proportions(l: Seq<usize>, r: Seq<usize>) -> bool {
    forall|i: int| 0 <= i < l.len() ==> (#[trigger] l[i]) * total(r) == r[i] * total(l)
}

/// The classes of a split, multiplied out:
/// `Π p^p · a^(Σl) · b^(Σr) <= Π l^l · Π r^r · (a+b)^(Σp)`, with equality
/// when every class is shared as `a` to `b`.
proof fn lemma_shares(l: Seq<usize>, r: Seq<usize>, p: Seq<usize>, a: nat, b: nat)
    requires
        adds_up(l, r, p),
    ensures
        total(p) == total(l) + total(r),
        total(l) >= 0,
        total(r) >= 0,
        self_powers(p) * pow(a as int, total(l) as nat) * pow(b as int, total(r) as nat)
            <= self_powers(l) * self_powers(r) * pow((a + b) as int, total(p) as nat),
        (forall|i: int| 0 <= i < l.len() ==> (#[trigger] l[i]) * b == r[i] * a) ==> self_powers(p)
            * pow(a as int, total(l) as nat) * pow(b as int, total(r) as nat) == self_powers(l)
            * self_powers(r) * pow((a + b) as int, total(p) as nat),
    decreases p.len(),
{
    lemma_gibbs(l);
    lemma_gibbs(r);
    lemma_gibbs(p);
    let ai = a as int;
    let bi = b as int;
    if p.len() == 0 {
        lemma_pow0(ai);
        lemma_pow0(bi);
        lemma_pow0(ai + bi);
    } else {
        let l1 = l.drop_last();
        let r1 = r.drop_last();
        let p1 = p.drop_last();
        let k = p.len() - 1;
        assert(p[k] == l[k] + r[k]);
        assert forall|i: int| 0 <= i < p1.len() implies #[trigger] p1[i] == l1[i] + r1[i] by {
            assert(p[i] == l[i] + r[i]);
        }
        lemma_shares(l1, r1, p1, a, b);
        lemma_gibbs(l1);
        lemma_gibbs(r1);
        lemma_gibbs(p1);
        let lc = l.last() as nat;
        let rc = r.last() as nat;
        lemma_class_share(lc, rc, a, b);
        let tl = total(l1) as nat;
        let tr = total(r1) as nat;
        lemma_pow_adds(ai, tl, lc);
        lemma_pow_adds(bi, tr, rc);
        lemma_pow_adds(ai + bi, tl + tr, lc + rc);
        lemma_pow_nonneg(ai, tl);
        lemma_pow_nonneg(bi, tr);
        lemma_pow_nonneg(ai, lc);
        lemma_pow_nonneg(bi, rc);
        lemma_pow_nonneg(ai + bi, tl + tr);
        lemma_pow_nonneg(ai + bi, lc + rc);
        lemma_pow_nonneg((lc + rc) as int, lc + rc);
        lemma_pow_nonneg(lc as int, lc);
        lemma_pow_nonneg(rc as int, rc);
        // the rest of the classes: x1 <= y1; this class: x2 <= y2
        let sp = self_powers(p1);
        let sl = self_powers(l1);
        let sr = self_powers(r1);
        let pa1 = pow(ai, tl);
        let pb1 = pow(bi, tr);
        let pc1 = pow(ai + bi, tl + tr);
        let t = pow((lc + rc) as int, lc + rc);
        let pa2 = pow(ai, lc);
        let pb2 = pow(bi, rc);
        let pll = pow(lc as int, lc);
        let prr = pow(rc as int, rc);
        let pc2 = pow(ai + bi, lc + rc);
        let x1 = sp * pa1 * pb1;
        let y1 = sl * sr * pc1;
        let x2 = t * pa2 * pb2;
        let y2 = pll * prr * pc2;
        assert(x1 >= 0 && x2 >= 0) by (nonlinear_arith)
            requires
                x1 == sp * pa1 * pb1,
                x2 == t * pa2 * pb2,
                sp > 0,
                pa1 >= 0,
                pb1 >= 0,
                t >= 0,
                pa2 >= 0,
                pb2 >= 0,
        ;
        assert((sp * t) * (pa1 * pa2) * (pb1 * pb2) == x1 * x2) by (nonlinear_arith)
            requires
                x1 == sp * pa1 * pb1,
                x2 == t * pa2 * pb2,
        ;
        assert((sl * pll) * (sr * prr) * (pc1 * pc2) == y1 * y2) by (nonlinear_arith)
            requires
                y1 == sl * sr * pc1,
                y2 == pll * prr * pc2,
        ;
        assert(x1 * x2 <= y1 * y2) by (nonlinear_arith)
            requires
                0 <= x1 <= y1,
                0 <= x2 <= y2,
        ;
        if forall|i: int| 0 <= i < l.len() ==> (#[trigger] l[i]) * b == r[i] * a {
            assert(l[k] * b == r[k] * a);
            assert forall|i: int| 0 <= i < l1.len() implies (#[trigger] l1[i]) * b == r1[i] * a by {
                assert(l[i] * b == r[i] * a);
            }
            assert(x1 == y1 && x2 == y2);
        }
    }
}

/// The entropy of a split is concave up to rounding: the masses of the two
/// sides together exceed the mass of the region by no more than four units
/// of the last place per sample, so the weighted entropy of the sides is at
/// most the entropy of the region plus `4 / 2^56`. And where every class is
/// shared between the sides as the samples are, so that the true gain is 0,
/// the mass of the region exceeds the masses of the sides by no more than
/// that: such a split is never taken for a gain.
pub proof fn lemma_entropy_of_split(l: Seq<usize>, r: Seq<usize>, p: Seq<usize>)
    requires
        adds_up(l, r, p),
        total(p) <= usize::MAX,
    ensures
        total(p) == total(l) + total(r),
        mass_num(SplitCriterion::Entropy, l, total(l)) + mass_num(
            SplitCriterion::Entropy,
            r,
            total(r),
        ) <= mass_num(SplitCriterion::Entropy, p, total(p)) + 4 * total(p),
        same_proportions(l, r) ==> mass_num(SplitCriterion::Entropy, p, total(p)) <= mass_num(
            SplitCriterion::Entropy,
            l,
            total(l),
        ) + mass_num(SplitCriterion::Entropy, r, total(r)) + 4 * total(p),
{
    let q = pow2(56);
    lemma_gibbs(l);
    lemma_gibbs(r);
    lemma_gibbs(p);
    let nl = total(l) as nat;
    let nr = total(r) as nat;
    let n = total(p) as nat;
    lemma_shares(l, r, p, nl, nr);
    lemma_self_powers_above(l);
    lemma_self_powers_above(r);
    lemma_self_powers_above(p);
    lemma_self_powers_below(l);
    lemma_self_powers_below(r);
    lemma_self_powers_below(p);
    lemma_number_power(nl);
    lemma_number_power(nr);
    lemma_number_power(n);
    let sl = sum_logs(l) as nat;
    let sr = sum_logs(r) as nat;
    let sp = sum_logs(p) as nat;
    let wl = nl * log2_fixed(nl);
    let wr = nr * log2_fixed(nr);
    let w = n * log2_fixed(n);
    let x = (self_powers(p), pow(nl as int, nl), pow(nr as int, nr));
    let y = (self_powers(l), self_powers(r), pow(n as int, n));
    assert(x.0 * x.1 * x.2 <= y.0 * y.1 * y.2);
    lemma_exponents((sp, wl, wr), x, y, ((sl + 2 * nl) as nat, (sr + 2 * nr) as nat, w + 2 * n), q);
    if same_proportions(l, r) {
        assert(y.0 * y.1 * y.2 <= x.0 * x.1 * x.2);
        lemma_exponents(
            (sl, sr, w),
            y,
            x,
            ((sp + 2 * n) as nat, wl + 2 * nl, wr + 2 * nr),
            q,
        );
    }
    // an empty side has no mass
    lemma_total_bounds(l, 0);
    lemma_total_bounds(r, 0);
    lemma_total_bounds(p, 0);
    lemma_sum_logs_bound(l, nl);
    lemma_sum_logs_bound(r, nr);
    lemma_sum_logs_bound(p, n);
    assert(nl == 0 ==> wl == 0 && sl == 0) by (nonlinear_arith)
        requires
            wl == nl * log2_fixed(nl),
            0 <= sl <= nl * log2_fixed(nl),
    ;
    assert(nr == 0 ==> wr == 0 && sr == 0) by (nonlinear_arith)
        requires
            wr == nr * log2_fixed(nr),
            0 <= sr <= nr * log2_fixed(nr),
    ;
    assert(n == 0 ==> w == 0 && sp == 0) by (nonlinear_arith)
        requires
            w == n * log2_fixed(n),
            0 <= sp <= n * log2_fixed(n),
    ;
    assert(mass_num(SplitCriterion::Entropy, l, total(l)) == wl - sl);
    assert(mass_num(SplitCriterion::Entropy, r, total(r)) == wr - sr);
    assert(mass_num(SplitCriterion::Entropy, p, total(p)) == w - sp);
}

} // verus!
