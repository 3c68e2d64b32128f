//! Impurity of a region under each criterion, as an exact rational.

use vstd::prelude::*;
use crate::criterion::SplitCriterion;
use crate::extremes::{extremes_hold, lemma_extremes};
use crate::log2::{log2_fixed, log2_fixed_of, lemma_log2_bounds, lemma_log2_monotone, LOG_ONE, HALF};
use crate::ratio::Ratio;
use crate::sums::{
    sum_by, lemma_sum_take_step, lemma_sum_take_all, lemma_sum_nonneg, lemma_sum_prefix_le,
    lemma_sum_monotone, lemma_sum_squares_bound,
};

verus! {

/// The weight of a count in the total: the count itself.
pub open spec fn count_weight() -> spec_fn(usize) -> int {
    |c: usize| c as int
}

/// The weight of a count in the sum of squares.
pub open spec fn square_weight() -> spec_fn(usize) -> int {
    |c: usize| c * c
}

/// The weight of a count in the entropy sum: `c · log2(c)` in fixed point.
pub open spec fn log_weight() -> spec_fn(usize) -> int {
    |c: usize| c * log2_fixed(c as nat)
}

/// The weight `c · k`.
pub open spec fn scaled_weight(k: int) -> spec_fn(usize) -> int {
    |c: usize| c * k
}

/// `Σ c_i`.
pub open spec fn total(counts: Seq<usize>) -> int {
    sum_by(counts, count_weight())
}

/// `Σ c_i²`.
pub open spec fn sum_squares(counts: Seq<usize>) -> int {
    sum_by(counts, square_weight())
}

/// `Σ c_i · log2(c_i)` in fixed point.
pub open spec fn sum_logs(counts: Seq<usize>) -> int {
    sum_by(counts, log_weight())
}

/// The largest count, 0 for no counts.
pub open spec fn max_count(counts: Seq<usize>) -> int
    decreases counts.len(),
{
    if counts.len() == 0 {
        0
    } else {
        let m = max_count(counts.drop_last());
        if counts.last() > m {
            counts.last() as int
        } else {
            m
        }
    }
}

/// `n · Σx² - (Σx)²`: the variance of `n` values scaled by `n²`.
pub open spec fn variance_num(n: int, sum: int, sum_sq: int) -> int {
    n * sum_sq - sum * sum
}

/// Numerator of the mass of a region, that is of `n` times its impurity.
///
/// For the label criteria `counts` holds the occurrences of each class and
/// `n` is their total; for `MSE` it holds the `n` target values themselves.
pub open spec fn mass_num(criterion: SplitCriterion, counts: Seq<usize>, n: int) -> int {
    if n == 0 {
        0
    } else {
        match criterion {
            SplitCriterion::Gini => n * n - sum_squares(counts),
            SplitCriterion::Entropy => n * log2_fixed(n as nat) - sum_logs(counts),
            SplitCriterion::ClassificationError => n - max_count(counts),
            SplitCriterion::MSE => variance_num(n, total(counts), sum_squares(counts)),
        }
    }
}

/// Denominator of the mass of a region of `n` samples.
pub open spec fn mass_den(criterion: SplitCriterion, n: int) -> int {
    if n == 0 {
        1
    } else {
        match criterion {
            SplitCriterion::Gini => n,
            SplitCriterion::Entropy => LOG_ONE as int,
            SplitCriterion::ClassificationError => 1,
            SplitCriterion::MSE => n,
        }
    }
}

/// Numerator of the impurity:
/// Gini `1 - Σ p_i²`, entropy `-Σ p_i·log2(p_i)`, classification error
/// `1 - max p_i` with `p_i = counts[i] / n`, and for `MSE` the variance
/// `Σx²/n - (Σx/n)²` of the values. An empty region scores 0.
pub open spec fn impurity_num(criterion: SplitCriterion, counts: Seq<usize>, n: int) -> int {
    mass_num(criterion, counts, n)
}

/// Denominator of the impurity.
pub open spec fn impurity_den(criterion: SplitCriterion, n: int) -> int {
    if n == 0 {
        1
    } else {
        mass_den(criterion, n) * n
    }
}

/// What `impurity` asks of its arguments: `n` is the total of the class
/// counts, or the number of values for `MSE`, whose scaled sum of squares
/// must fit the 128-bit numerator.
pub open spec fn impurity_input(criterion: SplitCriterion, counts: Seq<usize>, n: int) -> bool {
    if criterion.for_labels() {
        total(counts) == n
    } else {
        counts.len() == n && n * sum_squares(counts) <= u128::MAX
    }
}

pub proof fn lemma_counts_nonneg(s: Seq<usize>)
    ensures
        forall|k: int| 0 <= k < s.len() ==> count_weight()(#[trigger] s[k]) >= 0,
        forall|k: int| 0 <= k < s.len() ==> square_weight()(#[trigger] s[k]) >= 0,
        forall|k: int| 0 <= k < s.len() ==> log_weight()(#[trigger] s[k]) >= 0,
        forall|k: int|
            0 <= k < s.len() ==> square_weight()(#[trigger] s[k]) == count_weight()(s[k])
                * count_weight()(s[k]),
        forall|k: int|
            0 <= k < s.len() ==> count_weight()(#[trigger] s[k]) <= square_weight()(s[k]),
{
    assert forall|k: int| 0 <= k < s.len() implies square_weight()(#[trigger] s[k]) >= 0
        && log_weight()(s[k]) >= 0 && count_weight()(s[k]) <= square_weight()(s[k]) by {
        let c = s[k] as int;
        let l = log2_fixed(s[k] as nat) as int;
        assert(c * c >= 0 && c * l >= 0 && c <= c * c) by (nonlinear_arith)
            requires
                c >= 0,
                l >= 0,
        ;
    }
}

/// Every count is at most the total, and so is every prefix total.
pub proof fn lemma_total_bounds(s: Seq<usize>, i: int)
    requires
        0 <= i <= s.len(),
    ensures
        0 <= total(s.take(i)) <= total(s),
        0 <= sum_squares(s.take(i)) <= sum_squares(s),
        0 <= sum_logs(s.take(i)) <= sum_logs(s),
        forall|k: int| 0 <= k < s.len() ==> #[trigger] s[k] <= total(s),
{
    lemma_counts_nonneg(s);
    lemma_sum_prefix_le(s, i, count_weight());
    lemma_sum_prefix_le(s, i, square_weight());
    lemma_sum_prefix_le(s, i, log_weight());
    lemma_sum_nonneg(s, count_weight());
}

/// `Σ c_i² <= (Σ c_i)²`.
pub proof fn lemma_squares_le_square(s: Seq<usize>)
    ensures
        0 <= sum_squares(s) <= total(s) * total(s),
        0 <= total(s),
    decreases s.len(),
{
    if s.len() > 0 {
        lemma_squares_le_square(s.drop_last());
        let t = total(s.drop_last());
        let q = sum_squares(s.drop_last());
        let x = s.last() as int;
        assert(q + x * x <= (t + x) * (t + x)) by (nonlinear_arith)
            requires
                0 <= q <= t * t,
                0 <= t,
                0 <= x,
        ;
    }
}

/// `Σ c_i · k == k · Σ c_i`.
pub proof fn lemma_sum_scaled(s: Seq<usize>, k: int)
    ensures
        sum_by(s, scaled_weight(k)) == k * total(s),
    decreases s.len(),
{
    if s.len() > 0 {
        lemma_sum_scaled(s.drop_last(), k);
        let t = total(s.drop_last());
        let x = s.last() as int;
        assert(k * t + x * k == k * (t + x)) by (nonlinear_arith);
    } else {
        assert(k * 0 == 0);
    }
}

/// `Σ c_i · log2(c_i) <= (Σ c_i) · log2(n)` when no count exceeds `n`.
pub proof fn lemma_sum_logs_bound(s: Seq<usize>, n: nat)
    requires
        n < 2 * HALF,
        forall|k: int| 0 <= k < s.len() ==> #[trigger] s[k] <= n,
    ensures
        0 <= sum_logs(s) <= total(s) * log2_fixed(n),
{
    lemma_counts_nonneg(s);
    lemma_sum_nonneg(s, log_weight());
    let l = log2_fixed(n) as int;
    assert forall|k: int| 0 <= k < s.len() implies log_weight()(#[trigger] s[k]) <= scaled_weight(
        l,
    )(s[k]) by {
        lemma_log2_monotone(s[k] as nat, n);
        let c = s[k] as int;
        let lc = log2_fixed(s[k] as nat) as int;
        assert(c * lc <= c * l) by (nonlinear_arith)
            requires
                c >= 0,
                lc <= l,
        ;
    }
    lemma_sum_monotone(s, log_weight(), scaled_weight(l));
    lemma_sum_scaled(s, l);
    assert(l * total(s) == total(s) * l) by (nonlinear_arith);
}

/// The largest count is one of the counts and bounds them all.
pub proof fn lemma_max_count(s: Seq<usize>)
    ensures
        forall|k: int| 0 <= k < s.len() ==> #[trigger] s[k] <= max_count(s),
        s.len() > 0 ==> exists|k: int| 0 <= k < s.len() && #[trigger] s[k] == max_count(s),
        s.len() == 0 ==> max_count(s) == 0,
        0 <= max_count(s) <= usize::MAX,
    decreases s.len(),
{
    if s.len() > 0 {
        let r = s.drop_last();
        lemma_max_count(r);
        assert forall|k: int| 0 <= k < s.len() implies #[trigger] s[k] <= max_count(s) by {
            if k < r.len() {
                assert(r[k] == s[k]);
            }
        }
        if s.last() > max_count(r) || r.len() == 0 {
            assert(s[s.len() - 1] == max_count(s));
        } else {
            let k = choose|k: int| 0 <= k < r.len() && #[trigger] r[k] == max_count(r);
            assert(s[k] == max_count(s));
        }
    }
}

fn sum_of_counts(count: &[usize]) -> (t: u128)
    ensures
        t == total(count@),
{
    let mut t: u128 = 0;
    let mut i: usize = 0;
    while i < count.len()
        invariant
            0 <= i <= count@.len(),
            t == total(count@.take(i as int)),
            t <= i * usize::MAX,
        decreases count@.len() - i,
    {
        proof {
            lemma_sum_take_step(count@, i as int, count_weight());
            assert(i * usize::MAX + usize::MAX == (i + 1) * usize::MAX) by (nonlinear_arith);
            assert((i + 1) * usize::MAX <= usize::MAX * usize::MAX) by (nonlinear_arith)
                requires
                    i + 1 <= usize::MAX,
            ;
            assert(usize::MAX * usize::MAX <= u128::MAX) by (nonlinear_arith)
                requires
                    usize::MAX <= 0xFFFF_FFFF_FFFF_FFFF,
            ;
        }
        t = t + count[i] as u128;
        i = i + 1;
    }
    proof {
        lemma_sum_take_all(count@, count_weight());
    }
    t
}

fn sum_of_squares(count: &[usize], bound: u128) -> (q: u128)
    requires
        sum_squares(count@) <= bound,
    ensures
        q == sum_squares(count@),
{
    let mut q: u128 = 0;
    let mut i: usize = 0;
    while i < count.len()
        invariant
            0 <= i <= count@.len(),
            q == sum_squares(count@.take(i as int)),
            sum_squares(count@) <= bound,
        decreases count@.len() - i,
    {
        let c: u128 = count[i] as u128;
        proof {
            lemma_sum_take_step(count@, i as int, square_weight());
            lemma_total_bounds(count@, i as int + 1);
            assert(c * c <= 0xFFFF_FFFF_FFFF_FFFF * 0xFFFF_FFFF_FFFF_FFFF) by (nonlinear_arith)
                requires
                    0 <= c <= 0xFFFF_FFFF_FFFF_FFFF,
            ;
        }
        q = q + c * c;
        i = i + 1;
    }
    proof {
        lemma_sum_take_all(count@, square_weight());
    }
    q
}

fn sum_of_logs(count: &[usize], n: usize) -> (r: u128)
    requires
        total(count@) == n,
    ensures
        r == sum_logs(count@),
        r <= n * log2_fixed(n as nat),
{
    let mut r: u128 = 0;
    let mut i: usize = 0;
    proof {
        lemma_total_bounds(count@, 0);
        lemma_sum_logs_bound(count@, n as nat);
        lemma_log2_bounds(n as nat);
        assert(n * log2_fixed(n as nat) <= 0xFFFF_FFFF_FFFF_FFFF * (64 * LOG_ONE)) by (nonlinear_arith)
            requires
                0 <= n <= 0xFFFF_FFFF_FFFF_FFFF,
                0 <= log2_fixed(n as nat) <= 64 * LOG_ONE,
        ;
    }
    while i < count.len()
        invariant
            0 <= i <= count@.len(),
            r == sum_logs(count@.take(i as int)),
            sum_logs(count@) <= n * log2_fixed(n as nat) <= 0xFFFF_FFFF_FFFF_FFFF * (64 * LOG_ONE),
        decreases count@.len() - i,
    {
        proof {
            lemma_sum_take_step(count@, i as int, log_weight());
            lemma_total_bounds(count@, i as int + 1);
        }
        let c: usize = count[i];
        if c > 0 {
            let l: u64 = log2_fixed_of(c as u64);
            proof {
                lemma_counts_nonneg(count@);
                assert(log_weight()(count@[i as int]) == c * l);
            }
            r = r + (c as u128) * (l as u128);
        } else {
            assert(log_weight()(count@[i as int]) == 0) by (nonlinear_arith)
                requires
                    log_weight()(count@[i as int]) == 0 * log2_fixed(0),
            ;
        }
        i = i + 1;
    }
    proof {
        lemma_sum_take_all(count@, log_weight());
    }
    r
}

/// The largest of the counts, 0 if there are none.
pub fn largest_count(count: &[usize]) -> (m: usize)
    ensures
        m == max_count(count@),
{
    let mut m: usize = 0;
    let mut i: usize = 0;
    while i < count.len()
        invariant
            0 <= i <= count@.len(),
            m == max_count(count@.take(i as int)),
        decreases count@.len() - i,
    {
        proof {
            assert(count@.take(i + 1).drop_last() =~= count@.take(i as int));
        }
        if count[i] > m {
            m = count[i];
        }
        i = i + 1;
    }
    proof {
        assert(count@.take(count@.len() as int) =~= count@);
    }
    m
}

/// The mass of a region of class labels: `n` times its impurity.
pub fn class_mass(criterion: &SplitCriterion, count: &[usize], n: usize) -> (r: Ratio)
    requires
        criterion.for_labels(),
        total(count@) == n,
    ensures
        r.num == mass_num(*criterion, count@, n as int),
        r.den == mass_den(*criterion, n as int),
        r.wf(),
{
    if n == 0 {
        return Ratio { num: 0, den: 1 };
    }
    let wide: u128 = n as u128;
    proof {
        lemma_squares_le_square(count@);
        assert(wide * wide <= 0xFFFF_FFFF_FFFF_FFFF * 0xFFFF_FFFF_FFFF_FFFF) by (nonlinear_arith)
            requires
                0 <= wide <= 0xFFFF_FFFF_FFFF_FFFF,
        ;
    }
    match criterion {
        SplitCriterion::Gini => {
            let q: u128 = sum_of_squares(count, wide * wide);
            Ratio { num: wide * wide - q, den: wide }
        },
        SplitCriterion::Entropy => {
            let s: u128 = sum_of_logs(count, n);
            let l: u64 = log2_fixed_of(n as u64);
            proof {
                lemma_log2_bounds(n as nat);
                assert(wide * l <= 0xFFFF_FFFF_FFFF_FFFF * (64 * LOG_ONE)) by (nonlinear_arith)
                    requires
                        0 <= wide <= 0xFFFF_FFFF_FFFF_FFFF,
                        0 <= l <= 64 * LOG_ONE,
                ;
            }
            Ratio { num: wide * (l as u128) - s, den: LOG_ONE as u128 }
        },
        _ => {
            let m: usize = largest_count(count);
            proof {
                lemma_max_count(count@);
                lemma_total_bounds(count@, 0);
            }
            Ratio { num: (n - m) as u128, den: 1 }
        },
    }
}

/// The mass of a region of `n` numeric targets from their sum and sum of
/// squares: `n` times the variance.
pub fn moment_mass(n: usize, sum: i128, sum_sq: u128) -> (r: Ratio)
    requires
        n * sum_sq <= u128::MAX,
        sum * sum <= n * sum_sq,
    ensures
        r.num == (if n == 0 { 0 } else { variance_num(n as int, sum as int, sum_sq as int) }),
        r.den == (if n == 0 { 1int } else { n as int }),
        r.wf(),
{
    if n == 0 {
        return Ratio { num: 0, den: 1 };
    }
    let a: u128 = if sum >= 0 {
        sum as u128
    } else {
        (-(sum + 1)) as u128 + 1
    };
    proof {
        assert(a * a == sum * sum) by (nonlinear_arith)
            requires
                a == sum || a == -sum,
        ;
    }
    Ratio { num: (n as u128) * sum_sq - a * a, den: n as u128 }
}

/// The impurity of a region under `criterion`.
///
/// For `Gini`, `Entropy` and `ClassificationError`, `count` holds the number
/// of samples of each class and `n` their total. For `MSE`, `count` holds the
/// target values themselves and `n` is their number. The result is the exact
/// rational `impurity_num / impurity_den`; entropy is exact over the
/// fixed-point logarithm, which keeps it within four units of `2^-56` of
/// its true range. The result is zero, bounded and extreme where
/// `extremes_hold` says.
pub fn impurity(criterion: &SplitCriterion, count: &[usize], n: usize) -> (r: Ratio)
    requires
        impurity_input(*criterion, count@, n as int),
    ensures
        r.num == impurity_num(*criterion, count@, n as int),
        r.den == impurity_den(*criterion, n as int),
        r.wf(),
        extremes_hold(*criterion, count@, n as int, r.num as int, r.den as int),
{
    let classes: usize = count.len();
    proof {
        assert(count@.len() == classes);
        lemma_extremes(*criterion, count@, n);
    }
    if n == 0 {
        return Ratio { num: 0, den: 1 };
    }
    let wide: u128 = n as u128;
    let mass: Ratio = if criterion.is_classification() {
        class_mass(criterion, count, n)
    } else {
        proof {
            lemma_counts_nonneg(count@);
            lemma_sum_squares_bound(count@, count_weight(), square_weight());
            lemma_sum_monotone(count@, count_weight(), square_weight());
            lemma_sum_nonneg(count@, count_weight());
            assert(sum_squares(count@) <= n * sum_squares(count@)) by (nonlinear_arith)
                requires
                    n >= 1,
                    sum_squares(count@) >= 0,
            ;
        }
        let q: u128 = sum_of_squares(count, u128::MAX);
        let s: u128 = sum_of_counts(count);
        proof {
            assert(s * s <= n * q);
            assert(s <= 0xFFFF_FFFF_FFFF_FFFF) by (nonlinear_arith)
                requires
                    0 <= s,
                    s * s <= 0xFFFF_FFFF_FFFF_FFFF_FFFF_FFFF_FFFF_FFFF,
            ;
        }
        moment_mass(n, s as i128, q)
    };
    proof {
        assert(mass.den * wide <= 0xFFFF_FFFF_FFFF_FFFF * 0xFFFF_FFFF_FFFF_FFFF) by (nonlinear_arith)
            requires
                0 <= wide <= 0xFFFF_FFFF_FFFF_FFFF,
                0 <= mass.den <= 0xFFFF_FFFF_FFFF_FFFF,
        ;
        assert(mass.den * wide > 0) by (nonlinear_arith)
            requires
                wide > 0,
                mass.den > 0,
        ;
    }
    Ratio { num: mass.num, den: mass.den * wide }
}

/// The impurity is a function of its arguments: whenever and however often
/// it is asked for, the same criterion, counts and size give the same
/// numerator and the same denominator.
pub proof fn lemma_impurity_is_determined(
    criterion: SplitCriterion,
    counts: Seq<usize>,
    n: int,
    first: Ratio,
    second: Ratio,
)
    requires
        first.num == impurity_num(criterion, counts, n),
        first.den == impurity_den(criterion, n),
        second.num == impurity_num(criterion, counts, n),
        second.den == impurity_den(criterion, n),
    ensures
        first == second,
{
}

/// The number of samples that the counts describe: their total for the
/// label criteria, their number for `MSE`.
pub open spec fn region_size(criterion: SplitCriterion, counts: Seq<usize>) -> int {
    if criterion.for_labels() {
        total(counts)
    } else {
        counts.len() as int
    }
}

/// The counts describe a region whose size and score fit the machine.
pub open spec fn scorable(criterion: SplitCriterion, counts: Seq<usize>) -> bool {
    if criterion.for_labels() {
        total(counts) <= usize::MAX
    } else {
        counts.len() * sum_squares(counts) <= u128::MAX
    }
}

/// The total of the counts, unless it exceeds a machine word.
fn checked_total(count: &[usize]) -> (t: Option<usize>)
    ensures
        t is Some <==> total(count@) <= usize::MAX,
        t matches Some(n) ==> n == total(count@),
{
    let mut t: usize = 0;
    let mut i: usize = 0;
    while i < count.len()
        invariant
            0 <= i <= count@.len(),
            t == total(count@.take(i as int)),
        decreases count@.len() - i,
    {
        proof {
            lemma_sum_take_step(count@, i as int, count_weight());
            lemma_total_bounds(count@, i as int + 1);
        }
        match t.checked_add(count[i]) {
            Some(next) => {
                t = next;
            },
            None => {
                return None;
            },
        }
        i = i + 1;
    }
    proof {
        lemma_sum_take_all(count@, count_weight());
    }
    Some(t)
}

/// The sum of the squares times `n`, unless it exceeds 128 bits.
fn checked_scaled_squares(count: &[usize], n: usize) -> (q: Option<u128>)
    requires
        n == count@.len(),
    ensures
        q is Some <==> n * sum_squares(count@) <= u128::MAX,
        q matches Some(x) ==> x == n * sum_squares(count@),
{
    let mut q: u128 = 0;
    let mut i: usize = 0;
    while i < count.len()
        invariant
            0 <= i <= count@.len(),
            n == count@.len(),
            q == sum_squares(count@.take(i as int)),
        decreases count@.len() - i,
    {
        let c: u128 = count[i] as u128;
        proof {
            lemma_sum_take_step(count@, i as int, square_weight());
            lemma_total_bounds(count@, i as int + 1);
            assert(c * c <= 0xFFFF_FFFF_FFFF_FFFF * 0xFFFF_FFFF_FFFF_FFFF) by (nonlinear_arith)
                requires
                    0 <= c <= 0xFFFF_FFFF_FFFF_FFFF,
            ;
            assert(sum_squares(count@) <= n * sum_squares(count@)) by (nonlinear_arith)
                requires
                    n >= 1,
                    sum_squares(count@) >= 0,
            ;
        }
        match q.checked_add(c * c) {
            Some(next) => {
                q = next;
            },
            None => {
                return None;
            },
        }
        i = i + 1;
    }
    proof {
        lemma_sum_take_all(count@, square_weight());
    }
    (n as u128).checked_mul(q)
}

/// The impurity of the region that the counts describe, for any counts.
///
/// The size of the region is taken from the counts: their total for
/// the label criteria, their number for `MSE`. The result is `None` exactly
/// when the counts are not `scorable`.
pub fn impurity_of(criterion: &SplitCriterion, count: &[usize]) -> (r: Option<Ratio>)
    ensures
        r is Some <==> scorable(*criterion, count@),
        r matches Some(x) ==> {
            &&& x.num == impurity_num(*criterion, count@, region_size(*criterion, count@))
            &&& x.den == impurity_den(*criterion, region_size(*criterion, count@))
            &&& x.wf()
            &&& extremes_hold(
                *criterion,
                count@,
                region_size(*criterion, count@),
                x.num as int,
                x.den as int,
            )
        },
{
    if criterion.is_classification() {
        match checked_total(count) {
            Some(n) => Some(impurity(criterion, count, n)),
            None => None,
        }
    } else {
        let n: usize = count.len();
        match checked_scaled_squares(count, n) {
            Some(_) => Some(impurity(criterion, count, n)),
            None => None,
        }
    }
}

} // verus!
