//! Where the criteria take their extreme values: zero on pure regions, the
//! maximum on uniformly mixed ones. For the Gini index and the
//! classification error the maximum is exact; for entropy it holds up to
//! the precision of the fixed-point logarithm.

use vstd::prelude::*;
use crate::criterion::SplitCriterion;
use crate::entropy::{lemma_entropy_at_most_log_classes, lemma_log2_of_product};
use crate::impurity::{
    count_weight, square_weight, log_weight, scaled_weight, total, sum_squares, sum_logs,
    max_count, impurity_num, impurity_den, impurity_input, variance_num, lemma_counts_nonneg,
    lemma_total_bounds, lemma_squares_le_square, lemma_sum_scaled, lemma_sum_logs_bound,
    lemma_max_count,
};
use crate::log2::{log2_fixed, lemma_log2_monotone, lemma_log2_double, LOG_ONE};
use crate::ratio::{frac_le, frac_eq};
use crate::sums::{
    lemma_sum_nonneg, lemma_sum_monotone, lemma_sum_squares_bound, lemma_sum_tight,
    lemma_sum_constant, lemma_sum_two_terms, lemma_sum_single, lemma_sum_all_zero,
};

verus! {

/// All `n` samples of the region belong to one class.
pub open spec fn is_pure(counts: Seq<usize>, n: int) -> bool {
    exists|c: int| 0 <= c < counts.len() && #[trigger] counts[c] == n
}

/// Every class holds the same number `c` of samples.
pub open spec fn is_uniform(counts: Seq<usize>, c: int) -> bool {
    forall|k: int| 0 <= k < counts.len() ==> #[trigger] counts[k] == c
}

/// A region with samples has a class with samples.
proof fn lemma_some_class_occurs(counts: Seq<usize>) -> (k: int)
    requires
        total(counts) > 0,
    ensures
        0 <= k < counts.len(),
        counts[k] > 0,
{
    if forall|i: int| 0 <= i < counts.len() ==> #[trigger] counts[i] == 0 {
        lemma_sum_all_zero(counts, count_weight());
        0
    } else {
        choose|i: int| 0 <= i < counts.len() && #[trigger] counts[i] != 0
    }
}

/// A class that holds some but not all samples leaves some to another class.
proof fn lemma_other_class_occurs(counts: Seq<usize>, k: int) -> (j: int)
    requires
        0 <= k < counts.len(),
        counts[k] < total(counts),
    ensures
        0 <= j < counts.len(),
        j != k,
        counts[j] > 0,
        counts[j] + counts[k] <= total(counts),
{
    if forall|i: int| 0 <= i < counts.len() && i != k ==> #[trigger] counts[i] == 0 {
        lemma_sum_single(counts, count_weight(), k);
        0
    } else {
        let j = choose|i: int| 0 <= i < counts.len() && i != k && #[trigger] counts[i] != 0;
        lemma_counts_nonneg(counts);
        if j < k {
            lemma_sum_two_terms(counts, count_weight(), j, k);
        } else {
            lemma_sum_two_terms(counts, count_weight(), k, j);
        }
        j
    }
}

proof fn lemma_gini_zero_iff_pure(counts: Seq<usize>, n: usize)
    requires
        n > 0,
        total(counts) == n,
    ensures
        impurity_num(SplitCriterion::Gini, counts, n as int) == 0 <==> is_pure(counts, n as int),
{
    let m = n as int;
    lemma_counts_nonneg(counts);
    lemma_total_bounds(counts, 0);
    lemma_squares_le_square(counts);
    lemma_sum_scaled(counts, m);
    if is_pure(counts, m) {
        let c = choose|c: int| 0 <= c < counts.len() && #[trigger] counts[c] == m;
        lemma_sum_nonneg(counts, square_weight());
        assert(square_weight()(counts[c]) == m * m);
    }
    if sum_squares(counts) == m * m {
        assert forall|k: int| 0 <= k < counts.len() implies square_weight()(#[trigger] counts[k])
            <= scaled_weight(m)(counts[k]) by {
            let c = counts[k] as int;
            assert(c * c <= c * m) by (nonlinear_arith)
                requires
                    0 <= c <= m,
            ;
        }
        lemma_sum_tight(counts, square_weight(), scaled_weight(m));
        let k = lemma_some_class_occurs(counts);
        let c = counts[k] as int;
        assert(square_weight()(counts[k]) == scaled_weight(m)(counts[k]));
        assert(c == m) by (nonlinear_arith)
            requires
                c * c == c * m,
                c > 0,
        ;
    }
}

proof fn lemma_entropy_zero_iff_pure(counts: Seq<usize>, n: usize)
    requires
        n > 0,
        total(counts) == n,
    ensures
        impurity_num(SplitCriterion::Entropy, counts, n as int) == 0 <==> is_pure(
            counts,
            n as int,
        ),
{
    let m = n as int;
    let l = log2_fixed(n as nat) as int;
    lemma_counts_nonneg(counts);
    lemma_total_bounds(counts, 0);
    lemma_sum_logs_bound(counts, n as nat);
    lemma_sum_scaled(counts, l);
    assert(m * l == l * m) by (nonlinear_arith);
    if is_pure(counts, m) {
        let c = choose|c: int| 0 <= c < counts.len() && #[trigger] counts[c] == m;
        lemma_sum_nonneg(counts, log_weight());
        assert(log_weight()(counts[c]) == m * l);
    }
    if sum_logs(counts) == m * l {
        assert forall|k: int| 0 <= k < counts.len() implies log_weight()(#[trigger] counts[k])
            <= scaled_weight(l)(counts[k]) by {
            lemma_log2_monotone(counts[k] as nat, n as nat);
            let c = counts[k] as int;
            let lc = log2_fixed(counts[k] as nat) as int;
            assert(c * lc <= c * l) by (nonlinear_arith)
                requires
                    c >= 0,
                    lc <= l,
            ;
        }
        lemma_sum_tight(counts, log_weight(), scaled_weight(l));
        let k = lemma_some_class_occurs(counts);
        if counts[k] < m {
            let j = lemma_other_class_occurs(counts, k);
            let i = if counts[j] <= counts[k] { j } else { k };
            let c = counts[i] as int;
            let lc = log2_fixed(counts[i] as nat) as int;
            assert(log_weight()(counts[i]) == scaled_weight(l)(counts[i]));
            assert(lc == l) by (nonlinear_arith)
                requires
                    c * lc == c * l,
                    c > 0,
            ;
            assert(2 * c <= m);
            lemma_log2_double(c as nat);
            lemma_log2_monotone((2 * c) as nat, n as nat);
            assert(false);
        }
    }
}

proof fn lemma_error_zero_iff_pure(counts: Seq<usize>, n: usize)
    requires
        n > 0,
        total(counts) == n,
    ensures
        impurity_num(SplitCriterion::ClassificationError, counts, n as int) == 0 <==> is_pure(
            counts,
            n as int,
        ),
{
    lemma_max_count(counts);
    lemma_total_bounds(counts, 0);
    if is_pure(counts, n as int) {
        let c = choose|c: int| 0 <= c < counts.len() && #[trigger] counts[c] == n as int;
        assert(counts[c] <= max_count(counts));
    }
    if max_count(counts) == n {
        let k = choose|k: int| 0 <= k < counts.len() && #[trigger] counts[k] == max_count(counts);
        assert(counts[k] == n as int);
    }
}

/// A label criterion scores a non-empty region 0 exactly when all its
/// samples belong to one class.
pub proof fn lemma_zero_iff_pure(criterion: SplitCriterion, counts: Seq<usize>, n: usize)
    requires
        criterion.for_labels(),
        n > 0,
        total(counts) == n,
    ensures
        impurity_num(criterion, counts, n as int) == 0 <==> is_pure(counts, n as int),
        impurity_num(criterion, counts, n as int) >= 0,
        impurity_den(criterion, n as int) > 0,
{
    match criterion {
        SplitCriterion::Gini => {
            lemma_gini_zero_iff_pure(counts, n);
            lemma_squares_le_square(counts);
        },
        SplitCriterion::Entropy => {
            lemma_entropy_zero_iff_pure(counts, n);
            lemma_total_bounds(counts, 0);
            lemma_sum_logs_bound(counts, n as nat);
        },
        _ => {
            lemma_error_zero_iff_pure(counts, n);
            lemma_max_count(counts);
            lemma_total_bounds(counts, 0);
        },
    }
    assert(impurity_den(criterion, n as int) > 0) by (nonlinear_arith)
        requires
            n > 0,
            impurity_den(criterion, n as int) == n * n || impurity_den(criterion, n as int)
                == LOG_ONE * n || impurity_den(criterion, n as int) == 1 * n,
    ;
}

/// Over `k` classes the Gini index and the classification error never
/// exceed `1 - 1/k`.
pub proof fn lemma_at_most_uniform(criterion: SplitCriterion, counts: Seq<usize>, n: usize)
    requires
        criterion == SplitCriterion::Gini || criterion == SplitCriterion::ClassificationError,
        n > 0,
        total(counts) == n,
    ensures
        frac_le(
            impurity_num(criterion, counts, n as int),
            impurity_den(criterion, n as int),
            counts.len() - 1,
            counts.len() as int,
        ),
{
    let k = counts.len() as int;
    let m = n as int;
    lemma_counts_nonneg(counts);
    if criterion == SplitCriterion::Gini {
        lemma_sum_squares_bound(counts, count_weight(), square_weight());
        let q = sum_squares(counts);
        assert((m * m - q) * k <= (k - 1) * (m * m)) by (nonlinear_arith)
            requires
                k * q >= m * m,
        ;
    } else {
        lemma_max_count(counts);
        let top = max_count(counts);
        let flat = |c: usize| top;
        lemma_sum_monotone(counts, count_weight(), flat);
        lemma_sum_constant(counts, flat, top);
        assert((m - top) * k <= (k - 1) * (1 * m)) by (nonlinear_arith)
            requires
                m <= k * top,
        ;
    }
}

/// With every one of `k` classes holding `c > 0` samples, the Gini index and
/// the classification error are exactly `1 - 1/k`: the bound is attained.
pub proof fn lemma_uniform_attains_maximum(
    criterion: SplitCriterion,
    counts: Seq<usize>,
    n: usize,
    c: usize,
)
    requires
        criterion == SplitCriterion::Gini || criterion == SplitCriterion::ClassificationError,
        c > 0,
        counts.len() > 0,
        is_uniform(counts, c as int),
        total(counts) == n,
    ensures
        n == counts.len() * c,
        frac_eq(
            impurity_num(criterion, counts, n as int),
            impurity_den(criterion, n as int),
            counts.len() - 1,
            counts.len() as int,
        ),
{
    let k = counts.len() as int;
    let m = n as int;
    let x = c as int;
    lemma_sum_constant(counts, count_weight(), x);
    assert(k * x > 0) by (nonlinear_arith)
        requires
            k > 0,
            x > 0,
    ;
    if criterion == SplitCriterion::Gini {
        lemma_sum_constant(counts, square_weight(), x * x);
        let q = sum_squares(counts);
        assert((m * m - q) * k == (k - 1) * (m * m)) by (nonlinear_arith)
            requires
                m == k * x,
                q == k * (x * x),
        ;
    } else {
        lemma_max_count(counts);
        let top = max_count(counts);
        let i = choose|i: int| 0 <= i < counts.len() && #[trigger] counts[i] == max_count(counts);
        assert(top == x);
        assert((m - top) * k == (k - 1) * (1 * m)) by (nonlinear_arith)
            requires
                m == k * x,
                top == x,
        ;
    }
}

/// With every one of `k` classes holding `c > 0` samples, entropy is
/// `log2(n) - log2(c)` in fixed point, which is at least `log2(k)` less two
/// units of the last place.
pub proof fn lemma_entropy_of_uniform(counts: Seq<usize>, n: usize, c: usize)
    requires
        c > 0,
        counts.len() > 0,
        is_uniform(counts, c as int),
        total(counts) == n,
    ensures
        n == counts.len() * c,
        frac_eq(
            impurity_num(SplitCriterion::Entropy, counts, n as int),
            impurity_den(SplitCriterion::Entropy, n as int),
            log2_fixed(n as nat) - log2_fixed(c as nat),
            LOG_ONE as int,
        ),
        impurity_num(SplitCriterion::Entropy, counts, n as int) == n * (log2_fixed(n as nat)
            - log2_fixed(c as nat)),
        log2_fixed(n as nat) - log2_fixed(c as nat) >= log2_fixed(counts.len()) - 2,
{
    let k = counts.len() as int;
    let m = n as int;
    let x = c as int;
    let l = log2_fixed(n as nat) as int;
    let lc = log2_fixed(c as nat) as int;
    lemma_sum_constant(counts, count_weight(), x);
    lemma_sum_constant(counts, log_weight(), x * lc);
    assert(k * x > 0) by (nonlinear_arith)
        requires
            k > 0,
            x > 0,
    ;
    let s = sum_logs(counts);
    assert((m * l - s) * LOG_ONE == (l - lc) * (LOG_ONE * m) && m * l - s == m * (l - lc))
        by (nonlinear_arith)
        requires
            m == k * x,
            s == k * (x * lc),
    ;
    lemma_log2_of_product(counts.len(), c as nat);
}

/// Among the distributions over `k` classes the uniform ones score the
/// highest entropy, up to six units of the last place of the logarithm:
/// `entropy(counts) <= entropy(uniform) + 6 / 2^56`.
pub proof fn lemma_uniform_entropy_nearly_maximal(
    counts: Seq<usize>,
    n: usize,
    uniform: Seq<usize>,
    m: usize,
    c: usize,
)
    requires
        n > 0,
        total(counts) == n,
        counts.len() <= usize::MAX,
        uniform.len() == counts.len(),
        c > 0,
        is_uniform(uniform, c as int),
        total(uniform) == m,
    ensures
        frac_eq(
            impurity_num(SplitCriterion::Entropy, uniform, m as int),
            impurity_den(SplitCriterion::Entropy, m as int),
            log2_fixed(m as nat) - log2_fixed(c as nat),
            LOG_ONE as int,
        ),
        frac_le(
            impurity_num(SplitCriterion::Entropy, counts, n as int),
            impurity_den(SplitCriterion::Entropy, n as int),
            log2_fixed(m as nat) - log2_fixed(c as nat) + 6,
            LOG_ONE as int,
        ),
{
    lemma_total_bounds(counts, 0);
    assert(counts.len() > 0);
    lemma_entropy_of_uniform(uniform, m, c);
    lemma_entropy_at_most_log_classes(counts, n);
    let num = impurity_num(SplitCriterion::Entropy, counts, n as int);
    let lk = log2_fixed(counts.len()) as int;
    let top = log2_fixed(m as nat) - log2_fixed(c as nat) + 6;
    assert(num * LOG_ONE <= top * (LOG_ONE * n)) by (nonlinear_arith)
        requires
            num <= n * (lk + 4),
            lk + 4 <= top,
            n > 0,
    {
        assert(n * (lk + 4) <= n * top);
    }
}

/// The variance of a region whose targets all have the same value is 0.
pub proof fn lemma_constant_targets_have_no_variance(values: Seq<usize>, v: usize)
    requires
        forall|k: int| 0 <= k < values.len() ==> #[trigger] values[k] == v,
    ensures
        impurity_num(SplitCriterion::MSE, values, values.len() as int) == 0,
{
    let n = values.len() as int;
    let x = v as int;
    lemma_sum_constant(values, count_weight(), x);
    lemma_sum_constant(values, square_weight(), x * x);
    assert(variance_num(n, n * x, n * (x * x)) == 0) by (nonlinear_arith);
}

/// The variance of `n` values that are all `v`, from their sum `n·v` and
/// their sum of squares `n·v²`, is 0.
pub proof fn lemma_level_moments_have_no_variance(n: int, v: int)
    ensures
        variance_num(n, n * v, n * (v * v)) == 0,
{
    assert(variance_num(n, n * v, n * (v * v)) == 0) by (nonlinear_arith);
}

/// What the score `num / den` of a region owes to the criterion:
///
/// - under a label criterion a region with samples scores 0 exactly when it
///   is pure;
/// - over `k` classes the Gini index and the classification error are at
///   most `1 - 1/k`, and exactly that on uniform counts;
/// - over `k` classes entropy is at most `(log2_fixed(k) + 4) / 2^56`, and at
///   least `(log2_fixed(k) - 2) / 2^56` on uniform counts: within four units
///   of the last place of the true `log2(k)` both ways;
/// - under `MSE`, values that are all equal score 0.
pub open spec fn extremes_hold(
    c: SplitCriterion,
    counts: Seq<usize>,
    n: int,
    num: int,
    den: int,
) -> bool {
    let k = counts.len() as int;
    let level = k > 0 && is_uniform(counts, counts[0] as int);
    let log_k = log2_fixed(counts.len()) as int;
    match c {
        SplitCriterion::MSE => level ==> num == 0,
        SplitCriterion::Entropy => n > 0 ==> {
            &&& num == 0 <==> is_pure(counts, n)
            &&& num <= n * (log_k + 4)
            &&& level ==> num >= n * (log_k - 2)
        },
        _ => n > 0 ==> {
            &&& num == 0 <==> is_pure(counts, n)
            &&& frac_le(num, den, k - 1, k)
            &&& level ==> frac_eq(num, den, k - 1, k)
        },
    }
}

/// The impurity of every region that `impurity` admits is zero, bounded
/// and extreme where the criterion says.
pub proof fn lemma_extremes(c: SplitCriterion, counts: Seq<usize>, n: usize)
    requires
        impurity_input(c, counts, n as int),
        counts.len() <= usize::MAX,
    ensures
        extremes_hold(
            c,
            counts,
            n as int,
            impurity_num(c, counts, n as int),
            impurity_den(c, n as int),
        ),
        impurity_num(c, counts, n as int) >= 0,
        impurity_den(c, n as int) > 0,
{
    let k = counts.len() as int;
    let num = impurity_num(c, counts, n as int);
    if c == SplitCriterion::MSE {
        lemma_counts_nonneg(counts);
        lemma_sum_squares_bound(counts, count_weight(), square_weight());
        if k > 0 {
            assert(n * n > 0) by (nonlinear_arith)
                requires
                    n > 0,
            ;
            if is_uniform(counts, counts[0] as int) {
                lemma_constant_targets_have_no_variance(counts, counts[0]);
            }
        }
    } else if n > 0 {
        lemma_zero_iff_pure(c, counts, n);
        lemma_total_bounds(counts, 0);
        assert(k > 0);
        let level = is_uniform(counts, counts[0] as int);
        if level {
            // uniform counts with samples hold a sample in every class
            if counts[0] == 0 {
                lemma_sum_all_zero(counts, count_weight());
            }
        }
        if c == SplitCriterion::Entropy {
            lemma_entropy_at_most_log_classes(counts, n);
            if level {
                lemma_entropy_of_uniform(counts, n, counts[0]);
                let gap = log2_fixed(n as nat) - log2_fixed(counts[0] as nat);
                let floor = log2_fixed(counts.len()) - 2;
                assert(n * gap >= n * floor) by (nonlinear_arith)
                    requires
                        gap >= floor,
                        n > 0,
                ;
            }
        } else {
            lemma_at_most_uniform(c, counts, n);
            if level {
                lemma_uniform_attains_maximum(c, counts, n, counts[0]);
            }
        }
    }
}

} // verus!
