//! Candidate splits of a region: where a feature can be cut, what a cut
//! scores, and which cut is best.

use vstd::prelude::*;
use crate::criterion::SplitCriterion;
use crate::data::{Matrix, Targets};
use crate::ratio::frac_lt;
use crate::sort::{key, sorted_by};
use crate::sums::{
    sum_by, same_sums, gated, indicator, lemma_sum_filter, lemma_sum_split, lemma_sum_pointwise,
    lemma_sum_all_zero, lemma_same_sums_len, lemma_same_sums_witness,
    lemma_indicator_positive, lemma_filter_len, lemma_sum_push,
};
use crate::tally::{region_mass, region_impurity};

verus! {

/// The samples routed to the left child: feature `f` at most `t`.
pub open spec fn goes_left(m: Matrix, f: int, t: int) -> spec_fn(usize) -> bool {
    |row: usize| key(m, f, row) <= t
}

/// The samples routed to the right child: feature `f` above `t`.
pub open spec fn goes_right(m: Matrix, f: int, t: int) -> spec_fn(usize) -> bool {
    |row: usize| key(m, f, row) > t
}

/// The left part of the region under the split `(f, t)`, in region order.
pub open spec fn left_of(m: Matrix, region: Seq<usize>, f: int, t: int) -> Seq<usize> {
    region.filter(goes_left(m, f, t))
}

/// The right part of the region under the split `(f, t)`, in region order.
pub open spec fn right_of(m: Matrix, region: Seq<usize>, f: int, t: int) -> Seq<usize> {
    region.filter(goes_right(m, f, t))
}

/// The threshold for cutting between two values: their midpoint, rounded
/// down, so that `lo <= t < hi`.
pub open spec fn threshold_between(lo: int, hi: int) -> int {
    lo + (hi - lo) / 2
}

/// Feature `f` takes the value `v` somewhere in the region.
pub open spec fn occurs(m: Matrix, region: Seq<usize>, f: int, v: int) -> bool {
    exists|i: int| 0 <= i < region.len() && key(m, f, #[trigger] region[i]) == v
}

/// No sample of the region has feature `f` strictly between `lo` and `hi`.
pub open spec fn none_between(m: Matrix, region: Seq<usize>, f: int, lo: int, hi: int) -> bool {
    forall|i: int|
        0 <= i < region.len() ==> key(m, f, #[trigger] region[i]) <= lo || key(m, f, region[i])
            >= hi
}

/// `lo < hi` are consecutive distinct values of feature `f` in the region.
pub open spec fn is_gap(m: Matrix, region: Seq<usize>, f: int, lo: int, hi: int) -> bool {
    &&& lo < hi
    &&& occurs(m, region, f, lo)
    &&& occurs(m, region, f, hi)
    &&& none_between(m, region, f, lo, hi)
}

/// `(f, t)` is a split the search considers: `t` cuts feature `f` between
/// two consecutive distinct values, and each side keeps at least
/// `min_leaf` samples.
pub open spec fn is_candidate(m: Matrix, region: Seq<usize>, min_leaf: int, f: int, t: int) -> bool {
    &&& 0 <= f < m.cols
    &&& exists|lo: int, hi: int| #[trigger]
        is_gap(m, region, f, lo, hi) && t == threshold_between(lo, hi)
    &&& left_of(m, region, f, t).len() >= min_leaf
    &&& right_of(m, region, f, t).len() >= min_leaf
}

/// The impurity of two children weighted by their shares of the `n`
/// samples, from the masses of the children: `(mass_l + mass_r) / n`.
/// Masses over one denominator are added as they are.
pub open spec fn weighted(l: (int, int), r: (int, int), n: int) -> (int, int) {
    if l.1 == r.1 {
        (l.0 + r.0, l.1 * n)
    } else {
        (l.0 * r.1 + r.0 * l.1, l.1 * r.1 * n)
    }
}

/// The weighted impurity of the children under the split `(f, t)`.
pub open spec fn split_score(
    c: SplitCriterion,
    m: Matrix,
    targets: Targets,
    region: Seq<usize>,
    f: int,
    t: int,
) -> (int, int) {
    weighted(
        region_mass(c, targets, left_of(m, region, f, t)),
        region_mass(c, targets, right_of(m, region, f, t)),
        region.len() as int,
    )
}

/// `a < b` as rationals.
pub open spec fn lt(a: (int, int), b: (int, int)) -> bool {
    frac_lt(a.0, a.1, b.0, b.1)
}

/// The score `a` at `(f, t)` is kept over the score `b` at `(f2, t2)`: it
/// is not larger, and on a tie it comes first (lower feature, then lower
/// threshold).
pub open spec fn keeps(a: (int, int), f: int, t: int, b: (int, int), f2: int, t2: int) -> bool {
    !lt(b, a) && (lt(a, b) || f < f2 || (f == f2 && t <= t2))
}

/// `(f, t)` is the split the search settles on: the candidate of least
/// weighted impurity, the first such in feature and threshold order.
pub open spec fn is_best_split(
    c: SplitCriterion,
    m: Matrix,
    targets: Targets,
    region: Seq<usize>,
    min_leaf: int,
    f: int,
    t: int,
) -> bool {
    &&& is_candidate(m, region, min_leaf, f, t)
    &&& forall|f2: int, t2: int| #[trigger]
        is_candidate(m, region, min_leaf, f2, t2) ==> keeps(
            split_score(c, m, targets, region, f, t),
            f,
            t,
            split_score(c, m, targets, region, f2, t2),
            f2,
            t2,
        )
}

/// How far, in units of the last place of the logarithm, the weighted
/// entropy of a split can stand from the true one, for better or worse:
/// two units for each of the parent and the two sides, which together hold
/// the samples twice.
pub const ENTROPY_MARGIN: u128 = 4;

/// The score of a split of `n` samples, raised by what the criterion may
/// have lost to rounding: nothing for the exact criteria, and
/// `ENTROPY_MARGIN / 2^56` for entropy, whose score stands over `2^56 · n`.
pub open spec fn with_margin(c: SplitCriterion, score: (int, int), n: int) -> (int, int) {
    if c == SplitCriterion::Entropy {
        (score.0 + ENTROPY_MARGIN * n, score.1)
    } else {
        score
    }
}

/// The split `(f, t)` lowers the impurity: the weighted impurity of the
/// children, raised by the margin of the criterion, is strictly below the
/// impurity of the region. For the exact criteria this is the plain strict
/// comparison; for entropy the gain must exceed what rounding can feign.
pub open spec fn improves(
    c: SplitCriterion,
    m: Matrix,
    targets: Targets,
    region: Seq<usize>,
    f: int,
    t: int,
) -> bool {
    lt(
        with_margin(c, split_score(c, m, targets, region, f, t), region.len() as int),
        region_impurity(c, targets, region),
    )
}

/// `a < b <= c` gives `a < c`.
pub proof fn lemma_lt_le(a: (int, int), b: (int, int), c: (int, int))
    requires
        a.1 > 0,
        b.1 > 0,
        c.1 > 0,
        lt(a, b),
        !lt(c, b),
    ensures
        lt(a, c),
{
    assert(a.0 * c.1 < c.0 * a.1) by (nonlinear_arith)
        requires
            a.1 > 0,
            b.1 > 0,
            c.1 > 0,
            a.0 * b.1 < b.0 * a.1,
            b.0 * c.1 <= c.0 * b.1,
    {
        assert((a.0 * b.1) * c.1 < (b.0 * a.1) * c.1);
        assert((b.0 * c.1) * a.1 <= (c.0 * b.1) * a.1);
        assert((a.0 * c.1) * b.1 < (c.0 * a.1) * b.1);
    }
}

/// `a <= b <= c` gives `a <= c`.
pub proof fn lemma_le_le(a: (int, int), b: (int, int), c: (int, int))
    requires
        a.1 > 0,
        b.1 > 0,
        c.1 > 0,
        !lt(b, a),
        !lt(c, b),
    ensures
        !lt(c, a),
{
    assert(a.0 * c.1 <= c.0 * a.1) by (nonlinear_arith)
        requires
            a.1 > 0,
            b.1 > 0,
            c.1 > 0,
            a.0 * b.1 <= b.0 * a.1,
            b.0 * c.1 <= c.0 * b.1,
    {
        assert((a.0 * b.1) * c.1 <= (b.0 * a.1) * c.1);
        assert((b.0 * c.1) * a.1 <= (c.0 * b.1) * a.1);
        assert((a.0 * c.1) * b.1 <= (c.0 * a.1) * b.1);
    }
}

/// A cut of the sorted samples between positions `j - 1` and `j` is a gap
/// of the region, and the prefix and the rest of the sorted samples are
/// rearrangements of the two sides of the split.
pub proof fn lemma_cut_sides(m: Matrix, region: Seq<usize>, s: Seq<usize>, f: int, j: int, t: int)
    requires
        sorted_by(m, f, s),
        same_sums(s, region),
        0 < j < s.len(),
        key(m, f, s[j - 1]) <= t < key(m, f, s[j]),
    ensures
        is_gap(m, region, f, key(m, f, s[j - 1]), key(m, f, s[j])),
        same_sums(left_of(m, region, f, t), s.take(j)),
        same_sums(right_of(m, region, f, t), s.skip(j)),
        left_of(m, region, f, t).len() == j,
        right_of(m, region, f, t).len() == s.len() - j,
        region.len() == s.len(),
{
    let lo = key(m, f, s[j - 1]);
    let hi = key(m, f, s[j]);
    let a = s.take(j);
    let b = s.skip(j);
    assert forall|i: int| 0 <= i < a.len() implies key(m, f, #[trigger] a[i]) <= lo by {
        assert(a[i] == s[i]);
    }
    assert forall|i: int| 0 <= i < b.len() implies key(m, f, #[trigger] b[i]) >= hi by {
        assert(b[i] == s[i + j]);
    }
    lemma_same_sums_len(s, region);
    // the two values occur in the region, and nothing lies between them
    let at_lo = |row: usize| key(m, f, row) == lo;
    let at_hi = |row: usize| key(m, f, row) == hi;
    let inside = |row: usize| lo < key(m, f, row) < hi;
    assert(at_lo(s[j - 1]));
    assert(at_hi(s[j]));
    lemma_same_sums_witness(s, region, at_lo);
    lemma_same_sums_witness(s, region, at_hi);
    let i1 = choose|i: int| 0 <= i < region.len() && at_lo(#[trigger] region[i]);
    assert(key(m, f, region[i1]) == lo);
    let i2 = choose|i: int| 0 <= i < region.len() && at_hi(#[trigger] region[i]);
    assert(key(m, f, region[i2]) == hi);
    assert forall|i: int| 0 <= i < s.len() implies indicator(inside)(#[trigger] s[i]) == 0 by {
        if i < j {
            assert(a[i] == s[i]);
        } else {
            assert(b[i - j] == s[i]);
        }
    }
    lemma_sum_all_zero(s, indicator(inside));
    lemma_indicator_positive(region, inside);
    assert(sum_by(s, indicator(inside)) == sum_by(region, indicator(inside)));
    assert forall|i: int| 0 <= i < region.len() implies key(m, f, #[trigger] region[i]) <= lo
        || key(m, f, region[i]) >= hi by {
        if inside(region[i]) {
            assert(false);
        }
    }
    // the sums over the two sides
    let pl = goes_left(m, f, t);
    let pr = goes_right(m, f, t);
    assert forall|w: spec_fn(usize) -> int| #[trigger]
        sum_by(left_of(m, region, f, t), w) == sum_by(a, w) by {
        lemma_sum_filter(region, pl, w);
        assert(sum_by(region, gated(pl, w)) == sum_by(s, gated(pl, w)));
        lemma_sum_split(s, j, gated(pl, w));
        lemma_sum_pointwise(a, gated(pl, w), w);
        lemma_sum_all_zero(b, gated(pl, w));
    }
    assert forall|w: spec_fn(usize) -> int| #[trigger]
        sum_by(right_of(m, region, f, t), w) == sum_by(b, w) by {
        lemma_sum_filter(region, pr, w);
        assert(sum_by(region, gated(pr, w)) == sum_by(s, gated(pr, w)));
        lemma_sum_split(s, j, gated(pr, w));
        lemma_sum_pointwise(b, gated(pr, w), w);
        lemma_sum_all_zero(a, gated(pr, w));
    }
    lemma_same_sums_len(left_of(m, region, f, t), a);
    lemma_same_sums_len(right_of(m, region, f, t), b);
}

/// Between a sample at most `lo` and a later one at least `hi`, the sorted
/// samples step over the gap at some position.
proof fn lemma_boundary(m: Matrix, s: Seq<usize>, f: int, lo: int, hi: int, a: int, b: int) -> (j:
    int)
    requires
        none_between(m, s, f, lo, hi),
        lo < hi,
        0 <= a < b < s.len(),
        key(m, f, s[a]) <= lo,
        key(m, f, s[b]) >= hi,
    ensures
        a < j <= b,
        key(m, f, s[j - 1]) <= lo,
        key(m, f, s[j]) >= hi,
    decreases b - a,
{
    if key(m, f, s[a + 1]) >= hi {
        a + 1
    } else {
        lemma_boundary(m, s, f, lo, hi, a + 1, b)
    }
}

/// Every gap of the region is a cut of the sorted samples at some position.
pub proof fn lemma_gap_position(
    m: Matrix,
    region: Seq<usize>,
    s: Seq<usize>,
    f: int,
    lo: int,
    hi: int,
) -> (j: int)
    requires
        sorted_by(m, f, s),
        same_sums(s, region),
        is_gap(m, region, f, lo, hi),
    ensures
        0 < j < s.len(),
        key(m, f, s[j - 1]) == lo,
        key(m, f, s[j]) == hi,
{
    let at_lo = |row: usize| key(m, f, row) == lo;
    let at_hi = |row: usize| key(m, f, row) == hi;
    let inside = |row: usize| lo < key(m, f, row) < hi;
    assert forall|w: spec_fn(usize) -> int| #[trigger] sum_by(region, w) == sum_by(s, w) by {
        assert(sum_by(s, w) == sum_by(region, w));
    }
    let i1 = choose|i: int| 0 <= i < region.len() && key(m, f, #[trigger] region[i]) == lo;
    assert(at_lo(region[i1]));
    let i2 = choose|i: int| 0 <= i < region.len() && key(m, f, #[trigger] region[i]) == hi;
    assert(at_hi(region[i2]));
    lemma_same_sums_witness(region, s, at_lo);
    lemma_same_sums_witness(region, s, at_hi);
    let a = choose|i: int| 0 <= i < s.len() && at_lo(#[trigger] s[i]);
    let b = choose|i: int| 0 <= i < s.len() && at_hi(#[trigger] s[i]);
    assert forall|i: int| 0 <= i < region.len() implies indicator(inside)(#[trigger] region[i])
        == 0 by {}
    lemma_sum_all_zero(region, indicator(inside));
    lemma_indicator_positive(s, inside);
    assert forall|i: int| 0 <= i < s.len() implies key(m, f, #[trigger] s[i]) <= lo || key(
        m,
        f,
        s[i],
    ) >= hi by {
        if inside(s[i]) {
            assert(false);
        }
    }
    if a >= b {
        assert(key(m, f, s[b]) <= key(m, f, s[a]));
    }
    let j = lemma_boundary(m, s, f, lo, hi, a, b);
    assert(key(m, f, s[a]) <= key(m, f, s[j - 1]));
    assert(key(m, f, s[j]) <= key(m, f, s[b]));
    j
}

/// A split sends every sample to exactly one side.
pub proof fn lemma_sides_add_up(m: Matrix, region: Seq<usize>, f: int, t: int)
    ensures
        left_of(m, region, f, t).len() + right_of(m, region, f, t).len() == region.len(),
    decreases region.len(),
{
    reveal(Seq::filter);
    if region.len() > 0 {
        lemma_sides_add_up(m, region.drop_last(), f, t);
    }
}

/// A candidate split leaves samples on both sides.
pub proof fn lemma_sides_not_empty(m: Matrix, region: Seq<usize>, min_leaf: int, f: int, t: int)
    requires
        is_candidate(m, region, min_leaf, f, t),
    ensures
        left_of(m, region, f, t).len() > 0,
        right_of(m, region, f, t).len() > 0,
        left_of(m, region, f, t).len() < region.len(),
        right_of(m, region, f, t).len() < region.len(),
{
    let (lo, hi) = choose|lo: int, hi: int| #[trigger]
        is_gap(m, region, f, lo, hi) && t == threshold_between(lo, hi);
    let i = choose|i: int| 0 <= i < region.len() && key(m, f, #[trigger] region[i]) == lo;
    let j = choose|j: int| 0 <= j < region.len() && key(m, f, #[trigger] region[j]) == hi;
    assert(goes_left(m, f, t)(region[i]));
    assert(goes_right(m, f, t)(region[j]));
    lemma_indicator_positive(region, goes_left(m, f, t));
    lemma_indicator_positive(region, goes_right(m, f, t));
    lemma_filter_len(region, goes_left(m, f, t));
    lemma_filter_len(region, goes_right(m, f, t));
    lemma_sides_add_up(m, region, f, t);
}

/// Every sum over a region is the sum over its two sides.
pub proof fn lemma_sum_sides(m: Matrix, region: Seq<usize>, f: int, t: int, w: spec_fn(usize) -> int)
    ensures
        sum_by(region, w) == sum_by(left_of(m, region, f, t), w) + sum_by(
            right_of(m, region, f, t),
            w,
        ),
    decreases region.len(),
{
    reveal(Seq::filter);
    if region.len() > 0 {
        let rest = region.drop_last();
        lemma_sum_sides(m, rest, f, t, w);
        if goes_left(m, f, t)(region.last()) {
            lemma_sum_push(rest.filter(goes_left(m, f, t)), region.last(), w);
        } else {
            lemma_sum_push(rest.filter(goes_right(m, f, t)), region.last(), w);
        }
    }
}

/// The samples of a side are samples of the region.
pub proof fn lemma_side_within(m: Matrix, region: Seq<usize>, f: int, t: int, bound: int)
    requires
        forall|k: int| 0 <= k < region.len() ==> #[trigger] region[k] < bound,
    ensures
        forall|k: int|
            0 <= k < left_of(m, region, f, t).len() ==> #[trigger] left_of(m, region, f, t)[k]
                < bound,
        forall|k: int|
            0 <= k < right_of(m, region, f, t).len() ==> #[trigger] right_of(m, region, f, t)[k]
                < bound,
{
    let left = left_of(m, region, f, t);
    let right = right_of(m, region, f, t);
    assert forall|k: int| 0 <= k < left.len() implies #[trigger] left[k] < bound by {
        let x = left[k];
        assert(left.contains(x));
        region.lemma_filter_contains_rev(goes_left(m, f, t), x);
        let j = choose|j: int| 0 <= j < region.len() && region[j] == x;
        assert(region[j] < bound);
    }
    assert forall|k: int| 0 <= k < right.len() implies #[trigger] right[k] < bound by {
        let x = right[k];
        assert(right.contains(x));
        region.lemma_filter_contains_rev(goes_right(m, f, t), x);
        let j = choose|j: int| 0 <= j < region.len() && region[j] == x;
        assert(region[j] < bound);
    }
}

} // verus!
