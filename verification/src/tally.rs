//! Running statistics of a region: class counts, or the moments of the
//! numeric targets.

use vstd::prelude::*;
use crate::criterion::SplitCriterion;
use crate::data::{Targets, Prediction};
use crate::impurity::{
    class_mass, moment_mass, mass_num, mass_den, variance_num, max_count, total, count_weight,
    lemma_max_count, lemma_counts_nonneg, square_weight, log_weight,
};
use crate::log2::{log2_fixed, lemma_log2_bounds, LOG_ONE};
use crate::ratio::Ratio;
use crate::sums::{
    sum_by, same_sums, indicator, lemma_same_sums_len, lemma_sum_take_step, lemma_sum_skip_step,
    lemma_sum_split, lemma_sum_all_zero, lemma_sum_monotone, lemma_sum_constant,
    lemma_sum_squares_bound, lemma_sum_nonneg, lemma_indicator_positive,
};

verus! {

/// The weight that counts the samples of class `c`.
pub open spec fn class_weight(labels: Seq<usize>, c: int) -> spec_fn(usize) -> int {
    |row: usize| if row < labels.len() && labels[row as int] == c { 1int } else { 0int }
}

/// The weight of a sample in the sum of the targets: its target.
pub open spec fn value_weight(values: Seq<i64>) -> spec_fn(usize) -> int {
    |row: usize| if row < values.len() { values[row as int] as int } else { 0int }
}

/// The weight of a sample in the sum of squares: its target squared.
pub open spec fn value_sq_weight(values: Seq<i64>) -> spec_fn(usize) -> int {
    |row: usize| if row < values.len() { values[row as int] * values[row as int] } else { 0int }
}

/// Number of samples of class `c` in the region.
pub open spec fn class_count(labels: Seq<usize>, region: Seq<usize>, c: int) -> int {
    sum_by(region, class_weight(labels, c))
}

/// Number of classes: one more than the largest label, 0 without labels.
pub open spec fn class_bound(labels: Seq<usize>) -> int {
    if labels.len() == 0 {
        0
    } else {
        max_count(labels) + 1
    }
}

/// The class distribution of the region: how many of its samples carry
/// each label.
pub open spec fn class_counts(labels: Seq<usize>, region: Seq<usize>) -> Seq<usize> {
    Seq::new(class_bound(labels) as nat, |c: int| class_count(labels, region, c) as usize)
}

/// Sum of the targets of the region.
pub open spec fn value_sum(values: Seq<i64>, region: Seq<usize>) -> int {
    sum_by(region, value_weight(values))
}

/// Sum of the squared targets of the region.
pub open spec fn value_sum_sq(values: Seq<i64>, region: Seq<usize>) -> int {
    sum_by(region, value_sq_weight(values))
}

/// The largest square among the values, 0 without values.
pub open spec fn peak_square(values: Seq<i64>) -> int
    decreases values.len(),
{
    if values.len() == 0 {
        0
    } else {
        let p = peak_square(values.drop_last());
        let x = values.last() * values.last();
        if x > p {
            x
        } else {
            p
        }
    }
}

/// The scale of the targets: 1 for labels, the largest squared value (at
/// least 1) for numbers.
pub open spec fn spread(targets: Targets) -> int {
    match targets {
        Targets::Labels(_) => 1,
        Targets::Values(v) => if peak_square(v@) > 1 {
            peak_square(v@)
        } else {
            1
        },
    }
}

/// The scores of a region of `n` samples fit 128-bit numerators:
/// `n³ · spread <= 2^128 - 1`.
pub open spec fn within_capacity(targets: Targets, n: int) -> bool {
    n * n * n * spread(targets) <= u128::MAX
}

/// Every entry of `region` is a sample with a target.
pub open spec fn has_targets(targets: Targets, region: Seq<usize>) -> bool {
    forall|k: int| 0 <= k < region.len() ==> #[trigger] region[k] < targets.count()
}

/// The index of the first largest count: the majority class. 0 for no counts.
pub open spec fn first_max(counts: Seq<usize>) -> int
    decreases counts.len(),
{
    if counts.len() == 0 {
        0
    } else if counts.last() > max_count(counts.drop_last()) || counts.len() == 1 {
        counts.len() - 1
    } else {
        first_max(counts.drop_last())
    }
}

/// `n` times the impurity of the region, as numerator and denominator.
pub open spec fn region_mass(criterion: SplitCriterion, targets: Targets, region: Seq<usize>) -> (
    int,
    int,
) {
    let n = region.len() as int;
    match targets {
        Targets::Labels(l) => (
            mass_num(criterion, class_counts(l@, region), n),
            mass_den(criterion, n),
        ),
        Targets::Values(v) => if n == 0 {
            (0, 1)
        } else {
            (variance_num(n, value_sum(v@, region), value_sum_sq(v@, region)), n)
        },
    }
}

/// The impurity of the region, as numerator and denominator.
pub open spec fn region_impurity(
    criterion: SplitCriterion,
    targets: Targets,
    region: Seq<usize>,
) -> (int, int) {
    let m = region_mass(criterion, targets, region);
    if region.len() == 0 {
        (m.0, m.1)
    } else {
        (m.0, m.1 * region.len())
    }
}

/// What a leaf over the region predicts: the majority class (the smallest
/// label among the most frequent), or the mean of the targets.
pub open spec fn region_prediction(targets: Targets, region: Seq<usize>) -> Prediction {
    match targets {
        Targets::Labels(l) => Prediction::Class(first_max(class_counts(l@, region)) as usize),
        Targets::Values(v) => Prediction::Mean {
            sum: value_sum(v@, region) as i128,
            count: region.len() as usize,
        },
    }
}

/// The statistics of a region that scores and predictions are computed from.
#[derive(Debug)]
pub struct Tally {
    /// Number of samples.
    pub n: usize,
    /// Samples per class; empty for numeric targets.
    pub counts: Vec<usize>,
    /// Sum of the numeric targets; 0 for labels.
    pub sum: i128,
    /// Sum of the squared numeric targets; 0 for labels.
    pub sum_sq: u128,
}

pub proof fn lemma_peak_square(values: Seq<i64>)
    ensures
        forall|k: int| 0 <= k < values.len() ==> #[trigger] values[k] * values[k] <= peak_square(values),
        0 <= peak_square(values),
    decreases values.len(),
{
    if values.len() > 0 {
        let r = values.drop_last();
        lemma_peak_square(r);
        assert forall|k: int| 0 <= k < values.len() implies #[trigger] values[k] * values[k]
            <= peak_square(values) by {
            if k < r.len() {
                assert(r[k] == values[k]);
            }
        }
    }
}

/// Class counts are non-negative, bounded by the size of the region, and
/// the class weights of one sample with a label below the bound sum to one.
pub proof fn lemma_class_count_bounds(labels: Seq<usize>, region: Seq<usize>, c: int)
    ensures
        0 <= class_count(labels, region, c) <= region.len(),
{
    let one = |row: usize| 1int;
    lemma_sum_nonneg(region, class_weight(labels, c));
    lemma_sum_monotone(region, class_weight(labels, c), one);
    lemma_sum_constant(region, one, 1);
}

/// Sizes of the numeric sums of a region within capacity.
pub proof fn lemma_value_bounds(targets: Targets, region: Seq<usize>, n: int)
    requires
        targets is Values,
        has_targets(targets, region),
        region.len() <= n,
        within_capacity(targets, n),
    ensures
        0 <= value_sum_sq(targets.values(), region) <= region.len() * spread(targets),
        value_sum(targets.values(), region) * value_sum(targets.values(), region) <= region.len()
            * value_sum_sq(targets.values(), region),
        region.len() * value_sum_sq(targets.values(), region) <= u128::MAX,
        value_sum_sq(targets.values(), region) <= u128::MAX,
        -0x1_0000_0000_0000_0000 < value_sum(targets.values(), region) < 0x1_0000_0000_0000_0000,
{
    let values = targets.values();
    let cap = spread(targets);
    let flat = |row: usize| cap;
    let len = region.len() as int;
    lemma_peak_square(values);
    assert forall|k: int| 0 <= k < region.len() implies value_sq_weight(values)(#[trigger] region[k])
        <= flat(region[k]) && value_sq_weight(values)(region[k]) == value_weight(values)(region[k])
        * value_weight(values)(region[k]) by {
        let row = region[k] as int;
        assert(values[row] * values[row] <= peak_square(values));
    }
    lemma_sum_monotone(region, value_sq_weight(values), flat);
    lemma_sum_constant(region, flat, cap);
    lemma_sum_squares_bound(region, value_weight(values), value_sq_weight(values));
    let q = value_sum_sq(values, region);
    let s = value_sum(values, region);
    assert(len * q <= u128::MAX && q <= u128::MAX) by (nonlinear_arith)
        requires
            0 <= q <= len * cap,
            0 <= len <= n,
            cap >= 1,
            n * n * n * cap <= u128::MAX,
    {
        assert(len * q <= len * (len * cap));
        assert(len * (len * cap) <= n * (n * cap));
        assert(n * (n * cap) <= n * n * n * cap || n == 0);
        assert(len * cap <= n * (n * cap) || n == 0);
    }
    assert(-0x1_0000_0000_0000_0000 < s < 0x1_0000_0000_0000_0000) by (nonlinear_arith)
        requires
            s * s <= 0xFFFF_FFFF_FFFF_FFFF_FFFF_FFFF_FFFF_FFFF,
    ;
}

/// Replacing one count changes the total by the difference.
pub proof fn lemma_total_update(s: Seq<usize>, i: int, v: usize)
    requires
        0 <= i < s.len(),
    ensures
        total(s.update(i, v)) == total(s) - s[i] + v,
{
    let u = s.update(i, v);
    let w = count_weight();
    lemma_sum_split(s, i, w);
    lemma_sum_split(u, i, w);
    lemma_sum_skip_step(s, i, w);
    lemma_sum_skip_step(u, i, w);
    assert(u.take(i) =~= s.take(i));
    assert(u.skip(i + 1) =~= s.skip(i + 1));
}

/// The majority class is a class, none has more samples, and every class
/// before it has fewer: ties go to the smallest label.
pub proof fn lemma_first_max(counts: Seq<usize>)
    ensures
        counts.len() > 0 ==> 0 <= first_max(counts) < counts.len(),
        counts.len() > 0 ==> counts[first_max(counts)] == max_count(counts),
        forall|k: int| 0 <= k < first_max(counts) ==> #[trigger] counts[k] < max_count(counts),
        counts.len() == 0 ==> first_max(counts) == 0,
    decreases counts.len(),
{
    if counts.len() > 0 {
        let r = counts.drop_last();
        lemma_first_max(r);
        lemma_max_count(r);
        lemma_max_count(counts);
        if counts.last() > max_count(r) || counts.len() == 1 {
            assert forall|k: int| 0 <= k < first_max(counts) implies #[trigger] counts[k]
                < max_count(counts) by {
                assert(r[k] == counts[k]);
            }
        } else {
            assert(counts[first_max(counts)] == r[first_max(r)]);
            assert forall|k: int| 0 <= k < first_max(counts) implies #[trigger] counts[k]
                < max_count(counts) by {
                assert(r[k] == counts[k]);
            }
        }
    }
}

/// The class counts of a region add up to its size.
pub proof fn lemma_class_counts_total(labels: Seq<usize>, region: Seq<usize>)
    requires
        forall|k: int| 0 <= k < region.len() ==> #[trigger] region[k] < labels.len(),
        region.len() <= usize::MAX,
    ensures
        class_counts(labels, region).len() == class_bound(labels),
        total(class_counts(labels, region)) == region.len(),
        forall|c: int|
            0 <= c < class_bound(labels) ==> #[trigger] class_counts(labels, region)[c]
                == class_count(labels, region, c),
    decreases region.len(),
{
    let counts = class_counts(labels, region);
    assert forall|c: int| 0 <= c < class_bound(labels) implies #[trigger] counts[c] == class_count(
        labels,
        region,
        c,
    ) by {
        lemma_class_count_bounds(labels, region, c);
    }
    if region.len() == 0 {
        assert forall|c: int| 0 <= c < counts.len() implies count_weight()(#[trigger] counts[c])
            == 0 by {}
        lemma_sum_all_zero(counts, count_weight());
    } else {
        let rest = region.drop_last();
        let row = region.last();
        assert(row == region[region.len() - 1]);
        assert forall|k: int| 0 <= k < rest.len() implies #[trigger] rest[k] < labels.len() by {
            assert(rest[k] == region[k]);
        }
        lemma_class_counts_total(labels, rest);
        lemma_max_count(labels);
        let lab = labels[row as int] as int;
        assert(labels[row as int] <= max_count(labels));
        let before = class_counts(labels, rest);
        lemma_class_count_bounds(labels, region, lab);
        let next = (before[lab] + 1) as usize;
        assert(counts =~= before.update(lab, next)) by {
            assert forall|c: int| 0 <= c < class_bound(labels) implies counts[c] == before.update(
                lab,
                next,
            )[c] by {
                lemma_class_count_bounds(labels, region, c);
                lemma_class_count_bounds(labels, rest, c);
            }
        }
        lemma_total_update(before, lab, next);
    }
}

/// A region within capacity stays within capacity when it shrinks.
pub proof fn lemma_capacity_monotone(targets: Targets, small: int, n: int)
    requires
        0 <= small <= n,
        within_capacity(targets, n),
    ensures
        within_capacity(targets, small),
{
    let cap = spread(targets);
    assert(small * small * small * cap <= n * n * n * cap) by (nonlinear_arith)
        requires
            0 <= small <= n,
            cap >= 1,
    {
        assert(small * small <= n * n);
        assert(small * small * small <= n * n * n);
    }
}

/// Rearranging a region changes none of its statistics.
pub proof fn lemma_same_sums_region(c: SplitCriterion, targets: Targets, a: Seq<usize>, b: Seq<usize>)
    requires
        same_sums(a, b),
    ensures
        a.len() == b.len(),
        region_mass(c, targets, a) == region_mass(c, targets, b),
        region_impurity(c, targets, a) == region_impurity(c, targets, b),
        region_prediction(targets, a) == region_prediction(targets, b),
        class_counts(targets.labels(), a) == class_counts(targets.labels(), b),
        has_targets(targets, a) ==> has_targets(targets, b),
        forall|t: Tally| #[trigger] t.tallies(targets, a) ==> t.tallies(targets, b),
{
    lemma_same_sums_len(a, b);
    let labels = targets.labels();
    assert forall|k: int| 0 <= k < class_bound(labels) implies class_count(labels, a, k)
        == class_count(labels, b, k) by {
        assert(sum_by(a, class_weight(labels, k)) == sum_by(b, class_weight(labels, k)));
    }
    assert(class_counts(labels, a) =~= class_counts(labels, b));
    let values = targets.values();
    assert(sum_by(a, value_weight(values)) == sum_by(b, value_weight(values)));
    assert(sum_by(a, value_sq_weight(values)) == sum_by(b, value_sq_weight(values)));
    if has_targets(targets, a) {
        let outside = |row: usize| row >= targets.count();
        lemma_indicator_positive(a, outside);
        lemma_indicator_positive(b, outside);
        assert(sum_by(a, indicator(outside)) == sum_by(b, indicator(outside)));
        assert forall|k: int| 0 <= k < b.len() implies #[trigger] b[k] < targets.count() by {
            if outside(b[k]) {
                assert(false);
            }
        }
    }
}

/// The largest numerator a mass can have for a region of `n` samples.
pub open spec fn mass_limit(c: SplitCriterion, n: int, cap: int) -> int {
    match c {
        SplitCriterion::Gini => n * n,
        SplitCriterion::Entropy => n * (64 * LOG_ONE),
        SplitCriterion::ClassificationError => n,
        SplitCriterion::MSE => n * n * cap,
    }
}

/// The mass of a region stays below its limit, over a fixed denominator.
pub proof fn lemma_mass_upper(c: SplitCriterion, targets: Targets, region: Seq<usize>)
    requires
        has_targets(targets, region),
        0 < region.len() <= usize::MAX,
        within_capacity(targets, region.len() as int),
        c.for_labels() == targets.for_labels(),
    ensures
        region_mass(c, targets, region).0 <= mass_limit(c, region.len() as int, spread(targets)),
        region_mass(c, targets, region).1 == mass_den(c, region.len() as int),
        region_mass(c, targets, region).1 > 0,
{
    let n = region.len() as int;
    match targets {
        Targets::Labels(l) => {
            let counts = class_counts(l@, region);
            lemma_counts_nonneg(counts);
            lemma_sum_nonneg(counts, square_weight());
            lemma_sum_nonneg(counts, log_weight());
            lemma_max_count(counts);
            lemma_log2_bounds(n as nat);
            assert(n * log2_fixed(n as nat) <= n * (64 * LOG_ONE)) by (nonlinear_arith)
                requires
                    n >= 0,
                    log2_fixed(n as nat) <= 64 * LOG_ONE,
            ;
        },
        Targets::Values(v) => {
            lemma_value_bounds(targets, region, n);
            let q = value_sum_sq(v@, region);
            let s = value_sum(v@, region);
            let cap = spread(targets);
            assert(n * q - s * s <= n * n * cap) by (nonlinear_arith)
                requires
                    0 <= q <= n * cap,
                    n > 0,
            {
                assert(n * q <= n * (n * cap));
                assert(s * s >= 0);
            }
        },
    }
}

/// Builds the tally of a region sample by sample.
pub fn tally_of(targets: &Targets, n_classes: usize, region: &Vec<usize>) -> (t: Tally)
    requires
        has_targets(*targets, region@),
        within_capacity(*targets, region@.len() as int),
        targets is Labels ==> n_classes == class_bound(targets.labels()),
    ensures
        t.tallies(*targets, region@),
{
    let mut t: Tally = Tally::empty(targets, n_classes);
    let mut j: usize = 0;
    proof {
        assert(region@.take(0) =~= Seq::<usize>::empty());
    }
    while j < region.len()
        invariant
            0 <= j <= region@.len(),
            has_targets(*targets, region@),
            within_capacity(*targets, region@.len() as int),
            t.tallies(*targets, region@.take(j as int)),
        decreases region@.len() - j,
    {
        t = t.add(targets, region[j], Ghost(region@), Ghost(j as int));
        j = j + 1;
    }
    proof {
        assert(region@.take(region@.len() as int) =~= region@);
    }
    t
}

impl Tally {
    /// The tally holds the statistics of exactly the samples in `region`.
    pub open spec fn tallies(self, targets: Targets, region: Seq<usize>) -> bool {
        &&& self.n == region.len()
        &&& match targets {
            Targets::Labels(l) => {
                &&& self.counts@ == class_counts(l@, region)
                &&& total(self.counts@) == region.len()
                &&& self.sum == 0
                &&& self.sum_sq == 0
            },
            Targets::Values(v) => {
                &&& self.counts@.len() == 0
                &&& self.sum == value_sum(v@, region)
                &&& self.sum_sq == value_sum_sq(v@, region)
            },
        }
    }

    /// The tally of no samples, with one zero count for each of `k` classes.
    pub fn empty(targets: &Targets, k: usize) -> (t: Tally)
        requires
            targets is Labels ==> k == class_bound(targets.labels()),
        ensures
            t.tallies(*targets, Seq::empty()),
    {
        let mut counts: Vec<usize> = Vec::new();
        if targets.is_labels() {
            let mut c: usize = 0;
            while c < k
                invariant
                    0 <= c <= k,
                    counts@.len() == c,
                    forall|i: int| 0 <= i < c ==> #[trigger] counts@[i] == 0,
                decreases k - c,
            {
                counts.push(0);
                c = c + 1;
            }
            proof {
                assert(counts@ =~= class_counts(targets.labels(), Seq::empty()));
                lemma_sum_all_zero(counts@, count_weight());
            }
        }
        Tally { n: 0, counts, sum: 0, sum_sq: 0 }
    }

    /// A copy of the tally.
    pub fn copy(&self) -> (t: Tally)
        ensures
            t.n == self.n,
            t.counts@ == self.counts@,
            t.sum == self.sum,
            t.sum_sq == self.sum_sq,
    {
        let mut counts: Vec<usize> = Vec::new();
        let mut c: usize = 0;
        while c < self.counts.len()
            invariant
                0 <= c <= self.counts@.len(),
                counts@ == self.counts@.take(c as int),
            decreases self.counts@.len() - c,
        {
            counts.push(self.counts[c]);
            proof {
                assert(counts@ =~= self.counts@.take(c + 1));
            }
            c = c + 1;
        }
        proof {
            assert(self.counts@.take(self.counts@.len() as int) =~= self.counts@);
        }
        Tally { n: self.n, counts, sum: self.sum, sum_sq: self.sum_sq }
    }

    /// Counts sample `s[j]` in: from the tally of the first `j` samples of
    /// `s` to that of the first `j + 1`.
    pub(crate) fn add(
        self,
        targets: &Targets,
        row: usize,
        Ghost(s): Ghost<Seq<usize>>,
        Ghost(j): Ghost<int>,
    ) -> (t: Tally)
        requires
            0 <= j < s.len() <= usize::MAX,
            row == s[j],
            has_targets(*targets, s),
            within_capacity(*targets, s.len() as int),
            self.tallies(*targets, s.take(j)),
        ensures
            t.tallies(*targets, s.take(j + 1)),
    {
        let mut t = self;
        let ghost before = s.take(j);
        let ghost after = s.take(j + 1);
        match targets {
            Targets::Labels(labels) => {
                let label: usize = labels[row];
                proof {
                    lemma_max_count(labels@);
                    assert(labels@[row as int] <= max_count(labels@));
                    lemma_class_count_bounds(labels@, before, label as int);
                    lemma_total_update(t.counts@, label as int, (t.counts@[label as int] + 1) as usize);
                }
                let c: usize = t.counts[label];
                t.counts.set(label, c + 1);
                proof {
                    assert forall|c: int| 0 <= c < class_bound(labels@) implies #[trigger] t.counts@[c]
                        == class_count(labels@, after, c) as usize by {
                        lemma_sum_take_step(s, j, class_weight(labels@, c));
                        lemma_class_count_bounds(labels@, after, c);
                    }
                    assert(t.counts@ =~= class_counts(labels@, after));
                }
            },
            Targets::Values(values) => {
                let y: i64 = values[row];
                proof {
                    lemma_sum_take_step(s, j, value_weight(values@));
                    lemma_sum_take_step(s, j, value_sq_weight(values@));
                    lemma_value_bounds(*targets, before, s.len() as int);
                    lemma_value_bounds(*targets, after, s.len() as int);
                    assert(0 <= y * y <= 0x8000_0000_0000_0000 * 0x8000_0000_0000_0000)
                        by (nonlinear_arith)
                        requires
                            -0x8000_0000_0000_0000 <= y <= 0x8000_0000_0000_0000,
                    ;
                }
                t.sum = t.sum + y as i128;
                t.sum_sq = t.sum_sq + ((y as i128) * (y as i128)) as u128;
            },
        }
        t.n = t.n + 1;
        t
    }

    /// Counts sample `s[j]` out: from the tally of the samples of `s` from
    /// `j` on to that of the samples from `j + 1` on.
    pub(crate) fn remove(
        self,
        targets: &Targets,
        row: usize,
        Ghost(s): Ghost<Seq<usize>>,
        Ghost(j): Ghost<int>,
    ) -> (t: Tally)
        requires
            0 <= j < s.len() <= usize::MAX,
            row == s[j],
            has_targets(*targets, s),
            within_capacity(*targets, s.len() as int),
            self.tallies(*targets, s.skip(j)),
        ensures
            t.tallies(*targets, s.skip(j + 1)),
    {
        let mut t = self;
        let ghost before = s.skip(j);
        let ghost after = s.skip(j + 1);
        proof {
            assert forall|k: int| 0 <= k < before.len() implies #[trigger] before[k]
                < targets.count() by {
                assert(before[k] == s[k + j]);
            }
            assert forall|k: int| 0 <= k < after.len() implies #[trigger] after[k] < targets.count() by {
                assert(after[k] == s[k + j + 1]);
            }
        }
        match targets {
            Targets::Labels(labels) => {
                let label: usize = labels[row];
                proof {
                    lemma_max_count(labels@);
                    assert(labels@[row as int] <= max_count(labels@));
                    lemma_sum_skip_step(s, j, class_weight(labels@, label as int));
                    lemma_class_count_bounds(labels@, after, label as int);
                    lemma_class_count_bounds(labels@, before, label as int);
                    lemma_total_update(t.counts@, label as int, (t.counts@[label as int] - 1) as usize);
                }
                let c: usize = t.counts[label];
                t.counts.set(label, c - 1);
                proof {
                    assert forall|c: int| 0 <= c < class_bound(labels@) implies #[trigger] t.counts@[c]
                        == class_count(labels@, after, c) as usize by {
                        lemma_sum_skip_step(s, j, class_weight(labels@, c));
                        lemma_class_count_bounds(labels@, after, c);
                        lemma_class_count_bounds(labels@, before, c);
                    }
                    assert(t.counts@ =~= class_counts(labels@, after));
                }
            },
            Targets::Values(values) => {
                let y: i64 = values[row];
                proof {
                    lemma_sum_skip_step(s, j, value_weight(values@));
                    lemma_sum_skip_step(s, j, value_sq_weight(values@));
                    lemma_value_bounds(*targets, before, s.len() as int);
                    lemma_value_bounds(*targets, after, s.len() as int);
                    assert(0 <= y * y <= 0x8000_0000_0000_0000 * 0x8000_0000_0000_0000)
                        by (nonlinear_arith)
                        requires
                            -0x8000_0000_0000_0000 <= y <= 0x8000_0000_0000_0000,
                    ;
                }
                t.sum = t.sum - y as i128;
                t.sum_sq = t.sum_sq - ((y as i128) * (y as i128)) as u128;
            },
        }
        t.n = t.n - 1;
        t
    }

    /// The mass of the tallied region: `n` times its impurity.
    pub(crate) fn mass(
        &self,
        criterion: &SplitCriterion,
        targets: &Targets,
        Ghost(region): Ghost<Seq<usize>>,
    ) -> (r: Ratio)
        requires
            self.tallies(*targets, region),
            has_targets(*targets, region),
            within_capacity(*targets, region.len() as int),
            criterion.for_labels() == targets.for_labels(),
        ensures
            r.num == region_mass(*criterion, *targets, region).0,
            r.den == region_mass(*criterion, *targets, region).1,
            r.wf(),
    {
        match targets {
            Targets::Labels(_) => class_mass(criterion, self.counts.as_slice(), self.n),
            Targets::Values(_) => {
                proof {
                    lemma_value_bounds(*targets, region, region.len() as int);
                }
                moment_mass(self.n, self.sum, self.sum_sq)
            },
        }
    }

    /// The impurity of the tallied region.
    pub(crate) fn impurity(
        &self,
        criterion: &SplitCriterion,
        targets: &Targets,
        Ghost(region): Ghost<Seq<usize>>,
    ) -> (r: Ratio)
        requires
            self.tallies(*targets, region),
            has_targets(*targets, region),
            within_capacity(*targets, region.len() as int),
            criterion.for_labels() == targets.for_labels(),
        ensures
            r.num == region_impurity(*criterion, *targets, region).0,
            r.den == region_impurity(*criterion, *targets, region).1,
            r.wf(),
    {
        let mass: Ratio = self.mass(criterion, targets, Ghost(region));
        if self.n == 0 {
            return mass;
        }
        proof {
            lemma_mass_upper(*criterion, *targets, region);
            let d = mass.den as int;
            let n = self.n as int;
            assert(0 < d * n <= 0xFFFF_FFFF_FFFF_FFFF * 0xFFFF_FFFF_FFFF_FFFF) by (nonlinear_arith)
                requires
                    0 < d <= 0xFFFF_FFFF_FFFF_FFFF,
                    0 < n <= 0xFFFF_FFFF_FFFF_FFFF,
            ;
        }
        Ratio { num: mass.num, den: mass.den * (self.n as u128) }
    }

    /// What a leaf over the tallied region predicts.
    pub(crate) fn prediction(
        &self,
        targets: &Targets,
        Ghost(region): Ghost<Seq<usize>>,
    ) -> (p: Prediction)
        requires
            self.tallies(*targets, region),
        ensures
            p == region_prediction(*targets, region),
    {
        match targets {
            Targets::Labels(_) => {
                let mut best: usize = 0;
                let mut top: usize = 0;
                let mut c: usize = 0;
                while c < self.counts.len()
                    invariant
                        0 <= c <= self.counts@.len(),
                        top == max_count(self.counts@.take(c as int)),
                        best == first_max(self.counts@.take(c as int)),
                    decreases self.counts@.len() - c,
                {
                    proof {
                        assert(self.counts@.take(c + 1).drop_last() =~= self.counts@.take(c as int));
                    }
                    if self.counts[c] > top || c == 0 {
                        top = self.counts[c];
                        best = c;
                    }
                    c = c + 1;
                }
                proof {
                    assert(self.counts@.take(self.counts@.len() as int) =~= self.counts@);
                }
                Prediction::Class(best)
            },
            Targets::Values(_) => Prediction::Mean { sum: self.sum, count: self.n },
        }
    }
}

} // verus!
