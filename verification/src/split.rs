//! The search for the best split of a region.

use vstd::prelude::*;
use crate::criterion::SplitCriterion;
use crate::cuts::{
    left_of, right_of, threshold_between, is_gap, is_candidate, weighted, split_score, lt, keeps,
    is_best_split, improves, with_margin, lemma_lt_le, lemma_le_le, lemma_cut_sides,
    lemma_gap_position, lemma_sides_not_empty, ENTROPY_MARGIN,
};
use crate::data::{Matrix, Targets};
use crate::impurity::{largest_count, mass_den};
use crate::log2::LOG_ONE;
use crate::ratio::Ratio;
use crate::sort::{key, rows_valid, sorted_by, sort_by_feature};
use crate::sums::{same_sums, lemma_same_sums_symmetric};
use crate::tally::{
    Tally, tally_of, class_bound, spread, within_capacity, has_targets, region_mass,
    region_impurity, mass_limit, lemma_mass_upper, lemma_capacity_monotone,
    lemma_same_sums_region,
};

verus! {

/// A split under consideration, with what it does to the region.
#[derive(Debug)]
pub struct CandidateSplit {
    /// The feature that is cut.
    pub feature: usize,
    /// Samples with the feature at most this value go left.
    pub threshold: i64,
    /// The statistics of the left part.
    pub left: Tally,
    /// The statistics of the right part.
    pub right: Tally,
    /// The impurity of the two parts, weighted by their shares.
    pub weighted_impurity: Ratio,
}

/// Matrix, targets and criterion fit together: one target per row, a
/// label criterion for labels and `MSE` for numbers, and a number of
/// classes that a counter can index.
pub open spec fn consistent(m: Matrix, targets: Targets, c: SplitCriterion) -> bool {
    &&& m.wf()
    &&& targets.count() == m.rows@.len()
    &&& c.for_labels() == targets.for_labels()
    &&& class_bound(targets.labels()) <= usize::MAX
}

impl CandidateSplit {
    /// The fields say what the split `(feature, threshold)` does to the
    /// region.
    pub open spec fn describes(
        self,
        c: SplitCriterion,
        m: Matrix,
        targets: Targets,
        region: Seq<usize>,
    ) -> bool {
        let f = self.feature as int;
        let t = self.threshold as int;
        &&& self.left.tallies(targets, left_of(m, region, f, t))
        &&& self.right.tallies(targets, right_of(m, region, f, t))
        &&& self.weighted_impurity.num == split_score(c, m, targets, region, f, t).0
        &&& self.weighted_impurity.den == split_score(c, m, targets, region, f, t).1
    }
}

/// Rows of the matrix have targets.
pub proof fn lemma_rows_have_targets(m: Matrix, targets: Targets, region: Seq<usize>)
    requires
        targets.count() == m.rows@.len(),
        rows_valid(m, region),
    ensures
        has_targets(targets, region),
{
}

/// The weighted impurity of two non-empty parts of a region within
/// capacity fits 128 bits, whichever way the masses are added.
pub proof fn lemma_score_fits(
    c: SplitCriterion,
    l: (int, int),
    r: (int, int),
    nl: int,
    nr: int,
    cap: int,
)
    requires
        nl > 0,
        nr > 0,
        cap >= 1,
        (nl + nr) * (nl + nr) * (nl + nr) * cap <= u128::MAX,
        0 <= l.0 <= mass_limit(c, nl, cap),
        0 <= r.0 <= mass_limit(c, nr, cap),
        l.1 == mass_den(c, nl),
        r.1 == mass_den(c, nr),
    ensures
        0 <= l.0 + r.0 <= u128::MAX,
        0 < l.1 * (nl + nr) <= u128::MAX,
        l.1 > 0,
        r.1 > 0,
        l.1 != r.1 ==> {
            &&& l.0 * r.1 + r.0 * l.1 <= u128::MAX
            &&& 0 < l.1 * r.1 * (nl + nr) <= u128::MAX
            &&& l.1 * r.1 <= u128::MAX
        },
        0 <= weighted(l, r, nl + nr).0,
        0 < weighted(l, r, nl + nr).1,
        c == SplitCriterion::Entropy ==> l.1 == r.1 && l.0 + r.0 + ENTROPY_MARGIN * (nl + nr)
            <= u128::MAX,
{
    let n = nl + nr;
    let big = u128::MAX as int;
    assert(n * n * n <= big && n < 0x800_0000_0000 && n * n <= n * n * n) by (nonlinear_arith)
        requires
            n > 0,
            cap >= 1,
            n * n * n * cap <= big,
            big == 0xFFFF_FFFF_FFFF_FFFF_FFFF_FFFF_FFFF_FFFF,
    {
        assert(n * n * n <= n * n * n * cap);
        if n >= 0x800_0000_0000 {
            assert(n * n >= 0x800_0000_0000 * 0x800_0000_0000);
            assert(n * n * n >= 0x800_0000_0000 * 0x800_0000_0000 * 0x800_0000_0000);
        }
    }
    match c {
        SplitCriterion::Gini => {
            assert(0 <= l.0 * nr + r.0 * nl <= n * n * n && 0 < nl * nr * n <= n * n * n
                && l.0 * nr <= n * n * n && r.0 * nl <= n * n * n && 0 < nl * nr <= n * n * n
                && l.0 + r.0 <= n * n && 0 < nl * n <= n * n) by (nonlinear_arith)
                requires
                    nl > 0,
                    nr > 0,
                    n == nl + nr,
                    0 <= l.0 <= nl * nl,
                    0 <= r.0 <= nr * nr,
            {
                assert(l.0 * nr <= nl * nl * nr);
                assert(r.0 * nl <= nr * nr * nl);
                assert(nl * nl * nr + nr * nr * nl == nl * nr * n);
                assert(nl * nr <= n * n);
                assert(nl * nr * n <= n * n * n);
                assert(nl * nr <= nl * nr * n);
                assert(nl * nl + nr * nr <= n * n);
            }
        },
        SplitCriterion::Entropy => {
            let one = LOG_ONE as int;
            assert(0 <= l.0 + r.0 && l.0 + r.0 + 4 * n <= big && 0 < one * n <= big)
                by (nonlinear_arith)
                requires
                    nl > 0,
                    nr > 0,
                    n == nl + nr,
                    n < 0x800_0000_0000,
                    0 <= l.0 <= nl * (64 * one),
                    0 <= r.0 <= nr * (64 * one),
                    one == 0x100_0000_0000_0000,
                    big == 0xFFFF_FFFF_FFFF_FFFF_FFFF_FFFF_FFFF_FFFF,
            {
                assert(l.0 + r.0 <= n * (64 * one));
            }
        },
        SplitCriterion::ClassificationError => {
            assert(n <= n * n * n && 1 * n == n) by (nonlinear_arith)
                requires
                    n > 0,
            ;
        },
        SplitCriterion::MSE => {
            assert(0 <= l.0 * nr + r.0 * nl <= n * n * n * cap && 0 < nl * nr * n <= n * n * n
                && l.0 * nr <= n * n * n * cap && r.0 * nl <= n * n * n * cap && 0 < nl * nr <= n
                * n * n && l.0 + r.0 <= n * n * n * cap && 0 < nl * n <= n * n)
                by (nonlinear_arith)
                requires
                    nl > 0,
                    nr > 0,
                    cap >= 1,
                    n == nl + nr,
                    0 <= l.0 <= nl * nl * cap,
                    0 <= r.0 <= nr * nr * cap,
                    n * n <= n * n * n,
            {
                assert(l.0 * nr <= nl * nl * cap * nr);
                assert(r.0 * nl <= nr * nr * cap * nl);
                assert(nl * nl * cap * nr + nr * nr * cap * nl == nl * nr * n * cap);
                assert(nl * nr <= n * n);
                assert(nl * nr * n <= n * n * n);
                assert(nl * nr * n * cap <= n * n * n * cap);
                assert(nl * nr <= nl * nr * n);
                assert(nl * nl * cap + nr * nr * cap <= n * n * cap);
                assert(n * n * cap <= n * n * n * cap);
            }
        },
    }
    if l.1 != r.1 {
        assert(l.0 * r.1 >= 0 && r.0 * l.1 >= 0) by (nonlinear_arith)
            requires
                l.0 >= 0,
                r.0 >= 0,
                l.1 > 0,
                r.1 > 0,
        ;
    }
}

/// The impurity of two parts weighted by their shares of `n` samples, from
/// their masses.
fn weighted_score(l: &Ratio, r: &Ratio, n: usize) -> (w: Ratio)
    requires
        l.den == r.den ==> l.num + r.num <= u128::MAX && l.den * n <= u128::MAX,
        l.den != r.den ==> {
            &&& l.num * r.den + r.num * l.den <= u128::MAX
            &&& l.den * r.den * n <= u128::MAX
            &&& l.den * r.den <= u128::MAX
        },
    ensures
        w.num == weighted((l.num as int, l.den as int), (r.num as int, r.den as int), n as int).0,
        w.den == weighted((l.num as int, l.den as int), (r.num as int, r.den as int), n as int).1,
{
    if l.den == r.den {
        Ratio { num: l.num + r.num, den: l.den * (n as u128) }
    } else {
        proof {
            assert(l.num * r.den >= 0 && r.num * l.den >= 0) by (nonlinear_arith)
                requires
                    l.num >= 0,
                    r.den >= 0,
                    r.num >= 0,
                    l.den >= 0,
            ;
        }
        Ratio { num: l.num * r.den + r.num * l.den, den: l.den * r.den * (n as u128) }
    }
}

/// The threshold between two consecutive feature values.
fn midpoint(lo: i64, hi: i64) -> (t: i64)
    requires
        lo < hi,
    ensures
        t == threshold_between(lo as int, hi as int),
        lo <= t < hi,
{
    let gap: i128 = hi as i128 - lo as i128;
    (lo as i128 + gap / 2) as i64
}

/// The score a candidate carries.
pub open spec fn score_of(b: CandidateSplit) -> (int, int) {
    (b.weighted_impurity.num as int, b.weighted_impurity.den as int)
}

/// The search has a split that it keeps over the candidate `(f2, t2)`.
pub open spec fn covered(
    c: SplitCriterion,
    m: Matrix,
    targets: Targets,
    region: Seq<usize>,
    best: Option<CandidateSplit>,
    f2: int,
    t2: int,
) -> bool {
    best matches Some(b) && keeps(
        score_of(b),
        b.feature as int,
        b.threshold as int,
        split_score(c, m, targets, region, f2, t2),
        f2,
        t2,
    )
}

/// `best` is what the search has settled on after the features below
/// `f_end`: a candidate among them that is kept over every other.
pub open spec fn best_so_far(
    c: SplitCriterion,
    m: Matrix,
    targets: Targets,
    region: Seq<usize>,
    min_leaf: int,
    best: Option<CandidateSplit>,
    f_end: int,
) -> bool {
    &&& best matches Some(b) ==> {
        &&& b.describes(c, m, targets, region)
        &&& is_candidate(m, region, min_leaf, b.feature as int, b.threshold as int)
        &&& b.feature < f_end
    }
    &&& forall|f2: int, t2: int| #[trigger]
        is_candidate(m, region, min_leaf, f2, t2) && f2 < f_end ==> covered(
            c,
            m,
            targets,
            region,
            best,
            f2,
            t2,
        )
}

/// Position `j` of the sorted samples is a cut the search considers.
pub open spec fn cut_ok(m: Matrix, s: Seq<usize>, f: int, min_leaf: int, j: int) -> bool {
    &&& 0 < j < s.len()
    &&& key(m, f, s[j - 1]) < key(m, f, s[j])
    &&& j >= min_leaf
    &&& s.len() - j >= min_leaf
}

/// The threshold of the cut at position `j` of the sorted samples.
pub open spec fn cut_threshold(m: Matrix, s: Seq<usize>, f: int, j: int) -> int {
    threshold_between(key(m, f, s[j - 1]), key(m, f, s[j]))
}

/// What the search returns: the best split if it lowers the impurity,
/// nothing if no candidate does.
pub open spec fn search_result(
    c: SplitCriterion,
    m: Matrix,
    targets: Targets,
    region: Seq<usize>,
    min_leaf: int,
    best: Option<CandidateSplit>,
) -> bool {
    match best {
        Some(b) => {
            &&& b.describes(c, m, targets, region)
            &&& is_best_split(c, m, targets, region, min_leaf, b.feature as int, b.threshold as int)
            &&& improves(c, m, targets, region, b.feature as int, b.threshold as int)
        },
        None => forall|f2: int, t2: int| #[trigger]
            is_candidate(m, region, min_leaf, f2, t2) ==> !improves(c, m, targets, region, f2, t2),
    }
}

/// Scores of splits of a non-empty region have positive denominators.
pub proof fn lemma_score_den_positive(
    c: SplitCriterion,
    m: Matrix,
    targets: Targets,
    region: Seq<usize>,
    f: int,
    t: int,
)
    requires
        region.len() > 0,
    ensures
        split_score(c, m, targets, region, f, t).1 > 0,
        region_impurity(c, targets, region).1 > 0,
{
    let l = region_mass(c, targets, left_of(m, region, f, t));
    let r = region_mass(c, targets, right_of(m, region, f, t));
    let p = region_mass(c, targets, region);
    let n = region.len() as int;
    assert(l.1 > 0 && r.1 > 0 && p.1 > 0);
    assert(l.1 * r.1 * n > 0 && p.1 * n > 0 && l.1 * n > 0) by (nonlinear_arith)
        requires
            l.1 > 0,
            r.1 > 0,
            p.1 > 0,
            n > 0,
    ;
}

/// Under entropy the score of a candidate and the impurity of the region
/// stand over one denominator, `2^56 · n`, and the score is the sum of the
/// masses of the two sides.
pub proof fn lemma_entropy_score_shape(
    m: Matrix,
    targets: Targets,
    region: Seq<usize>,
    min_leaf: int,
    f: int,
    t: int,
)
    requires
        targets is Labels,
        is_candidate(m, region, min_leaf, f, t),
    ensures
        split_score(SplitCriterion::Entropy, m, targets, region, f, t).1 == LOG_ONE * region.len(),
        region_impurity(SplitCriterion::Entropy, targets, region).1 == LOG_ONE * region.len(),
        split_score(SplitCriterion::Entropy, m, targets, region, f, t).0 == region_mass(
            SplitCriterion::Entropy,
            targets,
            left_of(m, region, f, t),
        ).0 + region_mass(SplitCriterion::Entropy, targets, right_of(m, region, f, t)).0,
        region.len() > 0,
{
    lemma_sides_not_empty(m, region, min_leaf, f, t);
}

/// If the best split does not improve, no split it is kept over does.
proof fn lemma_none_improves(
    c: SplitCriterion,
    parent: (int, int),
    best: (int, int),
    other: (int, int),
    n: int,
)
    requires
        parent.1 > 0,
        best.1 > 0,
        other.1 > 0,
        c == SplitCriterion::Entropy ==> best.1 == parent.1 && other.1 == parent.1,
        !lt(with_margin(c, best, n), parent),
        !lt(other, best),
    ensures
        !lt(with_margin(c, other, n), parent),
{
    if c == SplitCriterion::Entropy {
        let d = parent.1;
        let slack = ENTROPY_MARGIN * n;
        assert((other.0 + slack) * d >= parent.0 * d) by (nonlinear_arith)
            requires
                d > 0,
                (best.0 + slack) * d >= parent.0 * d,
                other.0 * d >= best.0 * d,
        {
            assert(other.0 >= best.0);
            assert(best.0 + slack >= parent.0);
        }
    } else {
        lemma_le_le(parent, best, other);
    }
}

/// A strictly better split is kept over everything the old one was kept
/// over.
proof fn lemma_better_covers(
    c: SplitCriterion,
    m: Matrix,
    targets: Targets,
    region: Seq<usize>,
    old_best: Option<CandidateSplit>,
    new_best: CandidateSplit,
    f2: int,
    t2: int,
)
    requires
        region.len() > 0,
        covered(c, m, targets, region, old_best, f2, t2),
        old_best matches Some(b) ==> lt(score_of(new_best), score_of(b)) && score_of(b).1 > 0,
        score_of(new_best).1 > 0,
    ensures
        covered(c, m, targets, region, Some(new_best), f2, t2),
{
    let b = old_best->0;
    let other = split_score(c, m, targets, region, f2, t2);
    lemma_score_den_positive(c, m, targets, region, f2, t2);
    lemma_lt_le(score_of(new_best), score_of(b), other);
}

/// If the best split is kept over every cut of the sorted samples, it is
/// kept over every candidate of the feature.
proof fn lemma_feature_covered(
    c: SplitCriterion,
    m: Matrix,
    targets: Targets,
    region: Seq<usize>,
    s: Seq<usize>,
    f: int,
    min_leaf: int,
    best: Option<CandidateSplit>,
)
    requires
        sorted_by(m, f, s),
        same_sums(s, region),
        forall|j2: int|
            1 <= j2 < s.len() && #[trigger] cut_ok(m, s, f, min_leaf, j2) ==> covered(
                c,
                m,
                targets,
                region,
                best,
                f,
                cut_threshold(m, s, f, j2),
            ),
    ensures
        forall|t2: int| #[trigger]
            is_candidate(m, region, min_leaf, f, t2) ==> covered(c, m, targets, region, best, f, t2),
{
    assert forall|t2: int| #[trigger] is_candidate(m, region, min_leaf, f, t2) implies covered(
        c,
        m,
        targets,
        region,
        best,
        f,
        t2,
    ) by {
        let (lo, hi) = choose|lo: int, hi: int| #[trigger]
            is_gap(m, region, f, lo, hi) && t2 == threshold_between(lo, hi);
        let j2 = lemma_gap_position(m, region, s, f, lo, hi);
        lemma_cut_sides(m, region, s, f, j2, t2);
        assert(cut_ok(m, s, f, min_leaf, j2));
        assert(cut_threshold(m, s, f, j2) == t2);
    }
}

/// The number of classes of the targets: one more than the largest label.
pub fn count_classes(targets: &Targets) -> (k: usize)
    requires
        class_bound(targets.labels()) <= usize::MAX,
    ensures
        k == class_bound(targets.labels()),
{
    match targets {
        Targets::Labels(labels) => {
            if labels.len() == 0 {
                0
            } else {
                largest_count(labels.as_slice()) + 1
            }
        },
        Targets::Values(_) => 0,
    }
}

/// Scans the cuts of one feature in ascending order of threshold and keeps
/// the best split seen so far; a later cut replaces it only if it scores
/// strictly lower.
fn scan_feature(
    matrix: &Matrix,
    targets: &Targets,
    criterion: &SplitCriterion,
    min_leaf: usize,
    region: &Vec<usize>,
    whole: &Tally,
    n_classes: usize,
    feature: usize,
    best: Option<CandidateSplit>,
) -> (out: Option<CandidateSplit>)
    requires
        consistent(*matrix, *targets, *criterion),
        feature < matrix.cols,
        rows_valid(*matrix, region@),
        within_capacity(*targets, region@.len() as int),
        n_classes == class_bound(targets.labels()),
        whole.tallies(*targets, region@),
        best_so_far(*criterion, *matrix, *targets, region@, min_leaf as int, best, feature as int),
    ensures
        best_so_far(*criterion, *matrix, *targets, region@, min_leaf as int, out, feature + 1),
{
    let ghost c = *criterion;
    let ghost m = *matrix;
    let ghost tg = *targets;
    let ghost r = region@;
    let ghost f = feature as int;
    let ghost ml = min_leaf as int;
    let sorted: Vec<usize> = sort_by_feature(matrix, feature, region);
    let ghost s = sorted@;
    let n: usize = region.len();
    let mut best: Option<CandidateSplit> = best;
    proof {
        lemma_same_sums_symmetric(s, r);
        lemma_same_sums_region(c, tg, r, s);
        lemma_rows_have_targets(m, tg, s);
        assert(s.take(0) =~= Seq::<usize>::empty());
        assert(s.skip(0) =~= s);
    }
    if n >= 2 {
        let mut left: Tally = Tally::empty(targets, n_classes);
        let mut right: Tally = whole.copy();
        let mut j: usize = 1;
        while j < n
            invariant
                1 <= j <= n,
                n == s.len(),
                n == r.len(),
                s == sorted@,
                r == region@,
                c == *criterion,
                m == *matrix,
                tg == *targets,
                f == feature as int,
                ml == min_leaf as int,
                consistent(m, tg, c),
                feature < matrix.cols,
                sorted_by(m, f, s),
                same_sums(s, r),
                rows_valid(m, s),
                has_targets(tg, s),
                within_capacity(tg, n as int),
                left.tallies(tg, s.take(j - 1)),
                right.tallies(tg, s.skip(j - 1)),
                best matches Some(b) ==> {
                    &&& b.describes(c, m, tg, r)
                    &&& is_candidate(m, r, ml, b.feature as int, b.threshold as int)
                    &&& b.feature <= f
                    &&& (b.feature == f ==> b.threshold < key(m, f, s[j - 1]))
                },
                forall|f2: int, t2: int| #[trigger]
                    is_candidate(m, r, ml, f2, t2) && f2 < f ==> covered(c, m, tg, r, best, f2, t2),
                forall|j2: int|
                    1 <= j2 < j && #[trigger] cut_ok(m, s, f, ml, j2) ==> covered(
                        c,
                        m,
                        tg,
                        r,
                        best,
                        f,
                        cut_threshold(m, s, f, j2),
                    ),
            decreases n - j,
        {
            let row: usize = sorted[j - 1];
            left = left.add(targets, row, Ghost(s), Ghost(j - 1));
            right = right.remove(targets, row, Ghost(s), Ghost(j - 1));
            let lo: i64 = matrix.get(row, feature);
            let hi: i64 = matrix.get(sorted[j], feature);
            let ghost old_best = best;
            proof {
                assert(key(m, f, s[j - 1]) <= key(m, f, s[j as int]));
            }
            if lo < hi && j >= min_leaf && n - j >= min_leaf {
                let t: i64 = midpoint(lo, hi);
                let ghost a = s.take(j as int);
                let ghost b = s.skip(j as int);
                let ghost la = left_of(m, r, f, t as int);
                let ghost rb = right_of(m, r, f, t as int);
                proof {
                    lemma_cut_sides(m, r, s, f, j as int, t as int);
                    lemma_same_sums_symmetric(la, a);
                    lemma_same_sums_symmetric(rb, b);
                    lemma_same_sums_region(c, tg, a, la);
                    lemma_same_sums_region(c, tg, b, rb);
                    assert forall|k: int| 0 <= k < a.len() implies #[trigger] a[k] < tg.count() by {
                        assert(a[k] == s[k]);
                    }
                    assert forall|k: int| 0 <= k < b.len() implies #[trigger] b[k] < tg.count() by {
                        assert(b[k] == s[k + j]);
                    }
                    lemma_capacity_monotone(tg, a.len() as int, n as int);
                    lemma_capacity_monotone(tg, b.len() as int, n as int);
                    lemma_mass_upper(c, tg, a);
                    lemma_mass_upper(c, tg, b);
                }
                let mass_l: Ratio = left.mass(criterion, targets, Ghost(a));
                let mass_r: Ratio = right.mass(criterion, targets, Ghost(b));
                proof {
                    lemma_score_fits(
                        c,
                        (mass_l.num as int, mass_l.den as int),
                        (mass_r.num as int, mass_r.den as int),
                        j as int,
                        n - j,
                        spread(tg),
                    );
                }
                let w: Ratio = weighted_score(&mass_l, &mass_r, n);
                let take: bool = match &best {
                    None => true,
                    Some(b0) => w.lt(&b0.weighted_impurity),
                };
                proof {
                    assert(is_gap(m, r, f, lo as int, hi as int));
                    assert(is_candidate(m, r, ml, f, t as int));
                    assert(cut_threshold(m, s, f, j as int) == t);
                    lemma_score_den_positive(c, m, tg, r, f, t as int);
                }
                if take {
                    let found = CandidateSplit {
                        feature,
                        threshold: t,
                        left: left.copy(),
                        right: right.copy(),
                        weighted_impurity: w,
                    };
                    proof {
                        assert(found.describes(c, m, tg, r));
                        if old_best is Some {
                            let b0 = old_best->0;
                            lemma_score_den_positive(
                                c,
                                m,
                                tg,
                                r,
                                b0.feature as int,
                                b0.threshold as int,
                            );
                        }
                        assert forall|f2: int, t2: int| #[trigger]
                            is_candidate(m, r, ml, f2, t2) && f2 < f implies covered(
                            c,
                            m,
                            tg,
                            r,
                            Some(found),
                            f2,
                            t2,
                        ) by {
                            lemma_better_covers(c, m, tg, r, old_best, found, f2, t2);
                        }
                        assert forall|j2: int|
                            1 <= j2 < j + 1 && #[trigger] cut_ok(m, s, f, ml, j2) implies covered(
                            c,
                            m,
                            tg,
                            r,
                            Some(found),
                            f,
                            cut_threshold(m, s, f, j2),
                        ) by {
                            if j2 < j {
                                lemma_better_covers(
                                    c,
                                    m,
                                    tg,
                                    r,
                                    old_best,
                                    found,
                                    f,
                                    cut_threshold(m, s, f, j2),
                                );
                            }
                        }
                    }
                    best = Some(found);
                } else {
                    proof {
                        assert forall|j2: int|
                            1 <= j2 < j + 1 && #[trigger] cut_ok(m, s, f, ml, j2) implies covered(
                            c,
                            m,
                            tg,
                            r,
                            best,
                            f,
                            cut_threshold(m, s, f, j2),
                        ) by {}
                    }
                }
            }
            j = j + 1;
        }
    }
    proof {
        assert forall|j2: int|
            1 <= j2 < s.len() && #[trigger] cut_ok(m, s, f, ml, j2) implies covered(
            c,
            m,
            tg,
            r,
            best,
            f,
            cut_threshold(m, s, f, j2),
        ) by {}
        lemma_feature_covered(c, m, tg, r, s, f, ml, best);
    }
    best
}

/// The search over all features of a region whose tally is at hand.
pub(crate) fn search(
    matrix: &Matrix,
    targets: &Targets,
    criterion: &SplitCriterion,
    min_leaf: usize,
    region: &Vec<usize>,
    whole: &Tally,
    n_classes: usize,
) -> (best: Option<CandidateSplit>)
    requires
        consistent(*matrix, *targets, *criterion),
        rows_valid(*matrix, region@),
        within_capacity(*targets, region@.len() as int),
        n_classes == class_bound(targets.labels()),
        whole.tallies(*targets, region@),
    ensures
        search_result(*criterion, *matrix, *targets, region@, min_leaf as int, best),
{
    let ghost c = *criterion;
    let ghost m = *matrix;
    let ghost tg = *targets;
    let ghost r = region@;
    let ghost ml = min_leaf as int;
    let mut best: Option<CandidateSplit> = None;
    let mut feature: usize = 0;
    while feature < matrix.ncols()
        invariant
            0 <= feature <= matrix.cols,
            consistent(*matrix, *targets, *criterion),
            rows_valid(*matrix, region@),
            within_capacity(*targets, region@.len() as int),
            n_classes == class_bound(targets.labels()),
            whole.tallies(*targets, region@),
            best_so_far(*criterion, *matrix, *targets, region@, min_leaf as int, best, feature as int),
        decreases matrix.cols - feature,
    {
        best = scan_feature(
            matrix,
            targets,
            criterion,
            min_leaf,
            region,
            whole,
            n_classes,
            feature,
            best,
        );
        feature = feature + 1;
    }
    proof {
        lemma_rows_have_targets(m, tg, r);
    }
    match best {
        None => None,
        Some(b) => {
            let parent: Ratio = whole.impurity(criterion, targets, Ghost(r));
            let ghost bf = b.feature as int;
            let ghost bt = b.threshold as int;
            proof {
                let (lo, hi) = choose|lo: int, hi: int| #[trigger]
                    is_gap(m, r, bf, lo, hi) && bt == threshold_between(lo, hi);
                assert(r.len() > 0);
                lemma_score_den_positive(c, m, tg, r, bf, bt);
            }
            let accepted: bool = match criterion {
                SplitCriterion::Entropy => {
                    proof {
                        lemma_entropy_score_shape(m, tg, r, ml, bf, bt);
                    }
                    let slack: u128 = ENTROPY_MARGIN * (region.len() as u128);
                    match b.weighted_impurity.num.checked_add(slack) {
                        Some(top) => Ratio { num: top, den: b.weighted_impurity.den }.lt(&parent),
                        None => {
                            proof {
                                let d = parent.den as int;
                                let top = b.weighted_impurity.num + slack;
                                assert(top * d >= parent.num * d) by (nonlinear_arith)
                                    requires
                                        d > 0,
                                        top >= parent.num,
                                ;
                            }
                            false
                        },
                    }
                },
                _ => b.weighted_impurity.lt(&parent),
            };
            if accepted {
                Some(b)
            } else {
                proof {
                    assert forall|f2: int, t2: int| #[trigger]
                        is_candidate(m, r, ml, f2, t2) implies !improves(c, m, tg, r, f2, t2) by {
                        lemma_score_den_positive(c, m, tg, r, f2, t2);
                        assert(covered(c, m, tg, r, Some(b), f2, t2));
                        if c == SplitCriterion::Entropy {
                            lemma_entropy_score_shape(m, tg, r, ml, f2, t2);
                        }
                        lemma_none_improves(
                            c,
                            region_impurity(c, tg, r),
                            score_of(b),
                            split_score(c, m, tg, r, f2, t2),
                            r.len() as int,
                        );
                    }
                }
                None
            }
        },
    }
}

/// Finds the split of the region that lowers the impurity most.
///
/// Every feature is cut between each two consecutive distinct values it
/// takes in the region, at the midpoint rounded down. Cuts that leave
/// fewer than `min_samples_leaf` samples on a side are passed over. Of the
/// cuts with the least weighted impurity the first one wins, in order of
/// feature index and then of threshold. The result is `None` when not even
/// that cut scores strictly below the impurity of the region itself.
pub fn find_best_split(
    matrix: &Matrix,
    targets: &Targets,
    criterion: &SplitCriterion,
    min_samples_leaf: usize,
    region: &Vec<usize>,
) -> (best: Option<CandidateSplit>)
    requires
        consistent(*matrix, *targets, *criterion),
        rows_valid(*matrix, region@),
        within_capacity(*targets, region@.len() as int),
    ensures
        search_result(*criterion, *matrix, *targets, region@, min_samples_leaf as int, best),
{
    let n_classes: usize = count_classes(targets);
    proof {
        lemma_rows_have_targets(*matrix, *targets, region@);
    }
    let whole: Tally = tally_of(targets, n_classes, region);
    search(matrix, targets, criterion, min_samples_leaf, region, &whole, n_classes)
}

} // verus!
