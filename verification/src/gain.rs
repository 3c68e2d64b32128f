//! What a split gains. Under the Gini index it is exactly the skew between
//! the class proportions of the two sides; under entropy a gain is taken
//! only where the proportions differ.

use vstd::prelude::*;
use crate::criterion::SplitCriterion;
use crate::cuts::{
    left_of, right_of, is_candidate, split_score, improves, weighted, lt, lemma_sum_sides,
    lemma_side_within, lemma_sides_add_up, lemma_sides_not_empty, ENTROPY_MARGIN,
};
use crate::data::{Matrix, Targets};
use crate::entropy::{adds_up, same_proportions, lemma_entropy_of_split};
use crate::split::lemma_entropy_score_shape;
use crate::impurity::{total, sum_squares, mass_num};
use crate::tally::{
    class_counts, class_weight, has_targets, region_impurity, region_mass,
    lemma_class_counts_total,
};

verus! {

/// `Σ (l_i · b - r_i · a)²`: how far the classes are from being shared
/// between the sides as `a` to `b`.
pub open spec fn skew(l: Seq<usize>, r: Seq<usize>, a: int, b: int) -> int
    decreases l.len(),
{
    if l.len() == 0 || r.len() != l.len() {
        0
    } else {
        skew(l.drop_last(), r.drop_last(), a, b) + (l.last() * b - r.last() * a) * (l.last() * b
            - r.last() * a)
    }
}

/// The skew is a sum of squares: it vanishes exactly when every class is
/// shared as `a` to `b`, and it is what the sums of squares of the sides
/// have over that of the whole:
/// `(a+b)·b·Σl² + (a+b)·a·Σr² - a·b·Σp² == skew`.
pub proof fn lemma_skew(l: Seq<usize>, r: Seq<usize>, p: Seq<usize>, a: int, b: int)
    requires
        adds_up(l, r, p),
    ensures
        skew(l, r, a, b) >= 0,
        skew(l, r, a, b) == 0 <==> (forall|i: int|
            0 <= i < l.len() ==> (#[trigger] l[i]) * b == r[i] * a),
        (a + b) * b * sum_squares(l) + (a + b) * a * sum_squares(r) - a * b * sum_squares(p)
            == skew(l, r, a, b),
    decreases p.len(),
{
    if p.len() == 0 {
        assert((a + b) * b * 0 + (a + b) * a * 0 - a * b * 0 == 0) by (nonlinear_arith);
    } else {
        let l1 = l.drop_last();
        let r1 = r.drop_last();
        let p1 = p.drop_last();
        let k = p.len() - 1;
        assert(p[k] == l[k] + r[k]);
        assert forall|i: int| 0 <= i < p1.len() implies #[trigger] p1[i] == l1[i] + r1[i] by {
            assert(p[i] == l[i] + r[i]);
        }
        lemma_skew(l1, r1, p1, a, b);
        let x = l.last() as int;
        let y = r.last() as int;
        let d = x * b - y * a;
        assert(d * d >= 0 && (d * d == 0 <==> d == 0)) by (nonlinear_arith);
        let ql = sum_squares(l1);
        let qr = sum_squares(r1);
        let qp = sum_squares(p1);
        let u = (a + b) * b;
        let v = (a + b) * a;
        let w = a * b;
        let xx = x * x;
        let yy = y * y;
        let xy = x * y;
        let zz = (x + y) * (x + y);
        assert(zz == xx + 2 * xy + yy) by (nonlinear_arith)
            requires
                zz == (x + y) * (x + y),
                xx == x * x,
                yy == y * y,
                xy == x * y,
        ;
        assert(u * (ql + xx) == u * ql + u * xx && v * (qr + yy) == v * qr + v * yy && w * (qp
            + zz) == w * qp + w * zz) by (nonlinear_arith);
        assert(u * xx == w * xx + (b * b) * xx && v * yy == (a * a) * yy + w * yy) by (nonlinear_arith)
            requires
                u == (a + b) * b,
                v == (a + b) * a,
                w == a * b,
        ;
        assert(w * zz == w * xx + 2 * (w * xy) + w * yy) by (nonlinear_arith)
            requires
                zz == xx + 2 * xy + yy,
        ;
        let g = x * b;
        let h = y * a;
        assert(d * d == g * g - 2 * (g * h) + h * h) by (nonlinear_arith)
            requires
                d == g - h,
        ;
        assert(g * g == (b * b) * xx) by (nonlinear_arith)
            requires
                g == x * b,
                xx == x * x,
        ;
        assert(h * h == (a * a) * yy) by (nonlinear_arith)
            requires
                h == y * a,
                yy == y * y,
        ;
        assert(g * h == w * xy) by (nonlinear_arith)
            requires
                g == x * b,
                h == y * a,
                w == a * b,
                xy == x * y,
        ;
        assert(u * (ql + xx) + v * (qr + yy) - w * (qp + zz) == (u * ql + v * qr - w * qp) + d * d);
        if forall|i: int| 0 <= i < l.len() ==> (#[trigger] l[i]) * b == r[i] * a {
            assert(l[k] * b == r[k] * a);
            assert forall|i: int| 0 <= i < l1.len() implies (#[trigger] l1[i]) * b == r1[i] * a by {
                assert(l[i] * b == r[i] * a);
            }
        }
        if skew(l, r, a, b) == 0 {
            assert forall|i: int| 0 <= i < l.len() implies (#[trigger] l[i]) * b == r[i] * a by {
                if i < k {
                    assert(l1[i] == l[i] && r1[i] == r[i]);
                    assert(l1[i] * b == r1[i] * a);
                }
            }
        }
    }
}

/// The Gini index is concave, exactly: the weighted Gini index of the two
/// sides of a split never exceeds that of the whole, and is strictly below
/// it exactly when some class is parted in other proportions than the
/// samples.
pub proof fn lemma_gini_of_split(l: Seq<usize>, r: Seq<usize>, p: Seq<usize>)
    requires
        adds_up(l, r, p),
        total(l) > 0,
        total(r) > 0,
        total(p) == total(l) + total(r),
    ensures
        !lt(
            (mass_num(SplitCriterion::Gini, p, total(p)), total(p) * total(p)),
            weighted(
                (mass_num(SplitCriterion::Gini, l, total(l)), total(l)),
                (mass_num(SplitCriterion::Gini, r, total(r)), total(r)),
                total(p),
            ),
        ),
        lt(
            weighted(
                (mass_num(SplitCriterion::Gini, l, total(l)), total(l)),
                (mass_num(SplitCriterion::Gini, r, total(r)), total(r)),
                total(p),
            ),
            (mass_num(SplitCriterion::Gini, p, total(p)), total(p) * total(p)),
        ) <==> !same_proportions(l, r),
{
    let a = total(l);
    let b = total(r);
    let n = total(p);
    lemma_skew(l, r, p, a, b);
    let s = skew(l, r, a, b);
    let ml = mass_num(SplitCriterion::Gini, l, a);
    let mr = mass_num(SplitCriterion::Gini, r, b);
    let mp = mass_num(SplitCriterion::Gini, p, n);
    let ql = sum_squares(l);
    let qr = sum_squares(r);
    let qp = sum_squares(p);
    // the gain, multiplied out, is the skew
    let ab = a * b;
    assert((n * n) * ab == n * (b * (a * a)) + n * (a * (b * b))) by (nonlinear_arith)
        requires
            n == a + b,
            ab == a * b,
    ;
    assert(mp * ab == (n * n) * ab - qp * ab && n * (ml * b + mr * a) == n * (b * (a * a)) - n * (b
        * ql) + n * (a * (b * b)) - n * (a * qr)) by (nonlinear_arith)
        requires
            ml == a * a - ql,
            mr == b * b - qr,
            mp == n * n - qp,
    ;
    assert(n * (b * ql) == (a + b) * b * ql && n * (a * qr) == (a + b) * a * qr && qp * ab == a * b
        * qp) by (nonlinear_arith)
        requires
            n == a + b,
            ab == a * b,
    ;
    assert(mp * (a * b) - n * (ml * b + mr * a) == s);
    let w = weighted((ml, a), (mr, b), n);
    if a == b {
        assert((w.0 * (n * n) < mp * w.1 <==> s > 0) && w.0 * (n * n) <= mp * w.1)
            by (nonlinear_arith)
            requires
                w.0 == ml + mr,
                w.1 == a * n,
                a == b,
                a > 0,
                n == a + b,
                s >= 0,
                mp * (a * b) - n * (ml * b + mr * a) == s,
        {
            assert(mp * (a * a) - n * (a * (ml + mr)) == s);
            assert(a * (mp * a - n * (ml + mr)) == s);
            assert(mp * w.1 - w.0 * (n * n) == n * (mp * a - n * (ml + mr)));
        }
    } else {
        assert((w.0 * (n * n) < mp * w.1 <==> s > 0) && w.0 * (n * n) <= mp * w.1)
            by (nonlinear_arith)
            requires
                w.0 == ml * b + mr * a,
                w.1 == a * b * n,
                n > 0,
                s >= 0,
                mp * (a * b) - n * (ml * b + mr * a) == s,
        {
            assert(mp * w.1 - w.0 * (n * n) == n * (mp * (a * b) - n * (ml * b + mr * a)));
        }
    }
}

/// Under the Gini index a gain is taken exactly where there is one: the
/// weighted impurity of a candidate split never exceeds the impurity of
/// the region, and the split improves exactly when it parts some class
/// between its sides in other proportions than the samples.
pub proof fn lemma_gini_gain_is_real(
    m: Matrix,
    targets: Targets,
    region: Seq<usize>,
    min_leaf: int,
    f: int,
    t: int,
)
    requires
        targets is Labels,
        has_targets(targets, region),
        region.len() <= usize::MAX,
        is_candidate(m, region, min_leaf, f, t),
    ensures
        !lt(
            region_impurity(SplitCriterion::Gini, targets, region),
            split_score(SplitCriterion::Gini, m, targets, region, f, t),
        ),
        improves(SplitCriterion::Gini, m, targets, region, f, t) <==> !same_proportions(
            class_counts(targets.labels(), left_of(m, region, f, t)),
            class_counts(targets.labels(), right_of(m, region, f, t)),
        ),
{
    let labels = targets.labels();
    let left = left_of(m, region, f, t);
    let right = right_of(m, region, f, t);
    lemma_side_within(m, region, f, t, labels.len() as int);
    lemma_sides_add_up(m, region, f, t);
    lemma_sides_not_empty(m, region, min_leaf, f, t);
    lemma_class_counts_total(labels, left);
    lemma_class_counts_total(labels, right);
    lemma_class_counts_total(labels, region);
    let l = class_counts(labels, left);
    let r = class_counts(labels, right);
    let p = class_counts(labels, region);
    assert forall|i: int| 0 <= i < p.len() implies #[trigger] p[i] == l[i] + r[i] by {
        lemma_sum_sides(m, region, f, t, class_weight(labels, i));
    }
    assert(adds_up(l, r, p));
    lemma_gini_of_split(l, r, p);
    let c = SplitCriterion::Gini;
    assert(region_mass(c, targets, left) == (mass_num(c, l, total(l)), total(l)));
    assert(region_mass(c, targets, right) == (mass_num(c, r, total(r)), total(r)));
    assert(region_impurity(c, targets, region) == (mass_num(c, p, total(p)), total(p) * total(p)));
}

/// Under entropy a gain that is taken is real. The weighted entropy of any
/// candidate split is at most the entropy of the region plus the margin,
/// `4 / 2^56`; and a split that improves, margin included, parts some class
/// between its sides in other proportions than the samples, so that its
/// true gain is strictly positive. A split whose sides have the class
/// proportions of the region is never taken.
pub proof fn lemma_entropy_gain_is_real(
    m: Matrix,
    targets: Targets,
    region: Seq<usize>,
    min_leaf: int,
    f: int,
    t: int,
)
    requires
        targets is Labels,
        has_targets(targets, region),
        region.len() <= usize::MAX,
        is_candidate(m, region, min_leaf, f, t),
    ensures
        split_score(SplitCriterion::Entropy, m, targets, region, f, t).1 == region_impurity(
            SplitCriterion::Entropy,
            targets,
            region,
        ).1,
        split_score(SplitCriterion::Entropy, m, targets, region, f, t).0 <= region_impurity(
            SplitCriterion::Entropy,
            targets,
            region,
        ).0 + ENTROPY_MARGIN * region.len(),
        improves(SplitCriterion::Entropy, m, targets, region, f, t) ==> !same_proportions(
            class_counts(targets.labels(), left_of(m, region, f, t)),
            class_counts(targets.labels(), right_of(m, region, f, t)),
        ),
{
    let c = SplitCriterion::Entropy;
    let labels = targets.labels();
    let left = left_of(m, region, f, t);
    let right = right_of(m, region, f, t);
    lemma_side_within(m, region, f, t, labels.len() as int);
    lemma_sides_add_up(m, region, f, t);
    lemma_sides_not_empty(m, region, min_leaf, f, t);
    lemma_class_counts_total(labels, left);
    lemma_class_counts_total(labels, right);
    lemma_class_counts_total(labels, region);
    let l = class_counts(labels, left);
    let r = class_counts(labels, right);
    let p = class_counts(labels, region);
    assert forall|i: int| 0 <= i < p.len() implies #[trigger] p[i] == l[i] + r[i] by {
        lemma_sum_sides(m, region, f, t, class_weight(labels, i));
    }
    assert(adds_up(l, r, p));
    lemma_entropy_of_split(l, r, p);
    lemma_entropy_score_shape(m, targets, region, min_leaf, f, t);
    let score = split_score(c, m, targets, region, f, t);
    let parent = region_impurity(c, targets, region);
    let n = region.len() as int;
    assert(score.0 == region_mass(c, targets, left).0 + region_mass(c, targets, right).0);
    if improves(c, m, targets, region, f, t) {
        let d = parent.1;
        assert(score.0 + ENTROPY_MARGIN * n < parent.0) by (nonlinear_arith)
            requires
                (score.0 + ENTROPY_MARGIN * n) * d < parent.0 * d,
                d > 0,
        ;
    }
}

} // verus!
