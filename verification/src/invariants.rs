//! What holds of every grown tree.

use vstd::prelude::*;
use crate::cuts::{
    left_of, right_of, is_candidate, split_score, lt, keeps, weighted, with_margin,
    lemma_sides_not_empty, lemma_sides_add_up,
};
use crate::criterion::SplitCriterion;
use crate::data::{Matrix, Targets, TreeConfig};
use crate::tally::{region_mass, region_impurity};
use crate::tree::{Node, is_grown, no_gain};

verus! {

/// The impurity of two children weighted by their shares of the samples,
/// `(n_l · i_l + n_r · i_r) / (n_l + n_r)`, from what the children store.
pub open spec fn children_score(left: Node, right: Node) -> (int, int) {
    let l = left.score();
    let r = right.score();
    (
        left.count() * l.0 * r.1 + right.count() * r.0 * l.1,
        (left.count() + right.count()) * l.1 * r.1,
    )
}

/// At every split of the tree the children share the samples of their
/// parent, none of them is empty, and their weighted impurity is strictly
/// below the impurity of the parent.
pub open spec fn sound(node: Node) -> bool
    decreases node,
{
    match node {
        Node::Leaf { .. } => true,
        Node::Internal { n, impurity, left, right, .. } => {
            &&& left.count() + right.count() == n
            &&& left.count() > 0
            &&& right.count() > 0
            &&& lt(children_score(*left, *right), (impurity.num as int, impurity.den as int))
            &&& sound(*left)
            &&& sound(*right)
        },
    }
}

/// `x` is a node of the tree under `root`.
pub open spec fn has_node(root: Node, x: Node) -> bool
    decreases root,
{
    root == x || match root {
        Node::Leaf { .. } => false,
        Node::Internal { left, right, .. } => has_node(*left, x) || has_node(*right, x),
    }
}

/// Two trees have the same shape, splits, scores and predictions.
pub open spec fn same_tree(a: Node, b: Node) -> bool
    decreases a,
{
    match a {
        Node::Leaf { n, impurity, prediction, distribution } => {
            &&& b is Leaf
            &&& b->Leaf_n == n
            &&& b->Leaf_impurity == impurity
            &&& b->Leaf_prediction == prediction
            &&& b->Leaf_distribution@ == distribution@
        },
        Node::Internal { n, impurity, feature, threshold, left, right } => {
            &&& b is Internal
            &&& b->Internal_n == n
            &&& b->Internal_impurity == impurity
            &&& b->Internal_feature == feature
            &&& b->Internal_threshold == threshold
            &&& same_tree(*left, *b->Internal_left)
            &&& same_tree(*right, *b->Internal_right)
        },
    }
}

/// A grown node stores the size and the impurity of its region.
pub proof fn lemma_grown_node_fields(
    node: Node,
    m: Matrix,
    targets: Targets,
    cfg: TreeConfig,
    region: Seq<usize>,
    depth: int,
)
    requires
        is_grown(node, m, targets, cfg, region, depth),
    ensures
        node.count() == region.len(),
        node.score() == region_impurity(cfg.criterion, targets, region),
{
}

/// A score that stays below a bound with its margin is below it without.
pub proof fn lemma_margin_only_raises(
    c: SplitCriterion,
    score: (int, int),
    n: int,
    p: (int, int),
)
    requires
        n >= 0,
        p.1 >= 0,
        lt(with_margin(c, score, n), p),
    ensures
        lt(score, p),
{
    let raised = with_margin(c, score, n);
    assert(score.0 * p.1 <= raised.0 * p.1) by (nonlinear_arith)
        requires
            score.0 <= raised.0,
            p.1 >= 0,
    ;
}

/// The weighted impurity computed from what the children store is the
/// score of the split, scaled by a common positive factor.
proof fn lemma_children_score(
    l: (int, int),
    r: (int, int),
    nl: int,
    nr: int,
    p: (int, int),
)
    requires
        nl > 0,
        nr > 0,
        l.1 > 0,
        lt(weighted(l, r, nl + nr), p),
    ensures
        lt((nl * l.0 * (r.1 * nr) + nr * r.0 * (l.1 * nl), (nl + nr) * (l.1 * nl) * (r.1 * nr)), p),
{
    let n = nl + nr;
    let x = l.0;
    let u = l.1;
    let z = r.0;
    let y = r.1;
    let a = x * y + z * u;
    let b = u * y * n;
    let k = nl * nr;
    if u == y {
        // masses over one denominator: the sum is the cross product scaled by it
        assert(a * p.1 < p.0 * b) by (nonlinear_arith)
            requires
                (x + z) * p.1 < p.0 * (u * n),
                u > 0,
                u == y,
                a == x * y + z * u,
                b == u * y * n,
        {
            assert(a == u * (x + z));
            assert(b == u * (u * n));
            assert(u * ((x + z) * p.1) < u * (p.0 * (u * n)));
        }
    }
    assert(k > 0) by (nonlinear_arith)
        requires
            nl > 0,
            nr > 0,
            k == nl * nr,
    ;
    assert(nl * x * (y * nr) == k * (x * y)) by (nonlinear_arith)
        requires
            k == nl * nr,
    ;
    assert(nr * z * (u * nl) == k * (z * u)) by (nonlinear_arith)
        requires
            k == nl * nr,
    ;
    assert(k * (x * y) + k * (z * u) == k * a) by (nonlinear_arith)
        requires
            a == x * y + z * u,
    ;
    assert(n * (u * nl) * (y * nr) == k * b) by (nonlinear_arith)
        requires
            k == nl * nr,
            b == u * y * n,
    ;
    assert((k * a) * p.1 < p.0 * (k * b)) by (nonlinear_arith)
        requires
            k > 0,
            a * p.1 < p.0 * b,
    {
        assert(k * (a * p.1) < k * (p.0 * b));
    }
}

/// Growth only produces sound trees: at every split the children's sample
/// counts add up to the parent's, and the split strictly lowers the
/// weighted impurity.
pub proof fn lemma_grown_is_sound(
    node: Node,
    m: Matrix,
    targets: Targets,
    cfg: TreeConfig,
    region: Seq<usize>,
    depth: int,
)
    requires
        is_grown(node, m, targets, cfg, region, depth),
    ensures
        sound(node),
    decreases node,
{
    match node {
        Node::Leaf { .. } => {},
        Node::Internal { n, impurity, feature, threshold, left, right } => {
            let c = cfg.criterion;
            let f = feature as int;
            let t = threshold as int;
            let lr = left_of(m, region, f, t);
            let rr = right_of(m, region, f, t);
            lemma_grown_is_sound(*left, m, targets, cfg, lr, depth + 1);
            lemma_grown_is_sound(*right, m, targets, cfg, rr, depth + 1);
            lemma_grown_node_fields(*left, m, targets, cfg, lr, depth + 1);
            lemma_grown_node_fields(*right, m, targets, cfg, rr, depth + 1);
            lemma_sides_not_empty(m, region, cfg.min_samples_leaf as int, f, t);
            lemma_sides_add_up(m, region, f, t);
            let ml = region_mass(c, targets, lr);
            let mr = region_mass(c, targets, rr);
            assert(ml.1 > 0);
            lemma_margin_only_raises(
                c,
                split_score(c, m, targets, region, f, t),
                region.len() as int,
                (impurity.num as int, impurity.den as int),
            );
            lemma_children_score(
                ml,
                mr,
                lr.len() as int,
                rr.len() as int,
                (impurity.num as int, impurity.den as int),
            );
        },
    }
}

/// In a sound tree every split, however deep, has children whose sample
/// counts add up to its own and whose weighted impurity is strictly below
/// its own impurity.
pub proof fn lemma_sound_at_every_node(root: Node, x: Node)
    requires
        sound(root),
        has_node(root, x),
        x is Internal,
    ensures
        x->Internal_left.count() + x->Internal_right.count() == x.count(),
        lt(children_score(*x->Internal_left, *x->Internal_right), x.score()),
    decreases root,
{
    if root != x {
        match root {
            Node::Leaf { .. } => {},
            Node::Internal { left, right, .. } => {
                if has_node(*left, x) {
                    lemma_sound_at_every_node(*left, x);
                } else {
                    lemma_sound_at_every_node(*right, x);
                }
            },
        }
    }
}

/// Growth is determined by its input: two trees grown from the same
/// region of the same data under the same configuration are the same tree.
pub proof fn lemma_growth_is_determined(
    a: Node,
    b: Node,
    m: Matrix,
    targets: Targets,
    cfg: TreeConfig,
    region: Seq<usize>,
    depth: int,
)
    requires
        is_grown(a, m, targets, cfg, region, depth),
        is_grown(b, m, targets, cfg, region, depth),
    ensures
        same_tree(a, b),
    decreases a,
{
    let c = cfg.criterion;
    let ml = cfg.min_samples_leaf as int;
    match a {
        Node::Leaf { .. } => {
            if b is Internal {
                let f = b->Internal_feature as int;
                let t = b->Internal_threshold as int;
                assert(is_candidate(m, region, ml, f, t));
                assert(no_gain(m, targets, cfg, region));
                assert(false);
            }
        },
        Node::Internal { feature, threshold, left, right, .. } => {
            let f = feature as int;
            let t = threshold as int;
            assert(is_candidate(m, region, ml, f, t));
            if b is Leaf {
                assert(no_gain(m, targets, cfg, region));
                assert(false);
            } else {
                let f2 = b->Internal_feature as int;
                let t2 = b->Internal_threshold as int;
                assert(is_candidate(m, region, ml, f2, t2));
                assert(keeps(
                    split_score(c, m, targets, region, f, t),
                    f,
                    t,
                    split_score(c, m, targets, region, f2, t2),
                    f2,
                    t2,
                ));
                assert(keeps(
                    split_score(c, m, targets, region, f2, t2),
                    f2,
                    t2,
                    split_score(c, m, targets, region, f, t),
                    f,
                    t,
                ));
                assert(f == f2 && t == t2);
                lemma_growth_is_determined(
                    *left,
                    *b->Internal_left,
                    m,
                    targets,
                    cfg,
                    left_of(m, region, f, t),
                    depth + 1,
                );
                lemma_growth_is_determined(
                    *right,
                    *b->Internal_right,
                    m,
                    targets,
                    cfg,
                    right_of(m, region, f, t),
                    depth + 1,
                );
            }
        },
    }
}

/// A region of one sample always becomes a leaf, whatever the criterion
/// and the configuration.
pub proof fn lemma_single_sample_is_leaf(
    node: Node,
    m: Matrix,
    targets: Targets,
    cfg: TreeConfig,
    region: Seq<usize>,
    depth: int,
)
    requires
        is_grown(node, m, targets, cfg, region, depth),
        region.len() == 1,
    ensures
        node is Leaf,
{
    if node is Internal {
        lemma_sides_not_empty(
            m,
            region,
            cfg.min_samples_leaf as int,
            node->Internal_feature as int,
            node->Internal_threshold as int,
        );
    }
}

} // verus!
