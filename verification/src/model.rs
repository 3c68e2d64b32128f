//! The finished tree: fitting it to data and predicting with it.

use vstd::prelude::*;
use crate::cuts::{goes_left, goes_right, left_of, right_of};
use crate::data::{Matrix, Targets, TreeConfig, TreeError, Prediction};
use crate::impurity::{largest_count, lemma_max_count};
use crate::tally::{class_bound, peak_square, region_prediction, within_capacity};
use crate::invariants::{sound, same_tree, lemma_growth_is_determined};
use crate::tree::{Node, is_grown, grow};

verus! {

/// A grown tree, for samples of `n_features` features.
#[derive(Debug)]
pub struct TreeModel {
    pub root: Node,
    pub n_features: usize,
}

/// The region of all `n` samples, in order.
pub open spec fn all_rows(n: nat) -> Seq<usize> {
    Seq::new(n, |i: int| i as usize)
}

/// Every split of the tree is on one of the first `k` features.
pub open spec fn splits_within(node: Node, k: int) -> bool
    decreases node,
{
    match node {
        Node::Leaf { .. } => true,
        Node::Internal { feature, left, right, .. } => {
            &&& feature < k
            &&& splits_within(*left, k)
            &&& splits_within(*right, k)
        },
    }
}

/// The prediction of the leaf that `sample` is routed to: at every split
/// left if its feature is at most the threshold, right otherwise.
pub open spec fn route(node: Node, sample: Seq<i64>) -> Prediction
    decreases node,
{
    match node {
        Node::Leaf { prediction, .. } => prediction,
        Node::Internal { feature, threshold, left, right, .. } => {
            if sample[feature as int] <= threshold {
                route(*left, sample)
            } else {
                route(*right, sample)
            }
        },
    }
}

/// The region of the leaf that `sample` is routed to, when `node` was
/// grown from `region`.
pub open spec fn landing(node: Node, m: Matrix, region: Seq<usize>, sample: Seq<i64>) -> Seq<usize>
    decreases node,
{
    match node {
        Node::Leaf { .. } => region,
        Node::Internal { feature, threshold, left, right, .. } => {
            if sample[feature as int] <= threshold {
                landing(*left, m, left_of(m, region, feature as int, threshold as int), sample)
            } else {
                landing(*right, m, right_of(m, region, feature as int, threshold as int), sample)
            }
        },
    }
}

/// A tree can be fitted: the matrix is rectangular and has rows, every row
/// has a target, the criterion suits the targets (a label criterion for
/// labels, `MSE` for numbers), and labels and scores fit the machine.
pub open spec fn acceptable(m: Matrix, targets: Targets, cfg: TreeConfig) -> bool {
    &&& m.wf()
    &&& m.rows@.len() > 0
    &&& targets.count() == m.rows@.len()
    &&& cfg.criterion.for_labels() == targets.for_labels()
    &&& class_bound(targets.labels()) <= usize::MAX
    &&& within_capacity(targets, m.rows@.len() as int)
}

/// A grown tree only splits on features of the matrix.
pub proof fn lemma_grown_splits_within(
    node: Node,
    m: Matrix,
    targets: Targets,
    cfg: TreeConfig,
    region: Seq<usize>,
    depth: int,
)
    requires
        is_grown(node, m, targets, cfg, region, depth),
    ensures
        splits_within(node, m.cols as int),
    decreases node,
{
    match node {
        Node::Leaf { .. } => {},
        Node::Internal { feature, threshold, left, right, .. } => {
            let f = feature as int;
            let t = threshold as int;
            lemma_grown_splits_within(
                *left,
                m,
                targets,
                cfg,
                left_of(m, region, f, t),
                depth + 1,
            );
            lemma_grown_splits_within(
                *right,
                m,
                targets,
                cfg,
                right_of(m, region, f, t),
                depth + 1,
            );
        },
    }
}

/// Fitting is determined by its input: two trees fitted to the same
/// matrix and targets under the same configuration are the same tree.
pub proof fn lemma_fit_is_determined(
    a: TreeModel,
    b: TreeModel,
    m: Matrix,
    targets: Targets,
    cfg: TreeConfig,
)
    requires
        a.is_fitted(m, targets, cfg),
        b.is_fitted(m, targets, cfg),
    ensures
        a.n_features == b.n_features,
        same_tree(a.root, b.root),
{
    lemma_growth_is_determined(a.root, b.root, m, targets, cfg, all_rows(m.rows@.len()), 0);
}

/// Prediction is a function of the tree and the sample: two predictions of
/// one tree for one sample are the same.
pub proof fn lemma_predict_is_determined(
    tree: TreeModel,
    sample: Seq<i64>,
    first: Prediction,
    second: Prediction,
)
    requires
        first == route(tree.root, sample),
        second == route(tree.root, sample),
    ensures
        first == second,
{
}

/// The same tree predicts the same output for the same sample.
pub proof fn lemma_same_tree_same_route(a: Node, b: Node, sample: Seq<i64>)
    requires
        same_tree(a, b),
    ensures
        route(a, sample) == route(b, sample),
    decreases a,
{
    match a {
        Node::Leaf { .. } => {},
        Node::Internal { left, right, .. } => {
            lemma_same_tree_same_route(*left, *b->Internal_left, sample);
            lemma_same_tree_same_route(*right, *b->Internal_right, sample);
        },
    }
}

/// A sample gets the prediction of the region it lands in: the majority
/// class or the mean of the training samples there.
pub proof fn lemma_route_predicts_landing(
    node: Node,
    m: Matrix,
    targets: Targets,
    cfg: TreeConfig,
    region: Seq<usize>,
    depth: int,
    sample: Seq<i64>,
)
    requires
        is_grown(node, m, targets, cfg, region, depth),
    ensures
        route(node, sample) == region_prediction(targets, landing(node, m, region, sample)),
    decreases node,
{
    match node {
        Node::Leaf { .. } => {},
        Node::Internal { feature, threshold, left, right, .. } => {
            let f = feature as int;
            let t = threshold as int;
            lemma_route_predicts_landing(
                *left,
                m,
                targets,
                cfg,
                left_of(m, region, f, t),
                depth + 1,
                sample,
            );
            lemma_route_predicts_landing(
                *right,
                m,
                targets,
                cfg,
                right_of(m, region, f, t),
                depth + 1,
                sample,
            );
        },
    }
}

/// Prediction routes as training parted: a training sample lands in the
/// leaf whose region holds it.
pub proof fn lemma_training_sample_lands_in_its_leaf(
    node: Node,
    m: Matrix,
    targets: Targets,
    cfg: TreeConfig,
    region: Seq<usize>,
    depth: int,
    row: usize,
)
    requires
        is_grown(node, m, targets, cfg, region, depth),
        region.contains(row),
    ensures
        landing(node, m, region, m.rows@[row as int]@).contains(row),
    decreases node,
{
    let sample = m.rows@[row as int]@;
    match node {
        Node::Leaf { .. } => {},
        Node::Internal { feature, threshold, left, right, .. } => {
            let f = feature as int;
            let t = threshold as int;
            let i = choose|i: int| 0 <= i < region.len() && region[i] == row;
            if sample[f] <= threshold {
                assert(goes_left(m, f, t)(region[i]));
                region.lemma_filter_contains(goes_left(m, f, t), i);
                lemma_training_sample_lands_in_its_leaf(
                    *left,
                    m,
                    targets,
                    cfg,
                    left_of(m, region, f, t),
                    depth + 1,
                    row,
                );
            } else {
                assert(goes_right(m, f, t)(region[i]));
                region.lemma_filter_contains(goes_right(m, f, t), i);
                lemma_training_sample_lands_in_its_leaf(
                    *right,
                    m,
                    targets,
                    cfg,
                    right_of(m, region, f, t),
                    depth + 1,
                    row,
                );
            }
        },
    }
}

/// Tells whether every row has as many entries as the matrix has columns.
fn is_rectangular(matrix: &Matrix) -> (b: bool)
    ensures
        b == matrix.wf(),
{
    let mut r: usize = 0;
    while r < matrix.rows.len()
        invariant
            0 <= r <= matrix.rows@.len(),
            forall|k: int| 0 <= k < r ==> (#[trigger] matrix.rows@[k])@.len() == matrix.cols,
        decreases matrix.rows@.len() - r,
    {
        if matrix.rows[r].len() != matrix.cols {
            return false;
        }
        r = r + 1;
    }
    true
}

/// The largest square among the values.
fn largest_square(values: &Vec<i64>) -> (p: u128)
    ensures
        p == peak_square(values@),
{
    let mut p: u128 = 0;
    let mut i: usize = 0;
    while i < values.len()
        invariant
            0 <= i <= values@.len(),
            p == peak_square(values@.take(i as int)),
        decreases values@.len() - i,
    {
        let y: i128 = values[i] as i128;
        proof {
            assert(values@.take(i + 1).drop_last() =~= values@.take(i as int));
            assert(0 <= y * y <= 0x8000_0000_0000_0000 * 0x8000_0000_0000_0000) by (nonlinear_arith)
                requires
                    -0x8000_0000_0000_0000 <= y <= 0x8000_0000_0000_0000,
            ;
        }
        let x: u128 = (y * y) as u128;
        if x > p {
            p = x;
        }
        i = i + 1;
    }
    proof {
        assert(values@.take(values@.len() as int) =~= values@);
    }
    p
}

/// Tells whether the scores of a region of `n` samples fit 128 bits.
fn fits_capacity(targets: &Targets, n: usize) -> (b: bool)
    ensures
        b == within_capacity(*targets, n as int),
{
    let cap: u128 = match targets {
        Targets::Labels(_) => 1,
        Targets::Values(values) => {
            let p: u128 = largest_square(values);
            if p > 1 {
                p
            } else {
                1
            }
        },
    };
    let wide: u128 = n as u128;
    proof {
        assert(wide * wide <= 0xFFFF_FFFF_FFFF_FFFF * 0xFFFF_FFFF_FFFF_FFFF) by (nonlinear_arith)
            requires
                0 <= wide <= 0xFFFF_FFFF_FFFF_FFFF,
        ;
        assert(wide * wide * wide <= wide * wide * wide * cap) by (nonlinear_arith)
            requires
                wide >= 0,
                cap >= 1,
        ;
    }
    let square: u128 = wide * wide;
    match square.checked_mul(wide) {
        None => false,
        Some(cube) => cube.checked_mul(cap).is_some(),
    }
}

/// Tells whether the number of classes fits a machine word.
fn labels_fit(targets: &Targets) -> (b: bool)
    ensures
        b == (class_bound(targets.labels()) <= usize::MAX),
{
    match targets {
        Targets::Labels(labels) => {
            proof {
                lemma_max_count(labels@);
            }
            labels.len() == 0 || largest_count(labels.as_slice()) < usize::MAX
        },
        Targets::Values(_) => true,
    }
}

/// The region of all `n` samples.
fn whole_region(n: usize) -> (region: Vec<usize>)
    ensures
        region@ == all_rows(n as nat),
{
    let mut region: Vec<usize> = Vec::new();
    let mut i: usize = 0;
    while i < n
        invariant
            0 <= i <= n,
            region@.len() == i,
            forall|k: int| 0 <= k < i ==> #[trigger] region@[k] == k,
        decreases n - i,
    {
        region.push(i);
        i = i + 1;
    }
    proof {
        assert(region@ =~= all_rows(n as nat));
    }
    region
}

/// Routes a sample from `node` down to a leaf.
fn descend(node: &Node, sample: &[i64]) -> (p: Prediction)
    requires
        splits_within(*node, sample@.len() as int),
    ensures
        p == route(*node, sample@),
    decreases *node,
{
    match node {
        Node::Leaf { prediction, .. } => *prediction,
        Node::Internal { feature, threshold, left, right, .. } => {
            if sample[*feature] <= *threshold {
                descend(&**left, sample)
            } else {
                descend(&**right, sample)
            }
        },
    }
}

/// Tells whether every split under `node` is on one of the first `k`
/// features.
fn reads_within(node: &Node, k: usize) -> (b: bool)
    ensures
        b == splits_within(*node, k as int),
    decreases *node,
{
    match node {
        Node::Leaf { .. } => true,
        Node::Internal { feature, left, right, .. } => {
            *feature < k && reads_within(&**left, k) && reads_within(&**right, k)
        },
    }
}

impl TreeModel {
    /// Every split reads a feature that samples have.
    pub open spec fn wf(self) -> bool {
        splits_within(self.root, self.n_features as int)
    }

    /// Tells whether every split reads a feature that samples have, which
    /// is what `predict` asks of a tree.
    pub fn is_well_formed(&self) -> (b: bool)
        ensures
            b == self.wf(),
    {
        reads_within(&self.root, self.n_features)
    }

    /// The tree is the one growth produces from all samples of the matrix.
    pub open spec fn is_fitted(self, m: Matrix, targets: Targets, cfg: TreeConfig) -> bool {
        &&& self.n_features == m.cols
        &&& self.wf()
        &&& sound(self.root)
        &&& is_grown(self.root, m, targets, cfg, all_rows(m.rows@.len()), 0)
    }

    /// Predicts the output for one sample: the prediction of the leaf the
    /// sample is routed to.
    pub fn predict(&self, sample: &[i64]) -> (p: Prediction)
        requires
            self.wf(),
            sample@.len() == self.n_features,
        ensures
            p == route(self.root, sample@),
    {
        descend(&self.root, sample)
    }

    /// Predicts the output for every row of a matrix, in order.
    pub fn predict_all(&self, matrix: &Matrix) -> (out: Vec<Prediction>)
        requires
            self.wf(),
            matrix.wf(),
            matrix.cols == self.n_features,
        ensures
            out@.len() == matrix.rows@.len(),
            forall|i: int|
                0 <= i < out@.len() ==> #[trigger] out@[i] == route(self.root, matrix.rows@[i]@),
    {
        let mut out: Vec<Prediction> = Vec::new();
        let mut i: usize = 0;
        while i < matrix.rows.len()
            invariant
                0 <= i <= matrix.rows@.len(),
                self.wf(),
                matrix.wf(),
                matrix.cols == self.n_features,
                out@.len() == i,
                forall|k: int|
                    0 <= k < i ==> #[trigger] out@[k] == route(self.root, matrix.rows@[k]@),
            decreases matrix.rows@.len() - i,
        {
            let p: Prediction = descend(&self.root, matrix.rows[i].as_slice());
            out.push(p);
            i = i + 1;
        }
        out
    }
}

/// Fits a tree to the samples of `matrix` and their `targets`.
///
/// Fails with `InvalidConfiguration`, before any growth, exactly when the
/// input is not `acceptable`. Otherwise the result is the tree grown from
/// the region of all samples at depth 0.
pub fn fit(matrix: &Matrix, targets: &Targets, config: &TreeConfig) -> (out: Result<
    TreeModel,
    TreeError,
>)
    ensures
        out is Ok <==> acceptable(*matrix, *targets, *config),
        out is Err ==> out->Err_0 == TreeError::InvalidConfiguration,
        out is Ok ==> out->Ok_0.is_fitted(*matrix, *targets, *config),
{
    let n: usize = matrix.nrows();
    if !is_rectangular(matrix) || n == 0 || targets.len() != n
        || config.criterion.is_classification() != targets.is_labels() || !labels_fit(targets)
        || !fits_capacity(targets, n) {
        return Err(TreeError::InvalidConfiguration);
    }
    let region: Vec<usize> = whole_region(n);
    match grow(matrix, targets, config, region, 0) {
        Ok(root) => {
            proof {
                lemma_grown_splits_within(
                    root,
                    *matrix,
                    *targets,
                    *config,
                    all_rows(n as nat),
                    0,
                );
            }
            Ok(TreeModel { root, n_features: matrix.ncols() })
        },
        Err(_) => Err(TreeError::InvalidConfiguration),
    }
}

} // verus!
