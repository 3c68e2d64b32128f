//! Growing a tree: the recursive partitioning of a region.

use vstd::prelude::*;
pub use crate::criterion::SplitCriterion;
use crate::cuts::{
    goes_left, goes_right, left_of, right_of, is_candidate, is_best_split, improves,
    lemma_sides_not_empty,
};
use crate::data::{Matrix, Targets, TreeConfig, TreeError, Prediction};
use crate::invariants::{sound, lemma_grown_is_sound, lemma_single_sample_is_leaf};
use crate::ratio::Ratio;
use crate::sort::rows_valid;
use crate::split::{
    CandidateSplit, consistent, search, count_classes, lemma_rows_have_targets,
};
use crate::tally::{
    Tally, tally_of, class_bound, class_counts, within_capacity, region_impurity,
    region_prediction, lemma_capacity_monotone,
};

verus! {

/// One region of the partition.
#[derive(Debug)]
pub enum Node {
    /// A region that is not split further.
    Leaf {
        /// Number of samples in the region.
        n: usize,
        /// Impurity of the region.
        impurity: Ratio,
        /// What the tree predicts for a sample that falls in the region.
        prediction: Prediction,
        /// Samples per class in the region; empty for numeric targets.
        distribution: Vec<usize>,
    },
    /// A region that is split in two.
    Internal {
        /// Number of samples in the region.
        n: usize,
        /// Impurity of the region.
        impurity: Ratio,
        /// The feature the region is split on.
        feature: usize,
        /// Samples with the feature at most this value belong to `left`.
        threshold: i64,
        left: Box<Node>,
        right: Box<Node>,
    },
}

impl Node {
    /// Number of samples in the region of the node.
    pub open spec fn count(self) -> int {
        match self {
            Node::Leaf { n, .. } => n as int,
            Node::Internal { n, .. } => n as int,
        }
    }

    /// Impurity of the region of the node, as numerator and denominator.
    pub open spec fn score(self) -> (int, int) {
        match self {
            Node::Leaf { impurity, .. } => (impurity.num as int, impurity.den as int),
            Node::Internal { impurity, .. } => (impurity.num as int, impurity.den as int),
        }
    }

    /// Number of samples in the region of the node.
    pub fn samples(&self) -> (n: usize)
        ensures
            n == self.count(),
    {
        match self {
            Node::Leaf { n, .. } => *n,
            Node::Internal { n, .. } => *n,
        }
    }

    /// Tells whether the node is a leaf.
    pub fn is_leaf(&self) -> (b: bool)
        ensures
            b == (self is Leaf),
    {
        match self {
            Node::Leaf { .. } => true,
            Node::Internal { .. } => false,
        }
    }
}

/// A region of `n` samples at `depth` with impurity numerator
/// `impurity_num` is not to be split: it is too small, too deep, or pure.
pub open spec fn stops(cfg: TreeConfig, n: int, depth: int, impurity_num: int) -> bool {
    ||| n < cfg.min_samples_split
    ||| (cfg.max_depth matches Some(d) && depth >= d)
    ||| impurity_num == 0
}

/// No candidate split of the region lowers its impurity.
pub open spec fn no_gain(m: Matrix, targets: Targets, cfg: TreeConfig, region: Seq<usize>) -> bool {
    forall|f: int, t: int| #[trigger]
        is_candidate(m, region, cfg.min_samples_leaf as int, f, t) ==> !improves(
            cfg.criterion,
            m,
            targets,
            region,
            f,
            t,
        )
}

/// `node` is the tree that growth produces for `region` at `depth`.
///
/// A region becomes a leaf when growth stops there or when no split lowers
/// its impurity; the leaf predicts the majority class or the mean. Any
/// other region is split at its best split, and its parts are grown one
/// level deeper.
pub open spec fn is_grown(
    node: Node,
    m: Matrix,
    targets: Targets,
    cfg: TreeConfig,
    region: Seq<usize>,
    depth: int,
) -> bool
    decreases node,
{
    let c = cfg.criterion;
    let imp = region_impurity(c, targets, region);
    match node {
        Node::Leaf { n, impurity, prediction, distribution } => {
            &&& n == region.len()
            &&& impurity.num == imp.0
            &&& impurity.den == imp.1
            &&& prediction == region_prediction(targets, region)
            &&& distribution@ == class_counts(targets.labels(), region)
            &&& (stops(cfg, n as int, depth, imp.0) || no_gain(m, targets, cfg, region))
        },
        Node::Internal { n, impurity, feature, threshold, left, right } => {
            &&& n == region.len()
            &&& impurity.num == imp.0
            &&& impurity.den == imp.1
            &&& !stops(cfg, n as int, depth, imp.0)
            &&& is_best_split(
                c,
                m,
                targets,
                region,
                cfg.min_samples_leaf as int,
                feature as int,
                threshold as int,
            )
            &&& improves(c, m, targets, region, feature as int, threshold as int)
            &&& is_grown(
                *left,
                m,
                targets,
                cfg,
                left_of(m, region, feature as int, threshold as int),
                depth + 1,
            )
            &&& is_grown(
                *right,
                m,
                targets,
                cfg,
                right_of(m, region, feature as int, threshold as int),
                depth + 1,
            )
        },
    }
}

/// Parts the samples of a region by a split, keeping their order.
pub fn partition(matrix: &Matrix, region: &Vec<usize>, feature: usize, threshold: i64) -> (parts: (
    Vec<usize>,
    Vec<usize>,
))
    requires
        matrix.wf(),
        feature < matrix.cols,
        rows_valid(*matrix, region@),
    ensures
        parts.0@ == left_of(*matrix, region@, feature as int, threshold as int),
        parts.1@ == right_of(*matrix, region@, feature as int, threshold as int),
        rows_valid(*matrix, parts.0@),
        rows_valid(*matrix, parts.1@),
{
    let mut left: Vec<usize> = Vec::new();
    let mut right: Vec<usize> = Vec::new();
    let mut i: usize = 0;
    let ghost pl = goes_left(*matrix, feature as int, threshold as int);
    let ghost pr = goes_right(*matrix, feature as int, threshold as int);
    proof {
        reveal(Seq::filter);
        assert(region@.take(0) =~= Seq::<usize>::empty());
    }
    while i < region.len()
        invariant
            0 <= i <= region@.len(),
            matrix.wf(),
            feature < matrix.cols,
            rows_valid(*matrix, region@),
            pl == goes_left(*matrix, feature as int, threshold as int),
            pr == goes_right(*matrix, feature as int, threshold as int),
            left@ == region@.take(i as int).filter(pl),
            right@ == region@.take(i as int).filter(pr),
            rows_valid(*matrix, left@),
            rows_valid(*matrix, right@),
        decreases region@.len() - i,
    {
        let row: usize = region[i];
        proof {
            reveal(Seq::filter);
            assert(region@.take(i + 1).drop_last() =~= region@.take(i as int));
        }
        if matrix.get(row, feature) <= threshold {
            left.push(row);
        } else {
            right.push(row);
        }
        i = i + 1;
    }
    proof {
        assert(region@.take(region@.len() as int) =~= region@);
    }
    (left, right)
}

/// Grows the subtree of a non-empty region.
fn grow_node(
    matrix: &Matrix,
    targets: &Targets,
    config: &TreeConfig,
    n_classes: usize,
    region: Vec<usize>,
    depth: usize,
) -> (node: Node)
    requires
        consistent(*matrix, *targets, config.criterion),
        rows_valid(*matrix, region@),
        within_capacity(*targets, region@.len() as int),
        n_classes == class_bound(targets.labels()),
        region@.len() > 0,
        depth + region@.len() <= usize::MAX,
    ensures
        is_grown(node, *matrix, *targets, *config, region@, depth as int),
    decreases region@.len(),
{
    let ghost r = region@;
    proof {
        lemma_rows_have_targets(*matrix, *targets, r);
    }
    let whole: Tally = tally_of(targets, n_classes, &region);
    let imp: Ratio = whole.impurity(&config.criterion, targets, Ghost(r));
    let n: usize = region.len();
    let at_limit: bool = match config.max_depth {
        Some(d) => depth >= d,
        None => false,
    };
    let found: Option<CandidateSplit> = if n < config.min_samples_split || at_limit
        || imp.is_zero() {
        None
    } else {
        search(
            matrix,
            targets,
            &config.criterion,
            config.min_samples_leaf,
            &region,
            &whole,
            n_classes,
        )
    };
    match found {
        None => {
            let prediction: Prediction = whole.prediction(targets, Ghost(r));
            proof {
                assert(whole.counts@ =~= class_counts(targets.labels(), r));
            }
            Node::Leaf { n, impurity: imp, prediction, distribution: whole.counts }
        },
        Some(s) => {
            let feature: usize = s.feature;
            let threshold: i64 = s.threshold;
            proof {
                lemma_sides_not_empty(
                    *matrix,
                    r,
                    config.min_samples_leaf as int,
                    feature as int,
                    threshold as int,
                );
            }
            let (l, rest) = partition(matrix, &region, feature, threshold);
            proof {
                lemma_capacity_monotone(*targets, l@.len() as int, n as int);
                lemma_capacity_monotone(*targets, rest@.len() as int, n as int);
            }
            let left: Node = grow_node(matrix, targets, config, n_classes, l, depth + 1);
            let right: Node = grow_node(matrix, targets, config, n_classes, rest, depth + 1);
            Node::Internal {
                n,
                impurity: imp,
                feature,
                threshold,
                left: Box::new(left),
                right: Box::new(right),
            }
        },
    }
}

/// Grows the tree of a region at a given depth.
///
/// A region without samples cannot be grown: that is `DegenerateInput`.
/// Growth itself never meets one, since a split leaves samples on both
/// sides.
pub fn grow(
    matrix: &Matrix,
    targets: &Targets,
    config: &TreeConfig,
    region: Vec<usize>,
    depth: usize,
) -> (out: Result<Node, TreeError>)
    requires
        consistent(*matrix, *targets, config.criterion),
        rows_valid(*matrix, region@),
        within_capacity(*targets, region@.len() as int),
        depth + region@.len() <= usize::MAX,
    ensures
        region@.len() == 0 ==> out is Err && out->Err_0 == TreeError::DegenerateInput,
        region@.len() > 0 ==> out is Ok && is_grown(
            out->Ok_0,
            *matrix,
            *targets,
            *config,
            region@,
            depth as int,
        ),
        region@.len() > 0 ==> sound(out->Ok_0),
        region@.len() == 1 ==> out->Ok_0 is Leaf,
{
    if region.len() == 0 {
        return Err(TreeError::DegenerateInput);
    }
    let n_classes: usize = count_classes(targets);
    let ghost r = region@;
    let node: Node = grow_node(matrix, targets, config, n_classes, region, depth);
    proof {
        lemma_grown_is_sound(node, *matrix, *targets, *config, r, depth as int);
        if r.len() == 1 {
            lemma_single_sample_is_leaf(node, *matrix, *targets, *config, r, depth as int);
        }
    }
    Ok(node)
}

} // verus!
