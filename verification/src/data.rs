//! The data a tree is grown from and the values it hands back.

use vstd::prelude::*;
use crate::criterion::SplitCriterion;

verus! {

/// A feature matrix: `rows` samples of `cols` integer features each.
///
/// Feature values are only ever compared, never added, so any numeric data
/// can be handed over as order-preserving integer keys.
#[derive(Debug, Clone)]
pub struct Matrix {
    pub rows: Vec<Vec<i64>>,
    pub cols: usize,
}

impl Matrix {
    /// Every row has `cols` entries.
    pub open spec fn wf(self) -> bool {
        forall|r: int| 0 <= r < self.rows@.len() ==> (#[trigger] self.rows@[r])@.len() == self.cols
    }

    /// The value of feature `c` of sample `r`.
    pub open spec fn at(self, r: int, c: int) -> int {
        self.rows@[r]@[c] as int
    }

    /// Builds a matrix from its rows; `None` if the rows differ in length.
    /// A matrix without rows has no columns.
    pub fn from_rows(rows: Vec<Vec<i64>>) -> (m: Option<Matrix>)
        ensures
            m is Some <==> (forall|r: int|
                0 <= r < rows@.len() ==> (#[trigger] rows@[r])@.len() == rows@[0]@.len()),
            m is Some ==> m->0.rows == rows && m->0.wf() && m->0.cols == (if rows@.len() == 0 {
                0
            } else {
                rows@[0]@.len()
            }),
    {
        if rows.len() == 0 {
            return Some(Matrix { rows, cols: 0 });
        }
        let cols: usize = rows[0].len();
        let mut r: usize = 1;
        while r < rows.len()
            invariant
                1 <= r <= rows@.len(),
                cols == rows@[0]@.len(),
                forall|k: int| 0 <= k < r ==> (#[trigger] rows@[k])@.len() == cols,
            decreases rows@.len() - r,
        {
            if rows[r].len() != cols {
                return None;
            }
            r = r + 1;
        }
        Some(Matrix { rows, cols })
    }

    /// Number of samples.
    pub fn nrows(&self) -> (n: usize)
        ensures
            n == self.rows@.len(),
    {
        self.rows.len()
    }

    /// Number of features.
    pub fn ncols(&self) -> (n: usize)
        ensures
            n == self.cols,
    {
        self.cols
    }

    /// The value of feature `c` of sample `r`.
    pub fn get(&self, r: usize, c: usize) -> (v: i64)
        requires
            self.wf(),
            r < self.rows@.len(),
            c < self.cols,
        ensures
            v == self.at(r as int, c as int),
    {
        self.rows[r][c]
    }
}

/// The target of every sample: a class label, or a number to regress on.
#[derive(Debug, Clone)]
pub enum Targets {
    Labels(Vec<usize>),
    Values(Vec<i64>),
}

impl Targets {
    /// Number of samples with a target.
    pub open spec fn count(self) -> nat {
        match self {
            Targets::Labels(l) => l@.len(),
            Targets::Values(v) => v@.len(),
        }
    }

    /// The targets are class labels.
    pub open spec fn for_labels(self) -> bool {
        self is Labels
    }

    /// The labels, empty for numeric targets.
    pub open spec fn labels(self) -> Seq<usize> {
        match self {
            Targets::Labels(l) => l@,
            Targets::Values(_) => Seq::empty(),
        }
    }

    /// The values, empty for class labels.
    pub open spec fn values(self) -> Seq<i64> {
        match self {
            Targets::Labels(_) => Seq::empty(),
            Targets::Values(v) => v@,
        }
    }

    /// Number of samples with a target.
    pub fn len(&self) -> (n: usize)
        ensures
            n == self.count(),
    {
        match self {
            Targets::Labels(l) => l.len(),
            Targets::Values(v) => v.len(),
        }
    }

    /// Tells whether the targets are class labels.
    pub fn is_labels(&self) -> (b: bool)
        ensures
            b == self.for_labels(),
    {
        match self {
            Targets::Labels(_) => true,
            Targets::Values(_) => false,
        }
    }
}

/// What decides when growth stops and how splits are scored.
#[derive(Debug, Clone, Copy)]
pub struct TreeConfig {
    /// The criterion that scores regions and splits.
    pub criterion: SplitCriterion,
    /// The depth at which every node becomes a leaf; `None` for no limit.
    pub max_depth: Option<usize>,
    /// A region with fewer samples is not split.
    pub min_samples_split: usize,
    /// A split must leave at least this many samples on each side.
    pub min_samples_leaf: usize,
}

impl Default for TreeConfig {
    fn default() -> (c: TreeConfig)
        ensures
            c.criterion == SplitCriterion::Gini,
            c.max_depth is None,
            c.min_samples_split == 2,
            c.min_samples_leaf == 1,
    {
        TreeConfig {
            criterion: SplitCriterion::Gini,
            max_depth: None,
            min_samples_split: 2,
            min_samples_leaf: 1,
        }
    }
}

/// Why a tree could not be grown.
#[derive(Debug, Clone, Copy, PartialEq, Eq, Structural)]
pub enum TreeError {
    /// The data and the configuration do not fit together.
    InvalidConfiguration,
    /// A region without samples was to be grown.
    DegenerateInput,
}

/// What a leaf predicts.
#[derive(Debug, Clone, Copy, PartialEq, Eq, Structural)]
pub enum Prediction {
    /// The majority class of the leaf's region.
    Class(usize),
    /// The mean `sum / count` of the targets in the leaf's region.
    Mean { sum: i128, count: usize },
}

} // verus!
