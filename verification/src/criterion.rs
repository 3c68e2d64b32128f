//! The closed set of split-quality criteria.

use vstd::prelude::*;

verus! {

/// The function used to measure the quality of a split.
#[derive(Debug, Clone, Copy, PartialEq, Eq, Structural)]
pub enum SplitCriterion {
    /// Gini index: `1 - Σ p_i²`.
    Gini,
    /// Entropy: `-Σ p_i·log2(p_i)`.
    Entropy,
    /// Classification error: `1 - max p_i`.
    ClassificationError,
    /// Mean squared error around the mean, for regression targets.
    MSE,
}

impl SplitCriterion {
    /// True for the criteria that score class-label distributions.
    pub open spec fn for_labels(self) -> bool {
        self != SplitCriterion::MSE
    }

    /// Tells whether the criterion scores class-label distributions
    /// (as opposed to numeric targets).
    pub fn is_classification(&self) -> (b: bool)
        ensures
            b == self.for_labels(),
    {
        match self {
            SplitCriterion::MSE => false,
            _ => true,
        }
    }
}

impl Default for SplitCriterion {
    fn default() -> (c: SplitCriterion)
        ensures
            c == SplitCriterion::Gini,
    {
        SplitCriterion::Gini
    }
}

} // verus!
