//! Classification and regression trees grown with the CART procedure.
//!
//! A tree partitions the feature space into axis-aligned regions by recursive
//! binary splits and stores one prediction per region. All scores are exact
//! non-negative rationals, so every comparison made while growing a tree is
//! decided without rounding; only the logarithm behind the entropy is a
//! fixed-point value of 56 fractional bits, within two units of its last
//! place of the true one, and an entropy split is taken only for a gain
//! that exceeds what this rounding can feign.
//!
//! - [`criterion`], [`impurity`], [`log2`], [`ratio`]: the split criteria and
//!   the impurity of a region under each of them; [`extremes`] and
//!   [`entropy`] prove where they vanish and where they peak.
//! - [`data`], [`tally`], [`sums`]: matrices, targets and the statistics
//!   of a region.
//! - [`sort`], [`cuts`], [`split`]: the search for the best split; [`gain`]
//!   proves that a split is taken exactly for a true gain.
//! - [`tree`], [`model`]: growing a tree, fitting it to data and predicting
//!   with it; [`invariants`] proves what holds of every grown tree.

pub mod criterion;
pub mod cuts;
pub mod data;
pub mod entropy;
pub mod extremes;
pub mod gain;
pub mod impurity;
pub mod invariants;
pub mod log2;
pub mod model;
pub mod ratio;
pub mod sort;
pub mod split;
pub mod sums;
pub mod tally;
pub mod tree;
