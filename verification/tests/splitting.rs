use cart::criterion::SplitCriterion;
use cart::data::{Matrix, Prediction, Targets};
use cart::sort::sort_by_feature;
use cart::split::{count_classes, find_best_split};
use cart::tally::tally_of;
use cart::tree::partition;

fn column(values: &[i64]) -> Matrix {
    Matrix::from_rows(values.iter().map(|v| vec![*v]).collect()).unwrap()
}

#[test]
fn matrix_from_rows() {
    let m = Matrix::from_rows(vec![vec![1, 2, 3], vec![4, 5, 6]]).unwrap();
    assert_eq!(m.nrows(), 2);
    assert_eq!(m.ncols(), 3);
    assert_eq!(m.get(1, 2), 6);
    assert_eq!(m.get(0, 0), 1);
    let empty = Matrix::from_rows(vec![]).unwrap();
    assert_eq!((empty.nrows(), empty.ncols()), (0, 0));
}

#[test]
fn ragged_rows_are_no_matrix() {
    assert!(Matrix::from_rows(vec![vec![1, 2], vec![3]]).is_none());
    assert!(Matrix::from_rows(vec![vec![], vec![3]]).is_none());
}

#[test]
fn targets_know_their_kind() {
    let labels = Targets::Labels(vec![0, 2, 1]);
    let values = Targets::Values(vec![-5, 5]);
    assert!(labels.is_labels());
    assert!(!values.is_labels());
    assert_eq!(labels.len(), 3);
    assert_eq!(values.len(), 2);
    assert_eq!(count_classes(&labels), 3);
    assert_eq!(count_classes(&values), 0);
    assert_eq!(count_classes(&Targets::Labels(vec![])), 0);
}

#[test]
fn sorting_orders_rows_by_feature() {
    let m = Matrix::from_rows(vec![vec![5, 0], vec![1, 9], vec![3, 3], vec![1, 1], vec![4, 7]])
        .unwrap();
    let region = vec![0, 1, 2, 3, 4];
    let sorted = sort_by_feature(&m, 0, &region);
    let keys: Vec<i64> = sorted.iter().map(|r| m.get(*r, 0)).collect();
    assert_eq!(keys, vec![1, 1, 3, 4, 5]);
    let mut rows = sorted.clone();
    rows.sort();
    assert_eq!(rows, region);
    let sorted = sort_by_feature(&m, 1, &vec![4, 4, 0, 1]);
    let keys: Vec<i64> = sorted.iter().map(|r| m.get(*r, 1)).collect();
    assert_eq!(keys, vec![0, 7, 7, 9]);
    assert_eq!(sort_by_feature(&m, 1, &vec![]), Vec::<usize>::new());
}

#[test]
fn partition_keeps_order_and_is_left_inclusive() {
    let m = column(&[3, 1, 2, 5, 2]);
    let (left, right) = partition(&m, &vec![0, 1, 2, 3, 4], 0, 2);
    assert_eq!(left, vec![1, 2, 4]);
    assert_eq!(right, vec![0, 3]);
}

#[test]
fn tally_counts_classes() {
    let targets = Targets::Labels(vec![0, 2, 2, 1, 2]);
    let t = tally_of(&targets, 3, &vec![0, 1, 2, 4]);
    assert_eq!(t.n, 4);
    assert_eq!(t.counts, vec![1, 0, 3]);
    assert_eq!((t.sum, t.sum_sq), (0, 0));
    let copy = t.copy();
    assert_eq!((copy.n, copy.counts, copy.sum, copy.sum_sq), (4, vec![1, 0, 3], 0, 0));
}

#[test]
fn tally_sums_values() {
    let targets = Targets::Values(vec![-3, 4, 10]);
    let t = tally_of(&targets, 0, &vec![0, 1, 1]);
    assert_eq!(t.n, 3);
    assert!(t.counts.is_empty());
    assert_eq!(t.sum, 5);
    assert_eq!(t.sum_sq, 9 + 16 + 16);
}

#[test]
fn best_split_of_four_samples() {
    let m = column(&[1, 2, 3, 4]);
    let targets = Targets::Labels(vec![0, 0, 1, 1]);
    let s = find_best_split(&m, &targets, &SplitCriterion::Gini, 1, &vec![0, 1, 2, 3]).unwrap();
    assert_eq!(s.feature, 0);
    assert_eq!(s.threshold, 2);
    assert!(2 <= s.threshold && s.threshold < 3);
    assert_eq!(s.left.counts, vec![2, 0]);
    assert_eq!(s.right.counts, vec![0, 2]);
    assert_eq!((s.left.n, s.right.n), (2, 2));
    assert_eq!(s.weighted_impurity.num, 0);
    assert!(s.weighted_impurity.den > 0);
}

#[test]
fn weighted_impurity_of_an_impure_split() {
    // x: 1 2 3, y: 0 1 0. Cut after 1: left {0}, right {1, 0}.
    // masses: left 0/1, right (4 - 2)/2; weighted (0 * 2 + 2 * 1) / (1 * 2 * 3) = 1/3
    // Cut after 2: left {0, 1}, right {0}: also 1/3. The first wins.
    // Parent: 1 - 5/9 = 4/9 > 1/3.
    let m = column(&[1, 2, 3]);
    let targets = Targets::Labels(vec![0, 1, 0]);
    let s = find_best_split(&m, &targets, &SplitCriterion::Gini, 1, &vec![0, 1, 2]).unwrap();
    assert_eq!((s.feature, s.threshold), (0, 1));
    assert_eq!((s.weighted_impurity.num, s.weighted_impurity.den), (2, 6));
}

#[test]
fn first_feature_wins_a_tie() {
    let m = Matrix::from_rows(vec![vec![10, 1], vec![20, 1], vec![30, 2], vec![40, 2]]).unwrap();
    let targets = Targets::Labels(vec![0, 0, 1, 1]);
    for c in [SplitCriterion::Gini, SplitCriterion::Entropy, SplitCriterion::ClassificationError] {
        let s = find_best_split(&m, &targets, &c, 1, &vec![0, 1, 2, 3]).unwrap();
        assert_eq!((s.feature, s.threshold), (0, 25));
    }
    let m = Matrix::from_rows(vec![vec![7, 1], vec![7, 1], vec![7, 2], vec![7, 2]]).unwrap();
    let s = find_best_split(&m, &targets, &SplitCriterion::Gini, 1, &vec![0, 1, 2, 3]).unwrap();
    assert_eq!((s.feature, s.threshold), (1, 1));
}

#[test]
fn threshold_is_the_midpoint_rounded_down() {
    let targets = Targets::Labels(vec![0, 1]);
    let m = column(&[-7, -2]);
    let s = find_best_split(&m, &targets, &SplitCriterion::Gini, 1, &vec![0, 1]).unwrap();
    assert_eq!(s.threshold, -5);
    let m = column(&[i64::MIN, i64::MAX]);
    let s = find_best_split(&m, &targets, &SplitCriterion::Gini, 1, &vec![0, 1]).unwrap();
    assert_eq!(s.threshold, -1);
    let m = column(&[i64::MAX - 1, i64::MAX]);
    let s = find_best_split(&m, &targets, &SplitCriterion::Gini, 1, &vec![1, 0]).unwrap();
    assert_eq!(s.threshold, i64::MAX - 1);
}

#[test]
fn no_split_without_distinct_values() {
    let m = Matrix::from_rows(vec![vec![1, 5], vec![1, 5], vec![1, 5]]).unwrap();
    let targets = Targets::Labels(vec![0, 1, 0]);
    assert!(find_best_split(&m, &targets, &SplitCriterion::Gini, 1, &vec![0, 1, 2]).is_none());
}

#[test]
fn no_split_without_gain() {
    // both sides of the only cut have the parent's distribution
    let m = column(&[1, 1, 2, 2]);
    let targets = Targets::Labels(vec![0, 1, 0, 1]);
    for c in [SplitCriterion::Gini, SplitCriterion::Entropy, SplitCriterion::ClassificationError] {
        assert!(find_best_split(&m, &targets, &c, 1, &vec![0, 1, 2, 3]).is_none());
    }
    // a pure region cannot be improved
    let targets = Targets::Labels(vec![1, 1, 1, 1]);
    assert!(find_best_split(&m, &targets, &SplitCriterion::Gini, 1, &vec![0, 1, 2, 3]).is_none());
}

#[test]
fn small_sides_are_passed_over() {
    let m = column(&[1, 2, 3, 4, 5, 6]);
    let targets = Targets::Labels(vec![0, 1, 1, 1, 1, 1]);
    let region = vec![0, 1, 2, 3, 4, 5];
    let s = find_best_split(&m, &targets, &SplitCriterion::Gini, 1, &region).unwrap();
    assert_eq!(s.threshold, 1);
    let s = find_best_split(&m, &targets, &SplitCriterion::Gini, 2, &region).unwrap();
    assert_eq!(s.threshold, 2);
    assert_eq!((s.left.n, s.right.n), (2, 4));
    assert!(find_best_split(&m, &targets, &SplitCriterion::Gini, 4, &region).is_none());
}

#[test]
fn empty_and_single_regions_have_no_split() {
    let m = column(&[1, 2]);
    let targets = Targets::Labels(vec![0, 1]);
    assert!(find_best_split(&m, &targets, &SplitCriterion::Gini, 1, &vec![]).is_none());
    assert!(find_best_split(&m, &targets, &SplitCriterion::Gini, 0, &vec![1]).is_none());
}

#[test]
fn best_split_of_numeric_targets() {
    let m = column(&[1, 2, 3, 4]);
    let targets = Targets::Values(vec![-1, -1, 5, 5]);
    let s = find_best_split(&m, &targets, &SplitCriterion::MSE, 1, &vec![3, 2, 1, 0]).unwrap();
    assert_eq!((s.feature, s.threshold), (0, 2));
    assert_eq!((s.left.sum, s.left.sum_sq, s.left.n), (-2, 2, 2));
    assert_eq!((s.right.sum, s.right.sum_sq, s.right.n), (10, 50, 2));
    assert_eq!(s.weighted_impurity.num, 0);
    // a prediction is a plain value
    assert_ne!(Prediction::Class(0), Prediction::Mean { sum: 0, count: 1 });
}

#[test]
fn entropy_takes_no_split_without_true_gain() {
    // both sides have the class proportions of the region: the gain is 0
    let m = column(&[0, 0, 0, 1, 1, 1, 1, 1, 1]);
    let targets = Targets::Labels(vec![0, 1, 2, 0, 0, 1, 1, 2, 2]);
    let region: Vec<usize> = (0..9).collect();
    assert!(find_best_split(&m, &targets, &SplitCriterion::Entropy, 1, &region).is_none());
    let m = column(&[0, 0, 0, 0, 0, 0, 0, 0, 0, 1, 1, 1]);
    let targets = Targets::Labels(vec![0, 0, 0, 1, 1, 1, 2, 2, 2, 0, 1, 2]);
    let region: Vec<usize> = (0..12).collect();
    assert!(find_best_split(&m, &targets, &SplitCriterion::Entropy, 1, &region).is_none());
    for c in [SplitCriterion::Gini, SplitCriterion::ClassificationError] {
        assert!(find_best_split(&m, &targets, &c, 1, &region).is_none());
    }
}

#[test]
fn entropy_takes_a_split_with_gain() {
    let m = column(&[1, 2, 3, 4, 5, 6]);
    let targets = Targets::Labels(vec![0, 0, 1, 0, 1, 1]);
    let region: Vec<usize> = (0..6).collect();
    let s = find_best_split(&m, &targets, &SplitCriterion::Entropy, 1, &region).unwrap();
    assert_eq!(s.feature, 0);
    // the score of an entropy split stands over 2^56 times the samples
    assert_eq!(s.weighted_impurity.den, 6 * (1u128 << 56));
    assert_eq!(s.weighted_impurity.num, s_mass(&s.left.counts) + s_mass(&s.right.counts));
}

fn s_mass(counts: &[usize]) -> u128 {
    let n: usize = counts.iter().sum();
    cart::impurity::class_mass(&SplitCriterion::Entropy, counts, n).num
}
