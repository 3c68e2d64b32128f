use cart::criterion::SplitCriterion;
use cart::data::{Matrix, Prediction, Targets, TreeConfig, TreeError};
use cart::model::{fit, TreeModel};
use cart::tree::{grow, Node};

fn column(values: &[i64]) -> Matrix {
    Matrix::from_rows(values.iter().map(|v| vec![*v]).collect()).unwrap()
}

fn config(criterion: SplitCriterion) -> TreeConfig {
    TreeConfig { criterion, ..TreeConfig::default() }
}

fn same(a: &Node, b: &Node) -> bool {
    match (a, b) {
        (
            Node::Leaf { n, impurity, prediction, distribution },
            Node::Leaf { n: n2, impurity: i2, prediction: other, distribution: d2 },
        ) => {
            n == n2
                && (impurity.num, impurity.den) == (i2.num, i2.den)
                && prediction == other
                && distribution == d2
        }
        (
            Node::Internal { n, impurity, feature, threshold, left, right },
            Node::Internal { n: n2, impurity: i2, feature: f2, threshold: t2, left: l2, right: r2 },
        ) => {
            n == n2
                && (impurity.num, impurity.den) == (i2.num, i2.den)
                && feature == f2
                && threshold == t2
                && same(left, l2)
                && same(right, r2)
        }
        _ => false,
    }
}

fn check_splits(node: &Node) {
    if let Node::Internal { n, impurity, left, right, .. } = node {
        let (nl, nr) = (left.samples(), right.samples());
        assert_eq!(nl + nr, *n);
        assert!(nl > 0 && nr > 0);
        let score = |x: &Node| match x {
            Node::Leaf { impurity, .. } => impurity.num as f64 / impurity.den as f64,
            Node::Internal { impurity, .. } => impurity.num as f64 / impurity.den as f64,
        };
        let weighted = (nl as f64 * score(left) + nr as f64 * score(right)) / *n as f64;
        assert!(weighted < impurity.num as f64 / impurity.den as f64);
        check_splits(left);
        check_splits(right);
    }
}

fn iris_like() -> (Matrix, Targets) {
    let rows = vec![
        vec![51, 35, 14, 2],
        vec![49, 30, 14, 2],
        vec![47, 32, 13, 2],
        vec![46, 31, 15, 2],
        vec![50, 36, 14, 2],
        vec![70, 32, 47, 14],
        vec![64, 32, 45, 15],
        vec![69, 31, 49, 15],
        vec![55, 23, 40, 13],
        vec![65, 28, 46, 15],
        vec![63, 33, 60, 25],
        vec![58, 27, 51, 19],
        vec![71, 30, 59, 21],
        vec![63, 29, 56, 18],
        vec![49, 25, 45, 17],
    ];
    let labels = vec![0, 0, 0, 0, 0, 1, 1, 1, 1, 1, 2, 2, 2, 2, 2];
    (Matrix::from_rows(rows).unwrap(), Targets::Labels(labels))
}

#[test]
fn default_configuration() {
    let c = TreeConfig::default();
    assert_eq!(c.criterion, SplitCriterion::Gini);
    assert_eq!(c.max_depth, None);
    assert_eq!(c.min_samples_split, 2);
    assert_eq!(c.min_samples_leaf, 1);
}

#[test]
fn four_samples_two_pure_leaves() {
    let m = column(&[1, 2, 3, 4]);
    let targets = Targets::Labels(vec![0, 0, 1, 1]);
    let tree = fit(&m, &targets, &config(SplitCriterion::Gini)).unwrap();
    assert_eq!(tree.n_features, 1);
    match &tree.root {
        Node::Internal { n, impurity, feature, threshold, left, right } => {
            assert_eq!(*n, 4);
            assert_eq!((impurity.num, impurity.den), (8, 16));
            assert_eq!(*feature, 0);
            assert!(2 <= *threshold && *threshold < 3);
            match (&**left, &**right) {
                (
                    Node::Leaf { n: nl, impurity: il, prediction: pl, distribution: dl },
                    Node::Leaf { n: nr, impurity: ir, prediction: pr, distribution: dr },
                ) => {
                    assert_eq!((*nl, *nr), (2, 2));
                    assert_eq!((il.num, ir.num), (0, 0));
                    assert_eq!((*pl, *pr), (Prediction::Class(0), Prediction::Class(1)));
                    assert_eq!((dl, dr), (&vec![2, 0], &vec![0, 2]));
                }
                _ => panic!("two leaves expected"),
            }
        }
        Node::Leaf { .. } => panic!("a split expected"),
    }
    let predicted = tree.predict_all(&m);
    assert_eq!(
        predicted,
        vec![Prediction::Class(0), Prediction::Class(0), Prediction::Class(1), Prediction::Class(1)]
    );
    assert_eq!(tree.predict(&[2]), Prediction::Class(0));
    assert_eq!(tree.predict(&[3]), Prediction::Class(1));
    assert_eq!(tree.predict(&[-100]), Prediction::Class(0));
    assert_eq!(tree.predict(&[100]), Prediction::Class(1));
}

#[test]
fn every_criterion_separates_separable_classes() {
    let (m, targets) = iris_like();
    let labels = match &targets {
        Targets::Labels(l) => l.clone(),
        Targets::Values(_) => unreachable!(),
    };
    for c in [SplitCriterion::Gini, SplitCriterion::Entropy, SplitCriterion::ClassificationError] {
        let tree = fit(&m, &targets, &config(c)).unwrap();
        let predicted = tree.predict_all(&m);
        let expected: Vec<Prediction> = labels.iter().map(|l| Prediction::Class(*l)).collect();
        assert_eq!(predicted, expected);
        check_splits(&tree.root);
        assert_eq!(tree.root.samples(), 15);
        assert!(!tree.root.is_leaf());
    }
}

#[test]
fn children_share_the_samples_and_lower_the_impurity() {
    let m = Matrix::from_rows(vec![
        vec![1, 9],
        vec![2, 8],
        vec![3, 7],
        vec![4, 6],
        vec![5, 5],
        vec![6, 4],
        vec![7, 3],
        vec![8, 2],
    ])
    .unwrap();
    let targets = Targets::Labels(vec![0, 1, 0, 1, 1, 2, 2, 0]);
    for c in [SplitCriterion::Gini, SplitCriterion::Entropy, SplitCriterion::ClassificationError] {
        let tree = fit(&m, &targets, &config(c)).unwrap();
        check_splits(&tree.root);
    }
    let targets = Targets::Values(vec![3, -1, 4, -1, 5, -9, 2, 6]);
    let tree = fit(&m, &targets, &config(SplitCriterion::MSE)).unwrap();
    check_splits(&tree.root);
}

#[test]
fn prediction_is_repeatable() {
    let (m, targets) = iris_like();
    let tree = fit(&m, &targets, &config(SplitCriterion::Entropy)).unwrap();
    let sample = [60, 30, 48, 16];
    let first = tree.predict(&sample);
    for _ in 0..10 {
        assert_eq!(tree.predict(&sample), first);
    }
    assert_eq!(tree.predict_all(&m), tree.predict_all(&m));
}

#[test]
fn fitting_twice_gives_the_same_tree() {
    let (m, targets) = iris_like();
    for c in [SplitCriterion::Gini, SplitCriterion::Entropy, SplitCriterion::ClassificationError] {
        let a = fit(&m, &targets, &config(c)).unwrap();
        let b = fit(&m, &targets, &config(c)).unwrap();
        assert!(same(&a.root, &b.root));
        assert_eq!(a.n_features, b.n_features);
    }
}

#[test]
fn single_sample_is_a_leaf() {
    let m = column(&[1, 2, 3]);
    for (targets, c) in [
        (Targets::Labels(vec![0, 1, 2]), SplitCriterion::Gini),
        (Targets::Labels(vec![0, 1, 2]), SplitCriterion::Entropy),
        (Targets::Labels(vec![0, 1, 2]), SplitCriterion::ClassificationError),
        (Targets::Values(vec![5, 6, 7]), SplitCriterion::MSE),
    ] {
        for min_samples_split in [0, 1, 2, 10] {
            let cfg = TreeConfig { criterion: c, min_samples_split, max_depth: None, min_samples_leaf: 0 };
            let node = grow(&m, &targets, &cfg, vec![1], 0).unwrap();
            assert!(node.is_leaf());
            assert_eq!(node.samples(), 1);
            match (node, &targets) {
                (Node::Leaf { prediction, .. }, Targets::Labels(_)) => {
                    assert_eq!(prediction, Prediction::Class(1))
                }
                (Node::Leaf { prediction, .. }, Targets::Values(_)) => {
                    assert_eq!(prediction, Prediction::Mean { sum: 6, count: 1 })
                }
                _ => unreachable!(),
            }
        }
    }
    let one = column(&[4]);
    let tree = fit(&one, &Targets::Labels(vec![3]), &TreeConfig::default()).unwrap();
    assert!(tree.root.is_leaf());
    assert_eq!(tree.predict(&[0]), Prediction::Class(3));
}

#[test]
fn stopping_rules_force_a_leaf() {
    let m = column(&[1, 2, 3, 4]);
    let targets = Targets::Labels(vec![0, 0, 1, 1]);
    let cfg = TreeConfig { max_depth: Some(0), ..TreeConfig::default() };
    let tree = fit(&m, &targets, &cfg).unwrap();
    match &tree.root {
        Node::Leaf { n, prediction, distribution, impurity } => {
            assert_eq!(*n, 4);
            // a tie between the classes goes to the smaller label
            assert_eq!(*prediction, Prediction::Class(0));
            assert_eq!(distribution, &vec![2, 2]);
            assert_eq!((impurity.num, impurity.den), (8, 16));
        }
        Node::Internal { .. } => panic!("a leaf expected"),
    }
    let cfg = TreeConfig { min_samples_split: 5, ..TreeConfig::default() };
    assert!(fit(&m, &targets, &cfg).unwrap().root.is_leaf());
    let cfg = TreeConfig { min_samples_leaf: 3, ..TreeConfig::default() };
    assert!(fit(&m, &targets, &cfg).unwrap().root.is_leaf());
    let cfg = TreeConfig { min_samples_split: 4, ..TreeConfig::default() };
    assert!(!fit(&m, &targets, &cfg).unwrap().root.is_leaf());
}

#[test]
fn depth_limit_cuts_the_tree() {
    let m = column(&[1, 2, 3, 4, 5, 6]);
    let targets = Targets::Labels(vec![0, 0, 1, 1, 2, 2]);
    let cfg = TreeConfig { max_depth: Some(1), ..TreeConfig::default() };
    let tree = fit(&m, &targets, &cfg).unwrap();
    match &tree.root {
        Node::Internal { left, right, .. } => {
            assert!(left.is_leaf());
            assert!(right.is_leaf());
        }
        Node::Leaf { .. } => panic!("a split expected"),
    }
    let full = fit(&m, &targets, &TreeConfig::default()).unwrap();
    let expected: Vec<Prediction> = [0, 0, 1, 1, 2, 2].iter().map(|l| Prediction::Class(*l)).collect();
    assert_eq!(full.predict_all(&m), expected);
}

#[test]
fn identical_features_give_a_leaf() {
    let m = Matrix::from_rows(vec![vec![3, 3], vec![3, 3], vec![3, 3]]).unwrap();
    let targets = Targets::Labels(vec![0, 1, 1]);
    let tree = fit(&m, &targets, &TreeConfig::default()).unwrap();
    assert!(tree.root.is_leaf());
    assert_eq!(tree.predict(&[3, 3]), Prediction::Class(1));
}

#[test]
fn regression_predicts_the_mean() {
    let m = column(&[1, 2, 3, 4]);
    let targets = Targets::Values(vec![1, 2, 10, 11]);
    let cfg = TreeConfig { max_depth: Some(1), ..config(SplitCriterion::MSE) };
    let tree = fit(&m, &targets, &cfg).unwrap();
    assert_eq!(tree.predict(&[1]), Prediction::Mean { sum: 3, count: 2 });
    assert_eq!(tree.predict(&[4]), Prediction::Mean { sum: 21, count: 2 });
    match &tree.root {
        Node::Internal { impurity, threshold, .. } => {
            // n * sum of squares - sum squared = 4 * 226 - 576 = 328, over n * n
            assert_eq!((impurity.num, impurity.den), (328, 16));
            assert_eq!(*threshold, 2);
        }
        Node::Leaf { .. } => panic!("a split expected"),
    }
    let deep = fit(&m, &targets, &config(SplitCriterion::MSE)).unwrap();
    assert_eq!(
        deep.predict_all(&m),
        vec![
            Prediction::Mean { sum: 1, count: 1 },
            Prediction::Mean { sum: 2, count: 1 },
            Prediction::Mean { sum: 10, count: 1 },
            Prediction::Mean { sum: 11, count: 1 },
        ]
    );
}

#[test]
fn invalid_input_is_refused() {
    let m = column(&[1, 2, 3]);
    let labels = Targets::Labels(vec![0, 1, 0]);
    let values = Targets::Values(vec![0, 1, 0]);
    let refused = |r: Result<TreeModel, TreeError>| match r {
        Err(e) => e == TreeError::InvalidConfiguration,
        Ok(_) => false,
    };
    // no rows
    let empty = Matrix::from_rows(vec![]).unwrap();
    assert!(refused(fit(&empty, &Targets::Labels(vec![]), &TreeConfig::default())));
    // targets and rows differ in number
    assert!(refused(fit(&m, &Targets::Labels(vec![0, 1]), &TreeConfig::default())));
    // criterion and targets do not match
    assert!(refused(fit(&m, &labels, &config(SplitCriterion::MSE))));
    assert!(refused(fit(&m, &values, &config(SplitCriterion::Gini))));
    assert!(refused(fit(&m, &values, &config(SplitCriterion::Entropy))));
    // rows of different length
    let ragged = Matrix { rows: vec![vec![1], vec![1, 2], vec![3]], cols: 1 };
    assert!(refused(fit(&ragged, &labels, &TreeConfig::default())));
    // a label that no counter can index
    assert!(refused(fit(&m, &Targets::Labels(vec![0, usize::MAX, 0]), &TreeConfig::default())));
    // targets too large for exact scores
    let huge = Targets::Values(vec![i64::MAX, 0, i64::MIN]);
    assert!(refused(fit(&m, &huge, &config(SplitCriterion::MSE))));
    // the same data within limits is accepted
    assert!(fit(&m, &labels, &TreeConfig::default()).is_ok());
    assert!(fit(&m, &values, &config(SplitCriterion::MSE)).is_ok());
}

#[test]
fn empty_region_is_degenerate() {
    let m = column(&[1, 2]);
    let targets = Targets::Labels(vec![0, 1]);
    match grow(&m, &targets, &TreeConfig::default(), vec![], 0) {
        Err(e) => assert_eq!(e, TreeError::DegenerateInput),
        Ok(_) => panic!("an error expected"),
    }
}

#[test]
fn growing_a_region_with_repeated_samples() {
    let m = column(&[1, 2, 3]);
    let targets = Targets::Labels(vec![0, 1, 1]);
    let node = grow(&m, &targets, &TreeConfig::default(), vec![0, 0, 2, 0], 3).unwrap();
    assert_eq!(node.samples(), 4);
    match node {
        Node::Internal { threshold, left, right, .. } => {
            assert_eq!(threshold, 2);
            assert_eq!((left.samples(), right.samples()), (3, 1));
        }
        Node::Leaf { .. } => panic!("a split expected"),
    }
}

#[test]
fn entropy_makes_a_leaf_where_no_split_gains() {
    let m = column(&[0, 0, 0, 1, 1, 1, 1, 1, 1]);
    let targets = Targets::Labels(vec![0, 1, 2, 0, 0, 1, 1, 2, 2]);
    let tree = fit(&m, &targets, &config(SplitCriterion::Entropy)).unwrap();
    assert!(tree.root.is_leaf());
    assert!(tree.is_well_formed());
}

#[test]
fn a_tree_that_reads_missing_features_is_not_well_formed() {
    let m = column(&[1, 2, 3, 4]);
    let targets = Targets::Labels(vec![0, 0, 1, 1]);
    let mut tree = fit(&m, &targets, &TreeConfig::default()).unwrap();
    assert!(tree.is_well_formed());
    tree.n_features = 0;
    assert!(!tree.is_well_formed());
}
