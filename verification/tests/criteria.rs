use cart::criterion::SplitCriterion;
use cart::impurity::{class_mass, impurity, impurity_of, largest_count, moment_mass};
use cart::log2::{log2_fixed_of, LOG_ONE};
use cart::ratio::{mul_wide, Ratio};

fn value(r: &Ratio) -> f64 {
    r.num as f64 / r.den as f64
}

#[test]
fn default_criterion_is_gini() {
    assert_eq!(SplitCriterion::default(), SplitCriterion::Gini);
}

#[test]
fn label_criteria_are_classification() {
    assert!(SplitCriterion::Gini.is_classification());
    assert!(SplitCriterion::Entropy.is_classification());
    assert!(SplitCriterion::ClassificationError.is_classification());
    assert!(!SplitCriterion::MSE.is_classification());
}

#[test]
fn gini_of_three_and_two() {
    let r = impurity(&SplitCriterion::Gini, &[3, 2], 5);
    assert_eq!(r.num, 12);
    assert_eq!(r.den, 25);
    assert!((value(&r) - 0.48).abs() < 1e-12);
}

#[test]
fn entropy_of_three_and_two() {
    let r = impurity(&SplitCriterion::Entropy, &[3, 2], 5);
    assert_eq!(r.den, 5 * (LOG_ONE as u128));
    let expected = -(0.6f64 * 0.6f64.log2() + 0.4f64 * 0.4f64.log2());
    assert!((value(&r) - expected).abs() < 1e-13);
    assert!((value(&r) - 0.971).abs() < 1e-3);
}

#[test]
fn classification_error_of_three_and_two() {
    let r = impurity(&SplitCriterion::ClassificationError, &[3, 2], 5);
    assert_eq!(r.num, 2);
    assert_eq!(r.den, 5);
    assert!((value(&r) - 0.4).abs() < 1e-12);
}

#[test]
fn pure_region_scores_zero() {
    for c in [SplitCriterion::Gini, SplitCriterion::Entropy, SplitCriterion::ClassificationError] {
        let r = impurity(&c, &[0, 7, 0], 7);
        assert_eq!(r.num, 0);
        assert!(r.den > 0);
        assert!(r.is_zero());
    }
}

#[test]
fn mixed_region_scores_above_zero() {
    for c in [SplitCriterion::Gini, SplitCriterion::Entropy, SplitCriterion::ClassificationError] {
        let r = impurity(&c, &[1, 1_000_000], 1_000_001);
        assert!(r.num > 0);
        assert!(!r.is_zero());
    }
}

#[test]
fn uniform_region_scores_the_maximum() {
    let k = 4u128;
    let uniform = impurity(&SplitCriterion::Gini, &[5, 5, 5, 5], 20);
    assert_eq!(uniform.num * k, (k - 1) * uniform.den);
    let uniform = impurity(&SplitCriterion::ClassificationError, &[5, 5, 5, 5], 20);
    assert_eq!(uniform.num * k, (k - 1) * uniform.den);
    let uniform = impurity(&SplitCriterion::Entropy, &[5, 5, 5, 5], 20);
    assert!((value(&uniform) - 2.0).abs() < 1e-13);
    for counts in [[20usize, 0, 0, 0], [10, 10, 0, 0], [6, 5, 5, 4], [17, 1, 1, 1]] {
        for c in [SplitCriterion::Gini, SplitCriterion::ClassificationError] {
            let r = impurity(&c, &counts, 20);
            assert!(r.num * k <= (k - 1) * r.den);
        }
        let r = impurity(&SplitCriterion::Entropy, &counts, 20);
        assert!(value(&r) <= 2.0 + 1e-13);
    }
}

#[test]
fn variance_of_identical_values_is_zero() {
    let r = impurity(&SplitCriterion::MSE, &[7, 7, 7, 7], 4);
    assert_eq!(r.num, 0);
    assert_eq!(r.den, 16);
}

#[test]
fn variance_of_values() {
    // values 1, 2, 3, 6: mean 3, mean of squares 12.5, variance 3.5
    let r = impurity(&SplitCriterion::MSE, &[1, 2, 3, 6], 4);
    assert_eq!(r.num, 4 * 50 - 144);
    assert_eq!(r.den, 16);
    assert!((value(&r) - 3.5).abs() < 1e-12);
}

#[test]
fn empty_region_scores_zero() {
    for c in [
        SplitCriterion::Gini,
        SplitCriterion::Entropy,
        SplitCriterion::ClassificationError,
        SplitCriterion::MSE,
    ] {
        let r = impurity(&c, &[], 0);
        assert_eq!(r.num, 0);
        assert_eq!(r.den, 1);
    }
}

#[test]
fn mass_is_impurity_times_size() {
    let m = class_mass(&SplitCriterion::Gini, &[3, 2], 5);
    assert_eq!((m.num, m.den), (12, 5));
    let m = class_mass(&SplitCriterion::ClassificationError, &[3, 2], 5);
    assert_eq!((m.num, m.den), (2, 1));
    let m = class_mass(&SplitCriterion::Entropy, &[4, 4], 8);
    assert_eq!((m.num, m.den), (8 * (LOG_ONE as u128), LOG_ONE as u128));
    let m = class_mass(&SplitCriterion::Gini, &[0, 0], 0);
    assert_eq!((m.num, m.den), (0, 1));
}

#[test]
fn moment_mass_of_signed_sum() {
    // values -3, 1: sum -2, squares 10; 2 * 10 - 4 = 16
    let m = moment_mass(2, -2, 10);
    assert_eq!((m.num, m.den), (16, 2));
    let m = moment_mass(0, 0, 0);
    assert_eq!((m.num, m.den), (0, 1));
}

#[test]
fn largest_count_of_counts() {
    assert_eq!(largest_count(&[]), 0);
    assert_eq!(largest_count(&[3, 9, 2, 9]), 9);
}

#[test]
fn logarithm_of_powers_of_two_is_exact() {
    assert_eq!(log2_fixed_of(1), 0);
    assert_eq!(log2_fixed_of(2), LOG_ONE);
    assert_eq!(log2_fixed_of(8), 3 * LOG_ONE);
    assert_eq!(log2_fixed_of(1 << 63), 63 * LOG_ONE);
}

#[test]
fn logarithm_is_close_and_never_above() {
    for x in [3u64, 5, 6, 7, 10, 1000, 123_456_789, u64::MAX] {
        let got = log2_fixed_of(x) as f64 / LOG_ONE as f64;
        let want = (x as f64).log2();
        assert!(got <= want + 1e-13);
        assert!(want - got < 1e-13);
    }
}

#[test]
fn logarithm_is_monotone_and_doubles() {
    let mut last = 0;
    for x in 1u64..2000 {
        let l = log2_fixed_of(x);
        assert!(l >= last);
        assert_eq!(log2_fixed_of(2 * x), l + LOG_ONE);
        last = l;
    }
}

#[test]
fn wide_product() {
    assert_eq!(mul_wide(0, u128::MAX), (0, 0));
    assert_eq!(mul_wide(3, 4), (0, 12));
    assert_eq!(mul_wide(u128::MAX, 2), (1, u128::MAX - 1));
    assert_eq!(mul_wide(u128::MAX, u128::MAX), (u128::MAX - 1, 1));
    assert_eq!(mul_wide(1 << 64, 1 << 64), (1, 0));
    assert_eq!(mul_wide((1 << 100) + 7, 1 << 28), (1, 7 << 28));
}

#[test]
fn ratios_compare_by_value() {
    let third = Ratio { num: 1, den: 3 };
    let half = Ratio { num: 1, den: 2 };
    let two_quarters = Ratio { num: 2, den: 4 };
    assert!(third.lt(&half));
    assert!(!half.lt(&third));
    assert!(!half.lt(&two_quarters));
    assert!(half.same(&two_quarters));
    assert!(!half.same(&third));
    let big = Ratio { num: u128::MAX, den: u128::MAX - 1 };
    let bigger = Ratio { num: u128::MAX - 1, den: u128::MAX - 2 };
    assert!(big.lt(&bigger));
    assert!(!bigger.lt(&big));
    assert!(!big.same(&bigger));
    assert!(Ratio { num: 0, den: 9 }.is_zero());
    assert!(!third.is_zero());
}

#[test]
fn impurity_of_any_counts() {
    let r = impurity_of(&SplitCriterion::Gini, &[3, 2]).unwrap();
    assert_eq!((r.num, r.den), (12, 25));
    let r = impurity_of(&SplitCriterion::ClassificationError, &[3, 2]).unwrap();
    assert_eq!((r.num, r.den), (2, 5));
    let r = impurity_of(&SplitCriterion::MSE, &[1, 2, 3, 6]).unwrap();
    assert_eq!((r.num, r.den), (56, 16));
    let r = impurity_of(&SplitCriterion::Entropy, &[]).unwrap();
    assert_eq!((r.num, r.den), (0, 1));
    assert!(impurity_of(&SplitCriterion::Gini, &[usize::MAX, 1]).is_none());
    assert!(impurity_of(&SplitCriterion::Gini, &[usize::MAX, 0]).is_some());
    assert!(impurity_of(&SplitCriterion::MSE, &[usize::MAX, usize::MAX]).is_none());
    assert!(impurity_of(&SplitCriterion::MSE, &[usize::MAX]).is_some());
}

#[test]
fn entropy_stays_within_the_logarithm_of_the_classes() {
    let one = LOG_ONE as u128;
    let cases: [Vec<usize>; 6] = [
        vec![1 << 20, 1 << 20],
        vec![(1 << 20) + 1, (1 << 20) - 1],
        vec![1, 1, 1],
        vec![7, 7, 7],
        vec![1_000_003, 999_999, 1_000_001],
        vec![5, 1, 9, 2, 2],
    ];
    for counts in cases {
        let n: usize = counts.iter().sum();
        let k = counts.len() as u64;
        let r = impurity(&SplitCriterion::Entropy, &counts, n);
        // at most the logarithm of the classes, up to four units of 2^-56
        assert_eq!(r.den, one * n as u128);
        assert!(r.num <= (log2_fixed_of(k) as u128 + 4) * n as u128);
        assert!(value(&r) <= (k as f64).log2() + 1e-12);
    }
}

#[test]
fn uniform_entropy_is_the_logarithm_of_the_classes() {
    for (counts, n) in [
        (vec![1usize, 1, 1], 3usize),
        (vec![7, 7, 7], 21),
        (vec![1 << 20, 1 << 20], 1 << 21),
        (vec![1000; 10], 10_000),
        (vec![3; 100], 300),
    ] {
        let k = counts.len() as f64;
        let r = impurity(&SplitCriterion::Entropy, &counts, n);
        assert!((value(&r) - k.log2()).abs() < 1e-12);
    }
    // two, four, eight classes: exact
    let r = impurity(&SplitCriterion::Entropy, &[1 << 20, 1 << 20], 1 << 21);
    assert_eq!(r.num, (LOG_ONE as u128) << 21);
}

#[test]
fn entropy_is_close_to_the_true_value() {
    let cases: [Vec<usize>; 5] = [
        vec![3, 2],
        vec![(1 << 20) + 1, (1 << 20) - 1],
        vec![1, 999_999],
        vec![10, 20, 30, 40],
        vec![123_456_789, 987_654_321, 5],
    ];
    for counts in cases {
        let n: usize = counts.iter().sum();
        let r = impurity(&SplitCriterion::Entropy, &counts, n);
        let expected: f64 = counts
            .iter()
            .map(|c| {
                let p = *c as f64 / n as f64;
                -p * p.log2()
            })
            .sum();
        assert!((value(&r) - expected).abs() < 1e-12);
    }
}

#[test]
fn entropy_of_a_split_stays_within_the_margin() {
    // sides with the class proportions of the region: the true gain is 0
    for (l, r) in [([3usize, 3, 3], [1usize, 1, 1]), ([1, 1, 1], [2, 2, 2]), ([5, 10, 15], [1, 2, 3])] {
        let p: Vec<usize> = l.iter().zip(r.iter()).map(|(a, b)| a + b).collect();
        let (nl, nr): (usize, usize) = (l.iter().sum(), r.iter().sum());
        let left = class_mass(&SplitCriterion::Entropy, &l, nl);
        let right = class_mass(&SplitCriterion::Entropy, &r, nr);
        let whole = class_mass(&SplitCriterion::Entropy, &p, nl + nr);
        assert_eq!((left.den, right.den, whole.den), (LOG_ONE as u128, LOG_ONE as u128, LOG_ONE as u128));
        let margin = 4 * (nl + nr) as u128;
        assert!(left.num + right.num <= whole.num + margin);
        assert!(whole.num <= left.num + right.num + margin);
        let gain = (whole.num as f64 - (left.num + right.num) as f64) / whole.den as f64 / (nl + nr) as f64;
        assert!(gain.abs() < 1e-12);
    }
    // sides of other proportions: the sides score less, by far more than the margin
    let left = class_mass(&SplitCriterion::Entropy, &[5, 1], 6);
    let right = class_mass(&SplitCriterion::Entropy, &[1, 5], 6);
    let whole = class_mass(&SplitCriterion::Entropy, &[6, 6], 12);
    assert!(left.num + right.num + 4 * 12 < whole.num);
}
