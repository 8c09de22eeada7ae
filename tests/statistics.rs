use bench::statistics::{
    max, mean, median, min, quartiles, standard_deviation, sum, sum_square_deviations, variance,
};

#[test]
fn median_test() {
    assert_eq!(median(&vec![1, 2]), Some(1));
    assert_eq!(median(&vec![1, 2, 3]), Some(2));
}

#[test]
fn quartile_test() {
    assert!(quartiles(&vec![1]).is_none());
    assert_eq!(quartiles(&vec![1, 2]), Some((1, 1, 2)));
    assert_eq!(quartiles(&vec![1, 2, 3, 4]), Some((1, 2, 3)));
    assert_eq!(quartiles(&vec![1, 2, 3, 4, 5]), Some((1, 3, 4)));
}

#[test]
fn empty_inputs_have_no_value() {
    let e: Vec<u64> = vec![];
    assert_eq!(min(&e), None);
    assert_eq!(max(&e), None);
    assert_eq!(sum(&e), None);
    assert_eq!(mean(&e), None);
    assert_eq!(median(&e), None);
    assert_eq!(quartiles(&e), None);
    assert_eq!(sum_square_deviations(&e, None), None);
    assert_eq!(variance(&e, None), None);
    assert_eq!(standard_deviation(&e, None), None);
}

#[test]
fn extremes_sum_and_mean() {
    let s = vec![7, 3, 9, 3, 5];
    assert_eq!(min(&s), Some(3));
    assert_eq!(max(&s), Some(9));
    assert_eq!(sum(&s), Some(27));
    assert_eq!(mean(&s), Some(5));
    assert_eq!(mean(&vec![1, 2]), Some(1));
}

#[test]
fn sum_does_not_overflow() {
    let s = vec![u64::MAX, u64::MAX, u64::MAX];
    assert_eq!(sum(&s), Some(3 * (u64::MAX as u128)));
    assert_eq!(mean(&s), Some(u64::MAX));
    assert_eq!(median(&vec![u64::MAX, u64::MAX]), Some(u64::MAX));
}

#[test]
fn median_sorts_a_copy() {
    let s = vec![9, 1, 5, 3];
    assert_eq!(median(&s), Some(4));
    assert_eq!(s, vec![9, 1, 5, 3]);
    assert_eq!(median(&vec![4, 1, 3]), Some(3));
}

#[test]
fn quartiles_unsorted_input() {
    assert_eq!(quartiles(&vec![5, 1, 4, 2, 3]), Some((1, 3, 4)));
    assert_eq!(quartiles(&vec![4, 3, 2, 1]), Some((1, 2, 3)));
}

#[test]
fn quartiles_are_ordered() {
    let s = vec![10, 2, 33, 4, 4, 18, 7];
    let (q1, q2, q3) = quartiles(&s).unwrap();
    assert!(q1 <= q2 && q2 <= q3);
    assert_eq!((q1, q2, q3), (4, 7, 18));
}

#[test]
fn center_between_extremes() {
    let s = vec![12, 40, 3, 8];
    let lo = min(&s).unwrap();
    let hi = max(&s).unwrap();
    let m = median(&s).unwrap();
    let a = mean(&s).unwrap();
    assert!(lo <= m && m <= hi);
    assert!(lo <= a && a <= hi);
    assert_eq!(m, 10);
    assert_eq!(a, 15);
}

#[test]
fn square_deviations_from_mean_and_center() {
    let s = vec![2, 4, 4, 4, 5, 5, 7, 9];
    assert_eq!(sum_square_deviations(&s, None), Some(32));
    assert_eq!(sum_square_deviations(&s, Some(0)), Some(232));
}

#[test]
fn square_deviations_saturate() {
    let s = vec![0, u64::MAX, 0, u64::MAX];
    assert_eq!(sum_square_deviations(&s, Some(0)), Some(u128::MAX));
}

#[test]
fn variance_and_standard_deviation() {
    let s = vec![2, 4, 4, 4, 5, 5, 7, 9];
    assert_eq!(variance(&s, None), Some(4));
    assert_eq!(standard_deviation(&s, None), Some(2));
    assert_eq!(variance(&vec![1, 4], None), Some(5));
    assert_eq!(standard_deviation(&vec![0, 10], None), Some(7));
    assert_eq!(variance(&s, Some(0)), Some(33));
    assert_eq!(standard_deviation(&s, Some(0)), Some(5));
}

#[test]
fn single_sample_variance_has_no_value() {
    assert_eq!(variance(&vec![5], None), None);
    assert_eq!(standard_deviation(&vec![5], None), None);
    assert_eq!(sum_square_deviations(&vec![5], None), Some(0));
}

#[test]
fn constant_samples_have_zero_spread() {
    let s = vec![6, 6, 6];
    assert_eq!(variance(&s, None), Some(0));
    assert_eq!(standard_deviation(&s, None), Some(0));
}
