use number_theory::multiples::multiples;
use number_theory::multiples::sum_of_multiples;

#[test]
fn test_multiples() {
    assert_eq!(multiples(vec![3, 5], 10), vec![3, 5, 6, 9]);
    assert_eq!(
        multiples(vec![2, 5], 20),
        vec![2, 4, 5, 6, 8, 10, 12, 14, 15, 16, 18]
    )
}

#[test]
fn test_sum_of_multiples() {
    assert_eq!(sum_of_multiples(vec![3, 5], 10), 23);
    assert_eq!(sum_of_multiples(vec![2, 5], 20), 110)
}

#[test]
fn empty_factors_yield_nothing() {
    let no_factors: Vec<u64> = vec![];
    assert_eq!(multiples(no_factors, 100), Vec::<u64>::new());
    let no_factors: Vec<u64> = vec![];
    assert_eq!(sum_of_multiples(no_factors, 100), 0);
}

#[test]
fn bound_not_positive_yields_nothing() {
    assert_eq!(multiples(vec![3isize], 0), Vec::<isize>::new());
    assert_eq!(multiples(vec![3isize], -4), Vec::<isize>::new());
    assert_eq!(sum_of_multiples(vec![3isize], 0), 0);
    assert_eq!(sum_of_multiples(vec![3isize], -4), 0);
}

#[test]
fn bound_itself_is_excluded() {
    assert_eq!(multiples(vec![5u32], 5), Vec::<u32>::new());
    assert_eq!(multiples(vec![5u32], 6), vec![5]);
}

#[test]
fn duplicate_factors_are_resolved() {
    assert_eq!(multiples(vec![2, 2, 3], 8), vec![2, 3, 4, 6]);
    assert_eq!(sum_of_multiples(vec![2, 2, 3], 8), 15);
}

#[test]
fn overlapping_multiples_stay_ascending_and_unique() {
    let result = multiples(vec![2u64, 3, 2], 13);
    assert_eq!(result, vec![2, 3, 4, 6, 8, 9, 10, 12]);
    for window in result.windows(2) {
        assert!(window[0] < window[1]);
    }
}

#[test]
fn factor_one_yields_every_value_below_bound() {
    assert_eq!(multiples(vec![1u32], 10), vec![1, 2, 3, 4, 5, 6, 7, 8, 9]);
}

#[test]
fn sum_is_fold_of_multiples() {
    let generated = multiples(vec![4u64, 6], 50);
    let total: u64 = generated.into_iter().sum();
    assert_eq!(sum_of_multiples(vec![4u64, 6], 50), total);
}
