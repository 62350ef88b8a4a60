use rust_ds_algo::kadane::{kadane, kadane_find_subarray};

#[test]
fn test_kadane() {
    assert_eq!(7, kadane(&vec![-2, -3, 4, -1, -2, 1, 5, -3]));
    assert_eq!(
        vec![4, -1, -2, 1, 5],
        kadane_find_subarray(&vec![-2, -3, 4, -1, -2, 1, 5, -3])
    )
}

#[test]
fn kadane_of_nothing_is_zero() {
    assert_eq!(kadane(&vec![]), 0);
    assert_eq!(kadane_find_subarray(&vec![]), Vec::<i32>::new());
}

#[test]
fn kadane_of_negatives_is_zero() {
    assert_eq!(kadane(&vec![-5, -1, -9]), 0);
    assert_eq!(kadane_find_subarray(&vec![-5, -1, -9]), Vec::<i32>::new());
}

#[test]
fn kadane_takes_the_whole_of_a_positive_array() {
    assert_eq!(kadane(&vec![1, 2, 3, 4]), 10);
    assert_eq!(kadane_find_subarray(&vec![1, 2, 3, 4]), vec![1, 2, 3, 4]);
}

#[test]
fn kadane_spans_a_dip() {
    assert_eq!(kadane(&vec![3, -2, 5, -20, 4]), 6);
    assert_eq!(kadane(&vec![i32::MAX, -1, 1]), i32::MAX as usize);
}

#[test]
fn collected_elements_join_every_run_that_set_a_record() {
    // 5 sets a record; the running sum falls below 0 at -10; 7 sets the next one
    assert_eq!(kadane_find_subarray(&vec![5, -10, 7]), vec![5, 7]);
    assert_eq!(kadane(&vec![5, -10, 7]), 7);
    // zeros behind a record wait in the buffer and are dropped at the end
    assert_eq!(kadane_find_subarray(&vec![2, 0, 0]), vec![2]);
}
