use qr_sort::algorithms;
use qr_sort::sorting;
use qr_sort::utils::{find_min_max, is_sorted, zeroed_counts, zeroed_slots, InstructionCounter};

#[test]
fn counting_sort_mixed_signs() {
    let mut arr: Vec<i64> = vec![5, -3, 0, 8, -3, 2];
    let mut ic = InstructionCounter::new();
    algorithms::countingsort::sort(&mut arr, &mut ic);
    assert_eq!(arr, vec![-3, -3, 0, 2, 5, 8]);
    assert!(!ic.algorithm_error);
}

#[test]
fn counting_sort_buffered_mixed_signs() {
    let mut arr: Vec<i64> = vec![5, -3, 0, 8, -3, 2];
    let mut aux = zeroed_slots(6);
    let mut counting = zeroed_counts(12);
    sorting::counting_sort(&mut arr, None, &mut aux, &mut counting);
    assert_eq!(arr, vec![-3, -3, 0, 2, 5, 8]);
}

#[test]
fn radix_sort_base_ten() {
    let mut arr: Vec<i64> = vec![170, 45, 75, 90, 802, 24, 2, 66];
    let mut ic = InstructionCounter::new();
    algorithms::radixsort::sort(&mut arr, 10, &mut ic);
    assert_eq!(arr, vec![2, 24, 45, 66, 75, 90, 170, 802]);
    assert!(!ic.algorithm_error);
}

#[test]
fn radix_sort_buffered_base_n() {
    let mut arr: Vec<i64> = vec![170, 45, 75, 90, 802, 24, 2, 66];
    let mut aux = zeroed_slots(8);
    let mut keys = zeroed_slots(8);
    let mut counting = zeroed_counts(8);
    sorting::radix_sort(&mut arr, &mut aux, &mut keys, &mut counting);
    assert_eq!(arr, vec![2, 24, 45, 66, 75, 90, 170, 802]);
}

#[test]
fn qr_sort_arithmetic_divisor_five() {
    let mut arr: Vec<i64> = vec![13, 7, 25, 1, 19];
    let mut ic = InstructionCounter::new();
    algorithms::qr_sort::sort(&mut arr, 5, false, false, &mut ic);
    assert_eq!(arr, vec![1, 7, 13, 19, 25]);
    assert!(!ic.algorithm_error);
}

#[test]
fn qr_sort_bitwise_power_of_two_divisor() {
    let mut arr: Vec<i64> = vec![16, 0, 31, 8];
    let mut ic = InstructionCounter::new();
    algorithms::qr_sort::sort(&mut arr, 16, true, true, &mut ic);
    assert_eq!(arr, vec![0, 8, 16, 31]);
    assert!(!ic.algorithm_error);
}

#[test]
fn qr_sort_bitwise_mismatch_sets_error_flag() {
    let mut arr: Vec<i64> = vec![16, 0, 31, 8];
    let mut ic = InstructionCounter::new();
    algorithms::qr_sort::sort(&mut arr, 10, true, true, &mut ic);
    assert!(ic.algorithm_error);
    assert_eq!(arr, vec![16, 0, 31, 8]);
}

#[test]
fn qr_sort_buffered_default_divisor() {
    let mut arr: Vec<i64> = vec![13, 7, 25, 1, 19];
    let mut aux = zeroed_slots(5);
    let mut keys = zeroed_slots(5);
    let mut counting = zeroed_counts(5);
    sorting::qr_sort(&mut arr, &mut aux, &mut keys, &mut counting);
    assert_eq!(arr, vec![1, 7, 13, 19, 25]);
}

#[test]
fn merge_sort_instrumented() {
    let mut arr: Vec<i64> = vec![9, 1, 8, 2, 7, 3, 6, 4, 5];
    let mut ic = InstructionCounter::new();
    algorithms::mergesort::sort(&mut arr, &mut ic);
    assert_eq!(arr, vec![1, 2, 3, 4, 5, 6, 7, 8, 9]);
}

#[test]
fn merge_sort_buffered() {
    let mut arr: Vec<i64> = vec![3, 1, 2, -5, 0];
    let mut aux = zeroed_slots(5);
    sorting::merge_sort(&mut arr, &mut aux);
    assert_eq!(arr, vec![-5, 0, 1, 2, 3]);
}

#[test]
fn merge_of_sorted_halves() {
    let mut arr: Vec<i64> = vec![1, 4, 7, 2, 3, 9];
    let mut aux = zeroed_slots(6);
    sorting::merge(&mut arr, &mut aux);
    assert_eq!(arr, vec![1, 2, 3, 4, 7, 9]);
}

#[test]
fn quicksort_instrumented() {
    let mut arr: Vec<i64> = vec![4, -1, 0, 4, 2, -7];
    let mut ic = InstructionCounter::new();
    algorithms::quicksort::sort(&mut arr, &mut ic);
    assert_eq!(arr, vec![-7, -1, 0, 2, 4, 4]);
}

#[test]
fn quicksort_plain() {
    let mut arr: Vec<i64> = vec![10, -10, 5, 5, 0];
    sorting::quicksort(&mut arr);
    assert_eq!(arr, vec![-10, 0, 5, 5, 10]);
}

#[test]
fn is_sorted_detects_order() {
    assert!(is_sorted(&vec![]));
    assert!(is_sorted(&vec![3]));
    assert!(is_sorted(&vec![1, 1, 2, 9]));
    assert!(!is_sorted(&vec![2, 1]));
    assert!(!is_sorted(&vec![1, 5, 4, 9]));
}

#[test]
fn find_min_max_scans_once() {
    assert_eq!(find_min_max(&vec![7]), (7, 7));
    assert_eq!(find_min_max(&vec![3, -2, 9, 0]), (-2, 9));
    assert_eq!(find_min_max(&vec![5, 5, 5]), (5, 5));
}
