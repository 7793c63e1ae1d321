use qr_sort::algorithms;
use qr_sort::arith::{isqrt_i64, pow2_log};
use qr_sort::sorting;
use qr_sort::utils::{is_sorted, zeroed_counts, zeroed_slots, InstructionCounter};

fn sorted_copy(arr: &Vec<i64>) -> Vec<i64> {
    let mut c = arr.clone();
    let mut ic = InstructionCounter::new();
    algorithms::quicksort::sort(&mut c, &mut ic);
    c
}

#[test]
fn all_algorithms_agree_on_one_input() {
    let input: Vec<i64> = vec![42, -17, 0, 42, 3, 900, -17, 8, 8, 1];
    let expected = sorted_copy(&input);

    let mut a = input.clone();
    let mut ic = InstructionCounter::new();
    algorithms::countingsort::sort(&mut a, &mut ic);
    assert_eq!(a, expected);

    let mut b = input.clone();
    let mut ic = InstructionCounter::new();
    algorithms::radixsort::sort(&mut b, 4, &mut ic);
    assert_eq!(b, expected);

    let mut c = input.clone();
    let mut ic = InstructionCounter::new();
    algorithms::qr_sort::sort(&mut c, 7, false, false, &mut ic);
    assert_eq!(c, expected);

    let mut d = input.clone();
    let mut ic = InstructionCounter::new();
    algorithms::mergesort::sort(&mut d, &mut ic);
    assert_eq!(d, expected);

    let mut e = input.clone();
    let mut aux = zeroed_slots(10);
    let mut keys = zeroed_slots(10);
    let mut counting = zeroed_counts(1000);
    sorting::qr_sort(&mut e, &mut aux, &mut keys, &mut counting);
    assert_eq!(e, expected);
}

#[test]
fn sorting_a_sorted_sequence_is_identity() {
    let sorted_input: Vec<i64> = vec![-9, -9, 0, 1, 4, 4, 4, 77];
    let mut a = sorted_input.clone();
    let mut ic = InstructionCounter::new();
    algorithms::countingsort::sort(&mut a, &mut ic);
    assert_eq!(a, sorted_input);

    let mut b = sorted_input.clone();
    let mut ic = InstructionCounter::new();
    algorithms::radixsort::sort(&mut b, 3, &mut ic);
    assert_eq!(b, sorted_input);

    let mut c = sorted_input.clone();
    let mut ic = InstructionCounter::new();
    algorithms::qr_sort::sort(&mut c, 4, false, false, &mut ic);
    assert_eq!(c, sorted_input);
}

#[test]
fn primitive_is_stable_on_equal_keys() {
    // Distinct values, duplicated keys: equal keys must keep input order.
    let mut arr: Vec<i64> = vec![10, 20, 30, 40];
    let mut aux = zeroed_slots(4);
    let mut counting = zeroed_counts(3);
    let keys: Vec<usize> = vec![1, 0, 1, 2];
    let mut ic = InstructionCounter::new();
    algorithms::countingsort::counting_key_sort(
        &mut arr,
        &mut aux,
        &mut counting,
        3,
        &keys,
        true,
        &mut ic,
    );
    assert_eq!(arr, vec![20, 10, 30, 40]);
    assert_eq!(aux, vec![20, 10, 30, 40]);
    // After the scatter the table holds each bucket's start position.
    assert_eq!(counting, vec![0, 1, 3]);
}

#[test]
fn primitive_without_copy_back_leaves_input() {
    let mut arr: Vec<i64> = vec![7, 5, 6];
    let mut aux = zeroed_slots(3);
    let mut counting = zeroed_counts(3);
    let keys: Vec<usize> = vec![2, 0, 1];
    let mut ic = InstructionCounter::new();
    algorithms::countingsort::counting_key_sort(
        &mut arr,
        &mut aux,
        &mut counting,
        3,
        &keys,
        false,
        &mut ic,
    );
    assert_eq!(arr, vec![7, 5, 6]);
    assert_eq!(aux, vec![5, 6, 7]);
}

#[test]
fn stable_sort_by_external_keys() {
    // Sorting by caller keys, not by the values themselves.
    let mut arr: Vec<i64> = vec![100, 200, 300, 400, 500];
    let keys: Vec<i64> = vec![3, 1, 3, 1, 2];
    let mut aux = zeroed_slots(5);
    let mut counting = zeroed_counts(3);
    sorting::counting_sort(&mut arr, Some(&keys), &mut aux, &mut counting);
    assert_eq!(arr, vec![200, 400, 500, 100, 300]);
}

#[test]
fn bitwise_and_arithmetic_modes_agree() {
    let input: Vec<i64> = vec![97, 3, 64, 128, 5, 31, 32, 0, 255, 7];
    let mut a = input.clone();
    let mut ic_a = InstructionCounter::new();
    algorithms::qr_sort::sort(&mut a, 32, false, false, &mut ic_a);
    let mut b = input.clone();
    let mut ic_b = InstructionCounter::new();
    algorithms::qr_sort::sort(&mut b, 32, false, true, &mut ic_b);
    assert_eq!(a, b);
    assert!(!ic_a.algorithm_error);
    assert!(!ic_b.algorithm_error);
    // Same work, different instrumented operation mix.
    assert!(ic_a.mod_count > 0 && ic_a.bitwise_count == 0);
    assert!(ic_b.mod_count == 0 && ic_b.bitwise_count > 0);
}

#[test]
fn degenerate_inputs_short_circuit() {
    let mut uniform: Vec<i64> = vec![4, 4, 4, 4];
    let mut ic = InstructionCounter::new();
    algorithms::countingsort::sort(&mut uniform, &mut ic);
    assert_eq!(uniform, vec![4, 4, 4, 4]);

    let mut single: Vec<i64> = vec![-9];
    let mut ic = InstructionCounter::new();
    algorithms::radixsort::sort(&mut single, 2, &mut ic);
    assert_eq!(single, vec![-9]);

    let mut empty: Vec<i64> = Vec::new();
    let mut aux: Vec<i64> = Vec::new();
    let mut keys: Vec<i64> = Vec::new();
    let mut counting = zeroed_counts(4);
    sorting::radix_sort(&mut empty, &mut aux, &mut keys, &mut counting);
    assert_eq!(empty, Vec::<i64>::new());
    sorting::qr_sort(&mut empty, &mut aux, &mut keys, &mut counting);
    assert_eq!(empty, Vec::<i64>::new());
    sorting::counting_sort(&mut empty, None, &mut aux, &mut counting);
    assert_eq!(empty, Vec::<i64>::new());
}

#[test]
fn buffers_reused_across_calls() {
    let mut aux = zeroed_slots(6);
    let mut keys = zeroed_slots(6);
    let mut counting = zeroed_counts(64);
    let mut first: Vec<i64> = vec![9, 2, 5, 2, 9, 1];
    sorting::qr_sort(&mut first, &mut aux, &mut keys, &mut counting);
    assert_eq!(first, vec![1, 2, 2, 5, 9, 9]);
    // Re-zero the counting table, as the buffer contract demands.
    for slot in counting.iter_mut() {
        *slot = 0;
    }
    let mut second: Vec<i64> = vec![30, -1, 4, 17, 30, 2];
    sorting::qr_sort(&mut second, &mut aux, &mut keys, &mut counting);
    assert_eq!(second, vec![-1, 2, 4, 17, 30, 30]);
}

#[test]
fn large_shuffled_input_sorts() {
    // A deterministic scramble of 0..=400 with duplicates.
    let mut arr: Vec<i64> = Vec::new();
    let mut x: i64 = 17;
    for _ in 0..400 {
        x = (x * 31 + 7) % 401;
        arr.push(x);
    }
    let expected = sorted_copy(&arr);

    let mut a = arr.clone();
    let mut ic = InstructionCounter::new();
    algorithms::radixsort::sort(&mut a, 16, &mut ic);
    assert_eq!(a, expected);
    assert!(is_sorted(&a));

    let mut b = arr.clone();
    let mut ic = InstructionCounter::new();
    algorithms::qr_sort::sort(&mut b, 21, false, false, &mut ic);
    assert_eq!(b, expected);
}

#[test]
fn extreme_values_with_small_range() {
    let mut high: Vec<i64> = vec![i64::MAX, i64::MAX - 5, i64::MAX - 2, i64::MAX];
    let mut ic = InstructionCounter::new();
    algorithms::countingsort::sort(&mut high, &mut ic);
    assert_eq!(high, vec![i64::MAX - 5, i64::MAX - 2, i64::MAX, i64::MAX]);

    let mut low: Vec<i64> = vec![i64::MIN + 3, i64::MIN, i64::MIN + 9];
    let mut ic = InstructionCounter::new();
    algorithms::qr_sort::sort(&mut low, 2, false, true, &mut ic);
    assert!(!ic.algorithm_error);
    assert_eq!(low, vec![i64::MIN, i64::MIN + 3, i64::MIN + 9]);
}

#[test]
fn isqrt_brackets_the_root() {
    assert_eq!(isqrt_i64(0), 0);
    assert_eq!(isqrt_i64(1), 1);
    assert_eq!(isqrt_i64(24), 4);
    assert_eq!(isqrt_i64(25), 5);
    assert_eq!(isqrt_i64(i64::MAX), 3037000499);
}

#[test]
fn pow2_log_finds_exponents() {
    assert_eq!(pow2_log(1), Some(0));
    assert_eq!(pow2_log(2), Some(1));
    assert_eq!(pow2_log(16), Some(4));
    assert_eq!(pow2_log(10), None);
    assert_eq!(pow2_log(0), None);
}
