use qr_sort::algorithms;
use qr_sort::utils::InstructionCounter;

#[test]
fn counting_sort_counts_exactly() {
    // n = 6, range = 11, so the table has k = 12 buckets: the scan costs
    // n accesses, key derivation 2n, and the primitive 7n + 2k - 2 plus
    // 2n for the copy back.
    let mut arr: Vec<i64> = vec![5, -3, 0, 8, -3, 2];
    let mut ic = InstructionCounter::new();
    algorithms::countingsort::sort(&mut arr, &mut ic);
    assert_eq!(ic.comparison_count, 10);
    assert_eq!(ic.array_access_count, 94);
    assert_eq!(ic.mod_count, 0);
    assert_eq!(ic.div_count, 0);
    assert_eq!(ic.bitwise_count, 0);
    assert!(!ic.algorithm_error);
}

#[test]
fn counting_sort_uniform_input_counts_only_the_scan() {
    let mut arr: Vec<i64> = vec![4, 4, 4];
    let mut ic = InstructionCounter::new();
    algorithms::countingsort::sort(&mut arr, &mut ic);
    assert_eq!(ic.comparison_count, 4);
    assert_eq!(ic.array_access_count, 3);
    assert_eq!(ic.mod_count, 0);
}

#[test]
fn radix_sort_pass_count_matches_digit_count() {
    // range = 800 needs three base-10 digits, so three passes: one
    // modulo per element per pass, and a division per element between
    // passes plus one per pass for the next-digit test.
    let mut arr: Vec<i64> = vec![170, 45, 75, 90, 802, 24, 2, 66];
    let mut ic = InstructionCounter::new();
    algorithms::radixsort::sort(&mut arr, 10, &mut ic);
    assert_eq!(ic.mod_count, 8 * 3);
    assert_eq!(ic.div_count, 3 + 2 * 8);
    assert_eq!(ic.comparison_count, 14);
    assert_eq!(ic.array_access_count, 314);
    assert_eq!(ic.bitwise_count, 0);
}

#[test]
fn radix_sort_single_pass_when_radix_covers_range() {
    // range = 7 < radix = 10: one pass, no inter-pass work.
    let mut arr: Vec<i64> = vec![7, 3, 0, 5];
    let mut ic = InstructionCounter::new();
    algorithms::radixsort::sort(&mut arr, 10, &mut ic);
    assert_eq!(arr, vec![0, 3, 5, 7]);
    assert_eq!(ic.mod_count, 4);
    assert_eq!(ic.div_count, 1);
}

#[test]
fn qr_sort_arithmetic_counts_exactly() {
    // n = 5, range = 24, divisor 5: max quotient 5, two passes, table
    // length 5.
    let mut arr: Vec<i64> = vec![13, 7, 25, 1, 19];
    let mut ic = InstructionCounter::new();
    algorithms::qr_sort::sort(&mut arr, 5, false, false, &mut ic);
    assert_eq!(ic.comparison_count, 9);
    assert_eq!(ic.mod_count, 5);
    assert_eq!(ic.div_count, 6);
    assert_eq!(ic.bitwise_count, 0);
    assert_eq!(ic.array_access_count, 126);
}

#[test]
fn qr_sort_bitwise_counts_exactly() {
    // n = 4, range = 31, divisor 16: max quotient 2, two passes, table
    // length 17; bitwise mode swaps modulo/division for mask/shift.
    let mut arr: Vec<i64> = vec![16, 0, 31, 8];
    let mut ic = InstructionCounter::new();
    algorithms::qr_sort::sort(&mut arr, 16, true, true, &mut ic);
    assert_eq!(ic.comparison_count, 7);
    assert_eq!(ic.mod_count, 0);
    assert_eq!(ic.div_count, 1);
    assert_eq!(ic.bitwise_count, 8);
    assert_eq!(ic.array_access_count, 133);
}

#[test]
fn qr_sort_error_path_counts_only_the_scan() {
    let mut arr: Vec<i64> = vec![16, 0, 31, 8];
    let mut ic = InstructionCounter::new();
    algorithms::qr_sort::sort(&mut arr, 10, true, true, &mut ic);
    assert!(ic.algorithm_error);
    assert_eq!(ic.comparison_count, 7);
    assert_eq!(ic.array_access_count, 4);
    assert_eq!(ic.div_count, 1);
    assert_eq!(ic.mod_count, 0);
    assert_eq!(ic.bitwise_count, 0);
}

#[test]
fn counters_accumulate_across_calls() {
    // The counter is a plain value: threading one instance through two
    // calls accumulates both tallies.
    let mut ic = InstructionCounter::new();
    let mut first: Vec<i64> = vec![3, 1, 2];
    algorithms::countingsort::sort(&mut first, &mut ic);
    let after_first = ic.array_access_count;
    let mut second: Vec<i64> = vec![9, 4];
    algorithms::countingsort::sort(&mut second, &mut ic);
    assert!(ic.array_access_count > after_first);
}

#[test]
fn baselines_leave_arithmetic_tallies_alone() {
    let mut arr: Vec<i64> = vec![5, 2, 9, 1];
    let mut ic = InstructionCounter::new();
    algorithms::quicksort::sort(&mut arr, &mut ic);
    assert_eq!(ic.mod_count, 0);
    assert_eq!(ic.div_count, 0);
    assert_eq!(ic.bitwise_count, 0);
    assert!(ic.comparison_count > 0);
    assert!(!ic.algorithm_error);

    let mut arr2: Vec<i64> = vec![5, 2, 9, 1];
    let mut ic2 = InstructionCounter::new();
    algorithms::mergesort::sort(&mut arr2, &mut ic2);
    assert_eq!(ic2.mod_count, 0);
    // Four accesses per element per level: 16 at the leaves' merges
    // (2 + 2 elements), 16 at the root.
    assert_eq!(ic2.array_access_count, 32);
}
