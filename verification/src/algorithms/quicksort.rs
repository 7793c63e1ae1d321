//! The in-place quicksort baseline, instrumented: a comparison-based
//! reference point for the counting-based family, sharing no primitive
//! with it.

use vstd::prelude::*;

use crate::placement::{
    lemma_multiset_bounds, lemma_multiset_middle_extract, lemma_swap_multiset,
};
use crate::utils::{
    baseline_counter_delta, lemma_sat_add_chain, sat_add, sat_add_u128, sorted,
    InstructionCounter,
};

verus! {

/// Exchanges the elements at two positions.
fn swap_elems(arr: &mut Vec<i64>, x: usize, y: usize)
    requires
        x < old(arr).len(),
        y < old(arr).len(),
    ensures
        final(arr)@ == old(arr)@.update(x as int, old(arr)@[y as int]).update(
            y as int,
            old(arr)@[x as int],
        ),
{
    let a = arr[x];
    let b = arr[y];
    arr.set(x, b);
    arr.set(y, a);
}

/// Lomuto partition of the window `[lo, hi)` around its first element:
/// returns the pivot's final position, with strictly smaller values
/// before it and no smaller values after it.
fn partition(arr: &mut Vec<i64>, lo: usize, hi: usize, ic: &mut InstructionCounter) -> (p: usize)
    requires
        lo < hi <= old(arr).len(),
    ensures
        lo <= p < hi,
        final(arr).len() == old(arr).len(),
        forall|t: int| lo <= t < p ==> final(arr)@[t] < final(arr)@[p as int],
        forall|t: int| p < t < hi ==> final(arr)@[t] >= final(arr)@[p as int],
        forall|t: int|
            0 <= t < old(arr).len() && !(lo <= t < hi) ==> final(arr)@[t] == old(arr)@[t],
        final(arr)@.to_multiset() == old(arr)@.to_multiset(),
        final(ic).comparison_count == sat_add(old(ic).comparison_count, hi - lo - 1),
        final(ic).array_access_count >= old(ic).array_access_count,
        final(ic).mod_count == old(ic).mod_count,
        final(ic).div_count == old(ic).div_count,
        final(ic).bitwise_count == old(ic).bitwise_count,
        final(ic).algorithm_error == old(ic).algorithm_error,
{
    let ghost arr0 = arr@;
    let ghost ic0 = *ic;
    ic.array_access_count = sat_add_u128(ic.array_access_count, 1);
    let pivot_value = arr[lo];
    let mut pivot_index = lo;
    let mut i = lo + 1;
    while i < hi
        invariant
            lo <= pivot_index < i <= hi,
            hi <= arr.len(),
            arr.len() == arr0.len(),
            arr@[lo as int] == pivot_value,
            forall|t: int| lo < t <= pivot_index ==> arr@[t] < pivot_value,
            forall|t: int| pivot_index < t < i ==> arr@[t] >= pivot_value,
            forall|t: int| 0 <= t < arr0.len() && !(lo <= t < hi) ==> arr@[t] == arr0[t],
            arr@.to_multiset() == arr0.to_multiset(),
            ic.comparison_count == sat_add(ic0.comparison_count, i - lo - 1),
            ic.array_access_count >= ic0.array_access_count,
            ic.mod_count == ic0.mod_count,
            ic.div_count == ic0.div_count,
            ic.bitwise_count == ic0.bitwise_count,
            ic.algorithm_error == ic0.algorithm_error,
        decreases hi - i,
    {
        ic.array_access_count = sat_add_u128(ic.array_access_count, 1);
        ic.comparison_count = sat_add_u128(ic.comparison_count, 1);
        proof {
            lemma_sat_add_chain(ic0.comparison_count, i - lo - 1, 1);
        }
        let ghost pre = arr@;
        if arr[i] < pivot_value {
            // Four accesses for the swap.
            ic.array_access_count = sat_add_u128(ic.array_access_count, 4);
            pivot_index = pivot_index + 1;
            swap_elems(arr, i, pivot_index);
            proof {
                lemma_swap_multiset(pre, i as int, pivot_index as int);
            }
        }
        i = i + 1;
    }
    ic.array_access_count = sat_add_u128(ic.array_access_count, 4);
    let ghost pre = arr@;
    swap_elems(arr, lo, pivot_index);
    proof {
        lemma_swap_multiset(pre, lo as int, pivot_index as int);
    }
    pivot_index
}

/// Sorts the window `[lo, hi)` in place by recursive partitioning.
pub(crate) fn recursive_quicksort(arr: &mut Vec<i64>, lo: usize, hi: usize, ic: &mut InstructionCounter)
    requires
        lo <= hi <= old(arr).len(),
    ensures
        final(arr).len() == old(arr).len(),
        forall|a: int, b: int| lo <= a <= b < hi ==> final(arr)@[a] <= final(arr)@[b],
        forall|t: int|
            0 <= t < old(arr).len() && !(lo <= t < hi) ==> final(arr)@[t] == old(arr)@[t],
        final(arr)@.to_multiset() == old(arr)@.to_multiset(),
        baseline_counter_delta(*old(ic), *final(ic)),
    decreases hi - lo,
{
    if hi - lo > 1 {
        let p = partition(arr, lo, hi, ic);
        let ghost s1 = arr@;
        let ghost pv = s1[p as int];
        recursive_quicksort(arr, lo, p, ic);
        let ghost s2 = arr@;
        recursive_quicksort(arr, p + 1, hi, ic);
        proof {
            let s3 = arr@;
            // The pivot itself and the left window were untouched by the
            // later calls; the recursions only rearrange values, so both
            // windows keep their bounds relative to the pivot.
            lemma_multiset_middle_extract(s1, s2, lo as int, p as int);
            lemma_multiset_bounds(
                s1.subrange(lo as int, p as int),
                s2.subrange(lo as int, p as int),
                i64::MIN as int,
                pv - 1,
            );
            lemma_multiset_middle_extract(s2, s3, p + 1, hi as int);
            lemma_multiset_bounds(
                s2.subrange(p + 1, hi as int),
                s3.subrange(p + 1, hi as int),
                pv as int,
                i64::MAX as int,
            );
            assert forall|a: int, b: int| lo <= a <= b < hi implies s3[a] <= s3[b] by {
                if a < p {
                    assert(s3[a] == s2[a]);
                    assert(s2.subrange(lo as int, p as int)[a - lo] == s2[a]);
                    assert(s3[a] <= pv - 1);
                }
                if b > p {
                    assert(s3.subrange(p + 1, hi as int)[b - p - 1] == s3[b]);
                    assert(s3[b] >= pv);
                }
                if a < p && b < p {
                    assert(s3[a] == s2[a] && s3[b] == s2[b]);
                }
                assert(s3[p as int] == pv);
            }
        }
    }
}

/// Quicksort entry point: sorts the whole array in place.
pub fn sort(arr: &mut Vec<i64>, ic: &mut InstructionCounter)
    ensures
        sorted(final(arr)@),
        final(arr)@.to_multiset() == old(arr)@.to_multiset(),
        final(arr).len() == old(arr).len(),
        baseline_counter_delta(*old(ic), *final(ic)),
{
    let n = arr.len();
    recursive_quicksort(arr, 0, n, ic);
}

} // verus!
