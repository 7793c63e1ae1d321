//! The merge sort baseline, instrumented: the second comparison-based
//! reference point, built on a range merge into an auxiliary buffer.

use vstd::multiset::Multiset;
use vstd::prelude::*;

use crate::placement::lemma_multiset_middle_replace;
use crate::utils::{
    lemma_sat_add_chain, sat_add, sat_add_u128, sorted, zeroed_slots, InstructionCounter,
};

verus! {

/// Array accesses a full merge sort of the window `[lo, hi)` performs:
/// four per element at every level of the recursion — two to merge into
/// the buffer, two to copy back.
pub open spec fn merge_sort_access_delta(lo: int, hi: int) -> int
    decreases hi - lo,
{
    if hi - lo <= 1 {
        0
    } else {
        let mid = lo + (hi - lo) / 2;
        merge_sort_access_delta(lo, mid) + merge_sort_access_delta(mid, hi) + 4 * (hi - lo)
    }
}

/// The access tally of a merge sort is never negative.
proof fn lemma_merge_sort_access_delta_nonneg(lo: int, hi: int)
    ensures
        merge_sort_access_delta(lo, hi) >= 0,
    decreases hi - lo,
{
    if hi - lo > 1 {
        let mid = lo + (hi - lo) / 2;
        lemma_merge_sort_access_delta_nonneg(lo, mid);
        lemma_merge_sort_access_delta_nonneg(mid, hi);
    }
}

/// Inserting into either side of a multiset union inserts into the
/// union.
proof fn lemma_add_insert_swap(a: Multiset<i64>, b: Multiset<i64>, v: i64)
    ensures
        a.insert(v).add(b) == a.add(b).insert(v),
        a.add(b.insert(v)) == a.add(b).insert(v),
{
    broadcast use vstd::multiset::group_multiset_axioms;

    assert(a.insert(v).add(b) =~= a.add(b).insert(v));
    assert(a.add(b.insert(v)) =~= a.add(b).insert(v));
}

/// Merges the sorted halves `[lo, mid)` and `[mid, hi)` of `arr` through
/// `aux_arr`, stably: ties take the left element first.
pub(crate) fn merge(
    arr: &mut Vec<i64>,
    aux_arr: &mut Vec<i64>,
    lo: usize,
    mid: usize,
    hi: usize,
    ic: &mut InstructionCounter,
)
    requires
        lo <= mid <= hi <= old(arr).len(),
        old(aux_arr).len() == old(arr).len(),
        forall|a: int, b: int| lo <= a <= b < mid ==> old(arr)@[a] <= old(arr)@[b],
        forall|a: int, b: int| mid <= a <= b < hi ==> old(arr)@[a] <= old(arr)@[b],
    ensures
        final(arr).len() == old(arr).len(),
        final(aux_arr).len() == old(aux_arr).len(),
        forall|a: int, b: int| lo <= a <= b < hi ==> final(arr)@[a] <= final(arr)@[b],
        forall|t: int|
            0 <= t < old(arr).len() && !(lo <= t < hi) ==> final(arr)@[t] == old(arr)@[t],
        final(arr)@.to_multiset() == old(arr)@.to_multiset(),
        final(ic).array_access_count == sat_add(old(ic).array_access_count, 4 * (hi - lo)),
        final(ic).comparison_count >= old(ic).comparison_count,
        final(ic).mod_count == old(ic).mod_count,
        final(ic).div_count == old(ic).div_count,
        final(ic).bitwise_count == old(ic).bitwise_count,
        final(ic).algorithm_error == old(ic).algorithm_error,
{
    broadcast use vstd::seq_lib::group_to_multiset_ensures;
    broadcast use vstd::multiset::group_multiset_axioms;

    let ghost arr0 = arr@;
    let ghost ic0 = *ic;
    ic.array_access_count = sat_add_u128(ic.array_access_count, 4 * ((hi - lo) as u128));

    let mut i = lo;
    let mut j = mid;
    let mut k = lo;
    while i < mid && j < hi
        invariant
            lo <= i <= mid <= j <= hi <= arr.len(),
            arr.len() == arr0.len(),
            arr@ == arr0,
            aux_arr.len() == arr0.len(),
            k + mid == i + j,
            lo <= k,
            forall|a: int, b: int| lo <= a <= b < mid ==> arr0[a] <= arr0[b],
            forall|a: int, b: int| mid <= a <= b < hi ==> arr0[a] <= arr0[b],
            forall|a: int, b: int| lo <= a <= b < k ==> aux_arr@[a] <= aux_arr@[b],
            forall|t: int| lo <= t < k && i < mid ==> aux_arr@[t] <= arr0[i as int],
            forall|t: int| lo <= t < k && j < hi ==> aux_arr@[t] <= arr0[j as int],
            aux_arr@.subrange(lo as int, k as int).to_multiset() == arr0.subrange(
                lo as int,
                i as int,
            ).to_multiset().add(arr0.subrange(mid as int, j as int).to_multiset()),
            ic.comparison_count >= ic0.comparison_count,
            ic.array_access_count == sat_add(ic0.array_access_count, 4 * (hi - lo)),
            ic.mod_count == ic0.mod_count,
            ic.div_count == ic0.div_count,
            ic.bitwise_count == ic0.bitwise_count,
            ic.algorithm_error == ic0.algorithm_error,
        decreases hi - k,
    {
        ic.comparison_count = sat_add_u128(ic.comparison_count, 1);
        let take_left = arr[i] <= arr[j];
        let v = if take_left {
            arr[i]
        } else {
            arr[j]
        };
        let ghost aux_pre = aux_arr@;
        let ghost i0 = i as int;
        let ghost j0 = j as int;
        let ghost k0 = k as int;
        aux_arr.set(k, v);
        if take_left {
            i = i + 1;
        } else {
            j = j + 1;
        }
        k = k + 1;
        proof {
            let a_old = arr0.subrange(lo as int, i0).to_multiset();
            let b_old = arr0.subrange(mid as int, j0).to_multiset();
            vstd::seq_lib::to_multiset_build(aux_pre.subrange(lo as int, k0), v);
            vstd::seq_lib::to_multiset_build(arr0.subrange(lo as int, i0), v);
            vstd::seq_lib::to_multiset_build(arr0.subrange(mid as int, j0), v);
            assert(aux_arr@.subrange(lo as int, k as int) =~= aux_pre.subrange(
                lo as int,
                k0,
            ).push(v));
            assert(aux_arr@.subrange(lo as int, k as int).to_multiset() == aux_pre.subrange(
                lo as int,
                k0,
            ).to_multiset().insert(v));
            lemma_add_insert_swap(a_old, b_old, v);
            if take_left {
                assert(arr0.subrange(lo as int, i as int) =~= arr0.subrange(lo as int, i0).push(
                    v,
                ));
                assert(arr0.subrange(lo as int, i as int).to_multiset() == a_old.insert(v));
            } else {
                assert(arr0.subrange(mid as int, j as int) =~= arr0.subrange(mid as int, j0).push(
                    v,
                ));
                assert(arr0.subrange(mid as int, j as int).to_multiset() == b_old.insert(v));
            }
        }
    }

    // Drain whichever half still has elements.
    while i < mid
        invariant
            lo <= i <= mid <= j <= hi <= arr.len(),
            j == hi || i == mid,
            arr.len() == arr0.len(),
            arr@ == arr0,
            aux_arr.len() == arr0.len(),
            k + mid == i + j,
            lo <= k,
            forall|a: int, b: int| lo <= a <= b < mid ==> arr0[a] <= arr0[b],
            forall|a: int, b: int| lo <= a <= b < k ==> aux_arr@[a] <= aux_arr@[b],
            forall|t: int| lo <= t < k && i < mid ==> aux_arr@[t] <= arr0[i as int],
            forall|t: int| lo <= t < k && j < hi ==> aux_arr@[t] <= arr0[j as int],
            aux_arr@.subrange(lo as int, k as int).to_multiset() == arr0.subrange(
                lo as int,
                i as int,
            ).to_multiset().add(arr0.subrange(mid as int, j as int).to_multiset()),
        decreases mid - i,
    {
        let v = arr[i];
        let ghost aux_pre = aux_arr@;
        let ghost i0 = i as int;
        let ghost k0 = k as int;
        aux_arr.set(k, v);
        i = i + 1;
        k = k + 1;
        proof {
            let a_old = arr0.subrange(lo as int, i0).to_multiset();
            let b_old = arr0.subrange(mid as int, j as int).to_multiset();
            vstd::seq_lib::to_multiset_build(aux_pre.subrange(lo as int, k0), v);
            vstd::seq_lib::to_multiset_build(arr0.subrange(lo as int, i0), v);
            assert(aux_arr@.subrange(lo as int, k as int) =~= aux_pre.subrange(
                lo as int,
                k0,
            ).push(v));
            assert(aux_arr@.subrange(lo as int, k as int).to_multiset() == aux_pre.subrange(
                lo as int,
                k0,
            ).to_multiset().insert(v));
            lemma_add_insert_swap(a_old, b_old, v);
            assert(arr0.subrange(lo as int, i as int) =~= arr0.subrange(lo as int, i0).push(v));
            assert(arr0.subrange(lo as int, i as int).to_multiset() == a_old.insert(v));
        }
    }
    while j < hi
        invariant
            lo <= i <= mid <= j <= hi <= arr.len(),
            i == mid,
            arr.len() == arr0.len(),
            arr@ == arr0,
            aux_arr.len() == arr0.len(),
            k + mid == i + j,
            lo <= k,
            forall|a: int, b: int| mid <= a <= b < hi ==> arr0[a] <= arr0[b],
            forall|a: int, b: int| lo <= a <= b < k ==> aux_arr@[a] <= aux_arr@[b],
            forall|t: int| lo <= t < k && j < hi ==> aux_arr@[t] <= arr0[j as int],
            aux_arr@.subrange(lo as int, k as int).to_multiset() == arr0.subrange(
                lo as int,
                i as int,
            ).to_multiset().add(arr0.subrange(mid as int, j as int).to_multiset()),
        decreases hi - j,
    {
        let v = arr[j];
        let ghost aux_pre = aux_arr@;
        let ghost j0 = j as int;
        let ghost k0 = k as int;
        aux_arr.set(k, v);
        j = j + 1;
        k = k + 1;
        proof {
            let a_old = arr0.subrange(lo as int, i as int).to_multiset();
            let b_old = arr0.subrange(mid as int, j0).to_multiset();
            vstd::seq_lib::to_multiset_build(aux_pre.subrange(lo as int, k0), v);
            vstd::seq_lib::to_multiset_build(arr0.subrange(mid as int, j0), v);
            assert(aux_arr@.subrange(lo as int, k as int) =~= aux_pre.subrange(
                lo as int,
                k0,
            ).push(v));
            assert(aux_arr@.subrange(lo as int, k as int).to_multiset() == aux_pre.subrange(
                lo as int,
                k0,
            ).to_multiset().insert(v));
            lemma_add_insert_swap(a_old, b_old, v);
            assert(arr0.subrange(mid as int, j as int) =~= arr0.subrange(mid as int, j0).push(v));
            assert(arr0.subrange(mid as int, j as int).to_multiset() == b_old.insert(v));
        }
    }

    // Copy the merged window back.
    let ghost auxm = aux_arr@;
    let mut t = lo;
    while t < hi
        invariant
            lo <= t <= hi <= arr.len(),
            arr.len() == arr0.len(),
            aux_arr@ == auxm,
            aux_arr.len() == arr0.len(),
            forall|u: int| 0 <= u < arr0.len() && !(lo <= u < t) ==> arr@[u] == arr0[u],
            forall|u: int| lo <= u < t ==> arr@[u] == auxm[u],
        decreases hi - t,
    {
        let v = aux_arr[t];
        arr.set(t, v);
        t = t + 1;
    }

    proof {
        assert(k == hi);
        assert(arr0.subrange(lo as int, hi as int) =~= arr0.subrange(lo as int, mid as int)
            + arr0.subrange(mid as int, hi as int));
        vstd::seq_lib::lemma_multiset_commutative(
            arr0.subrange(lo as int, mid as int),
            arr0.subrange(mid as int, hi as int),
        );
        assert(arr@.subrange(lo as int, hi as int) =~= auxm.subrange(lo as int, hi as int));
        lemma_multiset_middle_replace(arr0, arr@, lo as int, hi as int);
        assert forall|a: int, b: int| lo <= a <= b < hi implies arr@[a] <= arr@[b] by {
            assert(arr@[a] == auxm[a]);
            assert(arr@[b] == auxm[b]);
        }
    }
}

/// Sorts the window `[lo, hi)` in place by splitting at the midpoint,
/// sorting both halves, and merging them.
pub(crate) fn merge_sort_recursive(
    arr: &mut Vec<i64>,
    aux_arr: &mut Vec<i64>,
    lo: usize,
    hi: usize,
    ic: &mut InstructionCounter,
)
    requires
        lo <= hi <= old(arr).len(),
        old(aux_arr).len() == old(arr).len(),
    ensures
        final(arr).len() == old(arr).len(),
        final(aux_arr).len() == old(aux_arr).len(),
        forall|a: int, b: int| lo <= a <= b < hi ==> final(arr)@[a] <= final(arr)@[b],
        forall|t: int|
            0 <= t < old(arr).len() && !(lo <= t < hi) ==> final(arr)@[t] == old(arr)@[t],
        final(arr)@.to_multiset() == old(arr)@.to_multiset(),
        final(ic).array_access_count == sat_add(
            old(ic).array_access_count,
            merge_sort_access_delta(lo as int, hi as int),
        ),
        final(ic).comparison_count >= old(ic).comparison_count,
        final(ic).mod_count == old(ic).mod_count,
        final(ic).div_count == old(ic).div_count,
        final(ic).bitwise_count == old(ic).bitwise_count,
        final(ic).algorithm_error == old(ic).algorithm_error,
    decreases hi - lo,
{
    if hi - lo > 1 {
        let ghost ic0 = *ic;
        let mid = lo + (hi - lo) / 2;
        merge_sort_recursive(arr, aux_arr, lo, mid, ic);
        merge_sort_recursive(arr, aux_arr, mid, hi, ic);
        merge(arr, aux_arr, lo, mid, hi, ic);
        proof {
            lemma_merge_sort_access_delta_nonneg(lo as int, mid as int);
            lemma_merge_sort_access_delta_nonneg(mid as int, hi as int);
            lemma_sat_add_chain(
                ic0.array_access_count,
                merge_sort_access_delta(lo as int, mid as int),
                merge_sort_access_delta(mid as int, hi as int),
            );
            lemma_sat_add_chain(
                ic0.array_access_count,
                merge_sort_access_delta(lo as int, mid as int) + merge_sort_access_delta(
                    mid as int,
                    hi as int,
                ),
                4 * (hi - lo),
            );
        }
    }
}

/// Merge sort entry point: sorts the whole array in place through an
/// internally allocated buffer.
pub fn sort(arr: &mut Vec<i64>, ic: &mut InstructionCounter)
    ensures
        sorted(final(arr)@),
        final(arr)@.to_multiset() == old(arr)@.to_multiset(),
        final(arr).len() == old(arr).len(),
        final(ic).array_access_count == sat_add(
            old(ic).array_access_count,
            merge_sort_access_delta(0, old(arr).len() as int),
        ),
        final(ic).comparison_count >= old(ic).comparison_count,
        final(ic).mod_count == old(ic).mod_count,
        final(ic).div_count == old(ic).div_count,
        final(ic).bitwise_count == old(ic).bitwise_count,
        final(ic).algorithm_error == old(ic).algorithm_error,
{
    let n = arr.len();
    let mut aux_arr = zeroed_slots(n);
    merge_sort_recursive(arr, &mut aux_arr, 0, n, ic);
}

} // verus!
