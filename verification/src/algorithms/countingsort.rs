//! The shared primitive of the whole family: a stable, bucket-based
//! counting key sort over caller-supplied keys, and the counting sort that
//! derives its keys from the values themselves.

use vstd::prelude::*;

use crate::placement::{
    cnt_eq, cnt_le, keys_int, lemma_bijection_multiset, lemma_cnt_bounds, lemma_cnt_le_none,
    lemma_cnt_split, lemma_place_bounds, lemma_place_injective, lemma_placement_sorted_by_keys,
    place, valid_keys,
};
use crate::utils::{
    find_min_max, lemma_sat_add_chain, sat_add, sat_add_u128, seq_max, seq_min, sorted,
    zeroed_counts, zeroed_slots, InstructionCounter,
};

verus! {

/// Array accesses one primitive call performs: two per element in the
/// frequency pass, two per visited slot in the cumulative pass, five per
/// element in the scatter pass, and two per element for the optional copy
/// back.
pub open spec fn cks_access_delta(n: int, k: int, copy: bool) -> int {
    7 * n + (if k >= 1 {
        2 * k - 2
    } else {
        0
    }) + (if copy {
        2 * n
    } else {
        0
    })
}

/// Sorts `arr` in place with one counting-key-sort pass, using each
/// value's offset from the sequence minimum as its key.  A uniform
/// sequence (minimum equals maximum) is already sorted and short-circuits
/// after the range scan.
pub fn sort(arr: &mut Vec<i64>, ic: &mut InstructionCounter)
    requires
        old(arr).len() >= 1,
        forall|i: int, j: int|
            0 <= i < old(arr).len() && 0 <= j < old(arr).len() ==> #[trigger] old(arr)@[i]
                - #[trigger] old(arr)@[j] < usize::MAX,
        forall|i: int, j: int|
            0 <= i < old(arr).len() && 0 <= j < old(arr).len() ==> #[trigger] old(arr)@[i]
                - #[trigger] old(arr)@[j] < i64::MAX,
    ensures
        sorted(final(arr)@),
        final(arr)@.to_multiset() == old(arr)@.to_multiset(),
        final(arr).len() == old(arr).len(),
        final(ic).comparison_count == sat_add(
            old(ic).comparison_count,
            2 * (old(arr).len() - 1),
        ),
        final(ic).array_access_count == sat_add(
            old(ic).array_access_count,
            old(arr).len() + if seq_min(old(arr)@) == seq_max(old(arr)@) {
                0int
            } else {
                2 * old(arr).len() + cks_access_delta(
                    old(arr).len() as int,
                    seq_max(old(arr)@) - seq_min(old(arr)@) + 1,
                    true,
                )
            },
        ),
        final(ic).mod_count == old(ic).mod_count,
        final(ic).div_count == old(ic).div_count,
        final(ic).bitwise_count == old(ic).bitwise_count,
        final(ic).algorithm_error == old(ic).algorithm_error,
{
    let n = arr.len();
    let ghost arr0 = arr@;
    let (min_v, max_v) = find_min_max(arr);
    ic.comparison_count = sat_add_u128(ic.comparison_count, 2 * ((n - 1) as u128));
    ic.array_access_count = sat_add_u128(ic.array_access_count, n as u128);

    if min_v == max_v {
        // Every value equals the minimum: the sequence is already sorted.
        return ;
    }
    // Key derivation: one read of the value, one write of the key.
    ic.array_access_count = sat_add_u128(ic.array_access_count, 2 * (n as u128));

    proof {
        let wi = choose|i: int| 0 <= i < arr0.len() && arr0[i] == max_v;
        let wj = choose|j: int| 0 <= j < arr0.len() && arr0[j] == min_v;
        assert(arr0[wi] - arr0[wj] < i64::MAX);
        assert(arr0[wi] - arr0[wj] < usize::MAX);
    }
    let range = max_v - min_v;
    let k = (range as usize) + 1;
    let mut keys: Vec<usize> = Vec::new();
    let mut idx: usize = 0;
    while idx < n
        invariant
            idx <= n,
            arr@ == arr0,
            arr.len() == n,
            keys.len() == idx,
            min_v == seq_min(arr0),
            max_v == seq_max(arr0),
            k == seq_max(arr0) - seq_min(arr0) + 1,
            max_v - min_v < i64::MAX,
            forall|i: int| 0 <= i < arr0.len() ==> min_v <= #[trigger] arr0[i] <= max_v,
            forall|t: int| 0 <= t < idx ==> #[trigger] keys@[t] as int == arr0[t] - min_v,
        decreases n - idx,
    {
        let v = arr[idx];
        keys.push((v - min_v) as usize);
        idx = idx + 1;
    }

    let mut aux_arr = zeroed_slots(n);
    let mut counting_arr = zeroed_counts(k);
    counting_key_sort(arr, &mut aux_arr, &mut counting_arr, k, &keys, true, ic);

    proof {
        let ki = keys_int(keys@);
        assert forall|i: int| 0 <= i < n implies #[trigger] ki[i] == arr0[i] - min_v as int by {
            assert(keys@[i] as int == arr0[i] - min_v);
        }
        lemma_placement_sorted_by_keys(
            arr0,
            arr@,
            ki,
            k as int,
            (|v: i64| v - min_v as int),
        );
        lemma_sat_add_chain(old(ic).array_access_count, n as int, 2 * n as int);
        lemma_sat_add_chain(
            old(ic).array_access_count,
            3 * n as int,
            cks_access_delta(n as int, k as int, true),
        );
    }
}

/// Stably places the elements of `arr` into `aux_arr` according to the
/// parallel `keys`, whose values must lie in `[0, k)`.  `counting_arr`
/// must hold zeros on `[0, k)`; the slots past `k` are never touched.
/// When `copy_aux_to_arr` is set the placed result is copied back into
/// `arr`, otherwise `arr` is left as it was (the ping-pong optimisation).
///
/// The output is pinned down exactly: the element at input position `i`
/// lands in slot `place(keys, i)` — all elements with a smaller key first,
/// then the earlier occurrences of the same key, so the sort is stable.
pub fn counting_key_sort(
    arr: &mut Vec<i64>,
    aux_arr: &mut Vec<i64>,
    counting_arr: &mut Vec<usize>,
    k: usize,
    keys: &Vec<usize>,
    copy_aux_to_arr: bool,
    ic: &mut InstructionCounter,
)
    requires
        old(arr).len() == keys.len(),
        old(aux_arr).len() == keys.len(),
        k <= old(counting_arr).len(),
        forall|i: int| 0 <= i < keys.len() ==> (#[trigger] keys@[i]) < k,
        forall|b: int| 0 <= b < k ==> old(counting_arr)@[b] == 0,
    ensures
        final(arr).len() == old(arr).len(),
        final(aux_arr).len() == old(aux_arr).len(),
        final(counting_arr).len() == old(counting_arr).len(),
        forall|i: int|
            0 <= i < keys.len() ==> final(aux_arr)@[place(keys_int(keys@), i)] == old(arr)@[i],
        final(aux_arr)@.to_multiset() == old(arr)@.to_multiset(),
        copy_aux_to_arr ==> final(arr)@ == final(aux_arr)@,
        !copy_aux_to_arr ==> final(arr)@ == old(arr)@,
        forall|b: int|
            0 <= b < k ==> #[trigger] final(counting_arr)@[b] as int == cnt_le(
                keys_int(keys@),
                b - 1,
                keys.len() as int,
            ),
        forall|b: int|
            k <= b < old(counting_arr).len() ==> final(counting_arr)@[b] == old(counting_arr)@[b],
        final(ic).comparison_count == old(ic).comparison_count,
        final(ic).array_access_count == sat_add(
            old(ic).array_access_count,
            cks_access_delta(keys.len() as int, k as int, copy_aux_to_arr),
        ),
        final(ic).mod_count == old(ic).mod_count,
        final(ic).div_count == old(ic).div_count,
        final(ic).bitwise_count == old(ic).bitwise_count,
        final(ic).algorithm_error == old(ic).algorithm_error,
{
    let n = arr.len();
    let ghost arr0 = arr@;
    let ghost ct0 = counting_arr@;
    let ghost ki = keys_int(keys@);
    proof {
        assert(valid_keys(ki, k as int));
    }

    let acc_d: u128 = 7 * (n as u128) + (if k >= 1 {
        2 * (k as u128) - 2
    } else {
        0
    }) + (if copy_aux_to_arr {
        2 * (n as u128)
    } else {
        0
    });
    ic.array_access_count = sat_add_u128(ic.array_access_count, acc_d);

    // Frequency pass: count the occurrences of each key.
    let mut idx: usize = 0;
    while idx < n
        invariant
            idx <= n,
            n == keys.len(),
            counting_arr.len() == ct0.len(),
            k <= ct0.len(),
            ki == keys_int(keys@),
            valid_keys(ki, k as int),
            forall|b: int| 0 <= b < k ==> #[trigger] counting_arr@[b] as int == cnt_eq(ki, b, idx as int),
            forall|b: int| k <= b < ct0.len() ==> counting_arr@[b] == ct0[b],
        decreases n - idx,
    {
        let kv = keys[idx];
        proof {
            assert(ki[idx as int] == kv as int);
            lemma_cnt_bounds(ki, kv as int, idx as int);
        }
        let c = counting_arr[kv];
        counting_arr.set(kv, c + 1);
        idx = idx + 1;
    }

    // Cumulative pass: turn counts into one-past-last output positions.
    proof {
        if k >= 1 {
            lemma_cnt_split(ki, 0, n as int);
            lemma_cnt_le_none(ki, -1, n as int);
        }
    }
    let mut i: usize = 1;
    while i < k
        invariant
            1 <= i,
            k >= 1 ==> i <= k,
            n == keys.len(),
            counting_arr.len() == ct0.len(),
            k <= ct0.len(),
            ki == keys_int(keys@),
            valid_keys(ki, k as int),
            forall|b: int| 0 <= b < i && b < k ==> #[trigger] counting_arr@[b] as int == cnt_le(ki, b, n as int),
            forall|b: int| i <= b < k ==> #[trigger] counting_arr@[b] as int == cnt_eq(ki, b, n as int),
            forall|b: int| k <= b < ct0.len() ==> counting_arr@[b] == ct0[b],
        decreases k - i,
    {
        let prev = counting_arr[i - 1];
        let cur = counting_arr[i];
        proof {
            lemma_cnt_split(ki, i as int, n as int);
            lemma_cnt_bounds(ki, i as int, n as int);
        }
        counting_arr.set(i, cur + prev);
        i = i + 1;
    }

    // Scatter pass, right to left: decrement a key's slot, then place the
    // element there.  The order makes equal keys keep their input order.
    let mut j: usize = n;
    while j > 0
        invariant
            j <= n,
            n == keys.len(),
            arr@ == arr0,
            arr.len() == n,
            aux_arr.len() == n,
            counting_arr.len() == ct0.len(),
            k <= ct0.len(),
            ki == keys_int(keys@),
            valid_keys(ki, k as int),
            forall|b: int|
                0 <= b < k ==> #[trigger] counting_arr@[b] as int == cnt_le(ki, b, n as int) - cnt_eq(
                    ki,
                    b,
                    n as int,
                ) + cnt_eq(ki, b, j as int),
            forall|b: int| k <= b < ct0.len() ==> counting_arr@[b] == ct0[b],
            forall|t: int| j <= t < n ==> aux_arr@[place(ki, t)] == arr0[t],
        decreases j,
    {
        j = j - 1;
        let kv = keys[j];
        proof {
            assert(ki[j as int] == kv as int);
        }
        let c = counting_arr[kv];
        proof {
            lemma_cnt_split(ki, kv as int, n as int);
            lemma_place_bounds(ki, k as int, j as int);
            assert(cnt_eq(ki, kv as int, j as int + 1) == cnt_eq(ki, kv as int, j as int) + 1);
            assert(c as int == place(ki, j as int) + 1);
        }
        counting_arr.set(kv, c - 1);
        let v = arr[j];
        aux_arr.set(c - 1, v);
        proof {
            assert forall|t: int| j < t < n implies aux_arr@[place(ki, t)] == arr0[t] by {
                lemma_place_injective(ki, j as int, t);
                lemma_place_bounds(ki, k as int, t);
            }
        }
    }

    proof {
        assert forall|b: int| 0 <= b < k implies #[trigger] counting_arr@[b] as int == cnt_le(
            ki,
            b - 1,
            n as int,
        ) by {
            lemma_cnt_split(ki, b, n as int);
        }
        let p = Seq::new(n as nat, |t: int| place(ki, t));
        assert forall|t1: int, t2: int| 0 <= t1 < t2 < n implies p[t1] != p[t2] by {
            lemma_place_injective(ki, t1, t2);
        }
        assert forall|t: int| 0 <= t < n implies 0 <= #[trigger] p[t] < n by {
            lemma_place_bounds(ki, k as int, t);
        }
        lemma_bijection_multiset(arr0, aux_arr@, p);
    }

    // Optional copy back into the primary buffer.
    if copy_aux_to_arr {
        let mut t: usize = 0;
        while t < n
            invariant
                t <= n,
                arr.len() == n,
                aux_arr.len() == n,
                forall|u: int| 0 <= u < t ==> arr@[u] == aux_arr@[u],
            decreases n - t,
        {
            let v = aux_arr[t];
            arr.set(t, v);
            t = t + 1;
        }
        proof {
            assert(arr@ =~= aux_arr@);
        }
    }
}

} // verus!
