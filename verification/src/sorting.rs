//! The buffer-reuse sorting entry points: every routine works in place on
//! caller-supplied scratch buffers so that repeated calls allocate
//! nothing.  The counting-based family shares the counting key sort
//! primitive; merge sort and quicksort are the comparison baselines.

use vstd::prelude::*;

use crate::algorithms::countingsort::counting_key_sort;
use crate::placement::{
    keys_int, lemma_multiset_bounds, lemma_place_shift, lemma_place_uniform,
    lemma_placement_sorted_by_keys, lemma_stable_pass_sorted, place, vals_int,
};
use crate::utils::{
    find_min_max, lemma_seq_min_max, reset_counts, seq_max, seq_min, sorted, InstructionCounter,
};
use vstd::arithmetic::div_mod::{
    lemma_div_denominator, lemma_div_is_strictly_smaller, lemma_div_non_zero,
    lemma_mod_division_less_than_divisor, lemma_small_mod,
};
use crate::arith::isqrt_i64;
use vstd::arithmetic::mul::lemma_mul_inequality;

verus! {

/// The key sequence a counting sort run sorts by: the caller's keys when
/// supplied, otherwise the values themselves.
pub open spec fn effective_keys(keys: Option<&Vec<i64>>, arr0: Seq<i64>) -> Seq<i64> {
    match keys {
        Some(kv) => kv@,
        None => arr0,
    }
}

/// Stable counting sort of `arr` by the given keys (the values are their
/// own keys when `keys` is `None`).  `aux_arr_buffer` is scratch space of
/// the same length; `counting_arr_buffer` must cover the key range and be
/// zeroed on it.  The element at input position `i` ends at slot
/// `place(keys, i)`: sorted by key, stable among equal keys.
pub fn counting_sort(
    arr: &mut Vec<i64>,
    keys: Option<&Vec<i64>>,
    aux_arr_buffer: &mut Vec<i64>,
    counting_arr_buffer: &mut Vec<usize>,
)
    requires
        old(aux_arr_buffer).len() == old(arr).len(),
        keys matches Some(kv) ==> kv.len() == old(arr).len(),
        old(arr).len() > 0 ==> seq_max(effective_keys(keys, old(arr)@)) - seq_min(
            effective_keys(keys, old(arr)@),
        ) < i64::MAX,
        old(arr).len() > 0 && seq_min(effective_keys(keys, old(arr)@)) != seq_max(
            effective_keys(keys, old(arr)@),
        ) ==> old(counting_arr_buffer).len() >= seq_max(effective_keys(keys, old(arr)@)) - seq_min(
            effective_keys(keys, old(arr)@),
        ) + 1 && (forall|b: int|
            0 <= b <= seq_max(effective_keys(keys, old(arr)@)) - seq_min(
                effective_keys(keys, old(arr)@),
            ) ==> old(counting_arr_buffer)@[b] == 0),
    ensures
        final(arr).len() == old(arr).len(),
        final(aux_arr_buffer).len() == old(aux_arr_buffer).len(),
        final(counting_arr_buffer).len() == old(counting_arr_buffer).len(),
        forall|i: int|
            0 <= i < old(arr).len() ==> final(arr)@[place(
                vals_int(effective_keys(keys, old(arr)@)),
                i,
            )] == old(arr)@[i],
        final(arr)@.to_multiset() == old(arr)@.to_multiset(),
        keys is None ==> sorted(final(arr)@),
{
    let n = arr.len();
    let ghost arr0 = arr@;
    let ghost eks = effective_keys(keys, arr0);
    let ghost ki = vals_int(eks);

    // An empty array is trivially sorted.
    if n == 0 {
        return ;
    }
    let (kmin, kmax) = match keys {
        Some(kv) => find_min_max(kv),
        None => find_min_max(&*arr),
    };
    proof {
        assert(kmin == seq_min(eks));
        assert(kmax == seq_max(eks));
    }
    // All keys equal: the sequence is already in stable key order.
    if kmin == kmax {
        proof {
            assert forall|i: int| 0 <= i < n implies arr@[place(ki, i)] == arr0[i] by {
                assert forall|j: int| 0 <= j < ki.len() implies #[trigger] ki[j] == ki[i] by {
                    assert(kmin <= eks[j] <= kmax);
                    assert(kmin <= eks[i] <= kmax);
                }
                lemma_place_uniform(ki, i);
            }
            if keys is None {
                assert forall|i: int, j: int| 0 <= i <= j < n implies arr@[i] <= arr@[j] by {
                    assert(kmin <= eks[i] <= kmax);
                    assert(kmin <= eks[j] <= kmax);
                }
            }
        }
        return ;
    }
    let range = kmax - kmin;
    let k = (range as usize) + 1;

    // Shift the keys so that the smallest becomes bucket zero.
    let mut skeys: Vec<usize> = Vec::new();
    let mut idx: usize = 0;
    while idx < n
        invariant
            idx <= n,
            arr@ == arr0,
            arr.len() == n,
            skeys.len() == idx,
            eks == effective_keys(keys, arr0),
            eks.len() == n,
            keys matches Some(kv) ==> kv@ == eks,
            keys is None ==> eks == arr0,
            forall|j: int| 0 <= j < n ==> kmin <= #[trigger] eks[j] <= kmax,
            kmax - kmin < i64::MAX,
            k == kmax - kmin + 1,
            forall|t: int| 0 <= t < idx ==> #[trigger] skeys@[t] as int == eks[t] - kmin,
        decreases n - idx,
    {
        let kv_i = match keys {
            Some(kv) => kv[idx],
            None => arr[idx],
        };
        proof {
            assert(kv_i == eks[idx as int]);
        }
        skeys.push((kv_i - kmin) as usize);
        idx = idx + 1;
    }

    let mut scratch = InstructionCounter::new();
    counting_key_sort(arr, aux_arr_buffer, counting_arr_buffer, k, &skeys, true, &mut scratch);

    proof {
        let ski = keys_int(skeys@);
        assert forall|j: int| 0 <= j < n implies #[trigger] ski[j] == ki[j] - kmin by {
            assert(skeys@[j] as int == eks[j] - kmin);
        }
        assert forall|i: int| 0 <= i < n implies arr@[place(ki, i)] == arr0[i] by {
            lemma_place_shift(ki, ski, kmin as int, i);
            assert(arr@[place(ski, i)] == arr0[i]);
        }
        if keys is None {
            lemma_placement_sorted_by_keys(arr0, arr@, ski, k as int, (|v: i64| v - kmin as int));
        }
    }
}

/// Merge sort of the whole array through a caller-supplied buffer of the
/// same length.
pub fn merge_sort(arr: &mut Vec<i64>, aux_arr_buffer: &mut Vec<i64>)
    requires
        old(aux_arr_buffer).len() == old(arr).len(),
    ensures
        final(arr).len() == old(arr).len(),
        final(aux_arr_buffer).len() == old(aux_arr_buffer).len(),
        sorted(final(arr)@),
        final(arr)@.to_multiset() == old(arr)@.to_multiset(),
{
    merge_sort_inner(arr, aux_arr_buffer);
}

/// Recursion body of `merge_sort`: an array of at most one element is
/// already sorted.
fn merge_sort_inner(arr: &mut Vec<i64>, aux_arr_buffer: &mut Vec<i64>)
    requires
        old(aux_arr_buffer).len() == old(arr).len(),
    ensures
        final(arr).len() == old(arr).len(),
        final(aux_arr_buffer).len() == old(aux_arr_buffer).len(),
        sorted(final(arr)@),
        final(arr)@.to_multiset() == old(arr)@.to_multiset(),
{
    if arr.len() > 1 {
        let n = arr.len();
        let mut scratch = InstructionCounter::new();
        crate::algorithms::mergesort::merge_sort_recursive(arr, aux_arr_buffer, 0, n, &mut scratch);
    }
}

/// Merges the two sorted halves of `arr`, split at the midpoint, through
/// the buffer.
pub fn merge(arr: &mut Vec<i64>, aux_arr_buffer: &mut Vec<i64>)
    requires
        old(aux_arr_buffer).len() == old(arr).len(),
        forall|a: int, b: int|
            0 <= a <= b < old(arr).len() / 2 ==> old(arr)@[a] <= old(arr)@[b],
        forall|a: int, b: int|
            old(arr).len() / 2 <= a <= b < old(arr).len() ==> old(arr)@[a] <= old(arr)@[b],
    ensures
        final(arr).len() == old(arr).len(),
        final(aux_arr_buffer).len() == old(aux_arr_buffer).len(),
        sorted(final(arr)@),
        final(arr)@.to_multiset() == old(arr)@.to_multiset(),
{
    let n = arr.len();
    let mid = n / 2;
    let mut scratch = InstructionCounter::new();
    crate::algorithms::mergesort::merge(arr, aux_arr_buffer, 0, mid, n, &mut scratch);
}

/// Sorts an array in place using quicksort.
pub fn quicksort(arr: &mut Vec<i64>)
    ensures
        final(arr).len() == old(arr).len(),
        sorted(final(arr)@),
        final(arr)@.to_multiset() == old(arr)@.to_multiset(),
{
    let n = arr.len();
    let mut scratch = InstructionCounter::new();
    crate::algorithms::quicksort::recursive_quicksort(arr, 0, n, &mut scratch);
}

/// Quotient-remainder sort with the divisor `isqrt(range) + 1`: one
/// stable counting-sort pass over each value's remainder digit, then one
/// over its quotient digit.  The remainder pass must run first — the
/// quotient pass relies on its stable order as the tie-break, which
/// reconstructs full numeric order from the two digit sorts.  The
/// counting buffer must be zero-filled, and large enough that its length
/// squared exceeds the value range.
pub fn qr_sort(
    arr: &mut Vec<i64>,
    aux_arr_buffer: &mut Vec<i64>,
    keys_buffer: &mut Vec<i64>,
    counting_arr_buffer: &mut Vec<usize>,
)
    requires
        old(aux_arr_buffer).len() == old(arr).len(),
        old(keys_buffer).len() == old(arr).len(),
        forall|b: int|
            0 <= b < old(counting_arr_buffer).len() ==> old(counting_arr_buffer)@[b] == 0,
        old(arr).len() > 0 ==> seq_max(old(arr)@) - seq_min(old(arr)@) < i64::MAX,
        old(arr).len() > 0 ==> (old(counting_arr_buffer).len() as int) * (old(
            counting_arr_buffer,
        ).len() as int) > seq_max(old(arr)@) - seq_min(old(arr)@),
    ensures
        final(arr).len() == old(arr).len(),
        final(aux_arr_buffer).len() == old(aux_arr_buffer).len(),
        final(keys_buffer).len() == old(keys_buffer).len(),
        final(counting_arr_buffer).len() == old(counting_arr_buffer).len(),
        sorted(final(arr)@),
        final(arr)@.to_multiset() == old(arr)@.to_multiset(),
{
    let n = arr.len();
    let ghost arr0 = arr@;

    // An empty array is trivially sorted.
    if n == 0 {
        return ;
    }
    let (min_v, max_v) = find_min_max(&*arr);
    let range = max_v - min_v;
    // All values equal: already sorted.
    if range == 0 {
        return ;
    }
    let r = isqrt_i64(range);
    proof {
        assert(r + 1 <= i64::MAX) by (nonlinear_arith)
            requires
                r >= 0,
                r * r <= range,
                range < i64::MAX,
        ;
    }
    let divisor = r + 1;
    let ghost dd = divisor as int;
    let ghost mn = min_v as int;

    proof {
        // The divisor fits the counting buffer: a shorter buffer would
        // have a square at most the range.
        let cl = counting_arr_buffer.len() as int;
        assert(dd <= cl) by (nonlinear_arith)
            requires
                cl * cl > range,
                (dd - 1) * (dd - 1) <= range,
                dd >= 1,
                cl >= 0,
        ;
    }

    // Remainder pass: key = (value - min) mod divisor.
    let ghost prev1 = arr@;
    let mut i: usize = 0;
    while i < n
        invariant
            i <= n,
            arr@ == prev1,
            arr.len() == n,
            keys_buffer.len() == n,
            1 <= divisor,
            dd == divisor as int,
            mn == min_v as int,
            max_v - min_v <= i64::MAX,
            forall|t: int| 0 <= t < n ==> min_v <= #[trigger] arr@[t] <= max_v,
            forall|t: int|
                0 <= t < i ==> #[trigger] keys_buffer@[t] as int == (prev1[t] - mn) % dd,
            forall|t: int| 0 <= t < i ==> 0 <= #[trigger] keys_buffer@[t] < divisor,
        decreases n - i,
    {
        let v = arr[i];
        let rem = ((v - min_v) as u64) % (divisor as u64);
        proof {
            lemma_mod_division_less_than_divisor((v - min_v) as int, dd);
        }
        keys_buffer.set(i, rem as i64);
        i = i + 1;
    }
    proof {
        lemma_seq_min_max(keys_buffer@);
        assert forall|a: int, b: int|
            0 <= a < b < n implies (prev1[a] - mn) % 1 <= (prev1[b] - mn) % 1 by {
            lemma_mod_division_less_than_divisor(prev1[a] - mn, 1);
            lemma_mod_division_less_than_divisor(prev1[b] - mn, 1);
        }
    }
    counting_sort(arr, Some(&*keys_buffer), aux_arr_buffer, counting_arr_buffer);
    proof {
        let kb = keys_buffer@;
        let ki = vals_int(kb);
        assert forall|t: int| 0 <= t < n implies #[trigger] ki[t] == ((prev1[t] - mn) / 1) % dd by {
            assert(kb[t] as int == (prev1[t] - mn) % dd);
        }
        lemma_stable_pass_sorted(prev1, arr@, ki, mn, 1, dd);
        lemma_multiset_bounds(prev1, arr@, min_v as int, max_v as int);
        assert(1 * dd == dd);
    }

    // Reset the buffer for the quotient pass.
    reset_counts(counting_arr_buffer);

    // Quotient pass: key = (value - min) / divisor, tie-broken by the
    // stable remainder order.
    let ghost prev2 = arr@;
    let mut j: usize = 0;
    while j < n
        invariant
            j <= n,
            arr@ == prev2,
            arr.len() == n,
            keys_buffer.len() == n,
            1 <= divisor,
            dd == divisor as int,
            mn == min_v as int,
            max_v - min_v <= i64::MAX,
            range == max_v - min_v,
            forall|t: int| 0 <= t < n ==> min_v <= #[trigger] arr@[t] <= max_v,
            forall|t: int|
                0 <= t < j ==> #[trigger] keys_buffer@[t] as int == (prev2[t] - mn) / dd,
            forall|t: int| 0 <= t < j ==> 0 <= #[trigger] keys_buffer@[t] <= range / divisor,
        decreases n - j,
    {
        let v = arr[j];
        let quo = ((v - min_v) as u64) / (divisor as u64);
        proof {
            vstd::arithmetic::div_mod::lemma_div_pos_is_pos((v - min_v) as int, dd);
            vstd::arithmetic::div_mod::lemma_div_is_ordered((v - min_v) as int, range as int, dd);
        }
        keys_buffer.set(j, quo as i64);
        j = j + 1;
    }
    proof {
        lemma_seq_min_max(keys_buffer@);
        // The largest quotient is below `range / divisor + 1`, which the
        // buffer covers because the divisor exceeds the square root.
        assert(range / divisor < dd) by {
            vstd::arithmetic::div_mod::lemma_multiply_divide_lt(range as int, dd, dd);
            assert(range < dd * dd) by (nonlinear_arith)
                requires
                    dd == r + 1,
                    r >= 0,
                    (r + 1) * (r + 1) > range,
            ;
        }
    }
    counting_sort(arr, Some(&*keys_buffer), aux_arr_buffer, counting_arr_buffer);
    proof {
        let kb = keys_buffer@;
        let ki = vals_int(kb);
        let big = range as int / dd + 1;
        assert forall|t: int| 0 <= t < n implies #[trigger] ki[t] == ((prev2[t] - mn) / dd)
            % big by {
            assert(kb[t] as int == (prev2[t] - mn) / dd);
            lemma_small_mod(((prev2[t] - mn) / dd) as nat, big as nat);
        }
        lemma_stable_pass_sorted(prev2, arr@, ki, mn, dd, big);
        lemma_multiset_bounds(prev2, arr@, min_v as int, max_v as int);
        // One full period `divisor * big` now covers the range.
        assert(range < dd * big) by {
            vstd::arithmetic::div_mod::lemma_fundamental_div_mod(range as int, dd);
            lemma_mod_division_less_than_divisor(range as int, dd);
            vstd::arithmetic::mul::lemma_mul_is_distributive_add(dd, range as int / dd, 1);
        }
        assert forall|a: int, b: int| 0 <= a <= b < n implies arr@[a] <= arr@[b] by {
            if a < b {
                let x = arr@[a] - mn;
                let y = arr@[b] - mn;
                lemma_small_mod(x as nat, (dd * big) as nat);
                lemma_small_mod(y as nat, (dd * big) as nat);
            }
        }
    }
}

/// Least-significant-digit radix sort with radix `arr.len()`: repeated
/// stable counting-sort passes over the base-`n` digits of each value's
/// offset from the minimum, reusing the caller's buffers between passes.
/// The pass over the most significant digit ends the loop; a uniform
/// sequence needs no pass at all.
pub fn radix_sort(
    arr: &mut Vec<i64>,
    aux_arr_buffer: &mut Vec<i64>,
    keys_buffer: &mut Vec<i64>,
    counting_arr_buffer: &mut Vec<usize>,
)
    requires
        old(aux_arr_buffer).len() == old(arr).len(),
        old(keys_buffer).len() == old(arr).len(),
        old(counting_arr_buffer).len() >= old(arr).len(),
        forall|b: int|
            0 <= b < old(counting_arr_buffer).len() ==> old(counting_arr_buffer)@[b] == 0,
        old(arr).len() > 0 ==> (seq_max(old(arr)@) - seq_min(old(arr)@)) * old(arr).len()
            <= i64::MAX,
    ensures
        final(arr).len() == old(arr).len(),
        final(aux_arr_buffer).len() == old(aux_arr_buffer).len(),
        final(keys_buffer).len() == old(keys_buffer).len(),
        final(counting_arr_buffer).len() == old(counting_arr_buffer).len(),
        sorted(final(arr)@),
        final(arr)@.to_multiset() == old(arr)@.to_multiset(),
{
    let n = arr.len();
    let ghost arr0 = arr@;

    // An empty array is trivially sorted.
    if n == 0 {
        return ;
    }
    let (min_v, max_v) = find_min_max(&*arr);
    proof {
        assert((max_v - min_v) <= (max_v - min_v) * (n as int)) by (nonlinear_arith)
            requires
                n >= 1,
                max_v - min_v >= 0,
        ;
    }
    let range = max_v - min_v;
    // All values equal: already sorted, no pass needed.
    if range == 0 {
        return ;
    }
    proof {
        // Two distinct values force at least two elements, so the radix
        // `n` is a usable base, and `n` fits an `i64` because the range
        // and its `n`-fold product do.
        let wi = choose|i: int| 0 <= i < n && arr@[i] == min_v;
        let wj = choose|j: int| 0 <= j < n && arr@[j] == max_v;
        assert(wi != wj);
        assert(n >= 2);
        assert((n as int) <= (max_v - min_v) * (n as int)) by (nonlinear_arith)
            requires
                n >= 1,
                max_v - min_v >= 1,
        ;
    }
    let radix = n as i64;
    let ghost mn = min_v as int;
    let ghost ct_len = counting_arr_buffer.len();
    let mut exp: i64 = 1;
    proof {
        assert forall|i: int, j: int|
            0 <= i < j < n implies (arr@[i] - mn) % 1 <= (arr@[j] - mn) % 1 by {
            lemma_mod_division_less_than_divisor(arr@[i] - mn, 1);
            lemma_mod_division_less_than_divisor(arr@[j] - mn, 1);
        }
    }
    while exp <= range
        invariant
            n == arr.len(),
            2 <= n,
            n <= i64::MAX,
            aux_arr_buffer.len() == n,
            keys_buffer.len() == n,
            counting_arr_buffer.len() == ct_len,
            ct_len >= n,
            radix == n as i64,
            mn == min_v as int,
            min_v == seq_min(arr0),
            max_v == seq_max(arr0),
            range == max_v - min_v,
            1 <= range,
            range * radix <= i64::MAX,
            1 <= exp,
            arr@.to_multiset() == arr0.to_multiset(),
            forall|i: int| 0 <= i < n ==> min_v <= #[trigger] arr@[i] <= max_v,
            forall|i: int, j: int|
                0 <= i < j < n ==> (#[trigger] arr@[i] - mn) % (exp as int) <= (#[trigger] arr@[j]
                    - mn) % (exp as int),
            exp <= range ==> forall|b: int|
                0 <= b < counting_arr_buffer.len() ==> counting_arr_buffer@[b] == 0,
        decreases range / exp,
    {
        let ghost prev = arr@;
        let ghost exp0 = exp as int;

        // Derive the digit keys for this pass from the current
        // arrangement.
        let mut i: usize = 0;
        while i < n
            invariant
                i <= n,
                arr@ == prev,
                arr.len() == n,
                keys_buffer.len() == n,
                2 <= n <= i64::MAX,
                radix == n as i64,
                1 <= exp,
                exp as int == exp0,
                forall|t: int| 0 <= t < n ==> min_v <= #[trigger] arr@[t] <= max_v,
                mn == min_v as int,
                max_v - min_v <= i64::MAX,
                forall|t: int|
                    0 <= t < i ==> #[trigger] keys_buffer@[t] as int == ((prev[t] - mn) / exp0) % (
                    radix as int),
                forall|t: int| 0 <= t < i ==> 0 <= #[trigger] keys_buffer@[t] < radix,
            decreases n - i,
        {
            let v = arr[i];
            let off = (v - min_v) as u64;
            let dg = (off / (exp as u64)) % (radix as u64);
            proof {
                lemma_mod_division_less_than_divisor((off / (exp as u64)) as int, radix as int);
            }
            keys_buffer.set(i, dg as i64);
            i = i + 1;
        }

        proof {
            // The digit keys lie in `[0, radix)`, so their range fits the
            // counting buffer and the buffer's zeroed prefix covers it.
            lemma_seq_min_max(keys_buffer@);
        }
        counting_sort(arr, Some(&*keys_buffer), aux_arr_buffer, counting_arr_buffer);

        proof {
            let kb = keys_buffer@;
            let ki = vals_int(kb);
            lemma_seq_min_max(kb);
            assert forall|t: int| 0 <= t < n implies #[trigger] ki[t] == ((prev[t] - mn) / exp0)
                % (radix as int) by {
                assert(kb[t] as int == ((prev[t] - mn) / exp0) % (radix as int));
            }
            lemma_stable_pass_sorted(prev, arr@, ki, mn, exp0, radix as int);
            lemma_multiset_bounds(prev, arr@, min_v as int, max_v as int);
            // The next period is within bounds: `exp * radix` stays at or
            // below `range * radix`.
            lemma_mul_inequality(exp as int, range as int, radix as int);
            // Termination: dividing by one more radix factor strictly
            // shrinks the remaining digit count.
            lemma_div_denominator(range as int, exp as int, radix as int);
            lemma_div_non_zero(range as int, exp as int);
            lemma_div_is_strictly_smaller((range / exp) as int, radix as int);
        }
        exp = exp * radix;
        if exp <= range {
            reset_counts(counting_arr_buffer);
        }
    }

    // One period now covers the whole range, so the low-part order is the
    // value order itself.
    proof {
        assert forall|i: int, j: int| 0 <= i <= j < n implies arr@[i] <= arr@[j] by {
            if i < j {
                let x = arr@[i] - mn;
                let y = arr@[j] - mn;
                lemma_small_mod(x as nat, exp as nat);
                lemma_small_mod(y as nat, exp as nat);
            }
        }
    }
}

} // verus!
