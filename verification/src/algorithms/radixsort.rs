//! The instrumented least-significant-digit radix sort with a
//! configurable radix.  Intermediate passes leave their result in the
//! alternate buffer and swap the buffer roles instead of copying — the
//! ping-pong optimisation — tracked by an explicit flag; only the final
//! pass copies, and only when the result would otherwise end up in the
//! scratch buffer.  The counter contract pins the number of passes: it is
//! exactly the number of digit positions needed to represent the range.

use vstd::prelude::*;

use crate::algorithms::countingsort::{cks_access_delta, counting_key_sort};
use crate::arith::{digit_count, lemma_digit_count_threshold};
use crate::placement::{
    keys_int, lemma_multiset_bounds, lemma_stable_pass_sorted, place,
};
use crate::utils::{
    find_min_max, lemma_sat_add_chain, reset_counts, sat_add, sat_add_u128, seq_max, seq_min,
    sorted, zeroed_counts, zeroed_slots, InstructionCounter,
};
use vstd::arithmetic::div_mod::{
    lemma_basic_div, lemma_div_denominator, lemma_div_is_strictly_smaller, lemma_div_non_zero,
    lemma_div_pos_is_pos, lemma_mod_division_less_than_divisor, lemma_small_mod,
};
use vstd::arithmetic::mul::{lemma_mul_inequality, lemma_mul_is_commutative};
use vstd::arithmetic::power::{lemma_pow1, lemma_pow_adds, pow};

verus! {

/// The buffer that currently holds the data being sorted.
pub open spec fn current_of(arr_is_current: bool, a: Seq<i64>, b: Seq<i64>) -> Seq<i64> {
    if arr_is_current {
        a
    } else {
        b
    }
}

/// Modulo operations of a radix sort: one per element for each digit
/// derivation — the initial one runs even when no pass is needed.
pub open spec fn radix_mod_delta(n: int, passes: nat) -> int {
    if passes == 0 {
        n
    } else {
        n * passes
    }
}

/// Division operations of a radix sort: one per pass for the next-digit
/// test, plus one per element for each inter-pass digit derivation.
pub open spec fn radix_div_delta(n: int, passes: nat) -> int {
    if passes == 0 {
        0
    } else {
        passes + (passes - 1) * n
    }
}

/// Array accesses of a radix sort: the range scan and initial digit
/// derivation, one primitive call per pass, the table reset and digit
/// derivation between passes, and the final copy back when an odd pass
/// count would otherwise leave the result in the scratch buffer.
pub open spec fn radix_access_delta(n: int, radix: int, passes: nat) -> int {
    3 * n + if passes == 0 {
        0
    } else {
        passes * cks_access_delta(n, radix, false) + (passes - 1) * (radix + 2 * n) + (if passes
            % 2 == 1 {
            2 * n
        } else {
            0
        })
    }
}

/// Sorts `arr` in place by repeated stable counting-key-sort passes over
/// base-`radix` digits of each value's offset from the minimum, least
/// significant digit first.  The data-dependent loop ends with the pass
/// that consumes the most significant digit position, after exactly
/// `digit_count(range, radix)` passes.
pub fn sort(arr: &mut Vec<i64>, radix: u32, ic: &mut InstructionCounter)
    requires
        old(arr).len() >= 1,
        radix >= 2,
        (seq_max(old(arr)@) - seq_min(old(arr)@)) * (radix as int) <= i64::MAX,
    ensures
        final(arr).len() == old(arr).len(),
        sorted(final(arr)@),
        final(arr)@.to_multiset() == old(arr)@.to_multiset(),
        final(ic).comparison_count == sat_add(old(ic).comparison_count, 2 * (old(arr).len() - 1)),
        final(ic).array_access_count == sat_add(
            old(ic).array_access_count,
            radix_access_delta(
                old(arr).len() as int,
                radix as int,
                digit_count(seq_max(old(arr)@) - seq_min(old(arr)@), radix as int),
            ),
        ),
        final(ic).mod_count == sat_add(
            old(ic).mod_count,
            radix_mod_delta(
                old(arr).len() as int,
                digit_count(seq_max(old(arr)@) - seq_min(old(arr)@), radix as int),
            ),
        ),
        final(ic).div_count == sat_add(
            old(ic).div_count,
            radix_div_delta(
                old(arr).len() as int,
                digit_count(seq_max(old(arr)@) - seq_min(old(arr)@), radix as int),
            ),
        ),
        final(ic).bitwise_count == old(ic).bitwise_count,
        final(ic).algorithm_error == old(ic).algorithm_error,
{
    let n = arr.len();
    let ghost arr0 = arr@;
    let ghost ic0 = *ic;
    let ghost rr = radix as int;
    let (min_v, max_v) = find_min_max(&*arr);
    ic.comparison_count = sat_add_u128(ic.comparison_count, 2 * ((n - 1) as u128));
    ic.array_access_count = sat_add_u128(ic.array_access_count, n as u128);
    let ghost mn = min_v as int;
    proof {
        assert((max_v - min_v) <= (max_v - min_v) * rr) by (nonlinear_arith)
            requires
                rr >= 2,
                max_v - min_v >= 0,
        ;
    }
    let range = max_v - min_v;
    let ghost total_passes = digit_count(range as int, rr);

    let mut aux_arr = zeroed_slots(n);
    let mut counting_arr = zeroed_counts(radix as usize);

    // Initial digit keys: the least significant base-radix digit.
    ic.array_access_count = sat_add_u128(ic.array_access_count, 2 * (n as u128));
    ic.mod_count = sat_add_u128(ic.mod_count, n as u128);
    let mut keys: Vec<usize> = Vec::new();
    let mut i: usize = 0;
    while i < n
        invariant
            i <= n,
            arr@ == arr0,
            arr.len() == n,
            keys.len() == i,
            radix >= 2,
            mn == min_v as int,
            max_v - min_v <= i64::MAX,
            forall|t: int| 0 <= t < n ==> min_v <= #[trigger] arr@[t] <= max_v,
            forall|t: int|
                0 <= t < i ==> #[trigger] keys@[t] as int == ((arr0[t] - mn) / 1) % (radix as int),
            forall|t: int| 0 <= t < i ==> (#[trigger] keys@[t]) < radix as usize,
        decreases n - i,
    {
        let v = arr[i];
        let dg = ((v - min_v) as u64) % (radix as u64);
        proof {
            lemma_mod_division_less_than_divisor((v - min_v) as int, radix as int);
        }
        keys.push(dg as usize);
        i = i + 1;
    }

    let mut exp: i64 = 1;
    let mut is_next_radix = range > 0;
    let mut arr_is_current: bool = true;
    let ghost mut j: nat = 0nat;
    proof {
        lemma_digit_count_threshold(range as int, rr, 0nat);
        vstd::arithmetic::power::lemma_pow0(rr);
        assert forall|a: int, b: int|
            0 <= a < b < n implies (arr0[a] - mn) % 1 <= (arr0[b] - mn) % 1 by {
            lemma_mod_division_less_than_divisor(arr0[a] - mn, 1);
            lemma_mod_division_less_than_divisor(arr0[b] - mn, 1);
        }
        if range == 0 {
            assert forall|a: int, b: int| 0 <= a <= b < n implies arr@[a] <= arr@[b] by {}
        }
    }
    while is_next_radix
        invariant
            n == arr.len(),
            n >= 1,
            aux_arr.len() == n,
            keys.len() == n,
            counting_arr.len() == radix as usize,
            radix >= 2,
            rr == radix as int,
            mn == min_v as int,
            range == max_v - min_v,
            0 <= range,
            range * rr <= i64::MAX,
            total_passes == digit_count(range as int, rr),
            is_next_radix == (j < total_passes),
            ic.comparison_count == sat_add(ic0.comparison_count, 2 * (n - 1)),
            ic.bitwise_count == ic0.bitwise_count,
            ic.algorithm_error == ic0.algorithm_error,
            is_next_radix ==> {
                let cur = current_of(arr_is_current, arr@, aux_arr@);
                &&& 1 <= exp
                &&& exp as int == pow(rr, j)
                &&& exp <= range
                &&& arr_is_current == (j % 2 == 0)
                &&& cur.to_multiset() == arr0.to_multiset()
                &&& forall|t: int| 0 <= t < n ==> min_v <= #[trigger] cur[t] <= max_v
                &&& forall|a: int, b: int|
                    0 <= a < b < n ==> (#[trigger] cur[a] - mn) % (exp as int) <= (#[trigger] cur[b]
                        - mn) % (exp as int)
                &&& forall|t: int|
                    0 <= t < n ==> #[trigger] keys@[t] as int == ((cur[t] - mn) / (exp as int)) % rr
                &&& forall|t: int| 0 <= t < n ==> (#[trigger] keys@[t]) < radix as usize
                &&& forall|b: int| 0 <= b < counting_arr.len() ==> counting_arr@[b] == 0
                &&& ic.array_access_count == sat_add(
                    ic0.array_access_count,
                    3 * n + j * (cks_access_delta(n as int, rr, false) + rr + 2 * n),
                )
                &&& ic.mod_count == sat_add(ic0.mod_count, n + j * n)
                &&& ic.div_count == sat_add(ic0.div_count, j + j * n)
            },
            !is_next_radix ==> {
                &&& j == total_passes
                &&& sorted(arr@)
                &&& arr@.to_multiset() == arr0.to_multiset()
                &&& ic.array_access_count == sat_add(
                    ic0.array_access_count,
                    radix_access_delta(n as int, rr, total_passes),
                )
                &&& ic.mod_count == sat_add(ic0.mod_count, radix_mod_delta(n as int, total_passes))
                &&& ic.div_count == sat_add(ic0.div_count, radix_div_delta(n as int, total_passes))
            },
        decreases (range as int) / (if exp >= 1 { exp as int } else { 1 }),
    {
        let ghost cur_pre = current_of(arr_is_current, arr@, aux_arr@);
        let ghost exp0 = exp as int;
        proof {
            lemma_mul_inequality(exp as int, range as int, rr);
        }
        exp = exp * (radix as i64);
        proof {
            assert(exp0 * rr >= 2) by (nonlinear_arith)
                requires
                    exp0 >= 1,
                    rr >= 2,
            ;
        }
        ic.div_count = sat_add_u128(ic.div_count, 1);
        is_next_radix = range / exp > 0;
        proof {
            // `exp` is now the period of the digit position after this
            // pass.
            lemma_pow_adds(rr, j, 1nat);
            lemma_pow1(rr);
            lemma_mul_is_commutative(pow(rr, j), rr);
            lemma_digit_count_threshold(range as int, rr, (j + 1) as nat);
            lemma_div_pos_is_pos(range as int, exp as int);
            if exp <= range {
                lemma_div_non_zero(range as int, exp as int);
            } else {
                lemma_basic_div(range as int, exp as int);
            }
            // Termination: one more radix factor strictly shrinks the
            // remaining digit count.
            lemma_div_denominator(range as int, exp0, rr);
            lemma_div_non_zero(range as int, exp0);
            lemma_div_is_strictly_smaller((range as int) / exp0, rr);
        }
        let ghost cksf = cks_access_delta(n as int, rr, false);

        if !is_next_radix {
            // Final pass: copy back only when the data currently lives in
            // the primary buffer, so the result ends there either way.
            if arr_is_current {
                counting_key_sort(
                    arr,
                    &mut aux_arr,
                    &mut counting_arr,
                    radix as usize,
                    &keys,
                    true,
                    ic,
                );
            } else {
                counting_key_sort(
                    &mut aux_arr,
                    arr,
                    &mut counting_arr,
                    radix as usize,
                    &keys,
                    false,
                    ic,
                );
            }
            proof {
                j = j + 1;
                let out = arr@;
                let ki = keys_int(keys@);
                assert forall|t: int| 0 <= t < n implies #[trigger] ki[t] == ((cur_pre[t] - mn)
                    / exp0) % rr by {
                    assert(keys@[t] as int == ((cur_pre[t] - mn) / exp0) % rr);
                }
                assert forall|t: int| 0 <= t < n implies out[place(ki, t)] == cur_pre[t] by {}
                lemma_stable_pass_sorted(cur_pre, out, ki, mn, exp0, rr);
                lemma_multiset_bounds(cur_pre, out, mn, max_v as int);
                // The new period exceeds the range, so digit order is
                // value order.
                assert forall|a: int, b: int| 0 <= a <= b < n implies out[a] <= out[b] by {
                    if a < b {
                        lemma_small_mod((out[a] - mn) as nat, (exp0 * rr) as nat);
                        lemma_small_mod((out[b] - mn) as nat, (exp0 * rr) as nat);
                    }
                }
                // Counter bookkeeping: this pass added one primitive
                // call, with the copy exactly when the pass count is odd.
                lemma_sat_add_chain(
                    ic0.array_access_count,
                    3 * n + (j - 1) * (cksf + rr + 2 * n),
                    cks_access_delta(n as int, rr, (j - 1) % 2 == 0),
                );
                lemma_sat_add_chain(ic0.div_count, (j - 1) + (j - 1) * n, 1);
                assert(j == total_passes);
                assert(3 * n + (j - 1) * (cksf + rr + 2 * n) + cks_access_delta(
                    n as int,
                    rr,
                    (j - 1) % 2 == 0,
                ) == radix_access_delta(n as int, rr, j)) by (nonlinear_arith)
                    requires
                        j >= 1,
                        cksf == cks_access_delta(n as int, rr, false),
                        cks_access_delta(n as int, rr, (j - 1) % 2 == 0) == cksf + (if (j - 1) % 2
                            == 0 {
                            2 * (n as int)
                        } else {
                            0
                        }),
                        radix_access_delta(n as int, rr, j) == 3 * (n as int) + j * cksf + (j - 1)
                            * (rr + 2 * (n as int)) + (if j % 2 == 1 {
                            2 * (n as int)
                        } else {
                            0
                        }),
                ;
                assert(radix_mod_delta(n as int, j) == n + (j - 1) * n) by (nonlinear_arith)
                    requires
                        j >= 1,
                ;
                assert(radix_div_delta(n as int, j) == (j - 1) + (j - 1) * n + 1);
            }
        } else {
            // Intermediate pass: leave the result in the alternate buffer
            // and swap the buffer roles instead of copying.
            if arr_is_current {
                counting_key_sort(
                    arr,
                    &mut aux_arr,
                    &mut counting_arr,
                    radix as usize,
                    &keys,
                    false,
                    ic,
                );
            } else {
                counting_key_sort(
                    &mut aux_arr,
                    arr,
                    &mut counting_arr,
                    radix as usize,
                    &keys,
                    false,
                    ic,
                );
            }
            proof {
                let out = current_of(!arr_is_current, arr@, aux_arr@);
                let ki = keys_int(keys@);
                assert forall|t: int| 0 <= t < n implies #[trigger] ki[t] == ((cur_pre[t] - mn)
                    / exp0) % rr by {
                    assert(keys@[t] as int == ((cur_pre[t] - mn) / exp0) % rr);
                }
                assert forall|t: int| 0 <= t < n implies out[place(ki, t)] == cur_pre[t] by {}
                lemma_stable_pass_sorted(cur_pre, out, ki, mn, exp0, rr);
                lemma_multiset_bounds(cur_pre, out, mn, max_v as int);
            }
            // Reset the counting table and derive the next digit keys
            // from the buffer that now holds the data.
            ic.array_access_count = sat_add_u128(ic.array_access_count, radix as u128);
            reset_counts(&mut counting_arr);
            ic.array_access_count = sat_add_u128(ic.array_access_count, 2 * (n as u128));
            ic.mod_count = sat_add_u128(ic.mod_count, n as u128);
            ic.div_count = sat_add_u128(ic.div_count, n as u128);
            arr_is_current = !arr_is_current;
            let ghost cur_now = current_of(arr_is_current, arr@, aux_arr@);
            let mut t: usize = 0;
            while t < n
                invariant
                    t <= n,
                    n == arr.len(),
                    aux_arr.len() == n,
                    keys.len() == n,
                    radix >= 2,
                    rr == radix as int,
                    mn == min_v as int,
                    1 <= exp,
                    cur_now == current_of(arr_is_current, arr@, aux_arr@),
                    forall|u: int| 0 <= u < n ==> min_v <= #[trigger] cur_now[u] <= max_v,
                    max_v - min_v <= i64::MAX,
                    forall|u: int|
                        0 <= u < t ==> #[trigger] keys@[u] as int == ((cur_now[u] - mn) / (
                        exp as int)) % rr,
                    forall|u: int| 0 <= u < n ==> (#[trigger] keys@[u]) < radix as usize,
                decreases n - t,
            {
                let v = if arr_is_current {
                    arr[t]
                } else {
                    aux_arr[t]
                };
                let dg = (((v - min_v) as u64) / (exp as u64)) % (radix as u64);
                proof {
                    lemma_mod_division_less_than_divisor(((v - min_v) as int) / (exp as int), rr);
                    lemma_div_pos_is_pos((v - min_v) as int, exp as int);
                }
                keys.set(t, dg as usize);
                t = t + 1;
            }
            proof {
                j = j + 1;
                lemma_sat_add_chain(
                    ic0.array_access_count,
                    3 * n + (j - 1) * (cksf + rr + 2 * n),
                    cksf,
                );
                lemma_sat_add_chain(
                    ic0.array_access_count,
                    3 * n + (j - 1) * (cksf + rr + 2 * n) + cksf,
                    rr,
                );
                lemma_sat_add_chain(
                    ic0.array_access_count,
                    3 * n + (j - 1) * (cksf + rr + 2 * n) + cksf + rr,
                    2 * n,
                );
                lemma_sat_add_chain(ic0.mod_count, n + (j - 1) * n, n as int);
                lemma_sat_add_chain(ic0.div_count, (j - 1) + (j - 1) * n, 1);
                lemma_sat_add_chain(ic0.div_count, (j - 1) + (j - 1) * n + 1, n as int);
                assert(j * (cksf + rr + 2 * n) == (j - 1) * (cksf + rr + 2 * n) + (cksf + rr + 2
                    * n)) by (nonlinear_arith)
                    requires
                        j >= 1,
                ;
                assert(j * (n as int) == (j - 1) * (n as int) + n) by (nonlinear_arith)
                    requires
                        j >= 1,
                ;
                assert(j + j * (n as int) == ((j - 1) + (j - 1) * (n as int) + 1) + n) by (
                nonlinear_arith)
                    requires
                        j >= 1,
                ;
            }
        }
    }
}

} // verus!
