//! The instrumented quotient-remainder sort: a stable counting-key-sort
//! pass over each value's remainder digit, then — when any quotient
//! exceeds one — a second pass over its quotient digit.  A power-of-two
//! divisor may use the bitwise digit extraction, which is numerically
//! identical but tallies bitwise operations instead of modulo and
//! division; requesting it with any other divisor records the error flag
//! and leaves the sequence untouched.

use vstd::prelude::*;

use crate::algorithms::countingsort::{cks_access_delta, counting_key_sort};
use crate::arith::pow2_log;
use crate::placement::{keys_int, lemma_multiset_bounds, lemma_stable_pass_sorted, place};
use crate::utils::{
    find_min_max, lemma_sat_add_chain, reset_counts, sat_add, sat_add_u128, seq_max, seq_min,
    sorted, zeroed_counts, zeroed_slots, InstructionCounter,
};
use vstd::arithmetic::div_mod::{
    lemma_div_pos_is_pos, lemma_fundamental_div_mod, lemma_mod_division_less_than_divisor,
    lemma_multiply_divide_lt, lemma_small_mod,
};
use vstd::arithmetic::power2::pow2;

verus! {

/// A divisor that the bitwise digit extraction accepts: a power of two.
pub open spec fn is_pow_two(d: nat) -> bool {
    exists|p: nat| p < 64 && d == pow2(p)
}

/// How a pass extracts its digit from a value's offset: arithmetic
/// modulo and division, or the bitwise equivalent for a power-of-two
/// divisor.  The strategy is resolved once per call and dispatched by a
/// plain branch in the key loops.
#[derive(Clone, Copy)]
pub enum KeyStrategy {
    Arithmetic,
    Bitwise { shift: u32 },
}

/// The quotient key space for a range and divisor: one more than the
/// largest quotient.
pub open spec fn qr_max_quotient(range: int, divisor: int) -> int {
    range / divisor + 1
}

/// The counting-table length the instrumented entry point allocates.
pub open spec fn qr_table_len(range: int, divisor: int) -> int {
    if divisor > qr_max_quotient(range, divisor) {
        divisor + 1
    } else {
        qr_max_quotient(range, divisor)
    }
}

/// Array accesses of a successful quotient-remainder sort: the range
/// scan, the key derivations, one primitive call per pass, and the table
/// reset between the two passes.
pub open spec fn qr_access_delta(n: int, divisor: int, range: int) -> int {
    3 * n + if qr_max_quotient(range, divisor) > 1 {
        cks_access_delta(n, divisor, false) + qr_table_len(range, divisor) + 2 * n
            + cks_access_delta(n, qr_max_quotient(range, divisor), true)
    } else {
        cks_access_delta(n, divisor, true)
    }
}

/// Division operations of a successful run: one for the quotient bound,
/// and one per element for the quotient keys in arithmetic mode.
pub open spec fn qr_div_delta(n: int, divisor: int, range: int, use_bitwise: bool) -> int {
    1 + if !use_bitwise && qr_max_quotient(range, divisor) > 1 {
        n
    } else {
        0
    }
}

/// Bitwise operations of a successful run: one per element per pass in
/// bitwise mode.
pub open spec fn qr_bitwise_delta(n: int, divisor: int, range: int, use_bitwise: bool) -> int {
    if use_bitwise {
        n + if qr_max_quotient(range, divisor) > 1 {
            n
        } else {
            0
        }
    } else {
        0
    }
}

/// Bitwise and arithmetic mode produce identical sorted output: each
/// mode's contract pins a sorted rearrangement of the input, and a
/// sorted sequence over a given multiset is unique.
pub proof fn lemma_mode_equivalence(input: Seq<i64>, out_arith: Seq<i64>, out_bitwise: Seq<i64>)
    requires
        sorted(out_arith),
        sorted(out_bitwise),
        out_arith.to_multiset() == input.to_multiset(),
        out_bitwise.to_multiset() == input.to_multiset(),
    ensures
        out_arith == out_bitwise,
{
    crate::utils::lemma_sorted_permutation_unique(out_arith, out_bitwise);
}

/// Both passes of the sort, over offsets from `base` that all lie below
/// `max_quotient * divisor`.  The remainder pass runs first; when
/// `max_quotient` is one the remainders alone order the data and the
/// single pass copies the result back, otherwise the quotient pass does,
/// with the stable remainder order as its tie-break.
fn qr_sort(
    arr: &mut Vec<i64>,
    aux_arr: &mut Vec<i64>,
    counting_arr: &mut Vec<usize>,
    divisor: usize,
    max_quotient: usize,
    base: i64,
    strategy: KeyStrategy,
    ic: &mut InstructionCounter,
)
    requires
        old(aux_arr).len() == old(arr).len(),
        1 <= divisor <= i64::MAX,
        1 <= max_quotient <= i64::MAX,
        old(counting_arr).len() >= divisor,
        old(counting_arr).len() >= max_quotient,
        forall|b: int| 0 <= b < old(counting_arr).len() ==> old(counting_arr)@[b] == 0,
        forall|i: int| 0 <= i < old(arr).len() ==> base <= #[trigger] old(arr)@[i],
        forall|i: int|
            0 <= i < old(arr).len() ==> #[trigger] old(arr)@[i] - base < (max_quotient as int) * (
            divisor as int),
        forall|i: int| 0 <= i < old(arr).len() ==> #[trigger] old(arr)@[i] - base < i64::MAX,
        strategy matches KeyStrategy::Bitwise { shift } ==> shift < 64 && divisor as nat == pow2(
            shift as nat,
        ),
    ensures
        final(arr).len() == old(arr).len(),
        final(aux_arr).len() == old(aux_arr).len(),
        final(counting_arr).len() == old(counting_arr).len(),
        sorted(final(arr)@),
        final(arr)@.to_multiset() == old(arr)@.to_multiset(),
        final(ic).comparison_count == old(ic).comparison_count,
        final(ic).array_access_count == sat_add(
            old(ic).array_access_count,
            2 * old(arr).len() + if max_quotient > 1 {
                cks_access_delta(old(arr).len() as int, divisor as int, false) + old(
                    counting_arr,
                ).len() + 2 * old(arr).len() + cks_access_delta(
                    old(arr).len() as int,
                    max_quotient as int,
                    true,
                )
            } else {
                cks_access_delta(old(arr).len() as int, divisor as int, true)
            },
        ),
        final(ic).mod_count == sat_add(
            old(ic).mod_count,
            if strategy is Arithmetic {
                old(arr).len() as int
            } else {
                0
            },
        ),
        final(ic).div_count == sat_add(
            old(ic).div_count,
            if strategy is Arithmetic && max_quotient > 1 {
                old(arr).len() as int
            } else {
                0
            },
        ),
        final(ic).bitwise_count == sat_add(
            old(ic).bitwise_count,
            if strategy is Bitwise {
                old(arr).len() + if max_quotient > 1 {
                    old(arr).len() as int
                } else {
                    0
                }
            } else {
                0
            },
        ),
        final(ic).algorithm_error == old(ic).algorithm_error,
{
    let n = arr.len();
    let ghost arr0 = arr@;
    let ghost ic0 = *ic;
    let ghost bb = base as int;
    let ghost dd = divisor as int;
    let ghost qq = max_quotient as int;
    let ghost kk = counting_arr.len() as int;
    let d_u = divisor as u64;
    let two_pass = max_quotient > 1;

    // Remainder keys.
    ic.array_access_count = sat_add_u128(ic.array_access_count, 2 * (n as u128));
    match strategy {
        KeyStrategy::Arithmetic => {
            ic.mod_count = sat_add_u128(ic.mod_count, n as u128);
        },
        KeyStrategy::Bitwise { shift: _ } => {
            ic.bitwise_count = sat_add_u128(ic.bitwise_count, n as u128);
        },
    }
    let mut keys: Vec<usize> = Vec::new();
    let mut i: usize = 0;
    while i < n
        invariant
            i <= n,
            arr@ == arr0,
            arr.len() == n,
            keys.len() == i,
            1 <= divisor <= i64::MAX,
            1 <= max_quotient <= i64::MAX,
            d_u == divisor as u64,
            bb == base as int,
            dd == divisor as int,
            forall|t: int| 0 <= t < n ==> base <= #[trigger] arr0[t],
            forall|t: int| 0 <= t < n ==> #[trigger] arr0[t] - bb < qq * dd,
            forall|t: int| 0 <= t < n ==> #[trigger] arr0[t] - bb < i64::MAX,
            qq == max_quotient as int,
            strategy matches KeyStrategy::Bitwise { shift } ==> shift < 64 && divisor as nat
                == pow2(shift as nat),
            forall|t: int| 0 <= t < i ==> #[trigger] keys@[t] as int == ((arr0[t] - bb) / 1) % dd,
            forall|t: int| 0 <= t < i ==> (#[trigger] keys@[t]) < divisor,
        decreases n - i,
    {
        let v = arr[i];
        proof {
            assert(qq * dd <= i64::MAX as int * i64::MAX as int) by (nonlinear_arith)
                requires
                    1 <= dd <= i64::MAX as int,
                    1 <= qq <= i64::MAX as int,
            ;
        }
        let off = (v - base) as u64;
        let dg: u64 = match strategy {
            KeyStrategy::Arithmetic => off % d_u,
            KeyStrategy::Bitwise { shift } => {
                proof {
                    vstd::bits::lemma_u64_low_bits_mask_is_mod(off, shift as nat);
                    assert((d_u - 1) as nat == vstd::bits::low_bits_mask(shift as nat));
                }
                off & (d_u - 1)
            },
        };
        proof {
            lemma_mod_division_less_than_divisor(off as int, dd);
        }
        keys.push(dg as usize);
        i = i + 1;
    }

    counting_key_sort(arr, aux_arr, counting_arr, divisor, &keys, !two_pass, ic);

    proof {
        let out1 = aux_arr@;
        let ki1 = keys_int(keys@);
        assert forall|t: int| 0 <= t < n implies #[trigger] ki1[t] == ((arr0[t] - bb) / 1)
            % dd by {
            assert(keys@[t] as int == ((arr0[t] - bb) / 1) % dd);
        }
        assert forall|a: int, b: int|
            0 <= a < b < n implies (arr0[a] - bb) % 1 <= (arr0[b] - bb) % 1 by {
            lemma_mod_division_less_than_divisor(arr0[a] - bb, 1);
            lemma_mod_division_less_than_divisor(arr0[b] - bb, 1);
        }
        assert forall|t: int| 0 <= t < n implies out1[place(ki1, t)] == arr0[t] by {}
        lemma_stable_pass_sorted(arr0, out1, ki1, bb, 1, dd);
        lemma_multiset_bounds(arr0, out1, bb, bb + qq * dd - 1);
        lemma_multiset_bounds(arr0, out1, bb, bb + i64::MAX - 1);
        assert(1 * dd == dd);
        if !two_pass {
            // All quotients are zero, so every offset is below the
            // divisor and the remainder order is the value order.
            assert forall|a: int, b: int| 0 <= a <= b < n implies out1[a] <= out1[b] by {
                if a < b {
                    assert(out1[a] - bb < 1 * dd);
                    assert(out1[b] - bb < 1 * dd);
                    lemma_small_mod((out1[a] - bb) as nat, dd as nat);
                    lemma_small_mod((out1[b] - bb) as nat, dd as nat);
                }
            }
        }
    }

    if two_pass {
        // Reset the table, derive the quotient keys from the
        // remainder-ordered buffer, and finish with the quotient pass.
        ic.array_access_count = sat_add_u128(ic.array_access_count, counting_arr.len() as u128);
        reset_counts(counting_arr);
        ic.array_access_count = sat_add_u128(ic.array_access_count, 2 * (n as u128));
        match strategy {
            KeyStrategy::Arithmetic => {
                ic.div_count = sat_add_u128(ic.div_count, n as u128);
            },
            KeyStrategy::Bitwise { shift: _ } => {
                ic.bitwise_count = sat_add_u128(ic.bitwise_count, n as u128);
            },
        }
        let ghost mid1 = aux_arr@;
        let mut t: usize = 0;
        while t < n
            invariant
                t <= n,
                aux_arr@ == mid1,
                aux_arr.len() == n,
                keys.len() == n,
                1 <= divisor <= i64::MAX,
                1 <= max_quotient <= i64::MAX,
                d_u == divisor as u64,
                bb == base as int,
                dd == divisor as int,
                qq == max_quotient as int,
                forall|u: int| 0 <= u < n ==> bb <= #[trigger] mid1[u] && mid1[u] - bb < qq * dd,
                forall|u: int| 0 <= u < n ==> #[trigger] mid1[u] - bb < i64::MAX,
                strategy matches KeyStrategy::Bitwise { shift } ==> shift < 64 && divisor as nat
                    == pow2(shift as nat),
                forall|u: int| 0 <= u < t ==> #[trigger] keys@[u] as int == (mid1[u] - bb) / dd,
                forall|u: int| 0 <= u < t ==> (#[trigger] keys@[u]) < max_quotient,
            decreases n - t,
        {
            let v = aux_arr[t];
            proof {
                assert(qq * dd <= i64::MAX as int * i64::MAX as int) by (nonlinear_arith)
                    requires
                        1 <= dd <= i64::MAX as int,
                        1 <= qq <= i64::MAX as int,
                ;
            }
            let off = (v - base) as u64;
            let dg: u64 = match strategy {
                KeyStrategy::Arithmetic => off / d_u,
                KeyStrategy::Bitwise { shift } => {
                    proof {
                        vstd::bits::lemma_u64_shr_is_div(off, shift as u64);
                    }
                    off >> (shift as u64)
                },
            };
            proof {
                lemma_div_pos_is_pos(off as int, dd);
                lemma_multiply_divide_lt(off as int, dd, qq);
            }
            keys.set(t, dg as usize);
            t = t + 1;
        }

        counting_key_sort(aux_arr, arr, counting_arr, max_quotient, &keys, true, ic);

        proof {
            let out2 = arr@;
            let ki2 = keys_int(keys@);
            assert forall|u: int| 0 <= u < n implies #[trigger] ki2[u] == ((mid1[u] - bb) / dd)
                % qq by {
                assert(keys@[u] as int == (mid1[u] - bb) / dd);
                lemma_div_pos_is_pos(mid1[u] - bb, dd);
                lemma_multiply_divide_lt(mid1[u] - bb, dd, qq);
                lemma_small_mod(((mid1[u] - bb) / dd) as nat, qq as nat);
            }
            assert forall|u: int| 0 <= u < n implies out2[place(ki2, u)] == mid1[u] by {}
            lemma_stable_pass_sorted(mid1, out2, ki2, bb, dd, qq);
            lemma_multiset_bounds(mid1, out2, bb, bb + qq * dd - 1);
            assert forall|a: int, b: int| 0 <= a <= b < n implies out2[a] <= out2[b] by {
                if a < b {
                    lemma_small_mod((out2[a] - bb) as nat, (dd * qq) as nat);
                    lemma_small_mod((out2[b] - bb) as nat, (dd * qq) as nat);
                    assert(dd * qq == qq * dd) by (nonlinear_arith);
                }
            }
            // Counter bookkeeping across the five access bumps.
            lemma_sat_add_chain(
                ic0.array_access_count,
                2 * n,
                cks_access_delta(n as int, dd, false),
            );
            lemma_sat_add_chain(
                ic0.array_access_count,
                2 * n + cks_access_delta(n as int, dd, false),
                kk,
            );
            lemma_sat_add_chain(
                ic0.array_access_count,
                2 * n + cks_access_delta(n as int, dd, false) + kk,
                2 * n,
            );
            lemma_sat_add_chain(
                ic0.array_access_count,
                2 * n + cks_access_delta(n as int, dd, false) + kk + 2 * n,
                cks_access_delta(n as int, qq, true),
            );
        }
    } else {
        proof {
            lemma_sat_add_chain(
                ic0.array_access_count,
                2 * n,
                cks_access_delta(n as int, dd, true),
            );
        }
    }
}

/// Sorts `arr` in place with the quotient-remainder scheme.  When
/// `use_bitwise` is set the divisor must be a power of two: any other
/// divisor records the error flag on the counter and returns the
/// sequence completely unmodified, the one soft error of the family.
/// `min_val_zero` asserts that the caller knows the minimum to be zero,
/// which skips nothing semantically — the offsets are the values
/// themselves.
pub fn sort(
    arr: &mut Vec<i64>,
    divisor: usize,
    min_val_zero: bool,
    use_bitwise: bool,
    ic: &mut InstructionCounter,
)
    requires
        old(arr).len() >= 1,
        1 <= divisor < i64::MAX,
        divisor < usize::MAX,
        seq_max(old(arr)@) - seq_min(old(arr)@) < i64::MAX,
        seq_max(old(arr)@) - seq_min(old(arr)@) < usize::MAX,
        min_val_zero ==> seq_min(old(arr)@) == 0,
    ensures
        final(arr).len() == old(arr).len(),
        use_bitwise && !is_pow_two(divisor as nat) ==> final(arr)@ == old(arr)@
            && final(ic).algorithm_error,
        !(use_bitwise && !is_pow_two(divisor as nat)) ==> sorted(final(arr)@)
            && final(arr)@.to_multiset() == old(arr)@.to_multiset()
            && final(ic).algorithm_error == old(ic).algorithm_error,
        final(ic).comparison_count == sat_add(
            old(ic).comparison_count,
            2 * (old(arr).len() - 1) + 1,
        ),
        final(ic).array_access_count == sat_add(
            old(ic).array_access_count,
            if use_bitwise && !is_pow_two(divisor as nat) {
                old(arr).len() as int
            } else {
                qr_access_delta(
                    old(arr).len() as int,
                    divisor as int,
                    seq_max(old(arr)@) - seq_min(old(arr)@),
                )
            },
        ),
        final(ic).mod_count == sat_add(
            old(ic).mod_count,
            if use_bitwise {
                0
            } else {
                old(arr).len() as int
            },
        ),
        final(ic).div_count == sat_add(
            old(ic).div_count,
            if use_bitwise && !is_pow_two(divisor as nat) {
                1
            } else {
                qr_div_delta(
                    old(arr).len() as int,
                    divisor as int,
                    seq_max(old(arr)@) - seq_min(old(arr)@),
                    use_bitwise,
                )
            },
        ),
        final(ic).bitwise_count == sat_add(
            old(ic).bitwise_count,
            if use_bitwise && !is_pow_two(divisor as nat) {
                0
            } else {
                qr_bitwise_delta(
                    old(arr).len() as int,
                    divisor as int,
                    seq_max(old(arr)@) - seq_min(old(arr)@),
                    use_bitwise,
                )
            },
        ),
{
    let n = arr.len();
    let ghost arr0 = arr@;
    let (min_v, max_v) = find_min_max(&*arr);
    ic.comparison_count = sat_add_u128(ic.comparison_count, 2 * ((n - 1) as u128));
    ic.array_access_count = sat_add_u128(ic.array_access_count, n as u128);
    let range = max_v - min_v;
    let ghost rg = range as int;
    let ghost dd = divisor as int;

    ic.div_count = sat_add_u128(ic.div_count, 1);
    let d_u = divisor as u64;
    let max_quotient = ((range as u64) / d_u + 1) as usize;
    proof {
        assert(max_quotient as int == qr_max_quotient(rg, dd));
        lemma_div_pos_is_pos(rg, dd);
        vstd::arithmetic::div_mod::lemma_div_is_ordered(rg, i64::MAX - 1, dd);
        vstd::arithmetic::div_mod::lemma_div_nonincreasing(rg, dd);
    }
    ic.comparison_count = sat_add_u128(ic.comparison_count, 1);
    proof {
        lemma_sat_add_chain(old(ic).comparison_count, 2 * (n - 1), 1);
    }
    let k = if divisor > max_quotient {
        divisor + 1
    } else {
        max_quotient
    };

    let strategy: KeyStrategy;
    if use_bitwise {
        match pow2_log(d_u) {
            Some(p) => {
                proof {
                    assert(is_pow_two(divisor as nat));
                }
                strategy = KeyStrategy::Bitwise { shift: p };
            },
            None => {
                // Soft error: the divisor is not a power of two, so the
                // bitwise digit extraction cannot be used.  Record the
                // flag and leave the sequence unmodified.
                proof {
                    assert(!is_pow_two(divisor as nat));
                }
                ic.algorithm_error = true;
                return ;
            },
        }
    } else {
        strategy = KeyStrategy::Arithmetic;
    }

    let base = if min_val_zero {
        0
    } else {
        min_v
    };
    let mut aux_arr = zeroed_slots(n);
    let mut counting_arr = zeroed_counts(k);
    proof {
        // Every offset lies below `max_quotient * divisor`.
        lemma_fundamental_div_mod(rg, dd);
        lemma_mod_division_less_than_divisor(rg, dd);
        assert(rg < (rg / dd + 1) * dd) by (nonlinear_arith)
            requires
                dd >= 1,
                rg == dd * (rg / dd) + rg % dd,
                0 <= rg % dd < dd,
        ;
        assert(base as int == min_v as int);
    }
    qr_sort(arr, &mut aux_arr, &mut counting_arr, divisor, max_quotient, base, strategy, ic);
}

} // verus!
