//! Digit-position arithmetic for the multi-pass sorts: how many passes a
//! radix sort needs, integer square roots for the quotient-remainder
//! divisor, and the lexicographic order that a quotient/remainder pair
//! induces.

use vstd::arithmetic::div_mod::{
    lemma_fundamental_div_mod, lemma_mod_division_less_than_divisor,
};
use vstd::arithmetic::mul::{lemma_mul_inequality, lemma_mul_is_commutative};
use vstd::arithmetic::power::{lemma_pow_increases, pow};
use vstd::prelude::*;

verus! {

/// Number of digit positions needed to represent `range` in base `radix`:
/// zero for an empty range, otherwise one more than for the range shrunk
/// by one base division.
pub open spec fn digit_count(range: int, radix: int) -> nat
    decreases range,
    via digit_count_decreases
{
    if range <= 0 || radix <= 1 {
        0
    } else {
        1 + digit_count(range / radix, radix)
    }
}

#[via_fn]
proof fn digit_count_decreases(range: int, radix: int) {
    if range > 0 && radix > 1 {
        vstd::arithmetic::div_mod::lemma_div_is_strictly_smaller(range, radix);
        vstd::arithmetic::div_mod::lemma_div_pos_is_pos(range, radix);
    }
}

/// `digit_count` is the least number of digits that covers the range:
/// `radix^digit_count` exceeds `range`, while one digit fewer does not.
pub proof fn lemma_digit_count_minimal(range: int, radix: int)
    requires
        radix >= 2,
        range >= 0,
    ensures
        pow(radix, digit_count(range, radix)) > range,
        digit_count(range, radix) > 0 ==> pow(radix, (digit_count(range, radix) - 1) as nat)
            <= range,
        (digit_count(range, radix) == 0) <==> (range == 0),
    decreases range,
{
    vstd::arithmetic::power::lemma_pow0(radix);
    if range > 0 {
        lemma_fundamental_div_mod(range, radix);
        lemma_mod_division_less_than_divisor(range, radix);
        vstd::arithmetic::div_mod::lemma_div_pos_is_pos(range, radix);
        vstd::arithmetic::div_mod::lemma_div_is_strictly_smaller(range, radix);
        let sub = range / radix;
        lemma_digit_count_minimal(sub, radix);
        let d = digit_count(sub, radix);
        assert(pow(radix, d + 1) == radix * pow(radix, d)) by {
            vstd::arithmetic::power::lemma_pow_adds(radix, d, 1);
            vstd::arithmetic::power::lemma_pow1(radix);
            lemma_mul_is_commutative(pow(radix, d), radix);
        }
        assert(radix * (sub + 1) <= radix * pow(radix, d)) by {
            lemma_mul_inequality(sub + 1, pow(radix, d), radix);
            lemma_mul_is_commutative(sub + 1, radix);
            lemma_mul_is_commutative(pow(radix, d), radix);
        }
        assert(range < radix * (sub + 1)) by {
            vstd::arithmetic::mul::lemma_mul_is_distributive_add(radix, sub, 1);
        }
        if d > 0 {
            assert(pow(radix, d) == radix * pow(radix, (d - 1) as nat)) by {
                vstd::arithmetic::power::lemma_pow_adds(radix, (d - 1) as nat, 1);
                vstd::arithmetic::power::lemma_pow1(radix);
                lemma_mul_is_commutative(pow(radix, (d - 1) as nat), radix);
            }
            assert(radix * pow(radix, (d - 1) as nat) <= radix * sub) by {
                lemma_mul_inequality(pow(radix, (d - 1) as nat), sub, radix);
                lemma_mul_is_commutative(pow(radix, (d - 1) as nat), radix);
                lemma_mul_is_commutative(sub, radix);
            }
            assert(radix * sub <= range);
        } else {
            assert(pow(radix, 0nat) == 1);
        }
    }
}

/// A power of the radix stays within the range exactly while more digits
/// are still needed.
pub proof fn lemma_digit_count_threshold(range: int, radix: int, j: nat)
    requires
        radix >= 2,
        range >= 0,
    ensures
        (pow(radix, j) <= range) <==> (j < digit_count(range, radix)),
{
    let d = digit_count(range, radix);
    lemma_digit_count_minimal(range, radix);
    if j < d {
        lemma_pow_increases(radix as nat, j, (d - 1) as nat);
    } else {
        lemma_pow_increases(radix as nat, d, j);
    }
}

/// Finds the exponent of a power of two: `Some(p)` exactly when
/// `d == 2^p`.
pub fn pow2_log(d: u64) -> (r: Option<u32>)
    ensures
        match r {
            Some(p) => p < 64 && d as nat == vstd::arithmetic::power2::pow2(p as nat),
            None => forall|p: nat| p < 64 ==> d as nat != vstd::arithmetic::power2::pow2(p),
        },
{
    let mut p: u32 = 0;
    while p < 64
        invariant
            p <= 64,
            forall|q: nat| q < p ==> d as nat != vstd::arithmetic::power2::pow2(q),
        decreases 64 - p,
    {
        proof {
            vstd::bits::lemma_u64_pow2_no_overflow(p as nat);
            vstd::bits::lemma_u64_shl_is_mul(1u64, p as u64);
        }
        if (1u64 << (p as u64)) == d {
            return Some(p);
        }
        p = p + 1;
    }
    None
}

/// The composite quotient-remainder key under any positive divisor
/// induces exactly the numeric order: comparing first quotients, then
/// remainders, agrees with comparing the values themselves.  This is why
/// a stable remainder pass followed by a quotient pass reconstructs full
/// numeric order.
pub proof fn lemma_qr_order_equiv(x: i64, y: i64, lo: int, d: int)
    requires
        d >= 1,
        lo <= x,
        lo <= y,
    ensures
        (x <= y) <==> ((x - lo) / d < (y - lo) / d || ((x - lo) / d == (y - lo) / d && (x - lo) % d
            <= (y - lo) % d)),
{
    let a = x - lo;
    let b = y - lo;
    lemma_fundamental_div_mod(a, d);
    lemma_fundamental_div_mod(b, d);
    lemma_mod_division_less_than_divisor(a, d);
    lemma_mod_division_less_than_divisor(b, d);
    vstd::arithmetic::div_mod::lemma_div_pos_is_pos(a, d);
    vstd::arithmetic::div_mod::lemma_div_pos_is_pos(b, d);
    if a / d < b / d {
        assert(d * (a / d) + d <= d * (b / d)) by (nonlinear_arith)
            requires
                a / d < b / d,
                d >= 1,
        ;
        assert(a < b);
    } else if b / d < a / d {
        assert(d * (b / d) + d <= d * (a / d)) by (nonlinear_arith)
            requires
                b / d < a / d,
                d >= 1,
        ;
        assert(b < a);
    } else {
        assert(a <= b <==> a % d <= b % d);
    }
}

/// Integer square root by binary search: the largest `r` with
/// `r * r <= x`.
pub fn isqrt_i64(x: i64) -> (r: i64)
    requires
        x >= 0,
    ensures
        r >= 0,
        r * r <= x,
        (r + 1) * (r + 1) > x,
{
    let xu = x as u64;
    let mut lo: u64 = 0;
    let mut hi: u64 = 3037000500;
    proof {
        assert(3037000500u64 * 3037000500u64 > i64::MAX as u64) by (nonlinear_arith);
    }
    while lo + 1 < hi
        invariant
            lo < hi <= 3037000500,
            xu <= i64::MAX as u64,
            lo * lo <= xu,
            hi * hi > xu,
        decreases hi - lo,
    {
        let mid = lo + (hi - lo) / 2;
        proof {
            assert(mid * mid < u64::MAX) by (nonlinear_arith)
                requires
                    mid <= 3037000500u64,
            ;
        }
        if mid * mid <= xu {
            lo = mid;
        } else {
            hi = mid;
        }
    }
    proof {
        let l = lo as int;
        let h = hi as int;
        assert(h == l + 1);
        assert(h * h > xu as int);
        assert((l + 1) * (l + 1) == h * h);
        assert(xu as int == x as int);
    }
    lo as i64
}

} // verus!
