//! The mathematical model of the stable counting key sort: key-occurrence
//! counts over a sequence of integer keys, and the output slot (`place`)
//! that the primitive gives to each input position.  The lemmas here are
//! the whole story of the primitive: the placement is a bijection that
//! orders elements by key and keeps the input order among equal keys.

use vstd::prelude::*;

verus! {

/// Number of positions `j` with `0 <= j < i` whose key equals `b`.
pub open spec fn cnt_eq(ks: Seq<int>, b: int, i: int) -> int
    decreases i,
{
    if i <= 0 {
        0
    } else {
        cnt_eq(ks, b, i - 1) + if ks[i - 1] == b {
            1int
        } else {
            0int
        }
    }
}

/// Number of positions `j` with `0 <= j < i` whose key is at most `b`.
pub open spec fn cnt_le(ks: Seq<int>, b: int, i: int) -> int
    decreases i,
{
    if i <= 0 {
        0
    } else {
        cnt_le(ks, b, i - 1) + if ks[i - 1] <= b {
            1int
        } else {
            0int
        }
    }
}

/// Every key lies in the key space `[0, k)`.
pub open spec fn valid_keys(ks: Seq<int>, k: int) -> bool {
    forall|i: int| 0 <= i < ks.len() ==> 0 <= #[trigger] ks[i] < k
}

/// The output slot that a stable key sort assigns to input position `i`:
/// all elements with a strictly smaller key come first, then the earlier
/// occurrences of the same key.
pub open spec fn place(ks: Seq<int>, i: int) -> int {
    cnt_le(ks, ks[i] - 1, ks.len() as int) + cnt_eq(ks, ks[i], i + 1) - 1
}

/// Both counts are non-negative, at most `i`, and `cnt_eq` never exceeds
/// `cnt_le` at the same bound.
pub proof fn lemma_cnt_bounds(ks: Seq<int>, b: int, i: int)
    ensures
        0 <= cnt_eq(ks, b, i) <= i || i < 0,
        0 <= cnt_le(ks, b, i) <= i || i < 0,
        cnt_eq(ks, b, i) <= cnt_le(ks, b, i),
    decreases i,
{
    if i > 0 {
        lemma_cnt_bounds(ks, b, i - 1);
    }
}

/// Both counts grow monotonically with the scanned prefix.
pub proof fn lemma_cnt_mono(ks: Seq<int>, b: int, i: int, j: int)
    requires
        i <= j,
    ensures
        cnt_eq(ks, b, i) <= cnt_eq(ks, b, j),
        cnt_le(ks, b, i) <= cnt_le(ks, b, j),
    decreases j - i,
{
    if i < j {
        lemma_cnt_mono(ks, b, i, j - 1);
    }
}

/// `cnt_le` grows monotonically with the key bound.
pub proof fn lemma_cnt_le_mono_key(ks: Seq<int>, b1: int, b2: int, i: int)
    requires
        b1 <= b2,
    ensures
        cnt_le(ks, b1, i) <= cnt_le(ks, b2, i),
    decreases i,
{
    if i > 0 {
        lemma_cnt_le_mono_key(ks, b1, b2, i - 1);
    }
}

/// Counting keys at most `b` splits into keys at most `b - 1` plus keys
/// equal to `b`.
pub proof fn lemma_cnt_split(ks: Seq<int>, b: int, i: int)
    ensures
        cnt_le(ks, b, i) == cnt_le(ks, b - 1, i) + cnt_eq(ks, b, i),
    decreases i,
{
    if i > 0 {
        lemma_cnt_split(ks, b, i - 1);
    }
}

/// When every scanned key exceeds `b`, no key is counted.
pub proof fn lemma_cnt_le_none(ks: Seq<int>, b: int, i: int)
    requires
        forall|j: int| 0 <= j < i ==> #[trigger] ks[j] > b,
    ensures
        cnt_le(ks, b, i) == 0,
    decreases i,
{
    if i > 0 {
        lemma_cnt_le_none(ks, b, i - 1);
    }
}

/// When every scanned key is at most `b`, every key is counted.
pub proof fn lemma_cnt_le_all(ks: Seq<int>, b: int, i: int)
    requires
        forall|j: int| 0 <= j < i ==> #[trigger] ks[j] <= b,
    ensures
        cnt_le(ks, b, i) == i || i < 0,
    decreases i,
{
    if i > 0 {
        lemma_cnt_le_all(ks, b, i - 1);
    }
}

/// When every scanned key equals `b`, `cnt_eq` counts every position.
pub proof fn lemma_cnt_eq_all(ks: Seq<int>, b: int, i: int)
    requires
        forall|j: int| 0 <= j < i ==> #[trigger] ks[j] == b,
    ensures
        cnt_eq(ks, b, i) == i || i < 0,
    decreases i,
{
    if i > 0 {
        lemma_cnt_eq_all(ks, b, i - 1);
    }
}

/// Every input position is placed inside the output range.
pub proof fn lemma_place_bounds(ks: Seq<int>, k: int, i: int)
    requires
        valid_keys(ks, k),
        0 <= i < ks.len(),
    ensures
        0 <= place(ks, i) < ks.len(),
{
    let n = ks.len() as int;
    let b = ks[i];
    lemma_cnt_bounds(ks, b - 1, n);
    assert(cnt_eq(ks, b, i + 1) == cnt_eq(ks, b, i) + 1);
    lemma_cnt_bounds(ks, b, i);
    lemma_cnt_mono(ks, b, i + 1, n);
    lemma_cnt_split(ks, b, n);
    lemma_cnt_bounds(ks, b, n);
}

/// How two distinct input positions are placed: a strictly smaller key is
/// placed first, and equal keys keep their input order (the stability of
/// the primitive).
pub proof fn lemma_place_order(ks: Seq<int>, i: int, j: int)
    requires
        0 <= i < j < ks.len(),
    ensures
        ks[i] <= ks[j] ==> place(ks, i) < place(ks, j),
        ks[i] > ks[j] ==> place(ks, i) > place(ks, j),
{
    let n = ks.len() as int;
    let bi = ks[i];
    let bj = ks[j];
    assert(cnt_eq(ks, bi, i + 1) == cnt_eq(ks, bi, i) + 1);
    assert(cnt_eq(ks, bj, j + 1) == cnt_eq(ks, bj, j) + 1);
    if bi == bj {
        lemma_cnt_mono(ks, bi, i + 1, j);
    } else if bi < bj {
        // place(i) ends before the block of key bi ends; place(j) starts at
        // or after the block of key bj begins.
        lemma_cnt_mono(ks, bi, i + 1, n);
        lemma_cnt_split(ks, bi, n);
        lemma_cnt_le_mono_key(ks, bi, bj - 1, n);
        lemma_cnt_bounds(ks, bj, j);
    } else {
        lemma_cnt_mono(ks, bj, j + 1, n);
        lemma_cnt_split(ks, bj, n);
        lemma_cnt_le_mono_key(ks, bj, bi - 1, n);
        lemma_cnt_bounds(ks, bi, i);
    }
}

/// The placement never sends two positions to the same slot.
pub proof fn lemma_place_injective(ks: Seq<int>, i: int, j: int)
    requires
        0 <= i < ks.len(),
        0 <= j < ks.len(),
        i != j,
    ensures
        place(ks, i) != place(ks, j),
{
    if i < j {
        lemma_place_order(ks, i, j);
    } else {
        lemma_place_order(ks, j, i);
    }
}

/// The set of output slots taken by the first `m` input positions.
pub open spec fn places_upto(ks: Seq<int>, m: int) -> Set<int> {
    Set::new(|q: int| exists|i: int| 0 <= i < m && place(ks, i) == q)
}

proof fn lemma_places_upto_card(ks: Seq<int>, k: int, m: int)
    requires
        valid_keys(ks, k),
        0 <= m <= ks.len(),
    ensures
        places_upto(ks, m).finite(),
        places_upto(ks, m).len() == m,
    decreases m,
{
    if m == 0 {
        assert(places_upto(ks, 0) =~= Set::<int>::empty());
    } else {
        lemma_places_upto_card(ks, k, m - 1);
        let p = place(ks, m - 1);
        assert(places_upto(ks, m) =~= places_upto(ks, m - 1).insert(p)) by {
            assert forall|q: int| places_upto(ks, m).contains(q) implies places_upto(
                ks,
                m - 1,
            ).insert(p).contains(q) by {
                let i = choose|i: int| 0 <= i < m && place(ks, i) == q;
                if i < m - 1 {
                    assert(places_upto(ks, m - 1).contains(q));
                }
            }
            assert forall|q: int| places_upto(ks, m - 1).insert(p).contains(q) implies places_upto(
                ks,
                m,
            ).contains(q) by {
                if q == p {
                    assert(place(ks, m - 1) == q);
                } else {
                    let i = choose|i: int| 0 <= i < m - 1 && place(ks, i) == q;
                    assert(place(ks, i) == q);
                }
            }
        }
        assert(!places_upto(ks, m - 1).contains(p)) by {
            if places_upto(ks, m - 1).contains(p) {
                let i = choose|i: int| 0 <= i < m - 1 && place(ks, i) == p;
                lemma_place_injective(ks, i, m - 1);
            }
        }
    }
}

/// Every output slot is taken by some input position: together with
/// injectivity, each slot is written exactly once — no collisions and no
/// gaps.
pub proof fn lemma_place_surjective(ks: Seq<int>, k: int, p: int)
    requires
        valid_keys(ks, k),
        0 <= p < ks.len(),
    ensures
        exists|i: int| 0 <= i < ks.len() && place(ks, i) == p,
{
    let n = ks.len() as int;
    let s = places_upto(ks, n);
    lemma_places_upto_card(ks, k, n);
    let r = vstd::set_lib::set_int_range(0, n);
    vstd::set_lib::lemma_int_range(0, n);
    assert forall|q: int| s.contains(q) implies r.contains(q) by {
        let i = choose|i: int| 0 <= i < n && place(ks, i) == q;
        lemma_place_bounds(ks, k, i);
    }
    if !s.contains(p) {
        let r2 = r.remove(p);
        assert(s.subset_of(r2));
        vstd::set_lib::lemma_len_subset(s, r2);
        assert(false);
    }
    let i = choose|i: int| 0 <= i < n && place(ks, i) == p;
    assert(0 <= i < ks.len() && place(ks, i) == p);
}

/// A sequence rearranged by any injective in-range position map keeps its
/// multiset of values.
pub proof fn lemma_bijection_multiset(a: Seq<i64>, out: Seq<i64>, p: Seq<int>)
    requires
        out.len() == a.len(),
        p.len() == a.len(),
        forall|i: int| 0 <= i < p.len() ==> 0 <= #[trigger] p[i] < out.len(),
        forall|i: int, j: int| 0 <= i < j < p.len() ==> p[i] != p[j],
        forall|i: int| 0 <= i < p.len() ==> out[#[trigger] p[i]] == a[i],
    ensures
        out.to_multiset() == a.to_multiset(),
    decreases a.len(),
{
    broadcast use vstd::seq_lib::group_to_multiset_ensures;
    broadcast use vstd::multiset::group_multiset_axioms;

    if a.len() == 0 {
        assert(out =~= a);
    } else {
        let n = a.len() as int;
        let j = p[n - 1];
        let a2 = a.drop_last();
        let out2 = out.remove(j);
        let p2 = Seq::new(
            (n - 1) as nat,
            |i: int|
                if p[i] < j {
                    p[i]
                } else {
                    p[i] - 1
                },
        );
        assert forall|i: int| 0 <= i < p2.len() implies 0 <= #[trigger] p2[i] < out2.len() by {
            assert(p[i] != j);
        }
        assert forall|i: int, i2: int| 0 <= i < i2 < p2.len() implies p2[i] != p2[i2] by {
            assert(p[i] != j);
            assert(p[i2] != j);
            assert(p[i] != p[i2]);
        }
        assert forall|i: int| 0 <= i < p2.len() implies out2[#[trigger] p2[i]] == a2[i] by {
            assert(p[i] != j);
            if p[i] < j {
                assert(out2[p2[i]] == out[p[i]]);
            } else {
                assert(out2[p2[i]] == out[(p2[i] + 1)]);
            }
        }
        lemma_bijection_multiset(a2, out2, p2);
        assert(out2.to_multiset() =~= out.to_multiset().remove(out[j]));
        assert(out.contains(out[j]));
        assert(out.to_multiset().count(out[j]) > 0);
        assert(out.to_multiset().remove(out[j]).insert(out[j]) =~= out.to_multiset());
        assert(a =~= a2.push(a[n - 1]));
        assert(a.to_multiset() =~= a2.to_multiset().insert(a[n - 1]));
        assert(out[j] == a[n - 1]);
        assert(out.to_multiset() =~= a.to_multiset());
    }
}

/// Sum of the per-key frequencies of all keys below `b`.
pub open spec fn freq_sum(ks: Seq<int>, b: int) -> int
    decreases b,
{
    if b <= 0 {
        0
    } else {
        freq_sum(ks, b - 1) + cnt_eq(ks, b - 1, ks.len() as int)
    }
}

proof fn lemma_freq_sum_prefix(ks: Seq<int>, k: int, b: int)
    requires
        valid_keys(ks, k),
        b >= 0,
    ensures
        freq_sum(ks, b) == cnt_le(ks, b - 1, ks.len() as int),
    decreases b,
{
    let n = ks.len() as int;
    if b == 0 {
        lemma_cnt_le_none(ks, -1, n);
    } else {
        lemma_freq_sum_prefix(ks, k, b - 1);
        lemma_cnt_split(ks, b - 1, n);
    }
}

/// The counting table is balanced: after the frequency pass the per-key
/// counts over the whole key space sum to the sequence length.
pub proof fn lemma_counting_table_balance(ks: Seq<int>, k: int)
    requires
        valid_keys(ks, k),
        k >= 0,
    ensures
        freq_sum(ks, k) == ks.len(),
{
    let n = ks.len() as int;
    lemma_freq_sum_prefix(ks, k, k);
    lemma_cnt_le_all(ks, k - 1, n);
}

proof fn lemma_cnt_shift(ks: Seq<int>, sh: Seq<int>, c: int, b: int, i: int)
    requires
        sh.len() == ks.len(),
        forall|j: int| 0 <= j < ks.len() ==> #[trigger] sh[j] == ks[j] - c,
        i <= ks.len(),
    ensures
        cnt_eq(sh, b - c, i) == cnt_eq(ks, b, i),
        cnt_le(sh, b - c, i) == cnt_le(ks, b, i),
    decreases i,
{
    if i > 0 {
        lemma_cnt_shift(ks, sh, c, b, i - 1);
    }
}

/// Shifting every key by the same constant does not move any element: the
/// placement depends only on the relative order of the keys.
pub proof fn lemma_place_shift(ks: Seq<int>, sh: Seq<int>, c: int, i: int)
    requires
        sh.len() == ks.len(),
        forall|j: int| 0 <= j < ks.len() ==> #[trigger] sh[j] == ks[j] - c,
        0 <= i < ks.len(),
    ensures
        place(sh, i) == place(ks, i),
{
    let n = ks.len() as int;
    lemma_cnt_shift(ks, sh, c, ks[i] - 1, n);
    lemma_cnt_shift(ks, sh, c, ks[i], i + 1);
    assert(sh[i] - 1 == ks[i] - 1 - c);
}

/// The mathematical view of an executable key array.
pub open spec fn keys_int(ks: Seq<usize>) -> Seq<int> {
    Seq::new(ks.len(), |i: int| ks[i] as int)
}

/// The mathematical view of a signed key array.
pub open spec fn vals_int(s: Seq<i64>) -> Seq<int> {
    Seq::new(s.len(), |i: int| s[i] as int)
}

/// When every key is the same, the placement is the identity: a uniform
/// sequence is already in stable order.
pub proof fn lemma_place_uniform(ks: Seq<int>, i: int)
    requires
        0 <= i < ks.len(),
        forall|j: int| 0 <= j < ks.len() ==> #[trigger] ks[j] == ks[i],
    ensures
        place(ks, i) == i,
{
    let n = ks.len() as int;
    let b = ks[i];
    lemma_cnt_le_none(ks, b - 1, n);
    lemma_cnt_eq_all(ks, b, i + 1);
}

/// An output that realizes the placement of a key sequence is sorted by
/// the keys of its elements, for any key function the keys were drawn
/// from.
pub proof fn lemma_placement_sorted_by_keys(
    a: Seq<i64>,
    out: Seq<i64>,
    ks: Seq<int>,
    k: int,
    key_of: spec_fn(i64) -> int,
)
    requires
        ks.len() == a.len(),
        out.len() == a.len(),
        valid_keys(ks, k),
        forall|i: int| 0 <= i < a.len() ==> #[trigger] ks[i] == key_of(a[i]),
        forall|i: int| 0 <= i < a.len() ==> out[place(ks, i)] == #[trigger] a[i],
    ensures
        forall|p: int, q: int|
            0 <= p <= q < out.len() ==> key_of(#[trigger] out[p]) <= key_of(#[trigger] out[q]),
{
    let n = a.len() as int;
    assert forall|p: int, q: int| 0 <= p <= q < n implies key_of(#[trigger] out[p]) <= key_of(
        #[trigger] out[q],
    ) by {
        if p < q {
            lemma_place_surjective(ks, k, p);
            lemma_place_surjective(ks, k, q);
            let i = choose|i: int| 0 <= i < n && place(ks, i) == p;
            let j = choose|j: int| 0 <= j < n && place(ks, j) == q;
            if i < j {
                lemma_place_order(ks, i, j);
            } else if j < i {
                lemma_place_order(ks, j, i);
            }
            assert(out[p] == a[i]);
            assert(out[q] == a[j]);
        }
    }
}

/// One stable pass over digit `(v - lo) / e % r` refines an input already
/// sorted by `(v - lo) % e` into an output sorted by `(v - lo) % (e * r)`:
/// the stable tie-break among equal digits keeps the low-part order.  This
/// is the induction step of every least-significant-digit sort.
pub proof fn lemma_stable_pass_sorted(a: Seq<i64>, out: Seq<i64>, ks: Seq<int>, lo: int, e: int, r: int)
    requires
        ks.len() == a.len(),
        out.len() == a.len(),
        e >= 1,
        r >= 1,
        forall|i: int| 0 <= i < a.len() ==> lo <= #[trigger] a[i],
        forall|i: int| 0 <= i < a.len() ==> #[trigger] ks[i] == ((a[i] - lo) / e) % r,
        forall|i: int, j: int|
            0 <= i < j < a.len() ==> (#[trigger] a[i] - lo) % e <= (#[trigger] a[j] - lo) % e,
        forall|i: int| 0 <= i < a.len() ==> out[place(ks, i)] == #[trigger] a[i],
    ensures
        forall|p: int, q: int|
            0 <= p <= q < out.len() ==> (#[trigger] out[p] - lo) % (e * r) <= (#[trigger] out[q]
                - lo) % (e * r),
{
    let n = a.len() as int;
    assert(valid_keys(ks, r)) by {
        assert forall|i: int| 0 <= i < ks.len() implies 0 <= #[trigger] ks[i] < r by {
            vstd::arithmetic::div_mod::lemma_div_pos_is_pos(a[i] - lo, e);
            vstd::arithmetic::div_mod::lemma_mod_division_less_than_divisor((a[i] - lo) / e, r);
        }
    }
    assert forall|p: int, q: int| 0 <= p <= q < n implies (#[trigger] out[p] - lo) % (e * r) <= (
    #[trigger] out[q] - lo) % (e * r) by {
        if p < q {
            lemma_place_surjective(ks, r, p);
            lemma_place_surjective(ks, r, q);
            let i = choose|i: int| 0 <= i < n && place(ks, i) == p;
            let j = choose|j: int| 0 <= j < n && place(ks, j) == q;
            if i < j {
                lemma_place_order(ks, i, j);
            } else if j < i {
                lemma_place_order(ks, j, i);
            }
            // Either the digits differ strictly, or they tie and the pass
            // was fed the positions in input order.
            let x = a[i] - lo;
            let y = a[j] - lo;
            vstd::arithmetic::div_mod::lemma_breakdown(x, e, r);
            vstd::arithmetic::div_mod::lemma_breakdown(y, e, r);
            vstd::arithmetic::div_mod::lemma_mod_division_less_than_divisor(x, e);
            vstd::arithmetic::div_mod::lemma_mod_division_less_than_divisor(y, e);
            if ks[i] < ks[j] {
                assert(e * ((x / e) % r) + e <= e * ((y / e) % r)) by {
                    vstd::arithmetic::mul::lemma_mul_inequality(
                        (x / e) % r + 1,
                        (y / e) % r,
                        e,
                    );
                    vstd::arithmetic::mul::lemma_mul_is_distributive_add(e, (x / e) % r, 1);
                    vstd::arithmetic::mul::lemma_mul_is_commutative(e, (x / e) % r + 1);
                    vstd::arithmetic::mul::lemma_mul_is_commutative(e, (y / e) % r);
                }
            } else {
                assert(ks[i] == ks[j] && i < j);
                assert(x % e <= y % e);
            }
        }
    }
}

/// Swapping two elements of a sequence keeps its multiset of values.
pub proof fn lemma_swap_multiset(s: Seq<i64>, x: int, y: int)
    requires
        0 <= x < s.len(),
        0 <= y < s.len(),
    ensures
        s.update(x, s[y]).update(y, s[x]).to_multiset() == s.to_multiset(),
{
    broadcast use vstd::seq_lib::group_to_multiset_ensures;
    broadcast use vstd::multiset::group_multiset_axioms;

    if x == y {
        assert(s.update(x, s[y]).update(y, s[x]) =~= s);
    } else {
        let s1 = s.update(x, s[y]);
        let s2 = s1.update(y, s[x]);
        vstd::seq_lib::to_multiset_update(s, x, s[y]);
        vstd::seq_lib::to_multiset_update(s1, y, s[x]);
        assert(s1[y] == s[y]);
        assert(s.to_multiset().contains(s[x]));
        assert(s2.to_multiset() =~= s.to_multiset());
    }
}

/// Two sequences that agree outside a window and whose windows hold the
/// same multiset hold the same multiset overall.
pub proof fn lemma_multiset_middle_replace(s1: Seq<i64>, s2: Seq<i64>, lo: int, hi: int)
    requires
        s1.len() == s2.len(),
        0 <= lo <= hi <= s1.len(),
        forall|t: int| 0 <= t < s1.len() && !(lo <= t < hi) ==> s1[t] == s2[t],
        s1.subrange(lo, hi).to_multiset() == s2.subrange(lo, hi).to_multiset(),
    ensures
        s1.to_multiset() == s2.to_multiset(),
{
    let n = s1.len() as int;
    assert(s1 =~= s1.subrange(0, lo) + s1.subrange(lo, hi) + s1.subrange(hi, n));
    assert(s2 =~= s2.subrange(0, lo) + s2.subrange(lo, hi) + s2.subrange(hi, n));
    assert(s1.subrange(0, lo) =~= s2.subrange(0, lo));
    assert(s1.subrange(hi, n) =~= s2.subrange(hi, n));
    vstd::seq_lib::lemma_multiset_commutative(
        s1.subrange(0, lo) + s1.subrange(lo, hi),
        s1.subrange(hi, n),
    );
    vstd::seq_lib::lemma_multiset_commutative(s1.subrange(0, lo), s1.subrange(lo, hi));
    vstd::seq_lib::lemma_multiset_commutative(
        s2.subrange(0, lo) + s2.subrange(lo, hi),
        s2.subrange(hi, n),
    );
    vstd::seq_lib::lemma_multiset_commutative(s2.subrange(0, lo), s2.subrange(lo, hi));
}

/// The converse: equal multisets overall and agreement outside a window
/// force the windows to hold the same multiset.
pub proof fn lemma_multiset_middle_extract(s1: Seq<i64>, s2: Seq<i64>, lo: int, hi: int)
    requires
        s1.len() == s2.len(),
        0 <= lo <= hi <= s1.len(),
        forall|t: int| 0 <= t < s1.len() && !(lo <= t < hi) ==> s1[t] == s2[t],
        s1.to_multiset() == s2.to_multiset(),
    ensures
        s1.subrange(lo, hi).to_multiset() == s2.subrange(lo, hi).to_multiset(),
{
    broadcast use vstd::multiset::group_multiset_axioms;

    let n = s1.len() as int;
    assert(s1 =~= s1.subrange(0, lo) + s1.subrange(lo, hi) + s1.subrange(hi, n));
    assert(s2 =~= s2.subrange(0, lo) + s2.subrange(lo, hi) + s2.subrange(hi, n));
    assert(s1.subrange(0, lo) =~= s2.subrange(0, lo));
    assert(s1.subrange(hi, n) =~= s2.subrange(hi, n));
    vstd::seq_lib::lemma_multiset_commutative(
        s1.subrange(0, lo) + s1.subrange(lo, hi),
        s1.subrange(hi, n),
    );
    vstd::seq_lib::lemma_multiset_commutative(s1.subrange(0, lo), s1.subrange(lo, hi));
    vstd::seq_lib::lemma_multiset_commutative(
        s2.subrange(0, lo) + s2.subrange(lo, hi),
        s2.subrange(hi, n),
    );
    vstd::seq_lib::lemma_multiset_commutative(s2.subrange(0, lo), s2.subrange(lo, hi));
    let a = s1.subrange(0, lo).to_multiset();
    let c = s1.subrange(hi, n).to_multiset();
    let m1 = s1.subrange(lo, hi).to_multiset();
    let m2 = s2.subrange(lo, hi).to_multiset();
    assert(a.add(m1).add(c) =~= a.add(m2).add(c));
    assert forall|v: i64| true implies m1.count(v) == m2.count(v) by {
        assert(a.add(m1).add(c).count(v) == a.add(m2).add(c).count(v));
    }
    assert(m1 =~= m2);
}

/// A sequence with the same multiset as a bounded sequence is bounded the
/// same way.
pub proof fn lemma_multiset_bounds(a: Seq<i64>, b: Seq<i64>, lo: int, hi: int)
    requires
        a.to_multiset() == b.to_multiset(),
        forall|i: int| 0 <= i < a.len() ==> lo <= #[trigger] a[i] <= hi,
    ensures
        forall|i: int| 0 <= i < b.len() ==> lo <= #[trigger] b[i] <= hi,
{
    broadcast use vstd::seq_lib::group_to_multiset_ensures;

    assert forall|i: int| 0 <= i < b.len() implies lo <= #[trigger] b[i] <= hi by {
        assert(b.contains(b[i]));
        assert(b.to_multiset().count(b[i]) > 0);
        assert(a.to_multiset().count(b[i]) > 0);
        assert(a.contains(b[i]));
        let j = choose|j: int| 0 <= j < a.len() && a[j] == b[i];
        assert(lo <= a[j] <= hi);
    }
}

} // verus!
