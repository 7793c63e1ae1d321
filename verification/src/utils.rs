//! Range discovery, sortedness checking, and the instruction counter that
//! every sorting routine threads through its work.

use vstd::prelude::*;

verus! {

/// Sorting is a function of the multiset alone: two sorted sequences
/// holding the same values are equal.  In particular, sorting an
/// already-sorted sequence produces an identical sequence, and any two
/// algorithms that sort the same input agree on the output.
pub proof fn lemma_sorted_permutation_unique(a: Seq<i64>, b: Seq<i64>)
    requires
        sorted(a),
        sorted(b),
        a.to_multiset() == b.to_multiset(),
    ensures
        a == b,
{
    let leq = |x: i64, y: i64| x <= y;
    assert(vstd::relations::sorted_by(a, leq)) by {
        assert forall|i: int, j: int| 0 <= i < j < a.len() implies leq(a[i], a[j]) by {
            assert(a[i] <= a[j]);
        }
    }
    assert(vstd::relations::sorted_by(b, leq)) by {
        assert forall|i: int, j: int| 0 <= i < j < b.len() implies leq(b[i], b[j]) by {
            assert(b[i] <= b[j]);
        }
    }
    vstd::seq_lib::lemma_sorted_unique(a, b, leq);
}

/// Saturating addition of a (possibly mathematical) delta to a counter
/// field: the tally sticks at `u128::MAX` instead of wrapping.
pub open spec fn sat_add(a: u128, d: int) -> u128 {
    if a + d <= u128::MAX {
        (a + d) as u128
    } else {
        u128::MAX
    }
}

/// Consecutive saturating bumps tally the same total as a single combined
/// bump, so per-pass counter updates compose into one closed formula.
pub proof fn lemma_sat_add_chain(a: u128, d1: int, d2: int)
    requires
        d1 >= 0,
        d2 >= 0,
    ensures
        sat_add(sat_add(a, d1), d2) == sat_add(a, d1 + d2),
{
}

/// Adds `d` to `a`, saturating at `u128::MAX`.
pub fn sat_add_u128(a: u128, d: u128) -> (r: u128)
    ensures
        r == sat_add(a, d as int),
{
    if d <= u128::MAX - a {
        a + d
    } else {
        u128::MAX
    }
}

/// Tallies of the primitive operations a sorting run performs, one counter
/// per operation kind, plus a flag recording that a run was abandoned
/// because its parameters were mutually incompatible.  The counters are
/// pure observation: they never influence a sorted result.
pub struct InstructionCounter {
    pub comparison_count: u128,
    pub array_access_count: u128,
    pub mod_count: u128,
    pub div_count: u128,
    pub bitwise_count: u128,
    pub algorithm_error: bool,
}

impl InstructionCounter {
    /// A counter with every tally at zero and no error recorded.
    pub fn new() -> (r: InstructionCounter)
        ensures
            r.comparison_count == 0,
            r.array_access_count == 0,
            r.mod_count == 0,
            r.div_count == 0,
            r.bitwise_count == 0,
            !r.algorithm_error,
    {
        InstructionCounter {
            comparison_count: 0,
            array_access_count: 0,
            mod_count: 0,
            div_count: 0,
            bitwise_count: 0,
            algorithm_error: false,
        }
    }
}

/// Counter changes of the comparison-based baselines: comparisons and
/// array accesses only grow, while the arithmetic tallies and the error
/// flag keep their values.  The exact comparison and access counts of a
/// baseline depend on the data, so they are not pinned down.
pub open spec fn baseline_counter_delta(pre: InstructionCounter, post: InstructionCounter) -> bool {
    &&& post.comparison_count >= pre.comparison_count
    &&& post.array_access_count >= pre.array_access_count
    &&& post.mod_count == pre.mod_count
    &&& post.div_count == pre.div_count
    &&& post.bitwise_count == pre.bitwise_count
    &&& post.algorithm_error == pre.algorithm_error
}

/// A sequence is sorted when its values never decrease from left to right.
pub open spec fn sorted(s: Seq<i64>) -> bool {
    forall|i: int, j: int| 0 <= i <= j < s.len() ==> s[i] <= s[j]
}

/// Reports whether the values of `arr` are in non-decreasing order.
pub fn is_sorted(arr: &Vec<i64>) -> (r: bool)
    ensures
        r == sorted(arr@),
{
    let mut idx: usize = 1;
    while idx < arr.len()
        invariant
            1 <= idx,
            arr.len() > 0 ==> idx <= arr.len(),
            forall|i: int, j: int| 0 <= i <= j < idx && j < arr.len() ==> arr@[i] <= arr@[j],
        decreases arr.len() - idx,
    {
        if arr[idx - 1] > arr[idx] {
            return false;
        }
        idx = idx + 1;
    }
    true
}

/// The smallest value of a non-empty sequence.
pub open spec fn seq_min(s: Seq<i64>) -> i64
    decreases s.len(),
{
    if s.len() <= 1 {
        s[0]
    } else {
        let m = seq_min(s.drop_last());
        if s.last() < m {
            s.last()
        } else {
            m
        }
    }
}

/// The largest value of a non-empty sequence.
pub open spec fn seq_max(s: Seq<i64>) -> i64
    decreases s.len(),
{
    if s.len() <= 1 {
        s[0]
    } else {
        let m = seq_max(s.drop_last());
        if s.last() > m {
            s.last()
        } else {
            m
        }
    }
}

/// `seq_min` and `seq_max` bound every element and are themselves
/// elements.
pub proof fn lemma_seq_min_max(s: Seq<i64>)
    requires
        s.len() >= 1,
    ensures
        forall|i: int| 0 <= i < s.len() ==> seq_min(s) <= #[trigger] s[i] <= seq_max(s),
        exists|i: int| 0 <= i < s.len() && s[i] == seq_min(s),
        exists|i: int| 0 <= i < s.len() && s[i] == seq_max(s),
    decreases s.len(),
{
    if s.len() > 1 {
        lemma_seq_min_max(s.drop_last());
        assert forall|i: int| 0 <= i < s.len() implies seq_min(s) <= #[trigger] s[i] <= seq_max(
            s,
        ) by {
            if i < s.len() - 1 {
                assert(s.drop_last()[i] == s[i]);
            }
        }
        if s.last() < seq_min(s.drop_last()) {
            assert(s[s.len() - 1] == seq_min(s));
        } else {
            let j = choose|j: int| 0 <= j < s.drop_last().len() && s.drop_last()[j] == seq_min(
                s.drop_last(),
            );
            assert(s.drop_last()[j] == s[j]);
            assert(s[j] == seq_min(s));
        }
        if s.last() > seq_max(s.drop_last()) {
            assert(s[s.len() - 1] == seq_max(s));
        } else {
            let j = choose|j: int| 0 <= j < s.drop_last().len() && s.drop_last()[j] == seq_max(
                s.drop_last(),
            );
            assert(s.drop_last()[j] == s[j]);
            assert(s[j] == seq_max(s));
        }
    } else {
        assert(s[0] == seq_min(s));
        assert(s[0] == seq_max(s));
    }
}

/// Returns the smallest and the largest value of a non-empty sequence in one
/// linear scan.
pub fn find_min_max(arr: &Vec<i64>) -> (r: (i64, i64))
    requires
        arr.len() > 0,
    ensures
        r.0 == seq_min(arr@),
        r.1 == seq_max(arr@),
        forall|i: int| 0 <= i < arr.len() ==> r.0 <= #[trigger] arr@[i] <= r.1,
        exists|i: int| 0 <= i < arr.len() && arr@[i] == r.0,
        exists|i: int| 0 <= i < arr.len() && arr@[i] == r.1,
{
    let mut min = arr[0];
    let mut max = arr[0];
    let mut idx: usize = 1;
    while idx < arr.len()
        invariant
            1 <= idx <= arr.len(),
            forall|i: int| 0 <= i < idx ==> min <= #[trigger] arr@[i] <= max,
            exists|i: int| 0 <= i < idx && arr@[i] == min,
            exists|i: int| 0 <= i < idx && arr@[i] == max,
        decreases arr.len() - idx,
    {
        let v = arr[idx];
        if v < min {
            min = v;
        }
        if v > max {
            max = v;
        }
        idx = idx + 1;
    }
    proof {
        lemma_seq_min_max(arr@);
    }
    (min, max)
}

/// A counting table of `len` zeroed buckets.
pub fn zeroed_counts(len: usize) -> (v: Vec<usize>)
    ensures
        v.len() == len,
        forall|i: int| 0 <= i < len ==> v@[i] == 0,
{
    let mut v: Vec<usize> = Vec::new();
    let mut idx: usize = 0;
    while idx < len
        invariant
            idx <= len,
            v.len() == idx,
            forall|i: int| 0 <= i < idx ==> v@[i] == 0,
        decreases len - idx,
    {
        v.push(0);
        idx = idx + 1;
    }
    v
}

/// A scratch buffer of `len` zeroed slots.
pub fn zeroed_slots(len: usize) -> (v: Vec<i64>)
    ensures
        v.len() == len,
        forall|i: int| 0 <= i < len ==> v@[i] == 0,
{
    let mut v: Vec<i64> = Vec::new();
    let mut idx: usize = 0;
    while idx < len
        invariant
            idx <= len,
            v.len() == idx,
            forall|i: int| 0 <= i < idx ==> v@[i] == 0,
        decreases len - idx,
    {
        v.push(0);
        idx = idx + 1;
    }
    v
}

/// Resets every bucket of a counting table to zero, for reuse across
/// passes.
pub fn reset_counts(v: &mut Vec<usize>)
    ensures
        final(v).len() == old(v).len(),
        forall|i: int| 0 <= i < old(v).len() ==> final(v)@[i] == 0,
{
    let n = v.len();
    let mut idx: usize = 0;
    while idx < n
        invariant
            idx <= n,
            v.len() == n,
            forall|i: int| 0 <= i < idx ==> v@[i] == 0,
        decreases n - idx,
    {
        v.set(idx, 0);
        idx = idx + 1;
    }
}

} // verus!
