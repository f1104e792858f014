//! Lower-bound searches over sorted key arrays, used for probing runs.
//!
//! Each search returns the first index whose element is at least the target,
//! or `None` when every element is smaller.

use vstd::prelude::*;

verus! {

/// The keys are in ascending order.
pub open spec fn keys_sorted(s: Seq<u64>) -> bool {
    forall|i: int, j: int| 0 <= i <= j < s.len() ==> s[i] <= s[j]
}

/// `r` is the lower bound of `target` in `s`: the first position holding a
/// value at least `target`, or `None` when there is no such position.
pub open spec fn is_lower_bound(target: u64, s: Seq<u64>, r: Option<usize>) -> bool {
    match r {
        Option::Some(i) => 0 <= i < s.len() && s[i as int] >= target && (forall|m: int|
            0 <= m < i ==> s[m] < target),
        Option::None => forall|m: int| 0 <= m < s.len() ==> s[m] < target,
    }
}

/// Scans forward and stops at the first element that is at least the target.
pub fn lb_linear_search(target: u64, input: &[u64]) -> (r: Option<usize>)
    ensures
        is_lower_bound(target, input@, r),
{
    let mut i: usize = 0;
    while i < input.len()
        invariant
            0 <= i <= input@.len(),
            forall|m: int| 0 <= m < i ==> input@[m] < target,
        decreases input@.len() - i,
    {
        if target <= input[i] {
            return Option::Some(i);
        }
        i += 1;
    }
    Option::None
}

/// Halves the candidate range around a probe until only the lower bound of
/// the target remains.
pub fn lb_binary_search(target: u64, input: &[u64]) -> (r: Option<usize>)
    requires
        keys_sorted(input@),
    ensures
        is_lower_bound(target, input@, r),
{
    let mut lo: usize = 0;
    let mut hi: usize = input.len();

    while lo < hi
        invariant
            keys_sorted(input@),
            0 <= lo <= hi <= input@.len(),
            forall|m: int| 0 <= m < lo ==> input@[m] < target,
            forall|m: int| hi <= m < input@.len() ==> input@[m] >= target,
        decreases hi - lo,
    {
        let mid = lo + (hi - lo) / 2;

        if target <= input[mid] {
            hi = mid;
        } else {
            lo = mid + 1;
        }
    }

    // The target was greater than every element in the input slice.
    if lo >= input.len() {
        Option::None
    } else {
        Option::Some(lo)
    }
}

/// Narrows the candidate range by probing where the target would sit if the
/// keys were spread evenly between the range's endpoints.
pub fn lb_interpolation_search(target: u64, input: &[u64]) -> (r: Option<usize>)
    requires
        keys_sorted(input@),
        input@.len() < 0x2000_0000_0000_0000,
    ensures
        is_lower_bound(target, input@, r),
{
    if input.len() == 0 {
        return Option::None;
    }

    if target <= input[0] {
        return Option::Some(0);
    }
    if target > input[input.len() - 1] {
        return Option::None;
    }

    let mut lo: usize = 0;
    let mut hi: usize = input.len();

    while lo < hi
        invariant
            keys_sorted(input@),
            input@.len() < 0x2000_0000_0000_0000,
            0 <= lo <= hi <= input@.len(),
            input@[input@.len() - 1] >= target,
            forall|m: int| 0 <= m < lo ==> input@[m] < target,
            forall|m: int| hi <= m < input@.len() ==> input@[m] >= target,
        decreases hi - lo,
    {
        if input[lo] >= target {
            return Option::Some(lo);
        }

        let denominator = (input[hi - 1] - input[lo]) as u128;
        if denominator == 0 {
            assert(forall|m: int| lo <= m < hi ==> input@[m] == input@[lo as int]);
            return if hi < input.len() {
                Option::Some(hi)
            } else {
                Option::None
            };
        }

        let index_range = (hi - lo - 1) as u128;
        let numerator = (target - input[lo]) as u128;

        proof {
            assert(numerator * index_range < 0x8000_0000_0000_0000_0000_0000_0000_0000) by (nonlinear_arith)
                requires
                    numerator < 0x1_0000_0000_0000_0000,
                    index_range < 0x2000_0000_0000_0000,
            ;
            assert((numerator * index_range) as int / (denominator as int) <= (numerator
                * index_range) as int) by (nonlinear_arith)
                requires
                    denominator >= 1,
            ;
        }
        let product: u128 = numerator * index_range;
        let mut cut_wide: u128 = (lo as u128) + (product / denominator);
        if cut_wide > (hi - 1) as u128 {
            cut_wide = (hi - 1) as u128;
        }
        let cut = cut_wide as usize;

        if input[cut] < target {
            lo = cut + 1;
        } else {
            hi = cut;
        }
    }

    if lo < input.len() {
        Option::Some(lo)
    } else {
        Option::None
    }
}

} // verus!
