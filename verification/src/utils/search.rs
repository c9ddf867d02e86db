//! Binary searches over slices of integers.

use vstd::prelude::*;

verus! {

/// Whether `s` is in ascending order, equal neighbours allowed.
pub open spec fn sorted(s: Seq<i64>) -> bool {
    forall|i: int, j: int| 0 <= i <= j < s.len() ==> s[i] <= s[j]
}

/// Where halving the part of `s` from `left` up to, not including,
/// `right` ends: the half before the middle is dropped where the middle
/// element is below `target`, or not above it where `or_equal` is set, and
/// the half from the middle on where it is not.
pub open spec fn halved(s: Seq<i64>, target: i64, left: int, right: int, or_equal: bool) -> int
    decreases right - left,
{
    if left >= right {
        left
    } else {
        let mid = left + (right - left) / 2;
        if s[mid] < target || (or_equal && s[mid] == target) {
            halved(s, target, mid + 1, right, or_equal)
        } else {
            halved(s, target, left, mid, or_equal)
        }
    }
}

/// A position at which the elements of `arr` pass from below `target` to
/// `target` or above, found by halving: the first element that is at least
/// `target` where `arr` is sorted, and `arr.len()` where there is none.
pub fn lower_bound(arr: &[i64], target: &i64) -> (pos: usize)
    ensures
        pos == halved(arr@, *target, 0, arr@.len() as int, false),
        pos <= arr@.len(),
        pos > 0 ==> arr@[pos - 1] < *target,
        pos < arr@.len() ==> arr@[pos as int] >= *target,
        sorted(arr@) ==> forall|i: int| 0 <= i < pos ==> arr@[i] < *target,
        sorted(arr@) ==> forall|i: int| pos <= i < arr@.len() ==> arr@[i] >= *target,
{
    let mut left: usize = 0;
    let mut right: usize = arr.len();
    while left < right
        invariant
            left <= right <= arr@.len(),
            left > 0 ==> arr@[left - 1] < *target,
            right < arr@.len() ==> arr@[right as int] >= *target,
            halved(arr@, *target, left as int, right as int, false) == halved(
                arr@,
                *target,
                0,
                arr@.len() as int,
                false,
            ),
        decreases right - left,
    {
        let mid = left + (right - left) / 2;
        if arr[mid] < *target {
            left = mid + 1;
        } else {
            right = mid;
        }
    }
    left
}

/// A position at which the elements of `arr` pass from `target` or below to
/// above `target`, found by halving: the first element greater than
/// `target` where `arr` is sorted, and `arr.len()` where there is none.
pub fn upper_bound(arr: &[i64], target: &i64) -> (pos: usize)
    ensures
        pos == halved(arr@, *target, 0, arr@.len() as int, true),
        pos <= arr@.len(),
        pos > 0 ==> arr@[pos - 1] <= *target,
        pos < arr@.len() ==> arr@[pos as int] > *target,
        sorted(arr@) ==> forall|i: int| 0 <= i < pos ==> arr@[i] <= *target,
        sorted(arr@) ==> forall|i: int| pos <= i < arr@.len() ==> arr@[i] > *target,
{
    let mut left: usize = 0;
    let mut right: usize = arr.len();
    while left < right
        invariant
            left <= right <= arr@.len(),
            left > 0 ==> arr@[left - 1] <= *target,
            right < arr@.len() ==> arr@[right as int] > *target,
            halved(arr@, *target, left as int, right as int, true) == halved(
                arr@,
                *target,
                0,
                arr@.len() as int,
                true,
            ),
        decreases right - left,
    {
        let mid = left + (right - left) / 2;
        if arr[mid] <= *target {
            left = mid + 1;
        } else {
            right = mid;
        }
    }
    left
}

/// The position that `lower_bound` gives, where it holds `target`. In a
/// sorted slice this is the first occurrence of `target`, and `None` means
/// that `target` does not occur.
pub fn binary_search(arr: &[i64], target: &i64) -> (found: Option<usize>)
    ensures
        found == if halved(arr@, *target, 0, arr@.len() as int, false) < arr@.len() && arr@[halved(
            arr@,
            *target,
            0,
            arr@.len() as int,
            false,
        )] == *target {
            Some(halved(arr@, *target, 0, arr@.len() as int, false) as usize)
        } else {
            None
        },
        sorted(arr@) ==> (found is None <==> forall|i: int|
            0 <= i < arr@.len() ==> arr@[i] != *target),
        sorted(arr@) && found is Some ==> forall|i: int|
            0 <= i < found->Some_0 ==> arr@[i] < *target,
{
    let pos = lower_bound(arr, target);
    if pos < arr.len() && arr[pos] == *target {
        Some(pos)
    } else {
        proof {
            if pos < arr@.len() {
                assert(arr@[pos as int] > *target);
            }
        }
        None
    }
}

} // verus!
