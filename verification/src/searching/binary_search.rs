use vstd::prelude::*;
use crate::sorting::sorted_asc;

verus! {

/// Search the inclusive index range `lo..=hi` of an ascending slice.
fn search_span(values: &[i64], target: &i64, lo: usize, hi: usize) -> (found: Option<usize>)
    requires
        sorted_asc(values@),
        lo <= hi < values@.len(),
    ensures
        match found {
            Some(i) => lo <= i <= hi && values@[i as int] == *target,
            None => forall|k: int| lo <= k <= hi ==> values@[k] != *target,
        },
    decreases hi - lo,
{
    let mid = lo + (hi - lo) / 2;
    if values[mid] == *target {
        Some(mid)
    } else if values[mid] < *target {
        if mid == hi {
            None
        } else {
            search_span(values, target, mid + 1, hi)
        }
    } else {
        if mid == lo {
            None
        } else {
            search_span(values, target, lo, mid - 1)
        }
    }
}

/// Binary search by recursive halving; the slice must be ascending.
pub fn binary_search_recur(values: &[i64], target: &i64) -> (found: Option<usize>)
    requires
        sorted_asc(values@),
    ensures
        match found {
            Some(i) => i < values@.len() && values@[i as int] == *target,
            None => forall|k: int| 0 <= k < values@.len() ==> values@[k] != *target,
        },
{
    if values.len() == 0 {
        return None;
    }
    search_span(values, target, 0, values.len() - 1)
}

/// Binary search by an iterative loop; the slice must be ascending.
pub fn binary_search_iter(values: &[i64], target: &i64) -> (found: Option<usize>)
    requires
        sorted_asc(values@),
    ensures
        match found {
            Some(i) => i < values@.len() && values@[i as int] == *target,
            None => forall|k: int| 0 <= k < values@.len() ==> values@[k] != *target,
        },
{
    if values.len() == 0 {
        return None;
    }
    let mut lo: usize = 0;
    let mut hi: usize = values.len() - 1;
    while lo <= hi
        invariant
            sorted_asc(values@),
            values@.len() >= 1,
            lo <= values@.len(),
            hi < values@.len(),
            forall|k: int| 0 <= k < values@.len() && !(lo <= k <= hi) ==> values@[k] != *target,
        decreases hi + 1 - lo,
    {
        let mid = lo + (hi - lo) / 2;
        if values[mid] == *target {
            return Some(mid);
        }
        if values[mid] < *target {
            lo = mid + 1;
        } else {
            if mid == 0 {
                return None;
            }
            hi = mid - 1;
        }
    }
    None
}

} // verus!
