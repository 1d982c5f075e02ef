use vstd::prelude::*;
use vstd::pervasive::VecAdditionalExecFns;
use crate::sorting::decides;
use crate::sorting::lemma_multiset_membership;
use crate::sorting::lemma_swap_keeps_window_multiset;
use crate::sorting::sorted_asc;
use crate::sorting::strict_total_order;

verus! {

/// Partition `values[lo..hi]` around its last element: afterwards the element
/// at the returned index is the old last element, everything before it inside
/// the window compares less, and nothing after it does.
fn partition_span<F: Fn(&i64, &i64) -> bool>(
    values: &mut Vec<i64>,
    lo: usize,
    hi: usize,
    is_less: &F,
    Ghost(lt): Ghost<spec_fn(i64, i64) -> bool>,
) -> (p: usize)
    requires
        forall|x: &i64, y: &i64| #[trigger] call_requires(*is_less, (x, y)),
        decides(*is_less, lt),
        strict_total_order(lt),
        lo < hi <= old(values)@.len(),
    ensures
        lo <= p < hi,
        final(values)@.len() == old(values)@.len(),
        forall|k: int|
            0 <= k < final(values)@.len() && !(lo <= k < hi) ==> final(values)@[k] == old(
                values,
            )@[k],
        final(values)@.subrange(lo as int, hi as int).to_multiset() == old(values)@.subrange(
            lo as int,
            hi as int,
        ).to_multiset(),
        forall|k: int| lo <= k < p ==> lt(final(values)@[k], final(values)@[p as int]),
        forall|k: int| p < k < hi ==> !lt(final(values)@[k], final(values)@[p as int]),
{
    let pivot = values[hi - 1];
    let mut l = lo;
    let mut r = lo;
    while r < hi - 1
        invariant
            forall|x: &i64, y: &i64| #[trigger] call_requires(*is_less, (x, y)),
            decides(*is_less, lt),
            strict_total_order(lt),
            lo <= l <= r <= hi - 1,
            hi <= values@.len() == old(values)@.len(),
            values@[hi - 1] == pivot,
            forall|k: int|
                0 <= k < values@.len() && !(lo <= k < hi) ==> values@[k] == old(values)@[k],
            values@.subrange(lo as int, hi as int).to_multiset() == old(values)@.subrange(
                lo as int,
                hi as int,
            ).to_multiset(),
            forall|k: int| lo <= k < l ==> lt(values@[k], pivot),
            forall|k: int| l <= k < r ==> !lt(values@[k], pivot),
        decreases hi - 1 - r,
    {
        let answer = is_less(&values[r], &values[hi - 1]);
        if answer {
            let ghost before = values@;
            let shifted = values[l];
            let small = values[r];
            values.set(l, small);
            values.set(r, shifted);
            proof {
                lemma_swap_keeps_window_multiset(
                    before,
                    values@,
                    lo as int,
                    hi as int,
                    l as int,
                    r as int,
                );
            }
            l += 1;
        }
        r += 1;
    }
    let ghost before = values@;
    let shifted = values[l];
    let last = values[hi - 1];
    values.set(l, last);
    values.set(hi - 1, shifted);
    proof {
        lemma_swap_keeps_window_multiset(before, values@, lo as int, hi as int, l as int, hi - 1);
    }
    l
}

/// Sort `values[lo..hi]` in place; everything outside the window stays put.
fn quick_sort_span<F: Fn(&i64, &i64) -> bool>(
    values: &mut Vec<i64>,
    lo: usize,
    hi: usize,
    is_less: &F,
    Ghost(lt): Ghost<spec_fn(i64, i64) -> bool>,
)
    requires
        forall|x: &i64, y: &i64| #[trigger] call_requires(*is_less, (x, y)),
        decides(*is_less, lt),
        strict_total_order(lt),
        lo <= hi <= old(values)@.len(),
    ensures
        final(values)@.len() == old(values)@.len(),
        forall|k: int|
            0 <= k < final(values)@.len() && !(lo <= k < hi) ==> final(values)@[k] == old(
                values,
            )@[k],
        final(values)@.subrange(lo as int, hi as int).to_multiset() == old(values)@.subrange(
            lo as int,
            hi as int,
        ).to_multiset(),
        forall|p: int, q: int| lo <= p < q < hi ==> !lt(final(values)@[q], final(values)@[p]),
    decreases hi - lo,
{
    if hi - lo < 2 {
        return ;
    }
    let p = partition_span(values, lo, hi, is_less, Ghost(lt));
    let ghost mid1 = values@;
    let ghost pivot = mid1[p as int];
    quick_sort_span(values, lo, p, is_less, Ghost(lt));
    let ghost mid2 = values@;
    quick_sort_span(values, p + 1, hi, is_less, Ghost(lt));
    proof {
        broadcast use vstd::seq_lib::lemma_multiset_commutative;
        broadcast use vstd::multiset::group_multiset_axioms;

        // the pivot kept its place through both recursive calls
        assert(values@[p as int] == pivot);
        // each side is a permutation of what the partition left there,
        // so the comparisons against the pivot still hold pointwise
        assert(values@.subrange(lo as int, p as int) =~= mid2.subrange(lo as int, p as int));
        assert forall|k: int| lo <= k < p implies lt(values@[k], pivot) by {
            let sub = values@.subrange(lo as int, p as int);
            let orig = mid1.subrange(lo as int, p as int);
            lemma_multiset_membership(sub, k - lo);
            orig.to_multiset_ensures();
            assert(orig.contains(sub[k - lo]));
            let idx = choose|idx: int| 0 <= idx < orig.len() && orig[idx] == sub[k - lo];
            assert(mid1[lo + idx] == values@[k]);
        }
        assert forall|k: int| p < k < hi implies !lt(values@[k], pivot) by {
            let sub = values@.subrange(p + 1, hi as int);
            let orig = mid2.subrange(p + 1, hi as int);
            lemma_multiset_membership(sub, k - p - 1);
            orig.to_multiset_ensures();
            assert(orig.contains(sub[k - p - 1]));
            let idx = choose|idx: int| 0 <= idx < orig.len() && orig[idx] == sub[k - p - 1];
            assert(mid2[p + 1 + idx] == values@[k]);
            assert(mid2[p + 1 + idx] == mid1[p + 1 + idx]);
        }
        // no later element of the window compares less than an earlier one
        assert forall|a: int, b: int| lo <= a < b < hi implies !lt(values@[b], values@[a]) by {
            if b < p {
                assert(values@.subrange(lo as int, p as int)[a - lo] == values@[a]);
                assert(values@.subrange(lo as int, p as int)[b - lo] == values@[b]);
            } else if a < p && b == p {
                assert(lt(values@[a], pivot));
            } else if a < p && b > p {
                assert(lt(values@[a], pivot));
                assert(!lt(values@[b], pivot));
                if lt(values@[b], values@[a]) {
                    assert(lt(values@[b], pivot));
                }
            } else if a == p {
                assert(!lt(values@[b], pivot));
            } else {
                assert(values@.subrange(p + 1, hi as int)[a - p - 1] == values@[a]);
                assert(values@.subrange(p + 1, hi as int)[b - p - 1] == values@[b]);
            }
        }
        // the window is still a permutation of what it held at the start
        assert(mid1.subrange(lo as int, hi as int) =~= mid1.subrange(lo as int, p as int)
            + mid1.subrange(p as int, p + 1) + mid1.subrange(p + 1, hi as int));
        assert(values@.subrange(lo as int, hi as int) =~= values@.subrange(lo as int, p as int)
            + values@.subrange(p as int, p + 1) + values@.subrange(p + 1, hi as int));
        assert(mid2.subrange(lo as int, p as int) == values@.subrange(lo as int, p as int));
        assert(mid2.subrange(p + 1, hi as int) =~= mid1.subrange(p + 1, hi as int));
        assert(values@.subrange(p as int, p + 1) =~= mid1.subrange(p as int, p + 1));
        assert(values@.subrange(lo as int, hi as int).to_multiset() =~= mid1.subrange(
            lo as int,
            hi as int,
        ).to_multiset());
    }
}

/// Sort in place by the caller's "less than" closure, which must decide a
/// strict total order.  Afterwards no later element compares less than an
/// earlier one under that order.
pub fn quick_sort_by<F: Fn(&i64, &i64) -> bool>(values: &mut Vec<i64>, is_less: F)
    requires
        forall|x: &i64, y: &i64| #[trigger] call_requires(is_less, (x, y)),
        exists|lt: spec_fn(i64, i64) -> bool|
            #[trigger] decides(is_less, lt) && strict_total_order(lt),
    ensures
        final(values)@.to_multiset() == old(values)@.to_multiset(),
        final(values)@.len() == old(values)@.len(),
        exists|lt: spec_fn(i64, i64) -> bool|
            #[trigger] decides(is_less, lt) && strict_total_order(lt) && (forall|p: int, q: int|
                0 <= p < q < final(values)@.len() ==> !lt(final(values)@[q], final(values)@[p])),
{
    let ghost lt = choose|lt: spec_fn(i64, i64) -> bool|
        #[trigger] decides(is_less, lt) && strict_total_order(lt);
    let len = values.len();
    quick_sort_span(values, 0, len, &is_less, Ghost(lt));
    proof {
        assert(values@.subrange(0, len as int) =~= values@);
        assert(old(values)@.subrange(0, len as int) =~= old(values)@);
    }
}

/// Sort in place into ascending order.
pub fn quick_sort(values: &mut Vec<i64>)
    ensures
        final(values)@.to_multiset() == old(values)@.to_multiset(),
        sorted_asc(final(values)@),
{
    let ascending = |a: &i64, b: &i64| -> (r: bool)
        ensures
            r == (*a < *b),
        { *a < *b };
    let ghost lt = |x: i64, y: i64| x < y;
    proof {
        assert(decides(ascending, lt)) by {
            assert forall|x: i64, y: i64, b: bool|
                #[trigger] call_ensures(ascending, (&x, &y), b) implies b == lt(x, y) by {
                assert(b == (x < y));
            }
        }
        assert(strict_total_order(lt));
    }
    let len = values.len();
    quick_sort_span(values, 0, len, &ascending, Ghost(lt));
    proof {
        assert(values@.subrange(0, len as int) =~= values@);
        assert(old(values)@.subrange(0, len as int) =~= old(values)@);
        assert forall|i: int, j: int|
            0 <= i < j < values@.len() implies values@[i] <= values@[j] by {
            assert(!lt(values@[j], values@[i]));
        }
    }
}

} // verus!
