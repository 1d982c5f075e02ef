use vstd::prelude::*;
use vstd::pervasive::VecAdditionalExecFns;
use crate::sorting::decides;
use crate::sorting::lemma_complement_transitive;
use crate::sorting::lemma_swap_keeps_multiset;
use crate::sorting::sorted_asc;
use crate::sorting::strict_total_order;

verus! {

/// Repeatedly bubble the largest remaining value (under `gt`) to the end of
/// the unsorted prefix.
fn bubble_passes<F: Fn(&i64, &i64) -> bool>(
    values: &mut Vec<i64>,
    is_greater: &F,
    Ghost(gt): Ghost<spec_fn(i64, i64) -> bool>,
)
    requires
        forall|x: &i64, y: &i64| #[trigger] call_requires(*is_greater, (x, y)),
        decides(*is_greater, gt),
        strict_total_order(gt),
    ensures
        final(values)@.to_multiset() == old(values)@.to_multiset(),
        final(values)@.len() == old(values)@.len(),
        forall|p: int, q: int|
            0 <= p < q < final(values)@.len() ==> !gt(final(values)@[p], final(values)@[q]),
{
    let len = values.len();
    if len < 2 {
        return ;
    }
    let mut i: usize = 0;
    while i < len - 1
        invariant
            forall|x: &i64, y: &i64| #[trigger] call_requires(*is_greater, (x, y)),
            decides(*is_greater, gt),
            strict_total_order(gt),
            2 <= len == values@.len(),
            i <= len - 1,
            values@.to_multiset() == old(values)@.to_multiset(),
            forall|p: int, q: int| 0 <= p < q < len && len - i <= q ==> !gt(values@[p], values@[q]),
        decreases len - i,
    {
        let mut j: usize = 0;
        while j < len - i - 1
            invariant
                forall|x: &i64, y: &i64| #[trigger] call_requires(*is_greater, (x, y)),
                decides(*is_greater, gt),
                strict_total_order(gt),
                2 <= len == values@.len(),
                i < len - 1,
                j <= len - i - 1,
                values@.to_multiset() == old(values)@.to_multiset(),
                forall|p: int, q: int|
                    0 <= p < q < len && len - i <= q ==> !gt(values@[p], values@[q]),
                forall|p: int| 0 <= p < j ==> !gt(values@[p], values@[j as int]),
            decreases len - i - 1 - j,
        {
            let ghost before = values@;
            let answer = is_greater(&values[j], &values[j + 1]);
            if answer {
                let low = values[j];
                let high = values[j + 1];
                values.set(j, high);
                values.set(j + 1, low);
                proof {
                    lemma_swap_keeps_multiset(before, values@, j as int, j + 1);
                    assert(gt(before[j as int], before[j + 1]));
                    assert forall|p: int| 0 <= p < j + 1 implies !gt(
                        #[trigger] values@[p],
                        values@[j + 1],
                    ) by {
                        if p < j {
                            assert(!gt(before[p], before[j as int]));
                        } else {
                            assert(!gt(before[j + 1], before[j as int]));
                        }
                    }
                }
            } else {
                proof {
                    assert(!gt(before[j as int], before[j + 1]));
                    assert forall|p: int| 0 <= p < j + 1 implies !gt(
                        #[trigger] values@[p],
                        values@[j + 1],
                    ) by {
                        if p < j {
                            lemma_complement_transitive(
                                gt,
                                before[p],
                                before[j as int],
                                before[j + 1],
                            );
                        }
                    }
                }
            }
            j += 1;
        }
        i += 1;
    }
}

/// Sort in place into ascending order by adjacent exchanges.
pub fn bubble_sort(values: &mut Vec<i64>)
    ensures
        final(values)@.to_multiset() == old(values)@.to_multiset(),
        sorted_asc(final(values)@),
{
    let descending = |a: &i64, b: &i64| -> (r: bool)
        ensures
            r == (*a > *b),
        { *a > *b };
    let ghost gt = |x: i64, y: i64| x > y;
    proof {
        assert(decides(descending, gt)) by {
            assert forall|x: i64, y: i64, b: bool|
                #[trigger] call_ensures(descending, (&x, &y), b) implies b == gt(x, y) by {
                assert(b == (x > y));
            }
        }
        assert(strict_total_order(gt));
    }
    bubble_passes(values, &descending, Ghost(gt));
    proof {
        assert forall|i: int, j: int|
            0 <= i < j < values@.len() implies values@[i] <= values@[j] by {
            assert(!gt(values@[i], values@[j]));
        }
    }
}

/// Sort in place by the caller's "greater than" closure, which must decide a
/// strict total order.  Afterwards no earlier element compares greater than a
/// later one under that order.
pub fn bubble_sort_by<F: Fn(&i64, &i64) -> bool>(values: &mut Vec<i64>, is_greater: F)
    requires
        forall|x: &i64, y: &i64| #[trigger] call_requires(is_greater, (x, y)),
        exists|gt: spec_fn(i64, i64) -> bool|
            #[trigger] decides(is_greater, gt) && strict_total_order(gt),
    ensures
        final(values)@.to_multiset() == old(values)@.to_multiset(),
        final(values)@.len() == old(values)@.len(),
        exists|gt: spec_fn(i64, i64) -> bool|
            #[trigger] decides(is_greater, gt) && strict_total_order(gt) && (forall|p: int, q: int|
                0 <= p < q < final(values)@.len() ==> !gt(final(values)@[p], final(values)@[q])),
{
    let ghost gt = choose|gt: spec_fn(i64, i64) -> bool|
        #[trigger] decides(is_greater, gt) && strict_total_order(gt);
    bubble_passes(values, &is_greater, Ghost(gt));
}

} // verus!
