use vstd::prelude::*;
use crate::sorting::sorted_asc;

verus! {

/// Merge two ascending vectors into one ascending vector holding the values
/// of both.
fn merge(left: &Vec<i64>, right: &Vec<i64>) -> (merged: Vec<i64>)
    requires
        sorted_asc(left@),
        sorted_asc(right@),
    ensures
        merged@.to_multiset() == (left@ + right@).to_multiset(),
        sorted_asc(merged@),
{
    broadcast use vstd::seq_lib::lemma_multiset_commutative;
    broadcast use vstd::seq_lib::to_multiset_build;
    broadcast use vstd::multiset::group_multiset_axioms;

    let mut merged: Vec<i64> = Vec::new();
    let mut l: usize = 0;
    let mut r: usize = 0;
    proof {
        assert(left@.subrange(0, 0) =~= Seq::<i64>::empty());
        assert(right@.subrange(0, 0) =~= Seq::<i64>::empty());
        Seq::<i64>::empty().to_multiset_ensures();
        assert(Seq::<i64>::empty().to_multiset() =~= vstd::multiset::Multiset::<i64>::empty());
        assert(merged@.to_multiset() =~= left@.subrange(0, 0).to_multiset().add(
            right@.subrange(0, 0).to_multiset(),
        ));
    }
    while l < left.len() && r < right.len()
        invariant
            l <= left@.len(),
            r <= right@.len(),
            sorted_asc(left@),
            sorted_asc(right@),
            sorted_asc(merged@),
            forall|k: int| 0 <= k < merged@.len() && l < left@.len() ==> merged@[k]
                <= left@[l as int],
            forall|k: int| 0 <= k < merged@.len() && r < right@.len() ==> merged@[k]
                <= right@[r as int],
            merged@.to_multiset() == left@.subrange(0, l as int).to_multiset().add(
                right@.subrange(0, r as int).to_multiset(),
            ),
        decreases left@.len() - l + right@.len() - r,
    {
        if left[l] < right[r] {
            let ghost pre = merged@;
            merged.push(left[l]);
            proof {
                assert(merged@ == pre.push(left@[l as int]));
                vstd::seq_lib::to_multiset_build(pre, left@[l as int]);
                assert(left@.subrange(0, l + 1) =~= left@.subrange(0, l as int).push(
                    left@[l as int],
                ));
                vstd::seq_lib::to_multiset_build(left@.subrange(0, l as int), left@[l as int]);
                assert(merged@.to_multiset() =~= left@.subrange(0, l + 1).to_multiset().add(
                    right@.subrange(0, r as int).to_multiset(),
                ));
            }
            l += 1;
        } else {
            let ghost pre = merged@;
            merged.push(right[r]);
            proof {
                assert(merged@ == pre.push(right@[r as int]));
                vstd::seq_lib::to_multiset_build(pre, right@[r as int]);
                assert(right@.subrange(0, r + 1) =~= right@.subrange(0, r as int).push(
                    right@[r as int],
                ));
                vstd::seq_lib::to_multiset_build(right@.subrange(0, r as int), right@[r as int]);
                assert(merged@.to_multiset() =~= left@.subrange(0, l as int).to_multiset().add(
                    right@.subrange(0, r + 1).to_multiset(),
                ));
            }
            r += 1;
        }
    }
    while l < left.len()
        invariant
            l <= left@.len(),
            l < left@.len() ==> r == right@.len(),
            sorted_asc(left@),
            sorted_asc(merged@),
            forall|k: int| 0 <= k < merged@.len() && l < left@.len() ==> merged@[k]
                <= left@[l as int],
            forall|k: int| 0 <= k < merged@.len() && r < right@.len() ==> merged@[k]
                <= right@[r as int],
            merged@.to_multiset() == left@.subrange(0, l as int).to_multiset().add(
                right@.subrange(0, r as int).to_multiset(),
            ),
        decreases left@.len() - l,
    {
        let ghost pre = merged@;
        merged.push(left[l]);
        proof {
            assert(merged@ == pre.push(left@[l as int]));
            vstd::seq_lib::to_multiset_build(pre, left@[l as int]);
            assert(left@.subrange(0, l + 1) =~= left@.subrange(0, l as int).push(
                left@[l as int],
            ));
            vstd::seq_lib::to_multiset_build(left@.subrange(0, l as int), left@[l as int]);
            assert(merged@.to_multiset() =~= left@.subrange(0, l + 1).to_multiset().add(
                right@.subrange(0, r as int).to_multiset(),
            ));
        }
        l += 1;
    }
    while r < right.len()
        invariant
            l == left@.len(),
            r <= right@.len(),
            sorted_asc(right@),
            sorted_asc(merged@),
            forall|k: int| 0 <= k < merged@.len() && r < right@.len() ==> merged@[k]
                <= right@[r as int],
            merged@.to_multiset() == left@.subrange(0, l as int).to_multiset().add(
                right@.subrange(0, r as int).to_multiset(),
            ),
        decreases right@.len() - r,
    {
        let ghost pre = merged@;
        merged.push(right[r]);
        proof {
            assert(merged@ == pre.push(right@[r as int]));
            vstd::seq_lib::to_multiset_build(pre, right@[r as int]);
            assert(right@.subrange(0, r + 1) =~= right@.subrange(0, r as int).push(
                right@[r as int],
            ));
            vstd::seq_lib::to_multiset_build(right@.subrange(0, r as int), right@[r as int]);
            assert(merged@.to_multiset() =~= left@.subrange(0, l as int).to_multiset().add(
                right@.subrange(0, r + 1).to_multiset(),
            ));
        }
        r += 1;
    }
    proof {
        assert(left@.subrange(0, left@.len() as int) =~= left@);
        assert(right@.subrange(0, right@.len() as int) =~= right@);
        vstd::seq_lib::lemma_multiset_commutative(left@, right@);
        assert(merged@.to_multiset() =~= (left@ + right@).to_multiset());
    }
    merged
}

/// Sort into a fresh vector by recursively splitting and merging.
pub fn merge_sort(values: &[i64]) -> (sorted: Vec<i64>)
    ensures
        sorted@.to_multiset() == values@.to_multiset(),
        sorted_asc(sorted@),
    decreases values@.len(),
{
    if values.len() <= 1 {
        let mut out: Vec<i64> = Vec::new();
        if values.len() == 1 {
            out.push(values[0]);
        }
        proof {
            assert(out@ =~= values@);
        }
        return out;
    }
    let mid = values.len() / 2;
    let (left, right) = values.split_at(mid);
    let left_sorted = merge_sort(left);
    let right_sorted = merge_sort(right);
    let merged = merge(&left_sorted, &right_sorted);
    proof {
        broadcast use vstd::multiset::group_multiset_axioms;

        assert(values@ =~= left@ + right@);
        vstd::seq_lib::lemma_multiset_commutative(left@, right@);
        vstd::seq_lib::lemma_multiset_commutative(left_sorted@, right_sorted@);
        assert(merged@.to_multiset() =~= values@.to_multiset());
    }
    merged
}

/// Sort in place; the values end in ascending order.  Despite the name the
/// contents are replaced with a freshly merged vector: a true in-place merge
/// would copy just as much.
pub fn merge_sort_zero_copy(values: &mut Vec<i64>)
    ensures
        final(values)@.to_multiset() == old(values)@.to_multiset(),
        sorted_asc(final(values)@),
{
    let sorted = merge_sort(values.as_slice());
    *values = sorted;
}

} // verus!
