pub mod bubble_sort;
pub mod merge_sort;
pub mod quick_sort;

use vstd::prelude::*;

verus! {

/// The values appear in ascending order.
pub open spec fn sorted_asc(s: Seq<i64>) -> bool {
    forall|i: int, j: int| 0 <= i < j < s.len() ==> s[i] <= s[j]
}

/// Every answer the comparison closure can give agrees with the relation `r`.
pub open spec fn decides<F: Fn(&i64, &i64) -> bool>(f: F, r: spec_fn(i64, i64) -> bool) -> bool {
    forall|x: i64, y: i64, b: bool| #[trigger] call_ensures(f, (&x, &y), b) ==> b == r(x, y)
}

/// `r` is a strict total order: asymmetric, transitive, and total.
pub open spec fn strict_total_order(r: spec_fn(i64, i64) -> bool) -> bool {
    &&& forall|x: i64, y: i64| #[trigger] r(x, y) ==> !r(y, x)
    &&& forall|x: i64, y: i64, z: i64|
        #![trigger r(x, y), r(y, z)]
        r(x, y) && r(y, z) ==> r(x, z)
    &&& forall|x: i64, y: i64| x != y ==> #[trigger] r(x, y) || #[trigger] r(y, x)
}

/// The complement of a strict total order is transitive.
pub proof fn lemma_complement_transitive(r: spec_fn(i64, i64) -> bool, x: i64, y: i64, z: i64)
    requires
        strict_total_order(r),
        !r(x, y),
        !r(y, z),
    ensures
        !r(x, z),
{
    if r(x, z) {
        if x == y {
        } else {
            assert(r(y, x));
            assert(r(y, z));
        }
    }
}

/// Exchanging two positions inside a window leaves the multiset of the
/// window unchanged.
pub proof fn lemma_swap_keeps_window_multiset(
    s: Seq<i64>,
    t: Seq<i64>,
    lo: int,
    hi: int,
    i: int,
    j: int,
)
    requires
        0 <= lo <= i <= j < hi <= s.len(),
        t == s.update(i, s[j]).update(j, s[i]),
    ensures
        t.len() == s.len(),
        t.subrange(lo, hi).to_multiset() == s.subrange(lo, hi).to_multiset(),
{
    broadcast use vstd::seq_lib::to_multiset_update;
    broadcast use vstd::multiset::group_multiset_axioms;

    let a = s.subrange(lo, hi);
    let b = t.subrange(lo, hi);
    if i == j {
        assert(b =~= a);
        assert(b.to_multiset() =~= a.to_multiset());
    } else {
        let p = i - lo;
        let q = j - lo;
        let mid = a.update(p, a[q]);
        assert(b =~= mid.update(q, a[p]));
        a.to_multiset_ensures();
        assert(a.contains(a[p]));
        assert(a.contains(a[q]));
        assert(mid.to_multiset() == a.to_multiset().insert(a[q]).remove(a[p]));
        assert(mid[q] == a[q]);
        assert(b.to_multiset() == mid.to_multiset().insert(a[p]).remove(a[q]));
        assert(b.to_multiset() =~= a.to_multiset()) by {
            assert(forall|x: i64| #[trigger] b.to_multiset().count(x) == a.to_multiset().count(x));
        }
    }
}

/// Exchanging two positions of a sequence leaves its multiset unchanged.
pub proof fn lemma_swap_keeps_multiset(s: Seq<i64>, t: Seq<i64>, i: int, j: int)
    requires
        0 <= i <= j < s.len(),
        t == s.update(i, s[j]).update(j, s[i]),
    ensures
        t.len() == s.len(),
        t.to_multiset() == s.to_multiset(),
{
    lemma_swap_keeps_window_multiset(s, t, 0, s.len() as int, i, j);
    assert(s.subrange(0, s.len() as int) =~= s);
    assert(t.subrange(0, t.len() as int) =~= t);
}

/// Every element of a sequence is counted by its multiset.
pub proof fn lemma_multiset_membership(s: Seq<i64>, k: int)
    requires
        0 <= k < s.len(),
    ensures
        s.to_multiset().count(s[k]) > 0,
{
    s.to_multiset_ensures();
    assert(s.contains(s[k]));
}

} // verus!
