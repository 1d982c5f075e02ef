use vstd::prelude::*;
use vstd::arithmetic::power2::pow2;
use crate::trees::SpecTree;
use crate::trees::tree_height;
use crate::trees::tree_inorder;
use crate::trees::tree_preorder;
use crate::trees::tree_set;
use crate::trees::tree_size;

verus! {

// A height-balanced (AVL) binary search tree of `i64` values.
//
// Every node caches the height of the subtree rooted at it (a leaf has
// height 1, an absent child counts as height 0).  After every mutation the
// tree satisfies, at every node:
//   - all values in the left subtree are smaller, all in the right larger;
//   - the cached height equals 1 + max(child heights);
//   - the child heights differ by at most one.
//
// Duplicate policy: inserting a value that is already present leaves the
// tree and its length unchanged.
//
// Besides the value set, the contracts expose the exact branching structure
// through `spec_tree` and the open model-level operations (`spec_avl_insert`,
// `spec_avl_remove`, `spec_avl_from`), so the concrete shape after any
// sequence of calls follows from the contracts alone.

struct Node {
    value: i64,
    height: u64,
    left: Option<Box<Node>>,
    right: Option<Box<Node>>,
}

pub struct AVLTree {
    root: Option<Box<Node>>,
    len: usize,
}

spec fn nat_max(a: nat, b: nat) -> nat {
    if a >= b {
        a
    } else {
        b
    }
}

spec fn size_of(n: Option<Box<Node>>) -> nat
    decreases n,
{
    match n {
        None => 0,
        Some(node) => 1 + size_of(node.left) + size_of(node.right),
    }
}

spec fn height_of(n: Option<Box<Node>>) -> nat
    decreases n,
{
    match n {
        None => 0,
        Some(node) => 1 + nat_max(height_of(node.left), height_of(node.right)),
    }
}

spec fn set_of(n: Option<Box<Node>>) -> Set<i64>
    decreases n,
{
    match n {
        None => Set::empty(),
        Some(node) => set_of(node.left).union(set_of(node.right)).insert(node.value),
    }
}

spec fn inorder_of(n: Option<Box<Node>>) -> Seq<i64>
    decreases n,
{
    match n {
        None => Seq::empty(),
        Some(node) => inorder_of(node.left) + seq![node.value] + inorder_of(node.right),
    }
}

spec fn preorder_of(n: Option<Box<Node>>) -> Seq<i64>
    decreases n,
{
    match n {
        None => Seq::empty(),
        Some(node) => seq![node.value] + preorder_of(node.left) + preorder_of(node.right),
    }
}

/// Binary-search-tree ordering at every node.
spec fn ordered(n: Option<Box<Node>>) -> bool
    decreases n,
{
    match n {
        None => true,
        Some(node) => {
            &&& forall|v: i64| set_of(node.left).contains(v) ==> v < node.value
            &&& forall|v: i64| set_of(node.right).contains(v) ==> v > node.value
            &&& ordered(node.left)
            &&& ordered(node.right)
        },
    }
}

/// Every cached height field equals the recomputed height of its subtree.
spec fn heights_stored(n: Option<Box<Node>>) -> bool
    decreases n,
{
    match n {
        None => true,
        Some(node) => {
            &&& node.height == 1 + nat_max(height_of(node.left), height_of(node.right))
            &&& heights_stored(node.left)
            &&& heights_stored(node.right)
        },
    }
}

/// AVL balance: at every node the child heights differ by at most one.
spec fn balanced(n: Option<Box<Node>>) -> bool
    decreases n,
{
    match n {
        None => true,
        Some(node) => {
            &&& height_of(node.left) <= height_of(node.right) + 1
            &&& height_of(node.right) <= height_of(node.left) + 1
            &&& balanced(node.left)
            &&& balanced(node.right)
        },
    }
}

spec fn wf_opt(n: Option<Box<Node>>) -> bool {
    ordered(n) && heights_stored(n) && balanced(n)
}

/// The bare branching structure of a stored subtree, with the cached
/// heights erased.
spec fn model_of(n: Option<Box<Node>>) -> SpecTree
    decreases n,
{
    match n {
        None => SpecTree::Leaf,
        Some(node) => SpecTree::Node {
            value: node.value,
            left: Box::new(model_of(node.left)),
            right: Box::new(model_of(node.right)),
        },
    }
}

/// The model preserves every structural measure of the stored subtree.
proof fn lemma_model_of(n: Option<Box<Node>>)
    ensures
        tree_height(model_of(n)) == height_of(n),
        tree_size(model_of(n)) == size_of(n),
        tree_set(model_of(n)) == set_of(n),
        tree_inorder(model_of(n)) == inorder_of(n),
        tree_preorder(model_of(n)) == preorder_of(n),
    decreases n,
{
    match n {
        None => {
            assert(tree_set(model_of(n)) =~= set_of(n));
            assert(tree_inorder(model_of(n)) =~= inorder_of(n));
            assert(tree_preorder(model_of(n)) =~= preorder_of(n));
        },
        Some(node) => {
            lemma_model_of(node.left);
            lemma_model_of(node.right);
            assert(tree_set(model_of(n)) =~= set_of(n));
            assert(tree_inorder(model_of(n)) =~= inorder_of(n));
            assert(tree_preorder(model_of(n)) =~= preorder_of(n));
        },
    }
}

/// Model-level right rotation: the left child becomes the root.  A tree
/// without a left child is returned unchanged.
pub open spec fn spec_rotate_right(t: SpecTree) -> SpecTree {
    match t {
        SpecTree::Leaf => t,
        SpecTree::Node { value, left, right } => match *left {
            SpecTree::Leaf => t,
            SpecTree::Node { value: pivot, left: outer, right: inner } => SpecTree::Node {
                value: pivot,
                left: outer,
                right: Box::new(SpecTree::Node { value, left: inner, right }),
            },
        },
    }
}

/// Model-level left rotation, the mirror image of `spec_rotate_right`.
pub open spec fn spec_rotate_left(t: SpecTree) -> SpecTree {
    match t {
        SpecTree::Leaf => t,
        SpecTree::Node { value, left, right } => match *right {
            SpecTree::Leaf => t,
            SpecTree::Node { value: pivot, left: inner, right: outer } => SpecTree::Node {
                value: pivot,
                left: Box::new(SpecTree::Node { value, left, right: inner }),
                right: outer,
            },
        },
    }
}

/// Model-level rebalancing of one node: a single or double rotation when
/// the child heights differ by two, the tree unchanged otherwise.
pub open spec fn spec_rebalance(t: SpecTree) -> SpecTree {
    match t {
        SpecTree::Leaf => t,
        SpecTree::Node { value, left, right } => {
            let hl = tree_height(*left);
            let hr = tree_height(*right);
            if hl > hr + 1 {
                let turned = match *left {
                    SpecTree::Leaf => *left,
                    SpecTree::Node { left: ll, right: lr, .. } => if tree_height(*lr)
                        > tree_height(*ll) {
                        spec_rotate_left(*left)
                    } else {
                        *left
                    },
                };
                spec_rotate_right(
                    SpecTree::Node { value, left: Box::new(turned), right },
                )
            } else if hr > hl + 1 {
                let turned = match *right {
                    SpecTree::Leaf => *right,
                    SpecTree::Node { left: rl, right: rr, .. } => if tree_height(*rl)
                        > tree_height(*rr) {
                        spec_rotate_right(*right)
                    } else {
                        *right
                    },
                };
                spec_rotate_left(
                    SpecTree::Node { value, left, right: Box::new(turned) },
                )
            } else {
                t
            }
        },
    }
}

/// Model-level insertion: descend by the ordering, ignore an equal value,
/// rebalance on the way back up.
pub open spec fn spec_avl_insert(t: SpecTree, value: i64) -> SpecTree
    decreases t,
{
    match t {
        SpecTree::Leaf => SpecTree::Node {
            value,
            left: Box::new(SpecTree::Leaf),
            right: Box::new(SpecTree::Leaf),
        },
        SpecTree::Node { value: root, left, right } => {
            if value < root {
                spec_rebalance(
                    SpecTree::Node {
                        value: root,
                        left: Box::new(spec_avl_insert(*left, value)),
                        right,
                    },
                )
            } else if value > root {
                spec_rebalance(
                    SpecTree::Node {
                        value: root,
                        left,
                        right: Box::new(spec_avl_insert(*right, value)),
                    },
                )
            } else {
                t
            }
        },
    }
}

/// Model-level removal of the smallest value; meaningful only on a
/// non-empty tree (a leaf maps to itself with a placeholder value).
pub open spec fn spec_remove_min(t: SpecTree) -> (SpecTree, i64)
    decreases t,
{
    match t {
        SpecTree::Leaf => (t, 0),
        SpecTree::Node { value, left, right } => match *left {
            SpecTree::Leaf => (*right, value),
            SpecTree::Node { .. } => {
                let (rest, least) = spec_remove_min(*left);
                (
                    spec_rebalance(
                        SpecTree::Node { value, left: Box::new(rest), right },
                    ),
                    least,
                )
            },
        },
    }
}

/// Model-level removal: descend by the ordering; a node with two children
/// is replaced by its in-order successor; rebalance on the way back up.
pub open spec fn spec_avl_remove(t: SpecTree, value: i64) -> SpecTree
    decreases t,
{
    match t {
        SpecTree::Leaf => t,
        SpecTree::Node { value: root, left, right } => {
            if value < root {
                spec_rebalance(
                    SpecTree::Node {
                        value: root,
                        left: Box::new(spec_avl_remove(*left, value)),
                        right,
                    },
                )
            } else if value > root {
                spec_rebalance(
                    SpecTree::Node {
                        value: root,
                        left,
                        right: Box::new(spec_avl_remove(*right, value)),
                    },
                )
            } else if *left is Leaf {
                *right
            } else if *right is Leaf {
                *left
            } else {
                let (rest, successor) = spec_remove_min(*right);
                spec_rebalance(
                    SpecTree::Node { value: successor, left, right: Box::new(rest) },
                )
            }
        },
    }
}

/// The tree built by inserting the values of a sequence from first to last.
pub open spec fn spec_avl_from(values: Seq<i64>) -> SpecTree
    decreases values.len(),
{
    if values.len() == 0 {
        SpecTree::Leaf
    } else {
        spec_avl_insert(spec_avl_from(values.drop_last()), values.last())
    }
}

proof fn lemma_height_le_size(n: Option<Box<Node>>)
    ensures
        height_of(n) <= size_of(n),
    decreases n,
{
    match n {
        None => {},
        Some(node) => {
            lemma_height_le_size(node.left);
            lemma_height_le_size(node.right);
        },
    }
}

/// The value set of a subtree is finite, and when the subtree is ordered its
/// cardinality equals the node count (all stored values are distinct).
proof fn lemma_set_size(n: Option<Box<Node>>)
    ensures
        set_of(n).finite(),
        ordered(n) ==> set_of(n).len() == size_of(n),
    decreases n,
{
    match n {
        None => {},
        Some(node) => {
            lemma_set_size(node.left);
            lemma_set_size(node.right);
            if ordered(n) {
                let l = set_of(node.left);
                let r = set_of(node.right);
                assert(l.disjoint(r)) by {
                    assert forall|v: i64| l.contains(v) implies !r.contains(v) by {
                        assert(v < node.value);
                    }
                }
                vstd::set_lib::lemma_set_disjoint_lens(l, r);
                assert(!l.union(r).contains(node.value));
                assert(l.union(r).insert(node.value).len() == l.union(r).len() + 1);
            }
        },
    }
}

/// Membership in the traversal sequences coincides with membership in the
/// value set; both sequences list one element per node.
proof fn lemma_traversals_cover_set(n: Option<Box<Node>>)
    ensures
        inorder_of(n).len() == size_of(n),
        preorder_of(n).len() == size_of(n),
        forall|v: i64| #[trigger] inorder_of(n).contains(v) <==> set_of(n).contains(v),
        forall|v: i64| #[trigger] preorder_of(n).contains(v) <==> set_of(n).contains(v),
    decreases n,
{
    match n {
        None => {
            assert(forall|v: i64| !(#[trigger] inorder_of(n).contains(v)));
            assert(forall|v: i64| !(#[trigger] preorder_of(n).contains(v)));
        },
        Some(node) => {
            lemma_traversals_cover_set(node.left);
            lemma_traversals_cover_set(node.right);
            let il = inorder_of(node.left);
            let ir = inorder_of(node.right);
            let pl = preorder_of(node.left);
            let pr = preorder_of(node.right);
            assert(inorder_of(n) == il + seq![node.value] + ir);
            assert(preorder_of(n) == seq![node.value] + pl + pr);
            assert forall|v: i64| #[trigger] inorder_of(n).contains(v) implies set_of(n).contains(
                v,
            ) by {
                let i = choose|i: int| 0 <= i < inorder_of(n).len() && inorder_of(n)[i] == v;
                if i < il.len() {
                    assert(il[i] == v);
                    assert(il.contains(v));
                } else if i == il.len() {
                    assert(v == node.value);
                } else {
                    assert(ir[i - il.len() - 1] == v);
                    assert(ir.contains(v));
                }
            }
            assert forall|v: i64| set_of(n).contains(v) implies #[trigger] inorder_of(n).contains(
                v,
            ) by {
                if v == node.value {
                    assert(inorder_of(n)[il.len() as int] == v);
                } else if set_of(node.left).contains(v) {
                    assert(il.contains(v));
                    let i = choose|i: int| 0 <= i < il.len() && il[i] == v;
                    assert(inorder_of(n)[i] == v);
                } else {
                    assert(ir.contains(v));
                    let i = choose|i: int| 0 <= i < ir.len() && ir[i] == v;
                    assert(inorder_of(n)[il.len() + 1 + i] == v);
                }
            }
            assert forall|v: i64| #[trigger] preorder_of(n).contains(v) implies set_of(n).contains(
                v,
            ) by {
                let i = choose|i: int| 0 <= i < preorder_of(n).len() && preorder_of(n)[i] == v;
                if i == 0 {
                    assert(v == node.value);
                } else if i <= pl.len() {
                    assert(pl[i - 1] == v);
                    assert(pl.contains(v));
                } else {
                    assert(pr[i - 1 - pl.len()] == v);
                    assert(pr.contains(v));
                }
            }
            assert forall|v: i64| set_of(n).contains(v) implies #[trigger] preorder_of(n).contains(
                v,
            ) by {
                if v == node.value {
                    assert(preorder_of(n)[0] == v);
                } else if set_of(node.left).contains(v) {
                    assert(pl.contains(v));
                    let i = choose|i: int| 0 <= i < pl.len() && pl[i] == v;
                    assert(preorder_of(n)[1 + i] == v);
                } else {
                    assert(pr.contains(v));
                    let i = choose|i: int| 0 <= i < pr.len() && pr[i] == v;
                    assert(preorder_of(n)[1 + pl.len() + i] == v);
                }
            }
        },
    }
}

/// In an ordered subtree the inorder sequence is strictly increasing.
proof fn lemma_inorder_sorted(n: Option<Box<Node>>)
    requires
        ordered(n),
    ensures
        forall|i: int, j: int|
            0 <= i < j < inorder_of(n).len() ==> inorder_of(n)[i] < inorder_of(n)[j],
    decreases n,
{
    match n {
        None => {},
        Some(node) => {
            lemma_inorder_sorted(node.left);
            lemma_inorder_sorted(node.right);
            lemma_traversals_cover_set(node.left);
            lemma_traversals_cover_set(node.right);
            let il = inorder_of(node.left);
            let ir = inorder_of(node.right);
            let all = inorder_of(n);
            assert forall|i: int, j: int| 0 <= i < j < all.len() implies all[i] < all[j] by {
                if i < il.len() {
                    assert(il.contains(il[i]));
                    assert(all[i] == il[i]);
                    assert(all[i] < node.value);
                }
                if j < il.len() {
                    assert(il.contains(il[j]));
                    assert(all[j] == il[j]);
                }
                if i > il.len() {
                    assert(ir.contains(ir[i - il.len() - 1]));
                    assert(all[i] == ir[i - il.len() - 1]);
                }
                if j > il.len() {
                    assert(ir.contains(ir[j - il.len() - 1]));
                    assert(all[j] == ir[j - il.len() - 1]);
                    assert(all[j] > node.value);
                }
                if i == il.len() {
                    assert(all[i] == node.value);
                }
                if j == il.len() {
                    assert(all[j] == node.value);
                }
            }
        },
    }
}

/// Cached height of an optional subtree (0 when absent).
fn stored_height(n: &Option<Box<Node>>) -> (h: u64)
    requires
        heights_stored(*n),
    ensures
        h == height_of(*n),
{
    match n {
        None => 0,
        Some(node) => node.height,
    }
}

/// Right rotation: the left child becomes the root of the subtree.
/// Heights of the two rearranged nodes are recomputed, child first.
fn rotate_right(mut n: Box<Node>) -> (r: Box<Node>)
    requires
        n.left.is_some(),
        ordered(Some(n)),
        heights_stored(n.left),
        heights_stored(n.right),
        1 + nat_max(
            height_of(n.left.unwrap().left),
            1 + nat_max(height_of(n.left.unwrap().right), height_of(n.right)),
        ) <= u64::MAX,
    ensures
        r.value == n.left.unwrap().value,
        r.left == n.left.unwrap().left,
        r.right.is_some(),
        r.right.unwrap().value == n.value,
        r.right.unwrap().left == n.left.unwrap().right,
        r.right.unwrap().right == n.right,
        heights_stored(Some(r)),
        ordered(Some(r)),
        set_of(Some(r)) == set_of(Some(n)),
        size_of(Some(r)) == size_of(Some(n)),
        model_of(Some(r)) == spec_rotate_right(model_of(Some(n))),
        height_of(Some(r)) == 1 + nat_max(
            height_of(n.left.unwrap().left),
            1 + nat_max(height_of(n.left.unwrap().right), height_of(n.right)),
        ),
{
    let ghost n0 = n;
    proof {
        assert(ordered(n0.left));
        assert(ordered(n0.right));
        assert(heights_stored(n0.left));
    }
    let mut l = n.left.take().unwrap();
    let ghost l0 = l;
    n.left = l.right.take();
    let hb = stored_height(&n.left);
    let hc = stored_height(&n.right);
    n.height = 1 + if hb > hc {
        hb
    } else {
        hc
    };
    l.right = Some(n);
    let ha = stored_height(&l.left);
    let hin = stored_height(&l.right);
    l.height = 1 + if ha > hin {
        ha
    } else {
        hin
    };
    proof {
        let ln = l0.value;
        let a = l0.left;
        let b = l0.right;
        let c = n0.right;
        assert(set_of(n0.left) == set_of(a).union(set_of(b)).insert(ln));
        assert(size_of(n0.left) == 1 + size_of(a) + size_of(b));
        assert(set_of(Some(l.right.unwrap())) =~= set_of(b).union(set_of(c)).insert(n0.value));
        assert(size_of(l.right) == 1 + size_of(b) + size_of(c));
        assert(size_of(Some(l)) == size_of(Some(n0)));
        assert(set_of(Some(l)) =~= set_of(Some(n0)));
        // everything below the old left child is smaller than the old root
        assert forall|v: i64| set_of(b).contains(v) implies v < n0.value by {
            assert(set_of(n0.left).contains(v));
        }
        assert forall|v: i64| set_of(Some(l.right.unwrap())).contains(v) implies v > ln by {
            if set_of(b).contains(v) {
                assert(v > ln);
            } else if set_of(c).contains(v) {
                assert(set_of(n0.left).contains(ln));
                assert(ln < n0.value);
            } else {
                assert(v == n0.value);
                assert(set_of(n0.left).contains(ln));
            }
        }
        assert(heights_stored(b) && heights_stored(c));
        assert(heights_stored(l.right));
        assert(ordered(l.right));
        assert(ordered(Some(l)));
        assert(height_of(l.right) == 1 + nat_max(height_of(b), height_of(c)));
        assert(height_of(Some(l)) == 1 + nat_max(height_of(a), 1 + nat_max(
            height_of(b),
            height_of(c),
        )));
        assert(model_of(Some(n0)) == SpecTree::Node {
            value: n0.value,
            left: Box::new(model_of(n0.left)),
            right: Box::new(model_of(c)),
        });
        assert(model_of(n0.left) == SpecTree::Node {
            value: ln,
            left: Box::new(model_of(a)),
            right: Box::new(model_of(b)),
        });
        assert(model_of(l.right) == SpecTree::Node {
            value: n0.value,
            left: Box::new(model_of(b)),
            right: Box::new(model_of(c)),
        });
        assert(model_of(Some(l)) == SpecTree::Node {
            value: ln,
            left: Box::new(model_of(a)),
            right: Box::new(SpecTree::Node {
                value: n0.value,
                left: Box::new(model_of(b)),
                right: Box::new(model_of(c)),
            }),
        });
        assert(spec_rotate_right(model_of(Some(n0))) == SpecTree::Node {
            value: ln,
            left: Box::new(model_of(a)),
            right: Box::new(SpecTree::Node {
                value: n0.value,
                left: Box::new(model_of(b)),
                right: Box::new(model_of(c)),
            }),
        });
    }
    l
}

/// Left rotation, the mirror image of `rotate_right`.
fn rotate_left(mut n: Box<Node>) -> (r: Box<Node>)
    requires
        n.right.is_some(),
        ordered(Some(n)),
        heights_stored(n.left),
        heights_stored(n.right),
        1 + nat_max(
            height_of(n.right.unwrap().right),
            1 + nat_max(height_of(n.right.unwrap().left), height_of(n.left)),
        ) <= u64::MAX,
    ensures
        r.value == n.right.unwrap().value,
        r.right == n.right.unwrap().right,
        r.left.is_some(),
        r.left.unwrap().value == n.value,
        r.left.unwrap().right == n.right.unwrap().left,
        r.left.unwrap().left == n.left,
        heights_stored(Some(r)),
        ordered(Some(r)),
        set_of(Some(r)) == set_of(Some(n)),
        size_of(Some(r)) == size_of(Some(n)),
        model_of(Some(r)) == spec_rotate_left(model_of(Some(n))),
        height_of(Some(r)) == 1 + nat_max(
            height_of(n.right.unwrap().right),
            1 + nat_max(height_of(n.right.unwrap().left), height_of(n.left)),
        ),
{
    let ghost n0 = n;
    proof {
        assert(ordered(n0.left));
        assert(ordered(n0.right));
        assert(heights_stored(n0.right));
    }
    let mut rchild = n.right.take().unwrap();
    let ghost r0 = rchild;
    n.right = rchild.left.take();
    let hb = stored_height(&n.right);
    let ha = stored_height(&n.left);
    n.height = 1 + if ha > hb {
        ha
    } else {
        hb
    };
    rchild.left = Some(n);
    let hin = stored_height(&rchild.left);
    let hc = stored_height(&rchild.right);
    rchild.height = 1 + if hin > hc {
        hin
    } else {
        hc
    };
    proof {
        let rn = r0.value;
        let a = n0.left;
        let b = r0.left;
        let c = r0.right;
        assert(set_of(n0.right) == set_of(b).union(set_of(c)).insert(rn));
        assert(size_of(n0.right) == 1 + size_of(b) + size_of(c));
        assert(set_of(Some(rchild.left.unwrap())) =~= set_of(a).union(set_of(b)).insert(n0.value));
        assert(size_of(rchild.left) == 1 + size_of(a) + size_of(b));
        assert(size_of(Some(rchild)) == size_of(Some(n0)));
        assert(set_of(Some(rchild)) =~= set_of(Some(n0)));
        // everything below the old right child is larger than the old root
        assert forall|v: i64| set_of(b).contains(v) implies v > n0.value by {
            assert(set_of(n0.right).contains(v));
        }
        assert forall|v: i64| set_of(Some(rchild.left.unwrap())).contains(v) implies v < rn by {
            if set_of(b).contains(v) {
                assert(v < rn);
            } else if set_of(a).contains(v) {
                assert(set_of(n0.right).contains(rn));
                assert(rn > n0.value);
            } else {
                assert(v == n0.value);
                assert(set_of(n0.right).contains(rn));
            }
        }
        assert(heights_stored(b) && heights_stored(a));
        assert(heights_stored(rchild.left));
        assert(ordered(rchild.left));
        assert(ordered(Some(rchild)));
        assert(height_of(rchild.left) == 1 + nat_max(height_of(b), height_of(a)));
        assert(height_of(Some(rchild)) == 1 + nat_max(height_of(c), 1 + nat_max(
            height_of(b),
            height_of(a),
        )));
        assert(model_of(Some(n0)) == SpecTree::Node {
            value: n0.value,
            left: Box::new(model_of(a)),
            right: Box::new(model_of(n0.right)),
        });
        assert(model_of(n0.right) == SpecTree::Node {
            value: rn,
            left: Box::new(model_of(b)),
            right: Box::new(model_of(c)),
        });
        assert(model_of(rchild.left) == SpecTree::Node {
            value: n0.value,
            left: Box::new(model_of(a)),
            right: Box::new(model_of(b)),
        });
        assert(model_of(Some(rchild)) == SpecTree::Node {
            value: rn,
            left: Box::new(SpecTree::Node {
                value: n0.value,
                left: Box::new(model_of(a)),
                right: Box::new(model_of(b)),
            }),
            right: Box::new(model_of(c)),
        });
        assert(spec_rotate_left(model_of(Some(n0))) == SpecTree::Node {
            value: rn,
            left: Box::new(SpecTree::Node {
                value: n0.value,
                left: Box::new(model_of(a)),
                right: Box::new(model_of(b)),
            }),
            right: Box::new(model_of(c)),
        });
    }
    rchild
}

/// Restore the AVL balance at one node whose children are already balanced
/// and whose heights differ by at most two, recomputing the cached height.
fn rebalance(mut n: Box<Node>) -> (r: Box<Node>)
    requires
        ordered(Some(n)),
        heights_stored(n.left),
        heights_stored(n.right),
        balanced(n.left),
        balanced(n.right),
        height_of(n.left) <= height_of(n.right) + 2,
        height_of(n.right) <= height_of(n.left) + 2,
        nat_max(height_of(n.left), height_of(n.right)) + 1 <= u64::MAX,
    ensures
        ordered(Some(r)),
        heights_stored(Some(r)),
        balanced(Some(r)),
        set_of(Some(r)) == set_of(Some(n)),
        size_of(Some(r)) == size_of(Some(n)),
        model_of(Some(r)) == spec_rebalance(model_of(Some(n))),
        nat_max(height_of(n.left), height_of(n.right)) <= height_of(Some(r)) <= 1 + nat_max(
            height_of(n.left),
            height_of(n.right),
        ),
        (height_of(n.left) <= height_of(n.right) + 1 && height_of(n.right) <= height_of(n.left)
            + 1) ==> height_of(Some(r)) == 1 + nat_max(height_of(n.left), height_of(n.right)),
        (height_of(n.left) <= height_of(n.right) + 1 && height_of(n.right) <= height_of(n.left) + 1
            && n.height == 1 + nat_max(height_of(n.left), height_of(n.right))) ==> r == n,
{
    let ghost n0 = n;
    let hl = stored_height(&n.left);
    let hr = stored_height(&n.right);
    if hl > hr + 1 {
        // left-heavy: the left child exists and carries the surplus height
        proof {
            assert(height_of(n0.left) == hl == hr + 2);
            assert(n0.left.is_some()) by {
                assert(height_of(n0.left) > 0);
            }
        }
        let mut l = n.left.take().unwrap();
        let ghost l0 = l;
        let hll = stored_height(&l.left);
        let hlr = stored_height(&l.right);
        proof {
            assert(height_of(Some(l0)) == 1 + nat_max(height_of(l0.left), height_of(l0.right)));
            assert(nat_max(hll as nat, hlr as nat) == hl - 1);
            assert(hll <= hlr + 1 && hlr <= hll + 1);  // balanced(n0.left)
        }
        if hlr > hll {
            // left-right shape: first rotate the left child leftwards
            proof {
                assert(l0.right.is_some()) by {
                    assert(height_of(l0.right) > 0);
                }
                let b1 = l0.right.unwrap().left;
                let b2 = l0.right.unwrap().right;
                assert(height_of(l0.right) == 1 + nat_max(height_of(b1), height_of(b2)));
            }
            l = rotate_left(l);
            proof {
                let b1 = l0.right.unwrap().left;
                let b2 = l0.right.unwrap().right;
                assert(height_of(Some(l.left.unwrap())) == 1 + nat_max(
                    height_of(l0.left),
                    height_of(b1),
                ));
                assert(balanced(l0.right));
                assert(height_of(Some(l)) == hl);
                assert(nat_max(height_of(l.left), height_of(l.right)) == hl - 1);
            }
        }
        n.left = Some(l);
        proof {
            assert(size_of(Some(n)) == size_of(Some(n0)));
            assert(set_of(Some(n)) =~= set_of(Some(n0)));
            assert forall|v: i64| set_of(Some(l)).contains(v) implies v < n0.value by {
                assert(set_of(n0.left).contains(v));
            }
            assert(ordered(Some(n)));
            assert(height_of(Some(l)) == hl);
        }
        let ghost n1 = n;
        let r = rotate_right(n);
        proof {
            let a = l.left;
            let b = l.right;
            let c = n0.right;
            assert(r.left == a && r.right.unwrap().left == b && r.right.unwrap().right == c);
            assert(balanced(a) && balanced(b)) by {
                if hlr > hll {
                    assert(balanced(l0.right));
                } else {
                    assert(balanced(Some(l0)));
                }
            }
            assert(height_of(Some(r.right.unwrap())) == 1 + nat_max(height_of(b), height_of(c)));
            assert(balanced(Some(r.right.unwrap())));
            assert(balanced(Some(r)));
            assert(set_of(Some(r)) == set_of(Some(n0)));
            assert(size_of(Some(r)) == size_of(Some(n0)));
            assert(hl <= height_of(Some(r)) <= hl + 1);
            lemma_model_of(n0.left);
            lemma_model_of(n0.right);
            lemma_model_of(l0.left);
            lemma_model_of(l0.right);
            assert(model_of(Some(n0)) == SpecTree::Node {
                value: n0.value,
                left: Box::new(model_of(n0.left)),
                right: Box::new(model_of(n0.right)),
            });
            assert(model_of(n0.left) == SpecTree::Node {
                value: l0.value,
                left: Box::new(model_of(l0.left)),
                right: Box::new(model_of(l0.right)),
            });
            if hlr > hll {
                assert(model_of(Some(l)) == spec_rotate_left(model_of(n0.left)));
            } else {
                assert(model_of(Some(l)) == model_of(n0.left));
            }
            assert(model_of(Some(n1)) == SpecTree::Node {
                value: n0.value,
                left: Box::new(model_of(Some(l))),
                right: Box::new(model_of(n0.right)),
            });
            assert(model_of(Some(r)) == spec_rotate_right(model_of(Some(n1))));
            assert(model_of(Some(r)) == spec_rebalance(model_of(Some(n0))));
        }
        r
    } else if hr > hl + 1 {
        // right-heavy: mirror image
        proof {
            assert(height_of(n0.right) == hr == hl + 2);
            assert(n0.right.is_some()) by {
                assert(height_of(n0.right) > 0);
            }
        }
        let mut rc = n.right.take().unwrap();
        let ghost r0 = rc;
        let hrl = stored_height(&rc.left);
        let hrr = stored_height(&rc.right);
        proof {
            assert(height_of(Some(r0)) == 1 + nat_max(height_of(r0.left), height_of(r0.right)));
            assert(nat_max(hrl as nat, hrr as nat) == hr - 1);
            assert(hrl <= hrr + 1 && hrr <= hrl + 1);  // balanced(n0.right)
        }
        if hrl > hrr {
            // right-left shape: first rotate the right child rightwards
            proof {
                assert(r0.left.is_some()) by {
                    assert(height_of(r0.left) > 0);
                }
                let b1 = r0.left.unwrap().left;
                let b2 = r0.left.unwrap().right;
                assert(height_of(r0.left) == 1 + nat_max(height_of(b1), height_of(b2)));
            }
            rc = rotate_right(rc);
            proof {
                let b1 = r0.left.unwrap().left;
                let b2 = r0.left.unwrap().right;
                assert(height_of(Some(rc.right.unwrap())) == 1 + nat_max(
                    height_of(b2),
                    height_of(r0.right),
                ));
                assert(balanced(r0.left));
                assert(height_of(Some(rc)) == hr);
                assert(nat_max(height_of(rc.left), height_of(rc.right)) == hr - 1);
            }
        }
        n.right = Some(rc);
        proof {
            assert(size_of(Some(n)) == size_of(Some(n0)));
            assert(set_of(Some(n)) =~= set_of(Some(n0)));
            assert forall|v: i64| set_of(Some(rc)).contains(v) implies v > n0.value by {
                assert(set_of(n0.right).contains(v));
            }
            assert(ordered(Some(n)));
            assert(height_of(Some(rc)) == hr);
        }
        let ghost n1 = n;
        let r = rotate_left(n);
        proof {
            let a = n0.left;
            let b = rc.left;
            let c = rc.right;
            assert(r.right == c && r.left.unwrap().left == a && r.left.unwrap().right == b);
            assert(balanced(b) && balanced(c)) by {
                if hrl > hrr {
                    assert(balanced(r0.left));
                } else {
                    assert(balanced(Some(r0)));
                }
            }
            assert(height_of(Some(r.left.unwrap())) == 1 + nat_max(height_of(a), height_of(b)));
            assert(balanced(Some(r.left.unwrap())));
            assert(balanced(Some(r)));
            assert(set_of(Some(r)) == set_of(Some(n0)));
            assert(size_of(Some(r)) == size_of(Some(n0)));
            assert(hr <= height_of(Some(r)) <= hr + 1);
            lemma_model_of(n0.left);
            lemma_model_of(n0.right);
            lemma_model_of(r0.left);
            lemma_model_of(r0.right);
            assert(model_of(Some(n0)) == SpecTree::Node {
                value: n0.value,
                left: Box::new(model_of(n0.left)),
                right: Box::new(model_of(n0.right)),
            });
            assert(model_of(n0.right) == SpecTree::Node {
                value: r0.value,
                left: Box::new(model_of(r0.left)),
                right: Box::new(model_of(r0.right)),
            });
            if hrl > hrr {
                assert(model_of(Some(rc)) == spec_rotate_right(model_of(n0.right)));
            } else {
                assert(model_of(Some(rc)) == model_of(n0.right));
            }
            assert(model_of(Some(n1)) == SpecTree::Node {
                value: n0.value,
                left: Box::new(model_of(n0.left)),
                right: Box::new(model_of(Some(rc))),
            });
            assert(model_of(Some(r)) == spec_rotate_left(model_of(Some(n1))));
            assert(model_of(Some(r)) == spec_rebalance(model_of(Some(n0))));
        }
        r
    } else {
        n.height = 1 + if hl > hr {
            hl
        } else {
            hr
        };
        proof {
            lemma_model_of(n0.left);
            lemma_model_of(n0.right);
            assert(model_of(Some(n0)) == SpecTree::Node {
                value: n0.value,
                left: Box::new(model_of(n0.left)),
                right: Box::new(model_of(n0.right)),
            });
            assert(model_of(Some(n)) == model_of(Some(n0)));
            assert(spec_rebalance(model_of(Some(n0))) == model_of(Some(n0)));
        }
        n
    }
}

/// Insert `value` into an owned subtree, rebalancing on the way back up.
/// Returns the new subtree and whether a node was actually added.
fn insert_opt(n: Option<Box<Node>>, value: i64) -> (res: (Option<Box<Node>>, bool))
    requires
        wf_opt(n),
        size_of(n) < usize::MAX,
    ensures
        wf_opt(res.0),
        set_of(res.0) == set_of(n).insert(value),
        res.1 == !set_of(n).contains(value),
        size_of(res.0) == size_of(n) + (if res.1 {
            1nat
        } else {
            0nat
        }),
        height_of(n) <= height_of(res.0) <= height_of(n) + 1,
        model_of(res.0) == spec_avl_insert(model_of(n), value),
        !res.1 ==> res.0 == n,
    decreases n,
{
    match n {
        None => {
            let node = Box::new(Node { value, height: 1, left: None, right: None });
            proof {
                assert(set_of(n) =~= Set::<i64>::empty());
                assert(!set_of(n).contains(value));
                assert(size_of(n) == 0 && size_of(Some(node)) == 1);
                assert(height_of(n) == 0 && height_of(Some(node)) == 1);
                assert(wf_opt(Some(node)));
                assert(set_of(Some(node)) =~= set_of(n).insert(value));
                assert(model_of(n) == SpecTree::Leaf);
                assert(model_of(Some(node)) == SpecTree::Node {
                    value,
                    left: Box::new(SpecTree::Leaf),
                    right: Box::new(SpecTree::Leaf),
                });
                assert(model_of(Some(node)) == spec_avl_insert(model_of(n), value));
            }
            (Some(node), true)
        },
        Some(mut b) => {
            let ghost b0 = b;
            proof {
                lemma_height_le_size(n);
                lemma_height_le_size(b0.left);
                lemma_height_le_size(b0.right);
            }
            if value < b.value {
                let (nl, added) = insert_opt(b.left.take(), value);
                b.left = nl;
                proof {
                    assert forall|v: i64| set_of(b.left).contains(v) implies v < b0.value by {
                        if v != value {
                            assert(set_of(b0.left).contains(v));
                        }
                    }
                    assert(ordered(Some(b)));
                    lemma_height_le_size(b.left);
                    assert(nat_max(height_of(b.left), height_of(b.right)) + 1 <= u64::MAX) by {
                        assert(height_of(b.left) <= size_of(b.left) <= size_of(n));
                        assert(height_of(b.right) <= size_of(b0.right) < size_of(n));
                        assert(usize::MAX <= u64::MAX);
                    }
                }
                let ghost b1 = b;
                let r = rebalance(b);
                proof {
                    assert(set_of(Some(r)) =~= set_of(n).insert(value));
                    assert(size_of(n) == 1 + size_of(b0.left) + size_of(b0.right));
                    assert(size_of(Some(b1)) == 1 + size_of(b1.left) + size_of(b1.right));
                    assert(height_of(n) == 1 + nat_max(height_of(b0.left), height_of(b0.right)));
                    assert(height_of(n) <= height_of(Some(r)) <= height_of(n) + 1);
                    assert(model_of(n) == SpecTree::Node {
                        value: b0.value,
                        left: Box::new(model_of(b0.left)),
                        right: Box::new(model_of(b0.right)),
                    });
                    assert(model_of(Some(b1)) == SpecTree::Node {
                        value: b0.value,
                        left: Box::new(spec_avl_insert(model_of(b0.left), value)),
                        right: Box::new(model_of(b0.right)),
                    });
                    assert(model_of(Some(r)) == spec_avl_insert(model_of(n), value));
                    if added {
                        if set_of(b0.right).contains(value) {
                            assert(value > b0.value);
                        }
                        assert(!set_of(n).contains(value));
                    } else {
                        assert(set_of(b0.left).contains(value));
                        assert(set_of(n).contains(value));
                        assert(b1 == b0);
                        assert(r == b0);
                    }
                }
                (Some(r), added)
            } else if value > b.value {
                let (nr, added) = insert_opt(b.right.take(), value);
                b.right = nr;
                proof {
                    assert forall|v: i64| set_of(b.right).contains(v) implies v > b0.value by {
                        if v != value {
                            assert(set_of(b0.right).contains(v));
                        }
                    }
                    assert(ordered(Some(b)));
                    lemma_height_le_size(b.right);
                    assert(nat_max(height_of(b.left), height_of(b.right)) + 1 <= u64::MAX) by {
                        assert(height_of(b.right) <= size_of(b.right) <= size_of(n));
                        assert(height_of(b.left) <= size_of(b0.left) < size_of(n));
                        assert(usize::MAX <= u64::MAX);
                    }
                }
                let ghost b1 = b;
                let r = rebalance(b);
                proof {
                    assert(set_of(Some(r)) =~= set_of(n).insert(value));
                    assert(size_of(n) == 1 + size_of(b0.left) + size_of(b0.right));
                    assert(size_of(Some(b1)) == 1 + size_of(b1.left) + size_of(b1.right));
                    assert(height_of(n) == 1 + nat_max(height_of(b0.left), height_of(b0.right)));
                    assert(height_of(n) <= height_of(Some(r)) <= height_of(n) + 1);
                    assert(model_of(n) == SpecTree::Node {
                        value: b0.value,
                        left: Box::new(model_of(b0.left)),
                        right: Box::new(model_of(b0.right)),
                    });
                    assert(model_of(Some(b1)) == SpecTree::Node {
                        value: b0.value,
                        left: Box::new(model_of(b0.left)),
                        right: Box::new(spec_avl_insert(model_of(b0.right), value)),
                    });
                    assert(model_of(Some(r)) == spec_avl_insert(model_of(n), value));
                    if added {
                        if set_of(b0.left).contains(value) {
                            assert(value < b0.value);
                        }
                        assert(!set_of(n).contains(value));
                    } else {
                        assert(set_of(b0.right).contains(value));
                        assert(set_of(n).contains(value));
                        assert(b1 == b0);
                        assert(r == b0);
                    }
                }
                (Some(r), added)
            } else {
                proof {
                    assert(set_of(n).contains(value));
                    assert(set_of(n) =~= set_of(n).insert(value));
                    assert(Some(b) == n);
                    assert(model_of(n) == SpecTree::Node {
                        value: b0.value,
                        left: Box::new(model_of(b0.left)),
                        right: Box::new(model_of(b0.right)),
                    });
                    assert(spec_avl_insert(model_of(n), value) == model_of(n));
                }
                (Some(b), false)
            }
        },
    }
}

/// Remove and return the smallest value of a non-empty owned subtree.
fn remove_min(mut n: Box<Node>) -> (res: (Option<Box<Node>>, i64))
    requires
        wf_opt(Some(n)),
    ensures
        wf_opt(res.0),
        set_of(Some(n)).contains(res.1),
        forall|v: i64| set_of(Some(n)).contains(v) ==> res.1 <= v,
        set_of(res.0) == set_of(Some(n)).remove(res.1),
        size_of(res.0) + 1 == size_of(Some(n)),
        height_of(Some(n)) <= height_of(res.0) + 1,
        height_of(res.0) <= height_of(Some(n)),
        (model_of(res.0), res.1) == spec_remove_min(model_of(Some(n))),
    decreases n,
{
    let ghost n0 = n;
    if n.left.is_none() {
        let ghost m = n0.value;
        proof {
            assert(ordered(n0.right) && heights_stored(n0.right) && balanced(n0.right));
            assert(set_of(n0.left) =~= Set::empty());
            assert(size_of(n0.left) == 0 && height_of(n0.left) == 0);
            assert(size_of(Some(n0)) == 1 + size_of(n0.left) + size_of(n0.right));
            assert(height_of(Some(n0)) == 1 + nat_max(height_of(n0.left), height_of(n0.right)));
            assert(set_of(n0.right) =~= set_of(Some(n0)).remove(m)) by {
                assert(!set_of(n0.right).contains(m));
            }
            assert forall|v: i64| set_of(Some(n0)).contains(v) implies m <= v by {
                if set_of(n0.right).contains(v) {
                    assert(v > n0.value);
                }
            }
            assert(model_of(Some(n0)) == SpecTree::Node {
                value: n0.value,
                left: Box::new(model_of(n0.left)),
                right: Box::new(model_of(n0.right)),
            });
            assert(model_of(n0.left) == SpecTree::Leaf);
            assert(spec_remove_min(model_of(Some(n0))) == (model_of(n0.right), n0.value));
        }
        let b = *n;
        (b.right, b.value)
    } else {
        let (nl, m) = remove_min(n.left.take().unwrap());
        n.left = nl;
        proof {
            assert(set_of(Some(n0)).contains(m)) by {
                assert(set_of(n0.left).contains(m));
            }
            assert forall|v: i64| set_of(n.left).contains(v) implies v < n0.value by {
                assert(set_of(n0.left).contains(v));
            }
            assert(ordered(Some(n)));
            assert forall|v: i64| set_of(Some(n0)).contains(v) implies m <= v by {
                if set_of(n0.left).contains(v) {
                } else if v == n0.value {
                    assert(set_of(n0.left).contains(m));
                } else {
                    assert(set_of(n0.left).contains(m));
                    assert(m < n0.value);
                    assert(set_of(n0.right).contains(v));
                    assert(v > n0.value);
                }
            }
            assert(nat_max(height_of(n.left), height_of(n.right)) + 1 <= u64::MAX) by {
                assert(n0.height == 1 + nat_max(height_of(n0.left), height_of(n0.right)));
                assert(height_of(n.left) <= height_of(n0.left));
            }
        }
        let ghost n1 = n;
        let r = rebalance(n);
        proof {
            assert(set_of(Some(r)) =~= set_of(Some(n0)).remove(m)) by {
                assert(!set_of(n0.right).contains(m));
                assert(m != n0.value);
            }
            assert(size_of(Some(n0)) == 1 + size_of(n0.left) + size_of(n0.right));
            assert(size_of(Some(n1)) == 1 + size_of(n1.left) + size_of(n1.right));
            assert(height_of(Some(n0)) == 1 + nat_max(height_of(n0.left), height_of(n0.right)));
            assert(height_of(Some(n0)) <= height_of(Some(r)) + 1);
            assert(height_of(Some(r)) <= height_of(Some(n0)));
            assert(model_of(Some(n0)) == SpecTree::Node {
                value: n0.value,
                left: Box::new(model_of(n0.left)),
                right: Box::new(model_of(n0.right)),
            });
            assert(model_of(n0.left) == SpecTree::Node {
                value: n0.left.unwrap().value,
                left: Box::new(model_of(n0.left.unwrap().left)),
                right: Box::new(model_of(n0.left.unwrap().right)),
            });
            assert(model_of(Some(n1)) == SpecTree::Node {
                value: n0.value,
                left: Box::new(spec_remove_min(model_of(n0.left)).0),
                right: Box::new(model_of(n0.right)),
            });
            assert(m == spec_remove_min(model_of(n0.left)).1);
            assert(spec_remove_min(model_of(Some(n0))) == (
                spec_rebalance(model_of(Some(n1))),
                m,
            ));
        }
        (Some(r), m)
    }
}

/// Remove `value` from an owned subtree, rebalancing on the way back up.
/// Returns the new subtree and the removed value, if one was found.
fn remove_opt(n: Option<Box<Node>>, value: i64) -> (res: (Option<Box<Node>>, Option<i64>))
    requires
        wf_opt(n),
    ensures
        wf_opt(res.0),
        set_of(res.0) == set_of(n).remove(value),
        res.1 == (if set_of(n).contains(value) {
            Some(value)
        } else {
            Option::<i64>::None
        }),
        size_of(res.0) + (if res.1 is Some {
            1nat
        } else {
            0nat
        }) == size_of(n),
        height_of(n) <= height_of(res.0) + 1,
        height_of(res.0) <= height_of(n),
        model_of(res.0) == spec_avl_remove(model_of(n), value),
        res.1 is None ==> res.0 == n,
    decreases n,
{
    match n {
        None => {
            proof {
                assert(set_of(n).remove(value) =~= set_of(n));
                assert(model_of(n) == SpecTree::Leaf);
                assert(spec_avl_remove(model_of(n), value) == model_of(n));
            }
            (None, None)
        },
        Some(mut b) => {
            let ghost b0 = b;
            proof {
                lemma_height_le_size(b0.left);
                lemma_height_le_size(b0.right);
            }
            if value < b.value {
                proof {
                    if set_of(n).contains(value) {
                        if set_of(b0.right).contains(value) {
                            assert(value > b0.value);
                        }
                        assert(set_of(b0.left).contains(value));
                    }
                }
                let (nl, removed) = remove_opt(b.left.take(), value);
                b.left = nl;
                proof {
                    assert forall|v: i64| set_of(b.left).contains(v) implies v < b0.value by {
                        assert(set_of(b0.left).contains(v));
                    }
                    assert(ordered(Some(b)));
                    assert(nat_max(height_of(b.left), height_of(b.right)) + 1 <= u64::MAX) by {
                        assert(b0.height == 1 + nat_max(height_of(b0.left), height_of(b0.right)));
                        assert(height_of(b.left) <= height_of(b0.left));
                    }
                }
                let ghost b1 = b;
                let r = rebalance(b);
                proof {
                    assert(set_of(Some(r)) =~= set_of(n).remove(value)) by {
                        assert(!set_of(b0.right).contains(value));
                    }
                    assert(size_of(n) == 1 + size_of(b0.left) + size_of(b0.right));
                    assert(size_of(Some(b1)) == 1 + size_of(b1.left) + size_of(b1.right));
                    assert(height_of(n) == 1 + nat_max(height_of(b0.left), height_of(b0.right)));
                    assert(height_of(n) <= height_of(Some(r)) + 1);
                    assert(height_of(Some(r)) <= height_of(n));
                    assert(model_of(n) == SpecTree::Node {
                        value: b0.value,
                        left: Box::new(model_of(b0.left)),
                        right: Box::new(model_of(b0.right)),
                    });
                    assert(model_of(Some(b1)) == SpecTree::Node {
                        value: b0.value,
                        left: Box::new(spec_avl_remove(model_of(b0.left), value)),
                        right: Box::new(model_of(b0.right)),
                    });
                    assert(model_of(Some(r)) == spec_avl_remove(model_of(n), value));
                    if removed is None {
                        assert(b1 == b0);
                        assert(r == b0);
                    }
                }
                (Some(r), removed)
            } else if value > b.value {
                proof {
                    if set_of(n).contains(value) {
                        if set_of(b0.left).contains(value) {
                            assert(value < b0.value);
                        }
                        assert(set_of(b0.right).contains(value));
                    }
                }
                let (nr, removed) = remove_opt(b.right.take(), value);
                b.right = nr;
                proof {
                    assert forall|v: i64| set_of(b.right).contains(v) implies v > b0.value by {
                        assert(set_of(b0.right).contains(v));
                    }
                    assert(ordered(Some(b)));
                    assert(nat_max(height_of(b.left), height_of(b.right)) + 1 <= u64::MAX) by {
                        assert(b0.height == 1 + nat_max(height_of(b0.left), height_of(b0.right)));
                        assert(height_of(b.right) <= height_of(b0.right));
                    }
                }
                let ghost b1 = b;
                let r = rebalance(b);
                proof {
                    assert(set_of(Some(r)) =~= set_of(n).remove(value)) by {
                        assert(!set_of(b0.left).contains(value));
                    }
                    assert(size_of(n) == 1 + size_of(b0.left) + size_of(b0.right));
                    assert(size_of(Some(b1)) == 1 + size_of(b1.left) + size_of(b1.right));
                    assert(height_of(n) == 1 + nat_max(height_of(b0.left), height_of(b0.right)));
                    assert(height_of(n) <= height_of(Some(r)) + 1);
                    assert(height_of(Some(r)) <= height_of(n));
                    assert(model_of(n) == SpecTree::Node {
                        value: b0.value,
                        left: Box::new(model_of(b0.left)),
                        right: Box::new(model_of(b0.right)),
                    });
                    assert(model_of(Some(b1)) == SpecTree::Node {
                        value: b0.value,
                        left: Box::new(model_of(b0.left)),
                        right: Box::new(spec_avl_remove(model_of(b0.right), value)),
                    });
                    assert(model_of(Some(r)) == spec_avl_remove(model_of(n), value));
                    if removed is None {
                        assert(b1 == b0);
                        assert(r == b0);
                    }
                }
                (Some(r), removed)
            } else {
                // found the node holding `value`
                proof {
                    assert(set_of(n).contains(value));
                    assert(!set_of(b0.left).contains(value));
                    assert(!set_of(b0.right).contains(value));
                }
                if b.left.is_none() {
                    proof {
                        assert(ordered(b0.right) && heights_stored(b0.right) && balanced(
                            b0.right,
                        ));
                        assert(set_of(b0.left) =~= Set::empty());
                        assert(size_of(b0.left) == 0 && height_of(b0.left) == 0);
                        assert(size_of(n) == 1 + size_of(b0.left) + size_of(b0.right));
                        assert(height_of(n) == 1 + nat_max(
                            height_of(b0.left),
                            height_of(b0.right),
                        ));
                        assert(set_of(b0.right) =~= set_of(n).remove(value));
                        assert(model_of(n) == SpecTree::Node {
                            value: b0.value,
                            left: Box::new(model_of(b0.left)),
                            right: Box::new(model_of(b0.right)),
                        });
                        assert(model_of(b0.left) == SpecTree::Leaf);
                        assert(spec_avl_remove(model_of(n), value) == model_of(b0.right));
                    }
                    let bb = *b;
                    (bb.right, Some(bb.value))
                } else if b.right.is_none() {
                    proof {
                        assert(ordered(b0.left) && heights_stored(b0.left) && balanced(b0.left));
                        assert(set_of(b0.right) =~= Set::empty());
                        assert(size_of(b0.right) == 0 && height_of(b0.right) == 0);
                        assert(size_of(n) == 1 + size_of(b0.left) + size_of(b0.right));
                        assert(height_of(n) == 1 + nat_max(
                            height_of(b0.left),
                            height_of(b0.right),
                        ));
                        assert(set_of(b0.left) =~= set_of(n).remove(value));
                        assert(model_of(n) == SpecTree::Node {
                            value: b0.value,
                            left: Box::new(model_of(b0.left)),
                            right: Box::new(model_of(b0.right)),
                        });
                        assert(model_of(b0.left) == SpecTree::Node {
                            value: b0.left.unwrap().value,
                            left: Box::new(model_of(b0.left.unwrap().left)),
                            right: Box::new(model_of(b0.left.unwrap().right)),
                        });
                        assert(model_of(b0.right) == SpecTree::Leaf);
                        assert(spec_avl_remove(model_of(n), value) == model_of(b0.left));
                    }
                    let bb = *b;
                    (bb.left, Some(bb.value))
                } else {
                    // two children: promote the in-order successor
                    let (nr, succ) = remove_min(b.right.take().unwrap());
                    let removed_value = b.value;
                    b.value = succ;
                    b.right = nr;
                    proof {
                        assert(set_of(b0.right).contains(succ));
                        assert(succ > b0.value);
                        assert forall|v: i64| set_of(b.left).contains(v) implies v < succ by {
                            assert(set_of(b0.left).contains(v));
                            assert(v < b0.value);
                        }
                        assert forall|v: i64| set_of(b.right).contains(v) implies v > succ by {
                            assert(set_of(b0.right).contains(v));
                            assert(succ <= v && v != succ);
                        }
                        assert(ordered(Some(b)));
                        assert(nat_max(height_of(b.left), height_of(b.right)) + 1 <= u64::MAX) by {
                            assert(b0.height == 1 + nat_max(
                                height_of(b0.left),
                                height_of(b0.right),
                            ));
                            assert(height_of(b.right) <= height_of(b0.right));
                        }
                    }
                    let ghost b1 = b;
                    let r = rebalance(b);
                    proof {
                        assert(set_of(Some(r)) =~= set_of(n).remove(value)) by {
                            assert(!set_of(b0.left).contains(value));
                        }
                        assert(size_of(n) == 1 + size_of(b0.left) + size_of(b0.right));
                        assert(size_of(Some(b1)) == 1 + size_of(b1.left) + size_of(b1.right));
                        assert(height_of(n) == 1 + nat_max(
                            height_of(b0.left),
                            height_of(b0.right),
                        ));
                        assert(height_of(n) <= height_of(Some(r)) + 1);
                        assert(height_of(Some(r)) <= height_of(n));
                        assert(model_of(n) == SpecTree::Node {
                            value: b0.value,
                            left: Box::new(model_of(b0.left)),
                            right: Box::new(model_of(b0.right)),
                        });
                        assert(model_of(b0.left) == SpecTree::Node {
                            value: b0.left.unwrap().value,
                            left: Box::new(model_of(b0.left.unwrap().left)),
                            right: Box::new(model_of(b0.left.unwrap().right)),
                        });
                        assert(model_of(b0.right) == SpecTree::Node {
                            value: b0.right.unwrap().value,
                            left: Box::new(model_of(b0.right.unwrap().left)),
                            right: Box::new(model_of(b0.right.unwrap().right)),
                        });
                        assert(model_of(nr) == spec_remove_min(model_of(b0.right)).0);
                        assert(succ == spec_remove_min(model_of(b0.right)).1);
                        assert(model_of(Some(b1)) == SpecTree::Node {
                            value: succ,
                            left: Box::new(model_of(b0.left)),
                            right: Box::new(spec_remove_min(model_of(b0.right)).0),
                        });
                        assert(model_of(Some(r)) == spec_avl_remove(model_of(n), value));
                    }
                    (Some(r), Some(removed_value))
                }
            }
        },
    }
}

fn contains_in(n: &Option<Box<Node>>, value: &i64) -> (found: bool)
    requires
        ordered(*n),
    ensures
        found == set_of(*n).contains(*value),
    decreases n,
{
    match n {
        None => false,
        Some(node) => {
            if *value < node.value {
                proof {
                    assert(!set_of(node.right).contains(*value));
                }
                contains_in(&node.left, value)
            } else if *value > node.value {
                proof {
                    assert(!set_of(node.left).contains(*value));
                }
                contains_in(&node.right, value)
            } else {
                true
            }
        },
    }
}

/// Append the inorder listing of an owned subtree to `out`.
fn inorder_into(n: Option<Box<Node>>, out: &mut Vec<i64>)
    ensures
        final(out)@ == old(out)@ + inorder_of(n),
    decreases n,
{
    match n {
        None => {
            proof {
                assert(out@ =~= out@ + inorder_of(n));
            }
        },
        Some(node) => {
            let b = *node;
            let ghost prefix = out@;
            inorder_into(b.left, out);
            out.push(b.value);
            inorder_into(b.right, out);
            proof {
                assert(out@ =~= prefix + inorder_of(n));
            }
        },
    }
}

/// Append the preorder listing of an owned subtree to `out`.
fn preorder_into(n: Option<Box<Node>>, out: &mut Vec<i64>)
    ensures
        final(out)@ == old(out)@ + preorder_of(n),
    decreases n,
{
    match n {
        None => {
            proof {
                assert(out@ =~= out@ + preorder_of(n));
            }
        },
        Some(node) => {
            let b = *node;
            let ghost prefix = out@;
            out.push(b.value);
            preorder_into(b.left, out);
            preorder_into(b.right, out);
            proof {
                assert(out@ =~= prefix + preorder_of(n));
            }
        },
    }
}

impl AVLTree {
    /// The bare branching structure of the tree.  Together with the open
    /// model-level operations (`spec_avl_insert`, `spec_avl_remove`,
    /// `spec_avl_from`) this pins, from the contracts alone, exactly which
    /// tree every operation builds.
    pub closed spec fn spec_tree(self) -> SpecTree {
        model_of(self.root)
    }

    /// The set of stored values.
    pub open spec fn view(self) -> Set<i64> {
        tree_set(self.spec_tree())
    }

    /// Structural well-formedness: ordering, cached heights, balance, and an
    /// accurate length counter.
    pub closed spec fn wf(self) -> bool {
        wf_opt(self.root) && self.len == size_of(self.root)
    }

    /// Height of the root (0 for the empty tree), recomputed over the
    /// structure.
    pub open spec fn spec_height(self) -> nat {
        tree_height(self.spec_tree())
    }

    /// The inorder listing of the stored values.
    pub open spec fn spec_inorder(self) -> Seq<i64> {
        tree_inorder(self.spec_tree())
    }

    /// The preorder listing of the stored values.
    pub open spec fn spec_preorder(self) -> Seq<i64> {
        tree_preorder(self.spec_tree())
    }

    pub fn new() -> (tree: AVLTree)
        ensures
            tree.wf(),
            tree@ == Set::<i64>::empty(),
            tree.spec_height() == 0,
            tree.spec_tree() == SpecTree::Leaf,
    {
        let tree = AVLTree { root: None, len: 0 };
        proof {
            lemma_model_of(tree.root);
        }
        tree
    }

    pub fn from_iter(values: Vec<i64>) -> (tree: AVLTree)
        ensures
            tree.wf(),
            tree@ == values@.to_set(),
            tree.spec_tree() == spec_avl_from(values@),
    {
        let mut tree = AVLTree::new();
        proof {
            assert(values@.take(0) =~= Seq::<i64>::empty());
            assert(tree@ =~= values@.take(0).to_set()) by {
                assert(forall|v: i64| !(#[trigger] values@.take(0).contains(v)));
            }
            assert(tree.spec_tree() == spec_avl_from(values@.take(0)));
        }
        let n = values.len();
        let mut i: usize = 0;
        while i < n
            invariant
                tree.wf(),
                n == values@.len(),
                i <= n,
                tree@ == values@.take(i as int).to_set(),
                tree.spec_tree() == spec_avl_from(values@.take(i as int)),
            decreases n - i,
        {
            proof {
                lemma_set_size(tree.root);
                assert(tree@.len() <= i) by {
                    lemma_to_set_len_le(values@.take(i as int));
                }
            }
            tree.insert(values[i]);
            proof {
                assert(values@.take(i + 1) =~= values@.take(i as int).push(values@[i as int]));
                lemma_to_set_push(values@.take(i as int), values@[i as int]);
                assert(tree@ =~= values@.take(i + 1).to_set());
                assert(values@.take(i + 1).drop_last() =~= values@.take(i as int));
                assert(spec_avl_from(values@.take(i + 1)) == spec_avl_insert(
                    spec_avl_from(values@.take(i as int)),
                    values@[i as int],
                ));
            }
            i += 1;
        }
        proof {
            assert(values@.take(n as int) =~= values@);
        }
        tree
    }

    /// Insert `value`; a value already present leaves the tree unchanged.
    pub fn insert(&mut self, value: i64)
        requires
            old(self).wf(),
            old(self)@.len() < usize::MAX,
        ensures
            final(self).wf(),
            final(self)@ == old(self)@.insert(value),
            old(self).spec_height() <= final(self).spec_height() <= old(self).spec_height() + 1,
            old(self)@.contains(value) ==> *final(self) == *old(self),
            final(self)@.len() == old(self)@.len() + (if old(self)@.contains(value) {
                0nat
            } else {
                1nat
            }),
            final(self).spec_tree() == spec_avl_insert(old(self).spec_tree(), value),
    {
        proof {
            lemma_set_size(self.root);
            lemma_model_of(self.root);
        }
        let root = self.root.take();
        let ghost self0 = *old(self);
        let (new_root, added) = insert_opt(root, value);
        self.root = new_root;
        if added {
            self.len = self.len + 1;
        }
        proof {
            lemma_set_size(self.root);
            lemma_model_of(self.root);
            if !added {
                assert(*self =~= self0);
                assert(self0@.insert(value) =~= self0@);
            }
        }
    }

    /// Remove `value`, returning it when it was present.
    pub fn remove(&mut self, value: &i64) -> (removed: Option<i64>)
        requires
            old(self).wf(),
        ensures
            final(self).wf(),
            final(self)@ == old(self)@.remove(*value),
            old(self).spec_height() <= final(self).spec_height() + 1,
            final(self).spec_height() <= old(self).spec_height(),
            removed == (if old(self)@.contains(*value) {
                Some(*value)
            } else {
                Option::<i64>::None
            }),
            final(self)@.len() == old(self)@.len() - (if old(self)@.contains(*value) {
                1nat
            } else {
                0nat
            }),
            final(self).spec_tree() == spec_avl_remove(old(self).spec_tree(), *value),
            removed is None ==> *final(self) == *old(self),
    {
        proof {
            lemma_set_size(self.root);
            lemma_model_of(self.root);
        }
        let root = self.root.take();
        let ghost self0 = *old(self);
        let (new_root, removed) = remove_opt(root, *value);
        self.root = new_root;
        if removed.is_some() {
            self.len = self.len - 1;
        }
        proof {
            lemma_set_size(self.root);
            lemma_model_of(self.root);
            if removed is None {
                assert(*self =~= self0);
                assert(self0@.remove(*value) =~= self0@);
            }
        }
        removed
    }

    pub fn contains(&self, value: &i64) -> (found: bool)
        requires
            self.wf(),
        ensures
            found == self@.contains(*value),
    {
        proof {
            lemma_model_of(self.root);
        }
        contains_in(&self.root, value)
    }

    /// Height of the root; the cached field is proven equal to the height
    /// recomputed over the structure.
    pub fn height(&self) -> (h: u64)
        requires
            self.wf(),
        ensures
            h == self.spec_height(),
    {
        proof {
            lemma_model_of(self.root);
        }
        stored_height(&self.root)
    }

    pub fn is_empty(&self) -> (empty: bool)
        requires
            self.wf(),
        ensures
            empty == (self@.len() == 0),
            empty == (self.spec_height() == 0),
    {
        proof {
            lemma_set_size(self.root);
            lemma_model_of(self.root);
            if self.root is Some {
                assert(size_of(self.root) >= 1 && height_of(self.root) >= 1);
            }
        }
        self.len == 0
    }

    pub fn len(&self) -> (length: usize)
        requires
            self.wf(),
        ensures
            length == self@.len(),
    {
        proof {
            lemma_set_size(self.root);
            lemma_model_of(self.root);
        }
        self.len
    }

    /// Consume the tree, listing its values in ascending order.
    pub fn inorder_to_vec(self) -> (out: Vec<i64>)
        requires
            self.wf(),
        ensures
            out@ == self.spec_inorder(),
            out@.len() == self@.len(),
            forall|v: i64| #[trigger] out@.contains(v) <==> self@.contains(v),
            forall|i: int, j: int| 0 <= i < j < out@.len() ==> out@[i] < out@[j],
    {
        proof {
            lemma_set_size(self.root);
            lemma_traversals_cover_set(self.root);
            lemma_inorder_sorted(self.root);
            lemma_model_of(self.root);
        }
        let mut out: Vec<i64> = Vec::new();
        inorder_into(self.root, &mut out);
        proof {
            assert(out@ =~= inorder_of(self.root));
        }
        out
    }

    /// Consume the tree, listing its values parent-before-children.
    pub fn preorder_to_vec(self) -> (out: Vec<i64>)
        requires
            self.wf(),
        ensures
            out@ == self.spec_preorder(),
            out@.len() == self@.len(),
            forall|v: i64| #[trigger] out@.contains(v) <==> self@.contains(v),
    {
        proof {
            lemma_set_size(self.root);
            lemma_traversals_cover_set(self.root);
            lemma_model_of(self.root);
        }
        let mut out: Vec<i64> = Vec::new();
        preorder_into(self.root, &mut out);
        proof {
            assert(out@ =~= preorder_of(self.root));
        }
        out
    }
}

/// Fewest nodes a height-balanced tree of height `h` can hold.
pub open spec fn min_avl_size(h: nat) -> nat
    decreases h,
{
    if h == 0 {
        0
    } else if h == 1 {
        1
    } else {
        1 + min_avl_size((h - 1) as nat) + min_avl_size((h - 2) as nat)
    }
}

proof fn lemma_min_avl_size_mono(a: nat, b: nat)
    requires
        a <= b,
    ensures
        min_avl_size(a) <= min_avl_size(b),
    decreases b,
{
    if a == b {
    } else if b <= 1 {
    } else {
        lemma_min_avl_size_mono(a, (b - 1) as nat);
    }
}

proof fn lemma_balanced_min_size(n: Option<Box<Node>>)
    requires
        balanced(n),
    ensures
        min_avl_size(height_of(n)) <= size_of(n),
    decreases n,
{
    match n {
        None => {},
        Some(node) => {
            lemma_balanced_min_size(node.left);
            lemma_balanced_min_size(node.right);
            let hl = height_of(node.left);
            let hr = height_of(node.right);
            let h = height_of(n);
            assert(h == 1 + nat_max(hl, hr));
            if h > 1 {
                if hl >= hr {
                    lemma_min_avl_size_mono((h - 2) as nat, hr);
                } else {
                    lemma_min_avl_size_mono((h - 2) as nat, hl);
                }
            }
        },
    }
}

/// Every binary tree holds fewer values than two to the power of its
/// height.
proof fn lemma_size_lt_pow2(n: Option<Box<Node>>)
    ensures
        size_of(n) < pow2(height_of(n)),
    decreases n,
{
    vstd::arithmetic::power2::lemma2_to64();
    match n {
        None => {},
        Some(node) => {
            lemma_size_lt_pow2(node.left);
            lemma_size_lt_pow2(node.right);
            let h = height_of(n);
            let hl = height_of(node.left);
            let hr = height_of(node.right);
            assert(h == 1 + nat_max(hl, hr));
            if hl < (h - 1) as nat {
                vstd::arithmetic::power2::lemma_pow2_strictly_increases(hl, (h - 1) as nat);
            }
            if hr < (h - 1) as nat {
                vstd::arithmetic::power2::lemma_pow2_strictly_increases(hr, (h - 1) as nat);
            }
            vstd::arithmetic::power2::lemma_pow2_unfold(h);
        },
    }
}

/// Balance law: a well-formed tree is height-balanced at every node, so its
/// height is tied to the number of stored values in both directions.  A tree
/// of height `h` holds at least `min_avl_size(h)` values, a bound that grows
/// like a Fibonacci number, and fewer than `pow2(h)` values; the height is
/// zero exactly on the empty tree and never exceeds the value count.
pub proof fn lemma_balance_height_bound(tree: AVLTree)
    requires
        tree.wf(),
    ensures
        min_avl_size(tree.spec_height()) <= tree@.len(),
        tree@.len() < pow2(tree.spec_height()),
        (tree.spec_height() == 0) <==> (tree@.len() == 0),
        tree.spec_height() <= tree@.len(),
{
    lemma_balanced_min_size(tree.root);
    lemma_height_le_size(tree.root);
    lemma_size_lt_pow2(tree.root);
    lemma_set_size(tree.root);
    lemma_model_of(tree.root);
    if tree.root is Some {
        assert(size_of(tree.root) >= 1 && height_of(tree.root) >= 1);
    }
}

/// Round trip: removing a value directly after inserting it restores the
/// original value set, provided the value was not present before.  Combined
/// with the `ensures` of `insert` and `remove` this covers two consecutive
/// calls on one tree.
pub proof fn lemma_insert_remove_round_trip(s: Set<i64>, x: i64)
    requires
        !s.contains(x),
    ensures
        s.insert(x).remove(x) == s,
{
    assert(s.insert(x).remove(x) =~= s);
}

/// Membership law: after an insert the value is a member, after a remove it
/// is not; every other value is unaffected by either call.
pub proof fn lemma_membership(s: Set<i64>, x: i64, y: i64)
    ensures
        s.insert(x).contains(x),
        !s.remove(x).contains(x),
        x != y ==> s.insert(x).contains(y) == s.contains(y),
        x != y ==> s.remove(x).contains(y) == s.contains(y),
{
}

proof fn lemma_to_set_len_le(s: Seq<i64>)
    ensures
        s.to_set().finite(),
        s.to_set().len() <= s.len(),
    decreases s.len(),
{
    if s.len() == 0 {
        assert(s.to_set() =~= Set::<i64>::empty()) by {
            assert(forall|v: i64| !(#[trigger] s.contains(v)));
        }
    } else {
        lemma_to_set_len_le(s.drop_last());
        lemma_to_set_push(s.drop_last(), s.last());
        assert(s =~= s.drop_last().push(s.last()));
    }
}

proof fn lemma_to_set_push(s: Seq<i64>, v: i64)
    ensures
        s.push(v).to_set() == s.to_set().insert(v),
{
    assert(s.push(v).to_set() =~= s.to_set().insert(v)) by {
        assert forall|x: i64| #[trigger] s.push(v).contains(x) implies s.to_set().insert(
            v,
        ).contains(x) by {
            let i = choose|i: int| 0 <= i < s.push(v).len() && s.push(v)[i] == x;
            if i < s.len() {
                assert(s[i] == x);
            }
        }
        assert forall|x: i64| s.to_set().insert(v).contains(x) implies #[trigger] s.push(
            v,
        ).contains(x) by {
            if x == v {
                assert(s.push(v)[s.len() as int] == x);
            } else {
                let i = choose|i: int| 0 <= i < s.len() && s[i] == x;
                assert(s.push(v)[i] == x);
            }
        }
    }
}

} // verus!
