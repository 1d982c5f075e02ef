use vstd::prelude::*;
use vstd::multiset::Multiset;
use crate::trees::SpecTree;
use crate::trees::tree_height;
use crate::trees::tree_inorder;
use crate::trees::tree_mset;
use crate::trees::tree_size;

verus! {

// A plain (non-balancing) binary search tree of `i64` values; a value equal
// to a node's value descends to the left, so duplicates are kept.  The name
// recalls a layout in which each node also points back at its parent; with
// owned downward edges the parent is always the caller of the recursion, so
// no back pointer needs to be stored.

pub struct BackPointingBinaryTree {
    root: Option<Box<BNode>>,
    size: usize,
}

struct BNode {
    value: i64,
    left: Option<Box<BNode>>,
    right: Option<Box<BNode>>,
}

spec fn count_of(n: Option<Box<BNode>>) -> nat
    decreases n,
{
    match n {
        None => 0,
        Some(node) => 1 + count_of(node.left) + count_of(node.right),
    }
}

spec fn depth_of(n: Option<Box<BNode>>) -> nat
    decreases n,
{
    match n {
        None => 0,
        Some(node) => 1 + (if depth_of(node.left) >= depth_of(node.right) {
            depth_of(node.left)
        } else {
            depth_of(node.right)
        }),
    }
}

spec fn mset_of(n: Option<Box<BNode>>) -> Multiset<i64>
    decreases n,
{
    match n {
        None => Multiset::empty(),
        Some(node) => mset_of(node.left).add(mset_of(node.right)).insert(node.value),
    }
}

spec fn inorder_of(n: Option<Box<BNode>>) -> Seq<i64>
    decreases n,
{
    match n {
        None => Seq::empty(),
        Some(node) => inorder_of(node.left) + seq![node.value] + inorder_of(node.right),
    }
}

/// Search ordering with duplicates on the left: left holds values up to and
/// including the node's value, right holds strictly larger ones.
spec fn ordered_dup(n: Option<Box<BNode>>) -> bool
    decreases n,
{
    match n {
        None => true,
        Some(node) => {
            &&& forall|v: i64| mset_of(node.left).contains(v) ==> v <= node.value
            &&& forall|v: i64| mset_of(node.right).contains(v) ==> v > node.value
            &&& ordered_dup(node.left)
            &&& ordered_dup(node.right)
        },
    }
}

/// The bare branching structure of a stored subtree.
spec fn model_of(n: Option<Box<BNode>>) -> SpecTree
    decreases n,
{
    match n {
        None => SpecTree::Leaf,
        Some(node) => SpecTree::Node {
            value: node.value,
            left: Box::new(model_of(node.left)),
            right: Box::new(model_of(node.right)),
        },
    }
}

/// The model preserves every structural measure of the stored subtree.
proof fn lemma_model_of(n: Option<Box<BNode>>)
    ensures
        tree_height(model_of(n)) == depth_of(n),
        tree_size(model_of(n)) == count_of(n),
        tree_mset(model_of(n)) == mset_of(n),
        tree_inorder(model_of(n)) == inorder_of(n),
    decreases n,
{
    match n {
        None => {
            assert(tree_mset(model_of(n)) =~= mset_of(n));
            assert(tree_inorder(model_of(n)) =~= inorder_of(n));
        },
        Some(node) => {
            lemma_model_of(node.left);
            lemma_model_of(node.right);
            assert(tree_mset(model_of(n)) =~= mset_of(n));
            assert(tree_inorder(model_of(n)) =~= inorder_of(n));
        },
    }
}

/// Model-level insertion: a value at most the node's value descends to the
/// left, a larger one to the right, with no rebalancing.
pub open spec fn spec_bst_insert(t: SpecTree, value: i64) -> SpecTree
    decreases t,
{
    match t {
        SpecTree::Leaf => SpecTree::Node {
            value,
            left: Box::new(SpecTree::Leaf),
            right: Box::new(SpecTree::Leaf),
        },
        SpecTree::Node { value: root, left, right } => {
            if value <= root {
                SpecTree::Node {
                    value: root,
                    left: Box::new(spec_bst_insert(*left, value)),
                    right,
                }
            } else {
                SpecTree::Node {
                    value: root,
                    left,
                    right: Box::new(spec_bst_insert(*right, value)),
                }
            }
        },
    }
}

/// The tree built by inserting the values of a sequence from first to last.
pub open spec fn spec_bst_from(values: Seq<i64>) -> SpecTree
    decreases values.len(),
{
    if values.len() == 0 {
        SpecTree::Leaf
    } else {
        spec_bst_insert(spec_bst_from(values.drop_last()), values.last())
    }
}

proof fn lemma_depth_le_count(n: Option<Box<BNode>>)
    ensures
        depth_of(n) <= count_of(n),
    decreases n,
{
    match n {
        None => {},
        Some(node) => {
            lemma_depth_le_count(node.left);
            lemma_depth_le_count(node.right);
        },
    }
}

proof fn lemma_count_is_mset_len(n: Option<Box<BNode>>)
    ensures
        mset_of(n).len() == count_of(n),
    decreases n,
{
    broadcast use vstd::multiset::group_multiset_axioms;

    match n {
        None => {},
        Some(node) => {
            lemma_count_is_mset_len(node.left);
            lemma_count_is_mset_len(node.right);
        },
    }
}

/// The inorder listing holds one entry per node, lists exactly the stored
/// values, and ascends when the tree is search-ordered.
proof fn lemma_inorder_props(n: Option<Box<BNode>>)
    ensures
        inorder_of(n).len() == count_of(n),
        inorder_of(n).to_multiset() == mset_of(n),
        ordered_dup(n) ==> forall|i: int, j: int|
            0 <= i < j < inorder_of(n).len() ==> inorder_of(n)[i] <= inorder_of(n)[j],
    decreases n,
{
    broadcast use vstd::multiset::group_multiset_axioms;

    match n {
        None => {
            assert(inorder_of(n).to_multiset() =~= mset_of(n)) by {
                inorder_of(n).to_multiset_ensures();
            }
        },
        Some(node) => {
            lemma_inorder_props(node.left);
            lemma_inorder_props(node.right);
            let il = inorder_of(node.left);
            let ir = inorder_of(node.right);
            let all = inorder_of(n);
            assert(all == il + seq![node.value] + ir);
            vstd::seq_lib::lemma_multiset_commutative(il + seq![node.value], ir);
            vstd::seq_lib::lemma_multiset_commutative(il, seq![node.value]);
            assert(seq![node.value].to_multiset() =~= Multiset::empty().insert(node.value)) by {
                let e = Seq::<i64>::empty();
                e.to_multiset_ensures();
                assert(forall|x: i64| !(#[trigger] e.contains(x)));
                assert(e.to_multiset() =~= Multiset::<i64>::empty());
                vstd::seq_lib::to_multiset_build(e, node.value);
                assert(e.push(node.value) =~= seq![node.value]);
            }
            assert(all.to_multiset() =~= mset_of(n));
            if ordered_dup(n) {
                il.to_multiset_ensures();
                ir.to_multiset_ensures();
                assert forall|i: int, j: int| 0 <= i < j < all.len() implies all[i] <= all[j] by {
                    if i < il.len() {
                        assert(il.contains(il[i]));
                        assert(mset_of(node.left).contains(all[i]));
                        assert(all[i] <= node.value);
                    }
                    if j < il.len() {
                        assert(il.contains(il[j]));
                        assert(mset_of(node.left).contains(all[j]));
                    }
                    if i > il.len() {
                        assert(ir.contains(ir[i - il.len() - 1]));
                        assert(all[i] == ir[i - il.len() - 1]);
                        assert(mset_of(node.right).contains(all[i]));
                    }
                    if j > il.len() {
                        assert(ir.contains(ir[j - il.len() - 1]));
                        assert(all[j] == ir[j - il.len() - 1]);
                        assert(mset_of(node.right).contains(all[j]));
                        assert(all[j] > node.value);
                    }
                    if i == il.len() {
                        assert(all[i] == node.value);
                    }
                    if j == il.len() {
                        assert(all[j] == node.value);
                    }
                }
            }
        },
    }
}

/// Insert `value` into an owned subtree, descending left on ties.
fn insert_node(n: Option<Box<BNode>>, value: i64) -> (r: Option<Box<BNode>>)
    requires
        ordered_dup(n),
    ensures
        ordered_dup(r),
        mset_of(r) == mset_of(n).insert(value),
        count_of(r) == count_of(n) + 1,
        depth_of(n) <= depth_of(r) <= depth_of(n) + 1,
        model_of(r) == spec_bst_insert(model_of(n), value),
    decreases n,
{
    broadcast use vstd::multiset::group_multiset_axioms;

    match n {
        None => {
            let node = Box::new(BNode { value, left: None, right: None });
            proof {
                assert(mset_of(Some(node)) =~= mset_of(n).insert(value));
                assert(model_of(n) == SpecTree::Leaf);
                assert(model_of(Some(node)) == SpecTree::Node {
                    value,
                    left: Box::new(SpecTree::Leaf),
                    right: Box::new(SpecTree::Leaf),
                });
            }
            Some(node)
        },
        Some(mut b) => {
            let ghost b0 = b;
            if value <= b.value {
                let nl = insert_node(b.left.take(), value);
                b.left = nl;
                proof {
                    assert(mset_of(Some(b)) =~= mset_of(n).insert(value));
                    assert forall|v: i64| mset_of(b.left).contains(v) implies v <= b0.value by {
                        if v != value {
                            assert(mset_of(b0.left).contains(v));
                        }
                    }
                    assert(ordered_dup(Some(b)));
                    assert(model_of(n) == SpecTree::Node {
                        value: b0.value,
                        left: Box::new(model_of(b0.left)),
                        right: Box::new(model_of(b0.right)),
                    });
                    assert(model_of(Some(b)) == SpecTree::Node {
                        value: b0.value,
                        left: Box::new(spec_bst_insert(model_of(b0.left), value)),
                        right: Box::new(model_of(b0.right)),
                    });
                }
                Some(b)
            } else {
                let nr = insert_node(b.right.take(), value);
                b.right = nr;
                proof {
                    assert(mset_of(Some(b)) =~= mset_of(n).insert(value));
                    assert forall|v: i64| mset_of(b.right).contains(v) implies v > b0.value by {
                        if v != value {
                            assert(mset_of(b0.right).contains(v));
                        }
                    }
                    assert(ordered_dup(Some(b)));
                    assert(model_of(n) == SpecTree::Node {
                        value: b0.value,
                        left: Box::new(model_of(b0.left)),
                        right: Box::new(model_of(b0.right)),
                    });
                    assert(model_of(Some(b)) == SpecTree::Node {
                        value: b0.value,
                        left: Box::new(model_of(b0.left)),
                        right: Box::new(spec_bst_insert(model_of(b0.right), value)),
                    });
                }
                Some(b)
            }
        },
    }
}

/// Number of nodes on the longest root-to-leaf path of a subtree.
fn depth_exec(n: &Option<Box<BNode>>) -> (depth: usize)
    requires
        count_of(*n) <= usize::MAX,
    ensures
        depth == depth_of(*n),
    decreases n,
{
    match n {
        None => 0,
        Some(node) => {
            proof {
                lemma_depth_le_count(node.left);
                lemma_depth_le_count(node.right);
            }
            let dl = depth_exec(&node.left);
            let dr = depth_exec(&node.right);
            1 + if dl >= dr {
                dl
            } else {
                dr
            }
        },
    }
}

/// Move the values of an owned subtree onto the back of `out` in order.
fn in_order_into(n: Option<Box<BNode>>, out: &mut Vec<i64>)
    ensures
        final(out)@ == old(out)@ + inorder_of(n),
    decreases n,
{
    match n {
        None => {
            proof {
                assert(out@ =~= out@ + inorder_of(n));
            }
        },
        Some(node) => {
            let ghost prefix = out@;
            let b = *node;
            in_order_into(b.left, out);
            out.push(b.value);
            in_order_into(b.right, out);
            proof {
                assert(out@ =~= prefix + inorder_of(n));
            }
        },
    }
}

impl BackPointingBinaryTree {
    /// The bare branching structure of the tree.  Together with the open
    /// model-level operations (`spec_bst_insert`, `spec_bst_from`) this
    /// pins, from the contracts alone, exactly which tree every insertion
    /// order builds.
    pub closed spec fn spec_tree(self) -> SpecTree {
        model_of(self.root)
    }

    /// The stored values, duplicates included.
    pub open spec fn view(self) -> Multiset<i64> {
        tree_mset(self.spec_tree())
    }

    /// Search ordering holds and the size counter matches the node count.
    pub closed spec fn wf(self) -> bool {
        ordered_dup(self.root) && self.size == count_of(self.root)
    }

    /// Edges on the longest root-to-leaf path (0 for an empty tree and for
    /// a single node).
    pub open spec fn spec_height(self) -> nat {
        if self.spec_tree() is Leaf {
            0
        } else {
            (tree_height(self.spec_tree()) - 1) as nat
        }
    }

    pub fn new() -> (tree: Self)
        ensures
            tree.wf(),
            tree@ == Multiset::<i64>::empty(),
            tree.spec_tree() == SpecTree::Leaf,
    {
        let tree = BackPointingBinaryTree { root: None, size: 0 };
        proof {
            lemma_model_of(tree.root);
        }
        tree
    }

    pub fn from_iter(values: Vec<i64>) -> (tree: Self)
        ensures
            tree.wf(),
            tree@ == values@.to_multiset(),
            tree.spec_tree() == spec_bst_from(values@),
    {
        let mut tree = BackPointingBinaryTree::new();
        let n = values.len();
        let mut i: usize = 0;
        proof {
            values@.take(0).to_multiset_ensures();
            assert(values@.take(0) =~= Seq::<i64>::empty());
            assert(tree@ =~= values@.take(0).to_multiset());
            assert(tree.spec_tree() == spec_bst_from(values@.take(0)));
        }
        while i < n
            invariant
                tree.wf(),
                n == values@.len(),
                i <= n,
                tree@ == values@.take(i as int).to_multiset(),
                tree.spec_tree() == spec_bst_from(values@.take(i as int)),
            decreases n - i,
        {
            proof {
                lemma_count_is_mset_len(tree.root);
                values@.take(i as int).to_multiset_ensures();
            }
            tree.insert(values[i]);
            proof {
                assert(values@.take(i + 1) =~= values@.take(i as int).push(values@[i as int]));
                vstd::seq_lib::to_multiset_build(values@.take(i as int), values@[i as int]);
                assert(tree@ =~= values@.take(i + 1).to_multiset());
                assert(values@.take(i + 1).drop_last() =~= values@.take(i as int));
                assert(spec_bst_from(values@.take(i + 1)) == spec_bst_insert(
                    spec_bst_from(values@.take(i as int)),
                    values@[i as int],
                ));
            }
            i += 1;
        }
        proof {
            assert(values@.take(n as int) =~= values@);
        }
        tree
    }

    /// Insert `value`; equal values are kept, descending to the left.
    pub fn insert(&mut self, value: i64)
        requires
            old(self).wf(),
            old(self)@.len() < usize::MAX,
        ensures
            final(self).wf(),
            final(self)@ == old(self)@.insert(value),
            final(self)@.len() == old(self)@.len() + 1,
            final(self).spec_tree() == spec_bst_insert(old(self).spec_tree(), value),
    {
        proof {
            lemma_count_is_mset_len(self.root);
            lemma_model_of(self.root);
        }
        let root = self.root.take();
        self.root = insert_node(root, value);
        self.size = self.size + 1;
        proof {
            lemma_count_is_mset_len(self.root);
            lemma_model_of(self.root);
            broadcast use vstd::multiset::group_multiset_axioms;

        }
    }

    pub fn size(&self) -> (count: usize)
        requires
            self.wf(),
        ensures
            count == self@.len(),
    {
        proof {
            lemma_count_is_mset_len(self.root);
            lemma_model_of(self.root);
        }
        self.size
    }

    /// Edges on the longest root-to-leaf path; an empty tree and a lone
    /// root both report 0.
    pub fn height(&self) -> (height: usize)
        requires
            self.wf(),
        ensures
            height == self.spec_height(),
    {
        proof {
            lemma_model_of(self.root);
        }
        match &self.root {
            None => 0,
            Some(_) => {
                proof {
                    lemma_count_is_mset_len(self.root);
                }
                depth_exec(&self.root) - 1
            },
        }
    }

    /// Consume the tree, listing its values in ascending order.
    pub fn to_vec_in_order(self) -> (out: Vec<i64>)
        requires
            self.wf(),
        ensures
            out@.to_multiset() == self@,
            out@.len() == self@.len(),
            forall|i: int, j: int| 0 <= i < j < out@.len() ==> out@[i] <= out@[j],
    {
        proof {
            lemma_inorder_props(self.root);
            lemma_count_is_mset_len(self.root);
            lemma_model_of(self.root);
        }
        let mut out: Vec<i64> = Vec::new();
        in_order_into(self.root, &mut out);
        proof {
            assert(out@ =~= inorder_of(self.root));
        }
        out
    }
}

} // verus!
