pub mod avl_tree;
pub mod back_pointing_binary_tree;

use vstd::prelude::*;
use vstd::multiset::Multiset;

verus! {

/// Ghost model of a binary tree of values: the bare branching structure,
/// with no cached bookkeeping.  The tree types of this module expose their
/// shape through it, so that callers can compute from the contracts exactly
/// which tree an operation builds.
pub enum SpecTree {
    Leaf,
    Node { value: i64, left: Box<SpecTree>, right: Box<SpecTree> },
}

/// Nodes on the longest root-to-leaf path (0 for a leaf).
pub open spec fn tree_height(t: SpecTree) -> nat
    decreases t,
{
    match t {
        SpecTree::Leaf => 0,
        SpecTree::Node { left, right, .. } => 1 + (if tree_height(*left) >= tree_height(*right) {
            tree_height(*left)
        } else {
            tree_height(*right)
        }),
    }
}

/// Number of nodes.
pub open spec fn tree_size(t: SpecTree) -> nat
    decreases t,
{
    match t {
        SpecTree::Leaf => 0,
        SpecTree::Node { left, right, .. } => 1 + tree_size(*left) + tree_size(*right),
    }
}

/// The set of stored values.
pub open spec fn tree_set(t: SpecTree) -> Set<i64>
    decreases t,
{
    match t {
        SpecTree::Leaf => Set::empty(),
        SpecTree::Node { value, left, right } => tree_set(*left).union(tree_set(*right)).insert(
            value,
        ),
    }
}

/// The stored values with their multiplicities.
pub open spec fn tree_mset(t: SpecTree) -> Multiset<i64>
    decreases t,
{
    match t {
        SpecTree::Leaf => Multiset::empty(),
        SpecTree::Node { value, left, right } => tree_mset(*left).add(tree_mset(*right)).insert(
            value,
        ),
    }
}

/// The values listed left subtree first, then the node, then the right.
pub open spec fn tree_inorder(t: SpecTree) -> Seq<i64>
    decreases t,
{
    match t {
        SpecTree::Leaf => Seq::empty(),
        SpecTree::Node { value, left, right } => tree_inorder(*left) + seq![value] + tree_inorder(
            *right,
        ),
    }
}

/// The values listed node first, then the left subtree, then the right.
pub open spec fn tree_preorder(t: SpecTree) -> Seq<i64>
    decreases t,
{
    match t {
        SpecTree::Leaf => Seq::empty(),
        SpecTree::Node { value, left, right } => seq![value] + tree_preorder(*left)
            + tree_preorder(*right),
    }
}

} // verus!
