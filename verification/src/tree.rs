//! The tree that holds the entries: `id_tree`'s arena tree, and what this library
//! relies on it to do.

use crate::item::{Item, ItemView};
use crate::path::{key_of, path_key, text_le};
use id_tree::{InsertBehavior, Node, NodeId, NodeIdError, Tree};
use vstd::prelude::*;

verus! {

/// `id_tree::Tree`, taken as it is: nothing of its inside is known here.
#[verifier::external_type_specification]
#[verifier::external_body]
#[verifier::reject_recursive_types(T)]
pub struct ExTree<T>(Tree<T>);

/// `id_tree::NodeId`, the handle of a node, taken as it is.
#[verifier::external_type_specification]
#[verifier::external_body]
pub struct ExNodeId(NodeId);

/// `id_tree::NodeIdError`, the error of a handle that a tree does not accept.
#[verifier::external_type_specification]
#[verifier::external_body]
pub struct ExNodeIdError(NodeIdError);

/// One node of a tree: the entry it holds, the handle of its parent, and the handles
/// of its children in their order.
pub struct NodeModel {
    pub item: ItemView,
    pub parent: Option<NodeId>,
    pub children: Seq<NodeId>,
}

/// The nodes of a tree, by their handles. A handle is in the domain exactly when the
/// tree accepts it: it came from this tree and its node is still there.
pub uninterp spec fn tree_nodes(tree: Tree<Item>) -> Map<NodeId, NodeModel>;

/// The handle of the tree's root, if it has one.
pub uninterp spec fn tree_root(tree: Tree<Item>) -> Option<NodeId>;

/// The handles name nodes whose canonical keys ascend, in the order of [`text_le`].
pub open spec fn keys_ascend(nodes: Map<NodeId, NodeModel>, ids: Seq<NodeId>) -> bool {
    forall|i: int, j: int|
        0 <= i < j < ids.len() ==> text_le(
            key_of(nodes[ids[i]].item.path),
            key_of(nodes[ids[j]].item.path),
        )
}

/// `id_tree::Tree::new`: a tree without nodes and without a root.
#[verifier::external_body]
pub(crate) fn tree_new() -> (tree: Tree<Item>)
    ensures
        tree_nodes(tree).dom() == Set::<NodeId>::empty(),
        tree_root(tree) is None,
{
    Tree::new()
}

/// `id_tree::Tree::insert`, with `InsertBehavior::AsRoot` for no parent and
/// `InsertBehavior::UnderNode` for a parent.
///
/// As root, into a tree that has no root yet, it always succeeds: the new node is the
/// root and has no parent and no children. Under a handle that the tree accepts, it
/// always succeeds: the new node gets that parent and no children, and its handle is
/// appended to the parent's children. In both cases the handle returned is one the
/// tree did not accept before, and every other node is untouched. Under a handle that
/// the tree does not accept, it fails and leaves the tree as it was.
#[verifier::external_body]
pub(crate) fn tree_insert(tree: &mut Tree<Item>, item: Item, parent: Option<&NodeId>) -> (result:
    Result<NodeId, NodeIdError>)
    requires
        parent is None ==> tree_root(*old(tree)) is None,
    ensures
        result is Ok <==> (parent is Some ==> tree_nodes(*old(tree)).contains_key(*parent->0)),
        result is Err ==> tree_nodes(*final(tree)) == tree_nodes(*old(tree)) && tree_root(
            *final(tree),
        ) == tree_root(*old(tree)),
        result is Ok ==> !tree_nodes(*old(tree)).contains_key(result->Ok_0),
        result is Ok && parent is None ==> tree_root(*final(tree)) == Some(result->Ok_0)
            && tree_nodes(*final(tree)) == tree_nodes(*old(tree)).insert(
            result->Ok_0,
            NodeModel { item: item@, parent: None, children: Seq::empty() },
        ),
        result is Ok && parent is Some ==> tree_root(*final(tree)) == tree_root(*old(tree))
            && tree_nodes(*final(tree)) == tree_nodes(*old(tree)).insert(
            *parent->0,
            NodeModel {
                children: tree_nodes(*old(tree))[*parent->0].children.push(result->Ok_0),
                ..tree_nodes(*old(tree))[*parent->0]
            },
        ).insert(
            result->Ok_0,
            NodeModel { item: item@, parent: Some(*parent->0), children: Seq::empty() },
        ),
{
    match parent {
        Some(id) => tree.insert(Node::new(item), InsertBehavior::UnderNode(id)),
        None => tree.insert(Node::new(item), InsertBehavior::AsRoot),
    }
}

/// `id_tree::Tree::sort_children_by_key`, with the canonical key of each child's path
/// as the key.
///
/// For a handle that the tree accepts it succeeds: the node's children are the same
/// handles as before, rearranged so that their keys ascend as `String`s compare, which
/// is character by character, by code point. Nothing else changes. For a handle that
/// the tree does not accept, it fails and leaves the tree as it was. The order that
/// children with equal keys take among themselves is not stated here.
#[verifier::external_body]
pub(crate) fn tree_sort_children(tree: &mut Tree<Item>, node: &NodeId) -> (result: Result<
    (),
    NodeIdError,
>)
    ensures
        result is Ok <==> tree_nodes(*old(tree)).contains_key(*node),
        tree_root(*final(tree)) == tree_root(*old(tree)),
        result is Err ==> tree_nodes(*final(tree)) == tree_nodes(*old(tree)),
        result is Ok ==> tree_nodes(*final(tree)) == tree_nodes(*old(tree)).insert(
            *node,
            NodeModel {
                children: tree_nodes(*final(tree))[*node].children,
                ..tree_nodes(*old(tree))[*node]
            },
        ),
        result is Ok ==> tree_nodes(*final(tree))[*node].children.to_multiset() == tree_nodes(
            *old(tree),
        )[*node].children.to_multiset(),
        result is Ok ==> keys_ascend(
            tree_nodes(*final(tree)),
            tree_nodes(*final(tree))[*node].children,
        ),
{
    tree.sort_children_by_key(node, |child| path_key(child.data().path()))
}

} // verus!
