//! What it means for a tree to mirror a directory: the predicates that the builder
//! establishes.

use crate::bag::{lemma_no_duplicates_carry, lemma_same_members};
use crate::item::ItemView;
use crate::path::{has_parent, key_of, parent_key_of};
use crate::tree::{keys_ascend, NodeModel};
use id_tree::NodeId;
use vstd::prelude::*;

verus! {

/// The links of the tree agree: the root has no parent, every other node is among
/// the children of its parent, every child names its parent, and no node lists a
/// child twice.
pub open spec fn links_agree(nodes: Map<NodeId, NodeModel>, root: NodeId) -> bool {
    &&& nodes.contains_key(root)
    &&& nodes[root].parent is None
    &&& forall|n: NodeId|
        #[trigger] nodes.contains_key(n) && n != root ==> {
            &&& nodes[n].parent is Some
            &&& nodes.contains_key(nodes[n].parent->0)
            &&& nodes[nodes[n].parent->0].children.contains(n)
        }
    &&& forall|p: NodeId, i: int|
        nodes.contains_key(p) && 0 <= i < nodes[p].children.len() ==> {
            &&& nodes.contains_key(#[trigger] nodes[p].children[i])
            &&& nodes[nodes[p].children[i]].parent == Some(p)
        }
    &&& forall|p: NodeId| #[trigger] nodes.contains_key(p) ==> nodes[p].children.no_duplicates()
}

/// Every node but the root has a path that lies in a directory, and hangs under a
/// node whose canonical key is the key of that directory.
pub open spec fn parents_hold(nodes: Map<NodeId, NodeModel>, root: NodeId) -> bool {
    forall|n: NodeId|
        #[trigger] nodes.contains_key(n) && n != root ==> {
            &&& has_parent(nodes[n].item.path)
            &&& key_of(nodes[nodes[n].parent->0].item.path) == parent_key_of(nodes[n].item.path)
        }
}

/// The children of every node stand in ascending order of their canonical keys.
pub open spec fn siblings_ascend(nodes: Map<NodeId, NodeModel>) -> bool {
    forall|p: NodeId| #[trigger] nodes.contains_key(p) ==> keys_ascend(nodes, nodes[p].children)
}

/// Besides the root the tree has exactly the nodes `ids`, all different, and the
/// node `ids[i]` holds `items[i]`.
pub open spec fn holds_items(
    nodes: Map<NodeId, NodeModel>,
    root: NodeId,
    ids: Seq<NodeId>,
    items: Seq<ItemView>,
) -> bool {
    &&& ids.len() == items.len()
    &&& ids.no_duplicates()
    &&& !ids.contains(root)
    &&& forall|n: NodeId| #[trigger] nodes.contains_key(n) <==> (n == root || ids.contains(n))
    &&& forall|i: int| 0 <= i < ids.len() ==> nodes[#[trigger] ids[i]].item == items[i]
}

/// The tree mirrors the directory `root_path` with the entries `entries` in it:
/// its root holds `root_path` as a directory, its other nodes hold the entries, each
/// exactly once and whatever their order was, every node hangs under the node of the
/// directory that holds it, and siblings ascend by key.
pub open spec fn is_file_tree(
    nodes: Map<NodeId, NodeModel>,
    root: Option<NodeId>,
    root_path: Seq<char>,
    entries: Seq<ItemView>,
) -> bool {
    &&& root is Some
    &&& nodes.contains_key(root->0)
    &&& nodes[root->0].item == (ItemView { path: root_path, is_file: false })
    &&& links_agree(nodes, root->0)
    &&& parents_hold(nodes, root->0)
    &&& siblings_ascend(nodes)
    &&& exists|ids: Seq<NodeId>, items: Seq<ItemView>|
        #[trigger] holds_items(nodes, root->0, ids, items) && items.to_multiset()
            == entries.to_multiset()
}

/// The tree is a single node, the root, which holds `path` as a regular file.
pub open spec fn is_single_file(
    nodes: Map<NodeId, NodeModel>,
    root: Option<NodeId>,
    path: Seq<char>,
) -> bool {
    &&& root is Some
    &&& nodes.dom() == set![root->0]
    &&& nodes[root->0] == (NodeModel {
        item: ItemView { path, is_file: true },
        parent: None,
        children: Seq::empty(),
    })
}

/// An entry at `path` is an orphan: it lies in no directory at all, or the directory
/// that holds it is neither the root nor one of the entries.
pub open spec fn is_orphan(root_path: Seq<char>, entries: Seq<ItemView>, path: Seq<char>) -> bool {
    ||| !has_parent(path)
    ||| {
        &&& parent_key_of(path) != key_of(root_path)
        &&& forall|m: int|
            0 <= m < entries.len() ==> key_of((#[trigger] entries[m]).path) != parent_key_of(path)
    }
}

/// Some entry is an orphan.
pub open spec fn has_orphan(root_path: Seq<char>, entries: Seq<ItemView>) -> bool {
    exists|m: int|
        0 <= m < entries.len() && is_orphan(root_path, entries, (#[trigger] entries[m]).path)
}

/// Hanging a new node under an existing one, as the last child, and then putting
/// that node's children in ascending order keeps the tree's shape.
pub proof fn lemma_attach(
    before: Map<NodeId, NodeModel>,
    hung: Map<NodeId, NodeModel>,
    after: Map<NodeId, NodeModel>,
    root: NodeId,
    parent: NodeId,
    child: NodeId,
    item: ItemView,
)
    requires
        links_agree(before, root),
        parents_hold(before, root),
        siblings_ascend(before),
        before.contains_key(parent),
        !before.contains_key(child),
        hung == before.insert(
            parent,
            NodeModel { children: before[parent].children.push(child), ..before[parent] },
        ).insert(child, NodeModel { item, parent: Some(parent), children: Seq::empty() }),
        after == hung.insert(
            parent,
            NodeModel { children: after[parent].children, ..hung[parent] },
        ),
        after[parent].children.to_multiset() == hung[parent].children.to_multiset(),
        keys_ascend(after, after[parent].children),
        has_parent(item.path),
        key_of(before[parent].item.path) == parent_key_of(item.path),
    ensures
        links_agree(after, root),
        parents_hold(after, root),
        siblings_ascend(after),
        after.dom() == before.dom().insert(child),
        after[child].item == item,
        forall|n: NodeId| before.contains_key(n) ==> (#[trigger] after[n]).item == before[n].item,
{
    let old_children = before[parent].children;
    let grown = old_children.push(child);
    let sorted = after[parent].children;
    assert(hung[parent].children == grown);
    assert(!old_children.contains(child)) by {
        if old_children.contains(child) {
            let i = choose|i: int| 0 <= i < old_children.len() && old_children[i] == child;
            assert(before.contains_key(before[parent].children[i]));
        }
    }
    assert(grown.no_duplicates()) by {
        assert(old_children.no_duplicates());
        assert forall|i: int, j: int|
            0 <= i < grown.len() && 0 <= j < grown.len() && i != j implies grown[i]
            != grown[j] by {
            if i < old_children.len() && j < old_children.len() {
            } else if i < old_children.len() {
                assert(old_children.contains(grown[i]));
            } else {
                assert(old_children.contains(grown[j]));
            }
        }
    }
    lemma_same_members(grown, sorted);
    lemma_no_duplicates_carry(grown, sorted);
    assert(after.dom() =~= before.dom().insert(child));
    assert(parent != child);
    assert(child != root);
    assert forall|n: NodeId| before.contains_key(n) implies {
        &&& (#[trigger] after[n]).item == before[n].item
        &&& after[n].parent == before[n].parent
        &&& n != parent ==> after[n] == before[n]
    } by {}
    assert(after[child] == NodeModel { item, parent: Some(parent), children: Seq::empty() });

    assert forall|n: NodeId| #[trigger] after.contains_key(n) && n != root implies {
        &&& after[n].parent is Some
        &&& after.contains_key(after[n].parent->0)
        &&& after[after[n].parent->0].children.contains(n)
        &&& has_parent(after[n].item.path)
        &&& key_of(after[after[n].parent->0].item.path) == parent_key_of(after[n].item.path)
    } by {
        if n == child {
            assert(grown[grown.len() - 1] == child);
            assert(grown.contains(child));
        } else {
            assert(before.contains_key(n));
            let q = before[n].parent->0;
            assert(before.contains_key(q));
            if q == parent {
                let i = choose|i: int| 0 <= i < old_children.len() && old_children[i] == n;
                assert(grown[i] == n);
                assert(grown.contains(n));
            } else {
                assert(after[q] == before[q]);
            }
        }
    }
    assert forall|p: NodeId, i: int|
        after.contains_key(p) && 0 <= i < after[p].children.len() implies {
        &&& after.contains_key(#[trigger] after[p].children[i])
        &&& after[after[p].children[i]].parent == Some(p)
    } by {
        let c = after[p].children[i];
        if p == parent {
            assert(sorted.contains(c));
            assert(grown.contains(c));
            let k = choose|k: int| 0 <= k < grown.len() && grown[k] == c;
            if k < old_children.len() {
                assert(before.contains_key(before[parent].children[k]));
            }
        } else if p == child {
        } else {
            assert(before.contains_key(before[p].children[i]));
        }
    }
    assert forall|p: NodeId| #[trigger] after.contains_key(p) implies {
        &&& after[p].children.no_duplicates()
        &&& keys_ascend(after, after[p].children)
    } by {
        if p == parent {
        } else if p == child {
        } else {
            let cs = before[p].children;
            assert(keys_ascend(before, cs));
            assert forall|i: int, j: int| 0 <= i < j < cs.len() implies crate::path::text_le(
                key_of(after[cs[i]].item.path),
                key_of(after[cs[j]].item.path),
            ) by {
                assert(before.contains_key(before[p].children[i]));
                assert(before.contains_key(before[p].children[j]));
            }
        }
    }
}

/// The tree of a directory without entries is its root alone, which has no children;
/// and such a directory has no orphan.
pub proof fn lemma_empty_directory(
    nodes: Map<NodeId, NodeModel>,
    root: Option<NodeId>,
    root_path: Seq<char>,
    entries: Seq<ItemView>,
)
    requires
        is_file_tree(nodes, root, root_path, entries),
        entries.len() == 0,
    ensures
        nodes.dom() == set![root->0],
        nodes[root->0].children.len() == 0,
        !has_orphan(root_path, entries),
{
    let (ids, items) = choose|ids: Seq<NodeId>, items: Seq<ItemView>|
        #[trigger] holds_items(nodes, root->0, ids, items) && items.to_multiset()
            == entries.to_multiset();
    lemma_same_members(items, entries);
    assert forall|n: NodeId| nodes.contains_key(n) implies n == root->0 by {
        if n != root->0 {
            assert(ids.contains(n));
        }
    }
    assert(nodes.dom() =~= set![root->0]);
    if nodes[root->0].children.len() > 0 {
        let child = nodes[root->0].children[0];
        assert(nodes.contains_key(child));
        assert(nodes[child].parent == Some(root->0));
    }
}

/// A built tree has one node for the root and one for every entry.
pub proof fn lemma_node_count(
    nodes: Map<NodeId, NodeModel>,
    root: Option<NodeId>,
    root_path: Seq<char>,
    entries: Seq<ItemView>,
)
    requires
        is_file_tree(nodes, root, root_path, entries),
    ensures
        nodes.dom().finite(),
        nodes.dom().len() == entries.len() + 1,
{
    let (ids, items) = choose|ids: Seq<NodeId>, items: Seq<ItemView>|
        #[trigger] holds_items(nodes, root->0, ids, items) && items.to_multiset()
            == entries.to_multiset();
    lemma_same_members(items, entries);
    ids.unique_seq_to_set();
    assert(!ids.to_set().contains(root->0));
    assert(nodes.dom() =~= ids.to_set().insert(root->0));
}

} // verus!
