//! The pre-order walk of a tree, and what the shape of a built tree says about it.

use crate::path::{depth_of, key_of, lemma_parent_is_one_level_up, text_le};
use crate::shape::{is_file_tree, links_agree, parents_hold, siblings_ascend};
use crate::tree::{keys_ascend, NodeModel};
use crate::item::ItemView;
use id_tree::NodeId;
use vstd::prelude::*;

verus! {

/// The pre-order walk from `node`, `height` levels deep: the node itself, then the
/// walks from its children, in their order. A walk of height zero is the node alone.
pub open spec fn pre_order_from(nodes: Map<NodeId, NodeModel>, node: NodeId, height: nat) -> Seq<
    NodeId,
>
    decreases height, 0nat, 0nat,
{
    if height == 0 {
        seq![node]
    } else {
        seq![node] + pre_order_all(nodes, nodes[node].children, (height - 1) as nat)
    }
}

/// The pre-order walks from each of `ids` in turn, each `height` levels deep.
pub open spec fn pre_order_all(nodes: Map<NodeId, NodeModel>, ids: Seq<NodeId>, height: nat) -> Seq<
    NodeId,
>
    decreases height, 1nat, ids.len(),
{
    if ids.len() == 0 {
        Seq::empty()
    } else {
        pre_order_all(nodes, ids.drop_last(), height) + pre_order_from(nodes, ids.last(), height)
    }
}

/// The node reached from `node` by following the parent link `hops` times, if the
/// links go that far.
pub open spec fn ancestor(nodes: Map<NodeId, NodeModel>, node: NodeId, hops: nat) -> Option<NodeId>
    decreases hops,
{
    if hops == 0 {
        Some(node)
    } else {
        match nodes[node].parent {
            Some(parent) => ancestor(nodes, parent, (hops - 1) as nat),
            None => None,
        }
    }
}

/// The siblings `ids`: nodes of the tree that all hang under `parent`, none twice,
/// in ascending order of their keys.
pub open spec fn are_siblings(
    nodes: Map<NodeId, NodeModel>,
    parent: NodeId,
    ids: Seq<NodeId>,
) -> bool {
    &&& forall|a: int|
        0 <= a < ids.len() ==> nodes.contains_key(#[trigger] ids[a]) && nodes[ids[a]].parent
            == Some(parent)
    &&& ids.no_duplicates()
    &&& keys_ascend(nodes, ids)
}

proof fn lemma_children_are_siblings(nodes: Map<NodeId, NodeModel>, root: NodeId, parent: NodeId)
    requires
        links_agree(nodes, root),
        siblings_ascend(nodes),
        nodes.contains_key(parent),
    ensures
        are_siblings(nodes, parent, nodes[parent].children),
{
    let ids = nodes[parent].children;
    assert forall|a: int| 0 <= a < ids.len() implies nodes.contains_key(#[trigger] ids[a])
        && nodes[ids[a]].parent == Some(parent) by {
        assert(nodes.contains_key(nodes[parent].children[a]));
    }
}

proof fn lemma_fewer_siblings(nodes: Map<NodeId, NodeModel>, parent: NodeId, ids: Seq<NodeId>)
    requires
        are_siblings(nodes, parent, ids),
        ids.len() > 0,
    ensures
        are_siblings(nodes, parent, ids.drop_last()),
{
    let fewer = ids.drop_last();
    assert forall|a: int| 0 <= a < fewer.len() implies nodes.contains_key(#[trigger] fewer[a])
        && nodes[fewer[a]].parent == Some(parent) by {
        assert(fewer[a] == ids[a]);
    }
    assert forall|a: int, b: int| 0 <= a < b < fewer.len() implies text_le(
        key_of(nodes[fewer[a]].item.path),
        key_of(nodes[fewer[b]].item.path),
    ) by {
        assert(fewer[a] == ids[a] && fewer[b] == ids[b]);
    }
}

/// A node and its ancestor lie as many levels apart as there are hops between them.
proof fn lemma_ancestor_depth(nodes: Map<NodeId, NodeModel>, root: NodeId, node: NodeId, hops: nat)
    requires
        links_agree(nodes, root),
        parents_hold(nodes, root),
        nodes.contains_key(node),
        ancestor(nodes, node, hops) is Some,
    ensures
        nodes.contains_key(ancestor(nodes, node, hops)->0),
        depth_of(nodes[node].item.path) == depth_of(
            nodes[ancestor(nodes, node, hops)->0].item.path,
        ) + hops,
    decreases hops,
{
    if hops > 0 {
        let parent = nodes[node].parent->0;
        assert(node != root);
        lemma_parent_is_one_level_up(nodes[parent].item.path, nodes[node].item.path);
        lemma_ancestor_depth(nodes, root, parent, (hops - 1) as nat);
    }
}

/// What the walk from `node` visits lies under `node`, at most `height` hops down.
proof fn lemma_walk_stays_below(
    nodes: Map<NodeId, NodeModel>,
    root: NodeId,
    node: NodeId,
    height: nat,
    i: int,
) -> (hops: nat)
    requires
        links_agree(nodes, root),
        nodes.contains_key(node),
        0 <= i < pre_order_from(nodes, node, height).len(),
    ensures
        hops <= height,
        nodes.contains_key(pre_order_from(nodes, node, height)[i]),
        ancestor(nodes, pre_order_from(nodes, node, height)[i], hops) == Some(node),
        i == 0 <==> hops == 0,
        i == 0 ==> pre_order_from(nodes, node, height)[i] == node,
    decreases height, 0nat, 0nat,
{
    if height == 0 || i == 0 {
        0
    } else {
        let below = (height - 1) as nat;
        let ids = nodes[node].children;
        assert forall|a: int| 0 <= a < ids.len() implies nodes.contains_key(#[trigger] ids[a])
            && nodes[ids[a]].parent == Some(node) by {
            assert(nodes.contains_key(nodes[node].children[a]));
        }
        let (a, down) = lemma_walks_stay_below(nodes, root, node, ids, below, i - 1);
        let found = pre_order_from(nodes, node, height)[i];
        assert(found == pre_order_all(nodes, ids, below)[i - 1]);
        lemma_ancestor_step(nodes, found, down, ids[a]);
        down + 1
    }
}

/// One hop more from an ancestor leads to the ancestor's parent.
proof fn lemma_ancestor_step(
    nodes: Map<NodeId, NodeModel>,
    node: NodeId,
    hops: nat,
    reached: NodeId,
)
    requires
        ancestor(nodes, node, hops) == Some(reached),
    ensures
        ancestor(nodes, node, hops + 1) == match nodes[reached].parent {
            Some(parent) => Some(parent),
            None => None,
        },
    decreases hops,
{
    if hops == 0 {
        if nodes[node].parent is Some {
            assert(ancestor(nodes, nodes[node].parent->0, 0) == nodes[node].parent);
        }
    } else {
        let above = nodes[node].parent->0;
        assert(nodes[node].parent is Some);
        lemma_ancestor_step(nodes, above, (hops - 1) as nat, reached);
        assert(ancestor(nodes, node, hops + 1) == ancestor(nodes, above, hops));
    }
}

/// What the walks from the children `ids` of `parent` visit lies under one of them.
proof fn lemma_walks_stay_below(
    nodes: Map<NodeId, NodeModel>,
    root: NodeId,
    parent: NodeId,
    ids: Seq<NodeId>,
    height: nat,
    i: int,
) -> (found: (int, nat))
    requires
        links_agree(nodes, root),
        forall|a: int|
            0 <= a < ids.len() ==> nodes.contains_key(#[trigger] ids[a]) && nodes[ids[a]].parent
                == Some(parent),
        0 <= i < pre_order_all(nodes, ids, height).len(),
    ensures
        0 <= found.0 < ids.len(),
        found.1 <= height,
        nodes.contains_key(pre_order_all(nodes, ids, height)[i]),
        ancestor(nodes, pre_order_all(nodes, ids, height)[i], found.1) == Some(ids[found.0]),
    decreases height, 1nat, ids.len(),
{
    let fewer = ids.drop_last();
    let front = pre_order_all(nodes, fewer, height);
    assert forall|a: int| 0 <= a < fewer.len() implies nodes.contains_key(#[trigger] fewer[a])
        && nodes[fewer[a]].parent == Some(parent) by {
        assert(fewer[a] == ids[a]);
    }
    if i < front.len() {
        let (a, hops) = lemma_walks_stay_below(nodes, root, parent, fewer, height, i);
        assert(fewer[a] == ids[a]);
        (a, hops)
    } else {
        assert(nodes.contains_key(ids[ids.len() - 1]));
        let hops = lemma_walk_stays_below(nodes, root, ids.last(), height, i - front.len());
        (ids.len() - 1, hops)
    }
}

/// In the walk from `node`, every node but the first comes after its parent.
proof fn lemma_walk_parent_first(
    nodes: Map<NodeId, NodeModel>,
    root: NodeId,
    node: NodeId,
    height: nat,
    i: int,
) -> (j: int)
    requires
        links_agree(nodes, root),
        nodes.contains_key(node),
        1 <= i < pre_order_from(nodes, node, height).len(),
    ensures
        0 <= j < i,
        nodes[pre_order_from(nodes, node, height)[i]].parent == Some(
            pre_order_from(nodes, node, height)[j],
        ),
    decreases height, 0nat, 0nat,
{
    let below = (height - 1) as nat;
    let ids = nodes[node].children;
    assert forall|a: int| 0 <= a < ids.len() implies nodes.contains_key(#[trigger] ids[a])
        && nodes[ids[a]].parent == Some(node) by {
        assert(nodes.contains_key(nodes[node].children[a]));
    }
    let j = lemma_walks_parent_first(nodes, root, node, ids, below, i - 1);
    j + 1
}

/// In the walks from the children `ids` of `parent`, every node comes after its
/// parent, or is one of `ids`; the result is then -1.
proof fn lemma_walks_parent_first(
    nodes: Map<NodeId, NodeModel>,
    root: NodeId,
    parent: NodeId,
    ids: Seq<NodeId>,
    height: nat,
    i: int,
) -> (j: int)
    requires
        links_agree(nodes, root),
        forall|a: int|
            0 <= a < ids.len() ==> nodes.contains_key(#[trigger] ids[a]) && nodes[ids[a]].parent
                == Some(parent),
        0 <= i < pre_order_all(nodes, ids, height).len(),
    ensures
        -1 <= j < i,
        j == -1 ==> nodes[pre_order_all(nodes, ids, height)[i]].parent == Some(parent),
        j >= 0 ==> nodes[pre_order_all(nodes, ids, height)[i]].parent == Some(
            pre_order_all(nodes, ids, height)[j],
        ),
    decreases height, 1nat, ids.len(),
{
    let fewer = ids.drop_last();
    let front = pre_order_all(nodes, fewer, height);
    assert forall|a: int| 0 <= a < fewer.len() implies nodes.contains_key(#[trigger] fewer[a])
        && nodes[fewer[a]].parent == Some(parent) by {
        assert(fewer[a] == ids[a]);
    }
    if i < front.len() {
        lemma_walks_parent_first(nodes, root, parent, fewer, height, i)
    } else {
        assert(nodes.contains_key(ids[ids.len() - 1]));
        let last = ids.last();
        let k = i - front.len();
        if k == 0 {
            assert(pre_order_from(nodes, last, height)[0] == last);
            -1
        } else {
            let j = lemma_walk_parent_first(nodes, root, last, height, k);
            j + front.len()
        }
    }
}

/// A node with a parent lies one level below it.
proof fn lemma_level(nodes: Map<NodeId, NodeModel>, root: NodeId, node: NodeId)
    requires
        links_agree(nodes, root),
        parents_hold(nodes, root),
        nodes.contains_key(node),
        nodes[node].parent is Some,
    ensures
        nodes.contains_key(nodes[node].parent->0),
        depth_of(nodes[node].item.path) == depth_of(nodes[nodes[node].parent->0].item.path) + 1,
{
    assert(node != root);
    lemma_parent_is_one_level_up(nodes[nodes[node].parent->0].item.path, nodes[node].item.path);
}

/// In the walk from `node`, two nodes with one parent come in ascending order of
/// their keys.
proof fn lemma_walk_siblings_ascend(
    nodes: Map<NodeId, NodeModel>,
    root: NodeId,
    node: NodeId,
    height: nat,
    i: int,
    j: int,
)
    requires
        links_agree(nodes, root),
        parents_hold(nodes, root),
        siblings_ascend(nodes),
        nodes.contains_key(node),
        0 <= i < j < pre_order_from(nodes, node, height).len(),
        nodes[pre_order_from(nodes, node, height)[i]].parent is Some,
        nodes[pre_order_from(nodes, node, height)[i]].parent == nodes[pre_order_from(
            nodes,
            node,
            height,
        )[j]].parent,
    ensures
        text_le(
            key_of(nodes[pre_order_from(nodes, node, height)[i]].item.path),
            key_of(nodes[pre_order_from(nodes, node, height)[j]].item.path),
        ),
    decreases height, 0nat, 0nat,
{
    let walk = pre_order_from(nodes, node, height);
    let below = (height - 1) as nat;
    let ids = nodes[node].children;
    lemma_children_are_siblings(nodes, root, node);
    if i == 0 {
        let (a, hops) = lemma_walks_stay_below(nodes, root, node, ids, below, j - 1);
        let late = walk[j];
        assert(late == pre_order_all(nodes, ids, below)[j - 1]);
        lemma_ancestor_depth(nodes, root, late, hops);
        lemma_level(nodes, root, ids[a]);
        lemma_level(nodes, root, node);
        lemma_level(nodes, root, late);
    } else {
        assert(walk[i] == pre_order_all(nodes, ids, below)[i - 1]);
        assert(walk[j] == pre_order_all(nodes, ids, below)[j - 1]);
        lemma_walks_siblings_ascend(nodes, root, node, ids, below, i - 1, j - 1);
    }
}

/// In the walks from the siblings `ids`, two nodes with one parent come in ascending
/// order of their keys.
proof fn lemma_walks_siblings_ascend(
    nodes: Map<NodeId, NodeModel>,
    root: NodeId,
    parent: NodeId,
    ids: Seq<NodeId>,
    height: nat,
    i: int,
    j: int,
)
    requires
        links_agree(nodes, root),
        parents_hold(nodes, root),
        siblings_ascend(nodes),
        are_siblings(nodes, parent, ids),
        0 <= i < j < pre_order_all(nodes, ids, height).len(),
        nodes[pre_order_all(nodes, ids, height)[i]].parent is Some,
        nodes[pre_order_all(nodes, ids, height)[i]].parent == nodes[pre_order_all(
            nodes,
            ids,
            height,
        )[j]].parent,
    ensures
        text_le(
            key_of(nodes[pre_order_all(nodes, ids, height)[i]].item.path),
            key_of(nodes[pre_order_all(nodes, ids, height)[j]].item.path),
        ),
    decreases height, 1nat, ids.len(),
{
    let fewer = ids.drop_last();
    let last = ids.last();
    let front = pre_order_all(nodes, fewer, height);
    let back = pre_order_from(nodes, last, height);
    lemma_fewer_siblings(nodes, parent, ids);
    assert(nodes.contains_key(ids[ids.len() - 1]));
    if j < front.len() {
        lemma_walks_siblings_ascend(nodes, root, parent, fewer, height, i, j);
    } else if i >= front.len() {
        lemma_walk_siblings_ascend(nodes, root, last, height, i - front.len(), j - front.len());
    } else {
        let early = front[i];
        let late = back[j - front.len()];
        let (a, early_hops) = lemma_walks_stay_below(nodes, root, parent, fewer, height, i);
        let late_hops = lemma_walk_stays_below(nodes, root, last, height, j - front.len());
        assert(fewer[a] == ids[a]);
        lemma_ancestor_depth(nodes, root, early, early_hops);
        lemma_ancestor_depth(nodes, root, late, late_hops);
        lemma_level(nodes, root, ids[a]);
        lemma_level(nodes, root, last);
        lemma_level(nodes, root, early);
        lemma_level(nodes, root, late);
        assert(early_hops == late_hops);
        if early_hops == 0 {
            assert(early == ids[a] && late == ids[ids.len() - 1]);
        } else {
            let above = nodes[early].parent->0;
            assert(ancestor(nodes, early, early_hops) == ancestor(
                nodes,
                above,
                (early_hops - 1) as nat,
            ));
            assert(ancestor(nodes, late, late_hops) == ancestor(
                nodes,
                above,
                (late_hops - 1) as nat,
            ));
            assert(ids[a] == ids[ids.len() - 1]);
        }
    }
}

/// In the walk from the root, a node comes after each of its ancestors.
proof fn lemma_walk_ancestor_first(
    nodes: Map<NodeId, NodeModel>,
    root: NodeId,
    height: nat,
    i: int,
    hops: nat,
) -> (j: int)
    requires
        links_agree(nodes, root),
        0 <= i < pre_order_from(nodes, root, height).len(),
        hops >= 1,
        ancestor(nodes, pre_order_from(nodes, root, height)[i], hops) is Some,
    ensures
        0 <= j < i,
        ancestor(nodes, pre_order_from(nodes, root, height)[i], hops) == Some(
            pre_order_from(nodes, root, height)[j],
        ),
    decreases hops,
{
    let walk = pre_order_from(nodes, root, height);
    assert(walk[0] == root);
    let above = lemma_walk_parent_first(nodes, root, root, height, i);
    if hops == 1 {
        assert(ancestor(nodes, walk[above], 0) == Some(walk[above]));
        above
    } else {
        assert(ancestor(nodes, walk[i], hops) == ancestor(nodes, walk[above], (hops - 1) as nat));
        lemma_walk_ancestor_first(nodes, root, height, above, (hops - 1) as nat)
    }
}

/// Every node of the walk comes after each of its ancestors, its parent among them.
pub open spec fn ancestors_come_first(nodes: Map<NodeId, NodeModel>, walk: Seq<NodeId>) -> bool {
    forall|i: int, hops: nat|
        0 <= i < walk.len() && hops >= 1 && (#[trigger] ancestor(nodes, walk[i], hops)) is Some
            ==> exists|j: int|
            0 <= j < i && ancestor(nodes, walk[i], hops) == Some(#[trigger] walk[j])
}

/// Two nodes of the walk that hang under one parent come in ascending order of their
/// canonical keys.
pub open spec fn siblings_come_in_order(nodes: Map<NodeId, NodeModel>, walk: Seq<NodeId>) -> bool {
    forall|i: int, j: int|
        0 <= i < j < walk.len() && nodes[#[trigger] walk[i]].parent is Some && nodes[walk[i]].parent
            == nodes[#[trigger] walk[j]].parent ==> text_le(
            key_of(nodes[walk[i]].item.path),
            key_of(nodes[walk[j]].item.path),
        )
}

/// The pre-order walk of a built tree starts at the root, visits every node after
/// all of its ancestors, and visits the children of one directory in ascending order
/// of their keys. This holds of a walk of any height.
pub proof fn lemma_pre_order_follows_hierarchy(
    nodes: Map<NodeId, NodeModel>,
    root: Option<NodeId>,
    root_path: Seq<char>,
    entries: Seq<ItemView>,
    height: nat,
)
    requires
        is_file_tree(nodes, root, root_path, entries),
    ensures
        pre_order_from(nodes, root->0, height)[0] == root->0,
        ancestors_come_first(nodes, pre_order_from(nodes, root->0, height)),
        siblings_come_in_order(nodes, pre_order_from(nodes, root->0, height)),
{
    let top = root->0;
    let walk = pre_order_from(nodes, top, height);
    assert forall|i: int, hops: nat|
        0 <= i < walk.len() && hops >= 1 && (#[trigger] ancestor(
            nodes,
            walk[i],
            hops,
        )) is Some implies exists|j: int|
        0 <= j < i && ancestor(nodes, walk[i], hops) == Some(#[trigger] walk[j]) by {
        let j = lemma_walk_ancestor_first(nodes, top, height, i, hops);
        assert(ancestor(nodes, walk[i], hops) == Some(walk[j]));
    }
    assert forall|i: int, j: int|
        0 <= i < j < walk.len() && nodes[#[trigger] walk[i]].parent is Some && nodes[walk[i]].parent
            == nodes[#[trigger] walk[j]].parent implies text_le(
        key_of(nodes[walk[i]].item.path),
        key_of(nodes[walk[j]].item.path),
    ) by {
        lemma_walk_siblings_ascend(nodes, top, top, height, i, j);
    }
}

/// Where the links go `hops` far from a node, they go any shorter way too.
proof fn lemma_shorter_way(nodes: Map<NodeId, NodeModel>, node: NodeId, hops: nat, fewer: nat)
    requires
        ancestor(nodes, node, hops) is Some,
        fewer <= hops,
    ensures
        ancestor(nodes, node, fewer) is Some,
    decreases fewer,
{
    if fewer > 0 {
        lemma_shorter_way(nodes, nodes[node].parent->0, (hops - 1) as nat, (fewer - 1) as nat);
    }
}

/// Every node hangs under the root, as many hops down as its path is deeper.
proof fn lemma_reaches_root(nodes: Map<NodeId, NodeModel>, root: NodeId, node: NodeId) -> (hops:
    nat)
    requires
        links_agree(nodes, root),
        parents_hold(nodes, root),
        nodes.contains_key(node),
    ensures
        ancestor(nodes, node, hops) == Some(root),
        depth_of(nodes[node].item.path) == depth_of(nodes[root].item.path) + hops,
    decreases depth_of(nodes[node].item.path),
{
    if node == root {
        0
    } else {
        lemma_level(nodes, root, node);
        let above = lemma_reaches_root(nodes, root, nodes[node].parent->0);
        above + 1
    }
}

/// The walk from one of `ids` stands, whole and unbroken, in the walks from `ids`.
proof fn lemma_walk_within_walks(
    nodes: Map<NodeId, NodeModel>,
    ids: Seq<NodeId>,
    height: nat,
    a: int,
) -> (offset: int)
    requires
        0 <= a < ids.len(),
    ensures
        0 <= offset,
        offset + pre_order_from(nodes, ids[a], height).len() <= pre_order_all(
            nodes,
            ids,
            height,
        ).len(),
        forall|i: int|
            0 <= i < pre_order_from(nodes, ids[a], height).len() ==> pre_order_all(
                nodes,
                ids,
                height,
            )[offset + i] == #[trigger] pre_order_from(nodes, ids[a], height)[i],
    decreases ids.len(),
{
    let fewer = ids.drop_last();
    let front = pre_order_all(nodes, fewer, height);
    if a == ids.len() - 1 {
        front.len() as int
    } else {
        assert(fewer[a] == ids[a]);
        lemma_walk_within_walks(nodes, fewer, height, a)
    }
}

/// The walk from `node` visits every node that lies at most `height` hops under it.
proof fn lemma_walk_reaches(
    nodes: Map<NodeId, NodeModel>,
    root: NodeId,
    node: NodeId,
    height: nat,
    under: NodeId,
    hops: nat,
) -> (i: int)
    requires
        links_agree(nodes, root),
        parents_hold(nodes, root),
        nodes.contains_key(node),
        nodes.contains_key(under),
        ancestor(nodes, under, hops) == Some(node),
        hops <= height,
    ensures
        0 <= i < pre_order_from(nodes, node, height).len(),
        pre_order_from(nodes, node, height)[i] == under,
    decreases height,
{
    if hops == 0 {
        0
    } else {
        let below = (height - 1) as nat;
        let ids = nodes[node].children;
        lemma_shorter_way(nodes, under, hops, (hops - 1) as nat);
        let child = ancestor(nodes, under, (hops - 1) as nat)->0;
        lemma_ancestor_depth(nodes, root, under, (hops - 1) as nat);
        lemma_ancestor_step(nodes, under, (hops - 1) as nat, child);
        assert(nodes[child].parent == Some(node));
        assert(child != root);
        assert(ids.contains(child));
        let a = choose|a: int| 0 <= a < ids.len() && ids[a] == child;
        let inner = lemma_walk_reaches(nodes, root, child, below, under, (hops - 1) as nat);
        let offset = lemma_walk_within_walks(nodes, ids, below, a);
        assert(pre_order_all(nodes, ids, below)[offset + inner] == pre_order_from(
            nodes,
            ids[a],
            below,
        )[inner]);
        1 + offset + inner
    }
}

/// The walk from `node` visits no node twice.
proof fn lemma_walk_visits_once(
    nodes: Map<NodeId, NodeModel>,
    root: NodeId,
    node: NodeId,
    height: nat,
)
    requires
        links_agree(nodes, root),
        parents_hold(nodes, root),
        siblings_ascend(nodes),
        nodes.contains_key(node),
    ensures
        pre_order_from(nodes, node, height).no_duplicates(),
    decreases height, 0nat, 0nat,
{
    let walk = pre_order_from(nodes, node, height);
    if height > 0 {
        let below = (height - 1) as nat;
        let ids = nodes[node].children;
        let rest = pre_order_all(nodes, ids, below);
        lemma_children_are_siblings(nodes, root, node);
        lemma_walks_visit_once(nodes, root, node, ids, below);
        assert forall|i: int, j: int|
            0 <= i < walk.len() && 0 <= j < walk.len() && i != j implies walk[i] != walk[j] by {
            if i > 0 && j > 0 {
                assert(walk[i] == rest[i - 1]);
                assert(walk[j] == rest[j - 1]);
            } else {
                let k = if i == 0 {
                    j
                } else {
                    i
                };
                assert(walk[k] == rest[k - 1]);
                let (a, hops) = lemma_walks_stay_below(nodes, root, node, ids, below, k - 1);
                lemma_ancestor_depth(nodes, root, walk[k], hops);
                lemma_level(nodes, root, ids[a]);
            }
        }
    }
}

/// The walks from the siblings `ids` visit no node twice.
proof fn lemma_walks_visit_once(
    nodes: Map<NodeId, NodeModel>,
    root: NodeId,
    parent: NodeId,
    ids: Seq<NodeId>,
    height: nat,
)
    requires
        links_agree(nodes, root),
        parents_hold(nodes, root),
        siblings_ascend(nodes),
        are_siblings(nodes, parent, ids),
    ensures
        pre_order_all(nodes, ids, height).no_duplicates(),
    decreases height, 1nat, ids.len(),
{
    if ids.len() > 0 {
        let walks = pre_order_all(nodes, ids, height);
        let fewer = ids.drop_last();
        let last = ids.last();
        let front = pre_order_all(nodes, fewer, height);
        let back = pre_order_from(nodes, last, height);
        lemma_fewer_siblings(nodes, parent, ids);
        assert(nodes.contains_key(ids[ids.len() - 1]));
        lemma_walks_visit_once(nodes, root, parent, fewer, height);
        lemma_walk_visits_once(nodes, root, last, height);
        assert forall|i: int, j: int| 0 <= i < front.len() && 0 <= j < back.len() implies front[i]
            != back[j] by {
            let (a, early_hops) = lemma_walks_stay_below(nodes, root, parent, fewer, height, i);
            let late_hops = lemma_walk_stays_below(nodes, root, last, height, j);
            assert(fewer[a] == ids[a]);
            lemma_ancestor_depth(nodes, root, front[i], early_hops);
            lemma_ancestor_depth(nodes, root, back[j], late_hops);
            lemma_level(nodes, root, ids[a]);
            lemma_level(nodes, root, last);
            if front[i] == back[j] {
                assert(early_hops == late_hops);
                assert(ids[a] == ids[ids.len() - 1]);
            }
        }
        assert forall|i: int, j: int|
            0 <= i < walks.len() && 0 <= j < walks.len() && i != j implies walks[i]
            != walks[j] by {
            if i < front.len() && j < front.len() {
                assert(walks[i] == front[i] && walks[j] == front[j]);
            } else if i >= front.len() && j >= front.len() {
                assert(walks[i] == back[i - front.len()] && walks[j] == back[j - front.len()]);
            } else if i < front.len() {
                assert(walks[i] == front[i] && walks[j] == back[j - front.len()]);
            } else {
                assert(walks[j] == front[j] && walks[i] == back[i - front.len()]);
            }
        }
    }
}

/// The pre-order walk of a built tree visits nodes of the tree only, none of them
/// twice, and none that lies more than `height` levels below the root; it visits
/// every node that lies within `height` levels of the root.
pub proof fn lemma_pre_order_visits_every_node(
    nodes: Map<NodeId, NodeModel>,
    root: Option<NodeId>,
    root_path: Seq<char>,
    entries: Seq<ItemView>,
    height: nat,
)
    requires
        is_file_tree(nodes, root, root_path, entries),
    ensures
        pre_order_from(nodes, root->0, height).no_duplicates(),
        forall|i: int|
            0 <= i < pre_order_from(nodes, root->0, height).len() ==> {
                &&& nodes.contains_key(#[trigger] pre_order_from(nodes, root->0, height)[i])
                &&& depth_of(nodes[pre_order_from(nodes, root->0, height)[i]].item.path)
                    <= depth_of(root_path) + height
            },
        forall|node: NodeId|
            #[trigger] nodes.contains_key(node) && depth_of(nodes[node].item.path) <= depth_of(
                root_path,
            ) + height ==> pre_order_from(nodes, root->0, height).contains(node),
{
    let top = root->0;
    let walk = pre_order_from(nodes, top, height);
    lemma_walk_visits_once(nodes, top, top, height);
    assert forall|i: int| 0 <= i < walk.len() implies nodes.contains_key(#[trigger] walk[i])
        && depth_of(nodes[walk[i]].item.path) <= depth_of(root_path) + height by {
        let hops = lemma_walk_stays_below(nodes, top, top, height, i);
        lemma_ancestor_depth(nodes, top, walk[i], hops);
    }
    assert forall|node: NodeId|
        #[trigger] nodes.contains_key(node) && depth_of(nodes[node].item.path) <= depth_of(
            root_path,
        ) + height implies walk.contains(node) by {
        let hops = lemma_reaches_root(nodes, top, node);
        let i = lemma_walk_reaches(nodes, top, top, height, node, hops);
        assert(walk[i] == node);
    }
}

} // verus!
