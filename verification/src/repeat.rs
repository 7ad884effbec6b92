//! Building twice gives the same walk: the order in which the entries were
//! discovered does not show in the tree.

use crate::bag::{lemma_no_duplicates_carry, lemma_same_members};
use crate::item::ItemView;
use crate::order::{pre_order_all, pre_order_from};
use crate::path::{key_of, text_le};
use crate::shape::{holds_items, is_file_tree};
use crate::tree::NodeModel;
use id_tree::NodeId;
use vstd::prelude::*;

verus! {

/// No two entries share a canonical key, and none has the key of the root.
pub open spec fn keys_differ(root_path: Seq<char>, entries: Seq<ItemView>) -> bool {
    &&& forall|i: int, j: int|
        0 <= i < j < entries.len() ==> key_of(entries[i].path) != key_of(entries[j].path)
    &&& forall|i: int|
        0 <= i < entries.len() ==> key_of((#[trigger] entries[i]).path) != key_of(root_path)
}

/// The entries that the nodes of a walk hold, in the order of the walk.
pub open spec fn items_along(nodes: Map<NodeId, NodeModel>, walk: Seq<NodeId>) -> Seq<ItemView> {
    walk.map_values(|id: NodeId| nodes[id].item)
}

/// The canonical keys of the entries that the nodes `ids` hold, in that order.
pub open spec fn keys_along(nodes: Map<NodeId, NodeModel>, ids: Seq<NodeId>) -> Seq<Seq<char>> {
    ids.map_values(|id: NodeId| key_of(nodes[id].item.path))
}

/// The texts ascend in the order of [`text_le`].
pub open spec fn texts_ascend(texts: Seq<Seq<char>>) -> bool {
    forall|i: int, j: int| 0 <= i < j < texts.len() ==> text_le(texts[i], texts[j])
}

/// Two texts, each at or before the other, are one text.
pub proof fn lemma_text_le_antisymmetric(a: Seq<char>, b: Seq<char>)
    requires
        text_le(a, b),
        text_le(b, a),
    ensures
        a == b,
    decreases a.len(),
{
    if a.len() == 0 {
        assert(a =~= b);
    } else {
        lemma_text_le_antisymmetric(a.drop_first(), b.drop_first());
        assert(a =~= seq![a[0]] + a.drop_first());
        assert(b =~= seq![b[0]] + b.drop_first());
    }
}

/// Two ascending lists of texts without duplicates that hold the same texts are
/// the same list.
proof fn lemma_ascending_lists_equal(s1: Seq<Seq<char>>, s2: Seq<Seq<char>>)
    requires
        texts_ascend(s1),
        texts_ascend(s2),
        s1.no_duplicates(),
        s2.no_duplicates(),
        forall|x: Seq<char>| s1.contains(x) <==> s2.contains(x),
    ensures
        s1 == s2,
    decreases s1.len(),
{
    if s1.len() == 0 {
        if s2.len() > 0 {
            assert(s2.contains(s2[0]));
        }
        assert(s1 =~= s2);
    } else {
        assert(s1.contains(s1[0]));
        assert(s2.contains(s1[0]));
        assert(s2.contains(s2[0]));
        assert(s1.contains(s2[0]));
        let a = choose|a: int| 0 <= a < s2.len() && s2[a] == s1[0];
        let b = choose|b: int| 0 <= b < s1.len() && s1[b] == s2[0];
        if a > 0 && b > 0 {
            assert(text_le(s2[0], s2[a]));
            assert(text_le(s1[0], s1[b]));
            lemma_text_le_antisymmetric(s1[0], s2[0]);
        }
        assert(s1[0] == s2[0]);
        let t1 = s1.drop_first();
        let t2 = s2.drop_first();
        assert forall|x: Seq<char>| t1.contains(x) <==> t2.contains(x) by {
            if t1.contains(x) {
                let k = choose|k: int| 0 <= k < t1.len() && t1[k] == x;
                assert(s1[k + 1] == x);
                assert(s1.contains(x));
                let m = choose|m: int| 0 <= m < s2.len() && s2[m] == x;
                assert(m > 0);
                assert(t2[m - 1] == x);
            }
            if t2.contains(x) {
                let k = choose|k: int| 0 <= k < t2.len() && t2[k] == x;
                assert(s2[k + 1] == x);
                assert(s2.contains(x));
                let m = choose|m: int| 0 <= m < s1.len() && s1[m] == x;
                assert(m > 0);
                assert(t1[m - 1] == x);
            }
        }
        assert forall|i: int, j: int| 0 <= i < j < t1.len() implies text_le(t1[i], t1[j]) by {
            assert(text_le(s1[i + 1], s1[j + 1]));
        }
        assert forall|i: int, j: int| 0 <= i < j < t2.len() implies text_le(t2[i], t2[j]) by {
            assert(text_le(s2[i + 1], s2[j + 1]));
        }
        lemma_ascending_lists_equal(t1, t2);
        assert(s1 =~= seq![s1[0]] + t1);
        assert(s2 =~= seq![s2[0]] + t2);
    }
}

/// Entries with different keys are different entries, and at most one has a given key.
proof fn lemma_one_entry_per_key(
    root_path: Seq<char>,
    entries: Seq<ItemView>,
    a: ItemView,
    b: ItemView,
)
    requires
        keys_differ(root_path, entries),
        entries.contains(a),
        entries.contains(b),
        key_of(a.path) == key_of(b.path),
    ensures
        a == b,
        entries.no_duplicates(),
{
    let i = choose|i: int| 0 <= i < entries.len() && entries[i] == a;
    let j = choose|j: int| 0 <= j < entries.len() && entries[j] == b;
    if i < j {
        assert(key_of(entries[i].path) != key_of(entries[j].path));
    } else if j < i {
        assert(key_of(entries[j].path) != key_of(entries[i].path));
    }
    assert forall|m: int, n: int|
        0 <= m < entries.len() && 0 <= n < entries.len() && m != n implies entries[m]
        != entries[n] by {
        if m < n {
            assert(key_of(entries[m].path) != key_of(entries[n].path));
        } else {
            assert(key_of(entries[n].path) != key_of(entries[m].path));
        }
    }
}

/// A node other than the root holds one of the entries.
proof fn lemma_node_holds_entry(
    nodes: Map<NodeId, NodeModel>,
    root: Option<NodeId>,
    root_path: Seq<char>,
    entries: Seq<ItemView>,
    node: NodeId,
)
    requires
        is_file_tree(nodes, root, root_path, entries),
        nodes.contains_key(node),
        node != root->0,
    ensures
        entries.contains(nodes[node].item),
{
    let (ids, items) = choose|ids: Seq<NodeId>, items: Seq<ItemView>|
        #[trigger] holds_items(nodes, root->0, ids, items) && items.to_multiset()
            == entries.to_multiset();
    assert(ids.contains(node));
    let a = choose|a: int| 0 <= a < ids.len() && ids[a] == node;
    assert(nodes[ids[a]].item == items[a]);
    assert(items.contains(items[a]));
    lemma_same_members(items, entries);
}

/// Every entry is held by a node other than the root.
proof fn lemma_entry_has_node(
    nodes: Map<NodeId, NodeModel>,
    root: Option<NodeId>,
    root_path: Seq<char>,
    entries: Seq<ItemView>,
    entry: ItemView,
) -> (node: NodeId)
    requires
        is_file_tree(nodes, root, root_path, entries),
        entries.contains(entry),
    ensures
        nodes.contains_key(node),
        node != root->0,
        nodes[node].item == entry,
{
    let (ids, items) = choose|ids: Seq<NodeId>, items: Seq<ItemView>|
        #[trigger] holds_items(nodes, root->0, ids, items) && items.to_multiset()
            == entries.to_multiset();
    lemma_same_members(items, entries);
    assert(items.contains(entry));
    let a = choose|a: int| 0 <= a < items.len() && items[a] == entry;
    assert(nodes[ids[a]].item == items[a]);
    assert(ids.contains(ids[a]));
    ids[a]
}

/// Where the entries' keys differ from each other and from the key of the root, no two
/// nodes of the tree share a key: two nodes with one key are one node.
pub proof fn lemma_node_keys_differ(
    nodes: Map<NodeId, NodeModel>,
    root: Option<NodeId>,
    root_path: Seq<char>,
    entries: Seq<ItemView>,
    x: NodeId,
    y: NodeId,
)
    requires
        is_file_tree(nodes, root, root_path, entries),
        keys_differ(root_path, entries),
        nodes.contains_key(x),
        nodes.contains_key(y),
        key_of(nodes[x].item.path) == key_of(nodes[y].item.path),
    ensures
        x == y,
{
    let top = root->0;
    if x != top && y != top {
        let (ids, items) = choose|ids: Seq<NodeId>, items: Seq<ItemView>|
            #[trigger] holds_items(nodes, top, ids, items) && items.to_multiset()
                == entries.to_multiset();
        lemma_node_holds_entry(nodes, root, root_path, entries, x);
        lemma_node_holds_entry(nodes, root, root_path, entries, y);
        lemma_one_entry_per_key(root_path, entries, nodes[x].item, nodes[y].item);
        lemma_no_duplicates_carry(entries, items);
        assert(ids.contains(x));
        assert(ids.contains(y));
        let a = choose|a: int| 0 <= a < ids.len() && ids[a] == x;
        let b = choose|b: int| 0 <= b < ids.len() && ids[b] == y;
        assert(nodes[ids[a]].item == items[a]);
        assert(nodes[ids[b]].item == items[b]);
        assert(a == b);
    } else if x != top {
        lemma_node_holds_entry(nodes, root, root_path, entries, x);
        let m = choose|m: int| 0 <= m < entries.len() && entries[m] == nodes[x].item;
        assert(key_of(entries[m].path) != key_of(root_path));
    } else if y != top {
        lemma_node_holds_entry(nodes, root, root_path, entries, y);
        let m = choose|m: int| 0 <= m < entries.len() && entries[m] == nodes[y].item;
        assert(key_of(entries[m].path) != key_of(root_path));
    }
}

/// In two trees of one directory, a child of a node in the first has its entry held
/// by a child of the node with the same key in the second.
proof fn lemma_child_has_twin(
    nodes1: Map<NodeId, NodeModel>,
    root1: Option<NodeId>,
    nodes2: Map<NodeId, NodeModel>,
    root2: Option<NodeId>,
    root_path: Seq<char>,
    entries: Seq<ItemView>,
    n1: NodeId,
    n2: NodeId,
    a: int,
) -> (b: int)
    requires
        is_file_tree(nodes1, root1, root_path, entries),
        is_file_tree(nodes2, root2, root_path, entries),
        keys_differ(root_path, entries),
        nodes1.contains_key(n1),
        nodes2.contains_key(n2),
        key_of(nodes1[n1].item.path) == key_of(nodes2[n2].item.path),
        0 <= a < nodes1[n1].children.len(),
    ensures
        0 <= b < nodes2[n2].children.len(),
        nodes2[nodes2[n2].children[b]].item == nodes1[nodes1[n1].children[a]].item,
{
    let c1 = nodes1[n1].children[a];
    assert(nodes1.contains_key(c1) && nodes1[c1].parent == Some(n1));
    assert(c1 != root1->0);
    lemma_node_holds_entry(nodes1, root1, root_path, entries, c1);
    let c2 = lemma_entry_has_node(nodes2, root2, root_path, entries, nodes1[c1].item);
    let above = nodes2[c2].parent->0;
    assert(nodes2.contains_key(above));
    lemma_node_keys_differ(nodes2, root2, root_path, entries, above, n2);
    assert(nodes2[n2].children.contains(c2));
    choose|b: int| 0 <= b < nodes2[n2].children.len() && nodes2[n2].children[b] == c2
}

/// The keys of a node's children ascend and hold no duplicates.
proof fn lemma_child_keys_ascend(
    nodes: Map<NodeId, NodeModel>,
    root: Option<NodeId>,
    root_path: Seq<char>,
    entries: Seq<ItemView>,
    node: NodeId,
)
    requires
        is_file_tree(nodes, root, root_path, entries),
        keys_differ(root_path, entries),
        nodes.contains_key(node),
    ensures
        texts_ascend(keys_along(nodes, nodes[node].children)),
        keys_along(nodes, nodes[node].children).no_duplicates(),
{
    let ids = nodes[node].children;
    let keys = keys_along(nodes, ids);
    assert(crate::tree::keys_ascend(nodes, ids));
    assert forall|i: int, j: int|
        0 <= i < keys.len() && 0 <= j < keys.len() && i != j implies keys[i] != keys[j] by {
        assert(nodes.contains_key(nodes[node].children[i]));
        assert(nodes.contains_key(nodes[node].children[j]));
        if keys[i] == keys[j] {
            lemma_node_keys_differ(nodes, root, root_path, entries, ids[i], ids[j]);
        }
    }
}

/// In two trees of one directory, two nodes with the same key have children that
/// hold the same entries in the same order.
proof fn lemma_children_match(
    nodes1: Map<NodeId, NodeModel>,
    root1: Option<NodeId>,
    nodes2: Map<NodeId, NodeModel>,
    root2: Option<NodeId>,
    root_path: Seq<char>,
    entries: Seq<ItemView>,
    n1: NodeId,
    n2: NodeId,
)
    requires
        is_file_tree(nodes1, root1, root_path, entries),
        is_file_tree(nodes2, root2, root_path, entries),
        keys_differ(root_path, entries),
        nodes1.contains_key(n1),
        nodes2.contains_key(n2),
        key_of(nodes1[n1].item.path) == key_of(nodes2[n2].item.path),
    ensures
        items_along(nodes1, nodes1[n1].children) == items_along(nodes2, nodes2[n2].children),
{
    let ids1 = nodes1[n1].children;
    let ids2 = nodes2[n2].children;
    let keys1 = keys_along(nodes1, ids1);
    let keys2 = keys_along(nodes2, ids2);
    lemma_child_keys_ascend(nodes1, root1, root_path, entries, n1);
    lemma_child_keys_ascend(nodes2, root2, root_path, entries, n2);
    assert forall|x: Seq<char>| keys1.contains(x) <==> keys2.contains(x) by {
        if keys1.contains(x) {
            let a = choose|a: int| 0 <= a < keys1.len() && keys1[a] == x;
            let b = lemma_child_has_twin(
                nodes1,
                root1,
                nodes2,
                root2,
                root_path,
                entries,
                n1,
                n2,
                a,
            );
            assert(keys2[b] == x);
        }
        if keys2.contains(x) {
            let a = choose|a: int| 0 <= a < keys2.len() && keys2[a] == x;
            let b = lemma_child_has_twin(
                nodes2,
                root2,
                nodes1,
                root1,
                root_path,
                entries,
                n2,
                n1,
                a,
            );
            assert(keys1[b] == x);
        }
    }
    lemma_ascending_lists_equal(keys1, keys2);
    assert(ids1.len() == ids2.len());
    assert forall|a: int| 0 <= a < ids1.len() implies nodes1[ids1[a]].item
        == nodes2[ids2[a]].item by {
        assert(keys1[a] == keys2[a]);
        assert(nodes1.contains_key(nodes1[n1].children[a]));
        assert(nodes2.contains_key(nodes2[n2].children[a]));
        assert(nodes1[ids1[a]].parent == Some(n1));
        assert(nodes2[ids2[a]].parent == Some(n2));
        lemma_node_holds_entry(nodes1, root1, root_path, entries, ids1[a]);
        lemma_node_holds_entry(nodes2, root2, root_path, entries, ids2[a]);
        lemma_one_entry_per_key(root_path, entries, nodes1[ids1[a]].item, nodes2[ids2[a]].item);
    }
    assert(items_along(nodes1, ids1) =~= items_along(nodes2, ids2));
}

/// In two trees of one directory, the walks from two nodes that hold the same entry
/// visit the same entries in the same order.
proof fn lemma_walks_match(
    nodes1: Map<NodeId, NodeModel>,
    root1: Option<NodeId>,
    nodes2: Map<NodeId, NodeModel>,
    root2: Option<NodeId>,
    root_path: Seq<char>,
    entries: Seq<ItemView>,
    n1: NodeId,
    n2: NodeId,
    height: nat,
)
    requires
        is_file_tree(nodes1, root1, root_path, entries),
        is_file_tree(nodes2, root2, root_path, entries),
        keys_differ(root_path, entries),
        nodes1.contains_key(n1),
        nodes2.contains_key(n2),
        nodes1[n1].item == nodes2[n2].item,
    ensures
        items_along(nodes1, pre_order_from(nodes1, n1, height)) == items_along(
            nodes2,
            pre_order_from(nodes2, n2, height),
        ),
    decreases height, 0nat, 0nat,
{
    let walk1 = pre_order_from(nodes1, n1, height);
    let walk2 = pre_order_from(nodes2, n2, height);
    if height == 0 {
        assert(items_along(nodes1, walk1) =~= items_along(nodes2, walk2));
    } else {
        let below = (height - 1) as nat;
        let ids1 = nodes1[n1].children;
        let ids2 = nodes2[n2].children;
        lemma_children_match(nodes1, root1, nodes2, root2, root_path, entries, n1, n2);
        assert(ids1.len() == items_along(nodes1, ids1).len());
        assert(ids2.len() == items_along(nodes2, ids2).len());
        assert forall|a: int| 0 <= a < ids1.len() implies nodes1.contains_key(#[trigger] ids1[a])
            && nodes2.contains_key(ids2[a]) && nodes1[ids1[a]].item == nodes2[ids2[a]].item by {
            assert(nodes1.contains_key(nodes1[n1].children[a]));
            assert(nodes2.contains_key(nodes2[n2].children[a]));
            assert(items_along(nodes1, ids1)[a] == items_along(nodes2, ids2)[a]);
        }
        lemma_all_walks_match(
            nodes1,
            root1,
            nodes2,
            root2,
            root_path,
            entries,
            ids1,
            ids2,
            below,
        );
        let rest1 = pre_order_all(nodes1, ids1, below);
        let rest2 = pre_order_all(nodes2, ids2, below);
        assert(items_along(nodes1, walk1) =~= seq![nodes1[n1].item] + items_along(nodes1, rest1));
        assert(items_along(nodes2, walk2) =~= seq![nodes2[n2].item] + items_along(nodes2, rest2));
    }
}

/// The same, for the walks from two lists of nodes that hold the same entries.
proof fn lemma_all_walks_match(
    nodes1: Map<NodeId, NodeModel>,
    root1: Option<NodeId>,
    nodes2: Map<NodeId, NodeModel>,
    root2: Option<NodeId>,
    root_path: Seq<char>,
    entries: Seq<ItemView>,
    ids1: Seq<NodeId>,
    ids2: Seq<NodeId>,
    height: nat,
)
    requires
        is_file_tree(nodes1, root1, root_path, entries),
        is_file_tree(nodes2, root2, root_path, entries),
        keys_differ(root_path, entries),
        ids1.len() == ids2.len(),
        forall|a: int|
            0 <= a < ids1.len() ==> nodes1.contains_key(#[trigger] ids1[a]) && nodes2.contains_key(
                ids2[a],
            ) && nodes1[ids1[a]].item == nodes2[ids2[a]].item,
    ensures
        items_along(nodes1, pre_order_all(nodes1, ids1, height)) == items_along(
            nodes2,
            pre_order_all(nodes2, ids2, height),
        ),
    decreases height, 1nat, ids1.len(),
{
    if ids1.len() == 0 {
        assert(items_along(nodes1, pre_order_all(nodes1, ids1, height)) =~= items_along(
            nodes2,
            pre_order_all(nodes2, ids2, height),
        ));
    } else {
        let fewer1 = ids1.drop_last();
        let fewer2 = ids2.drop_last();
        assert forall|a: int| 0 <= a < fewer1.len() implies nodes1.contains_key(
            #[trigger] fewer1[a],
        ) && nodes2.contains_key(fewer2[a]) && nodes1[fewer1[a]].item == nodes2[fewer2[a]].item by {
            assert(fewer1[a] == ids1[a] && fewer2[a] == ids2[a]);
        }
        lemma_all_walks_match(
            nodes1,
            root1,
            nodes2,
            root2,
            root_path,
            entries,
            fewer1,
            fewer2,
            height,
        );
        assert(nodes1.contains_key(ids1[ids1.len() - 1]));
        lemma_walks_match(
            nodes1,
            root1,
            nodes2,
            root2,
            root_path,
            entries,
            ids1.last(),
            ids2.last(),
            height,
        );
        let front1 = pre_order_all(nodes1, fewer1, height);
        let front2 = pre_order_all(nodes2, fewer2, height);
        let back1 = pre_order_from(nodes1, ids1.last(), height);
        let back2 = pre_order_from(nodes2, ids2.last(), height);
        assert(items_along(nodes1, front1 + back1) =~= items_along(nodes1, front1) + items_along(
            nodes1,
            back1,
        ));
        assert(items_along(nodes2, front2 + back2) =~= items_along(nodes2, front2) + items_along(
            nodes2,
            back2,
        ));
    }
}

/// Two trees built of one directory, from the same entries discovered in whatever
/// order, are walked alike: their pre-order walks of any one height visit the same
/// entries in the same order. This is stated of entries whose canonical keys all
/// differ from each other and from the key of the root.
pub proof fn lemma_discovery_order_does_not_show(
    nodes1: Map<NodeId, NodeModel>,
    root1: Option<NodeId>,
    entries1: Seq<ItemView>,
    nodes2: Map<NodeId, NodeModel>,
    root2: Option<NodeId>,
    entries2: Seq<ItemView>,
    root_path: Seq<char>,
    height: nat,
)
    requires
        is_file_tree(nodes1, root1, root_path, entries1),
        is_file_tree(nodes2, root2, root_path, entries2),
        entries1.to_multiset() == entries2.to_multiset(),
        keys_differ(root_path, entries1),
    ensures
        items_along(nodes1, pre_order_from(nodes1, root1->0, height)) == items_along(
            nodes2,
            pre_order_from(nodes2, root2->0, height),
        ),
{
    let (ids, items) = choose|ids: Seq<NodeId>, items: Seq<ItemView>|
        #[trigger] holds_items(nodes2, root2->0, ids, items) && items.to_multiset()
            == entries2.to_multiset();
    assert(holds_items(nodes2, root2->0, ids, items) && items.to_multiset()
        == entries1.to_multiset());
    assert(is_file_tree(nodes2, root2, root_path, entries1));
    lemma_walks_match(
        nodes1,
        root1,
        nodes2,
        root2,
        root_path,
        entries1,
        root1->0,
        root2->0,
        height,
    );
}

} // verus!
