//! Building the tree from the entries of a walk.

use crate::bag::{lemma_map_keeps_multiset, lemma_same_members};
use crate::item::{item_views, BuildError, Item, ItemView};
use crate::path::{
    depth_of, key_of, lemma_parent_is_one_level_up, parent_key, parent_key_of, path_depth,
    path_key,
};
use crate::shape::{
    has_orphan, holds_items, is_file_tree, is_orphan, is_single_file, lemma_attach, links_agree,
    parents_hold, siblings_ascend,
};
use crate::tree::{tree_insert, tree_new, tree_nodes, tree_root, tree_sort_children, NodeModel};
use id_tree::{NodeId, Tree};
use vstd::hash_map::StringHashMap;
use vstd::pervasive::unreached;
use vstd::prelude::*;

verus! {

/// The depths of the entries' paths ascend.
pub open spec fn depths_ascend(items: Seq<Item>) -> bool {
    forall|i: int, j: int|
        0 <= i < j < items.len() ==> depth_of(items[i]@.path) <= depth_of(items[j]@.path)
}

/// `slice::sort_unstable_by_key`, with the depth of each entry's path as the key.
///
/// Afterwards the vector holds the same entries as before, rearranged so that their
/// depths ascend. The order that entries of one depth take among themselves is not
/// stated here.
#[verifier::external_body]
fn sort_by_depth(items: &mut Vec<Item>)
    ensures
        final(items)@.to_multiset() == old(items)@.to_multiset(),
        depths_ascend(final(items)@),
{
    items.sort_unstable_by_key(|item| path_depth(item.path()));
}

/// The tree of the directory `root` with the entries `entries` in it.
///
/// The entries may come in any order. The build fails, with
/// [`BuildError::OrphanEntry`], exactly when some entry lies in no directory, or in
/// one that is neither the root nor among the entries; it never fails otherwise.
pub fn build_tree(root: &str, entries: Vec<Item>) -> (result: Result<Tree<Item>, BuildError>)
    ensures
        result is Err <==> has_orphan(root@, item_views(entries@)),
        result is Err ==> result->Err_0 == BuildError::OrphanEntry,
        result is Ok ==> is_file_tree(
            tree_nodes(result->Ok_0),
            tree_root(result->Ok_0),
            root@,
            item_views(entries@),
        ),
{
    let ghost given = item_views(entries@);
    let mut sorted = entries;
    sort_by_depth(&mut sorted);
    let ghost ordered = item_views(sorted@);
    proof {
        lemma_map_keeps_multiset(sorted@, entries@, |item: Item| item@);
        lemma_same_members(ordered, given);
    }
    let mut tree = tree_new();
    let root_item = Item::new(root.to_owned(), false);
    let root_id = match tree_insert(&mut tree, root_item, None) {
        Ok(id) => id,
        Err(_) => {
            return Err(BuildError::TreeInsertion);
        },
    };
    let ghost top = root_id;
    let mut index: StringHashMap<NodeId> = StringHashMap::new();
    index.insert(path_key(root), root_id);
    let ghost mut ids: Seq<NodeId> = Seq::empty();
    assert(tree_nodes(tree).dom() =~= set![top]);
    assert(ordered.take(0) =~= Seq::<ItemView>::empty());

    for item in it: sorted
        invariant
            it.seq() == sorted@,
            ordered == item_views(sorted@),
            given == item_views(entries@),
            depths_ascend(sorted@),
            ordered.to_multiset() == given.to_multiset(),
            forall|x: ItemView| ordered.contains(x) <==> given.contains(x),
            tree_root(tree) == Some(top),
            tree_nodes(tree)[top].item == (ItemView { path: root@, is_file: false }),
            links_agree(tree_nodes(tree), top),
            parents_hold(tree_nodes(tree), top),
            siblings_ascend(tree_nodes(tree)),
            holds_items(tree_nodes(tree), top, ids, ordered.take(it.index() as int)),
            forall|k: Seq<char>| #[trigger]
                index@.contains_key(k) ==> tree_nodes(tree).contains_key(index@[k]) && key_of(
                    tree_nodes(tree)[index@[k]].item.path,
                ) == k,
            forall|k: Seq<char>| #[trigger]
                index@.contains_key(k) <==> (k == key_of(root@) || exists|j: int|
                    0 <= j < it.index() && key_of(#[trigger] ordered[j].path) == k),
            forall|j: int|
                0 <= j < it.index() ==> !is_orphan(root@, given, #[trigger] ordered[j].path),
    {
        let ghost i = it.index() as int;
        let ghost path = ordered[i].path;
        assert(item@ == ordered[i]);
        assert(ordered.contains(ordered[i]));
        let ghost m = choose|m: int| 0 <= m < given.len() && given[m] == ordered[i];

        let up = match parent_key(item.path()) {
            Some(key) => key,
            None => {
                assert(is_orphan(root@, given, given[m].path));
                return Err(BuildError::OrphanEntry);
            },
        };
        let parent_id = match index.get(up.as_str()) {
            Some(id) => id,
            None => {
                proof {
                    assert forall|q: int| 0 <= q < given.len() implies key_of(
                        (#[trigger] given[q]).path,
                    ) != parent_key_of(path) by {
                        if key_of(given[q].path) == parent_key_of(path) {
                            assert(given.contains(given[q]));
                            let j = choose|j: int| 0 <= j < ordered.len() && ordered[j] == given[q];
                            lemma_parent_is_one_level_up(ordered[j].path, path);
                            if j < i {
                                assert(index@.contains_key(key_of(ordered[j].path)));
                            } else if j > i {
                                assert(depth_of(sorted@[i]@.path) <= depth_of(sorted@[j]@.path));
                            }
                        }
                    }
                    assert(is_orphan(root@, given, given[m].path));
                }
                return Err(BuildError::OrphanEntry);
            },
        };
        let key = path_key(item.path());
        let ghost before = tree_nodes(tree);
        let ghost parent = *parent_id;
        proof {
            assert(index@.contains_key(up@));
            assert(!is_orphan(root@, given, path)) by {
                if up@ != key_of(root@) {
                    let j = choose|j: int| 0 <= j < i && key_of(#[trigger] ordered[j].path) == up@;
                    assert(ordered.contains(ordered[j]));
                    let q = choose|q: int| 0 <= q < given.len() && given[q] == ordered[j];
                    assert(key_of(given[q].path) == parent_key_of(path));
                }
            }
        }
        let node_id = match tree_insert(&mut tree, item, Some(parent_id)) {
            Ok(id) => id,
            Err(_) => {
                return Err(BuildError::TreeInsertion);
            },
        };
        let ghost hung = tree_nodes(tree);
        let ghost child = node_id;
        match tree_sort_children(&mut tree, parent_id) {
            Ok(()) => {},
            Err(_) => {
                return Err(BuildError::TreeInsertion);
            },
        }
        proof {
            let after = tree_nodes(tree);
            lemma_attach(before, hung, after, top, parent, child, ordered[i]);
            let grown = ids.push(child);
            assert(ordered.take(i + 1) =~= ordered.take(i).push(ordered[i]));
            assert(!ids.contains(child));
            assert forall|n: NodeId| #[trigger]
                after.contains_key(n) <==> (n == top || grown.contains(n)) by {
                if grown.contains(n) {
                    let a = choose|a: int| 0 <= a < grown.len() && grown[a] == n;
                    if a < ids.len() {
                        assert(ids.contains(n));
                    }
                }
                if before.contains_key(n) && n != top {
                    let a = choose|a: int| 0 <= a < ids.len() && ids[a] == n;
                    assert(grown[a] == n);
                }
                if n == child {
                    assert(grown[grown.len() - 1] == child);
                }
            }
            assert(!grown.contains(top)) by {
                if grown.contains(top) {
                    let a = choose|a: int| 0 <= a < grown.len() && grown[a] == top;
                    if a < ids.len() {
                        assert(ids.contains(top));
                    }
                }
            }
            assert forall|a: int| 0 <= a < grown.len() implies after[#[trigger] grown[a]].item
                == ordered.take(i + 1)[a] by {
                if a < ids.len() {
                    assert(grown[a] == ids[a]);
                    assert(ids.contains(ids[a]));
                    assert(before.contains_key(ids[a]));
                    assert(before[ids[a]].item == ordered.take(i)[a]);
                }
            }
            ids = grown;
        }
        index.insert(key, node_id);
        proof {
            let after = tree_nodes(tree);
            assert forall|k: Seq<char>| #[trigger] index@.contains_key(k) implies {
                &&& after.contains_key(index@[k])
                &&& key_of(after[index@[k]].item.path) == k
            } by {
                if k != key@ {
                    assert(before.contains_key(index@[k]));
                }
            }
            assert forall|k: Seq<char>| #[trigger]
                index@.contains_key(k) <==> (k == key_of(root@) || exists|j: int|
                    0 <= j < i + 1 && key_of(#[trigger] ordered[j].path) == k) by {
                if k == key@ {
                    assert(key_of(ordered[i].path) == k);
                }
            }
        }
    }
    proof {
        assert(ordered.take(sorted@.len() as int) =~= ordered);
        assert(!has_orphan(root@, given)) by {
            if has_orphan(root@, given) {
                let m = choose|m: int|
                    0 <= m < given.len() && is_orphan(root@, given, (#[trigger] given[m]).path);
                assert(given.contains(given[m]));
                let j = choose|j: int| 0 <= j < ordered.len() && ordered[j] == given[m];
                assert(!is_orphan(root@, given, ordered[j].path));
            }
        }
        assert(holds_items(tree_nodes(tree), top, ids, ordered));
    }
    Ok(tree)
}

/// The tree of a path that is a regular file: a single node, which holds the path.
pub fn single_file_tree(path: &str) -> (tree: Tree<Item>)
    ensures
        is_single_file(tree_nodes(tree), tree_root(tree), path@),
{
    let mut tree = tree_new();
    match tree_insert(&mut tree, Item::new(path.to_owned(), true), None) {
        Ok(_) => {
            assert(tree_nodes(tree).dom() =~= set![tree_root(tree)->0]);
            tree
        },
        Err(_) => unreached(),
    }
}

/// The tree of `path`: of a regular file when `is_file` says so, else of a directory
/// with the entries that a walk found in it. `use_git_ignore` is accepted and has no
/// effect: nothing is filtered.
pub fn create_file_tree(
    path: &str,
    is_file: bool,
    entries: Vec<Item>,
    use_git_ignore: bool,
) -> (result: Result<Tree<Item>, BuildError>)
    ensures
        is_file ==> result is Ok && is_single_file(
            tree_nodes(result->Ok_0),
            tree_root(result->Ok_0),
            path@,
        ),
        !is_file ==> (result is Err <==> has_orphan(path@, item_views(entries@))),
        !is_file && result is Err ==> result->Err_0 == BuildError::OrphanEntry,
        !is_file && result is Ok ==> is_file_tree(
            tree_nodes(result->Ok_0),
            tree_root(result->Ok_0),
            path@,
            item_views(entries@),
        ),
{
    if is_file {
        Ok(single_file_tree(path))
    } else {
        build_tree(path, entries)
    }
}

} // verus!
