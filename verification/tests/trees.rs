use file_tree::{build_tree, create_file_tree, single_file_tree, BuildError, Item};
use id_tree::Tree;
use std::path::Path;

fn entry(path: &str, is_file: bool) -> Item {
    Item::new(path.to_string(), is_file)
}

fn pre_order(tree: &Tree<Item>) -> Vec<String> {
    let root_id = tree.root_node_id().unwrap();
    let mut paths = Vec::new();
    for node in tree.traverse_pre_order(root_id).unwrap() {
        paths.push(node.data().path().to_string());
    }
    paths
}

fn testdata_entries() -> Vec<Item> {
    vec![
        entry("testdata/a/b/d/.gitkeep", true),
        entry("testdata/a/f", true),
        entry("testdata/a/e", false),
        entry("testdata/a/b/c/.gitkeep", true),
        entry("testdata/a", false),
        entry("testdata/a/b/d", false),
        entry("testdata/a/e/.gitkeep", true),
        entry("testdata/a/b", false),
        entry("testdata/a/b/c", false),
    ]
}

#[test]
fn tree_from_dirs() {
    let tree = create_file_tree("testdata", false, testdata_entries(), false).unwrap();
    let found = pre_order(&tree);
    let paths: Vec<&Path> = found.iter().map(|path| Path::new(path.as_str())).collect();

    assert_eq!(
        &[
            Path::new("testdata/"),
            Path::new("testdata/a"),
            Path::new("testdata/a/b"),
            Path::new("testdata/a/b/c"),
            Path::new("testdata/a/b/c/.gitkeep"),
            Path::new("testdata/a/b/d"),
            Path::new("testdata/a/b/d/.gitkeep"),
            Path::new("testdata/a/e"),
            Path::new("testdata/a/e/.gitkeep"),
            Path::new("testdata/a/f")
        ],
        paths.as_slice()
    )
}

#[test]
fn tree_from_file() {
    let tree = create_file_tree("testdata/a/f", true, Vec::new(), false).unwrap();
    let found = pre_order(&tree);
    let paths: Vec<&Path> = found.iter().map(|path| Path::new(path.as_str())).collect();

    assert_eq!(paths.len(), 1);
    assert_eq!(Path::new("testdata/a/f"), paths[0]);
}

#[test]
fn file_tree_root_is_a_file() {
    let tree = single_file_tree("testdata/a/f");
    let root_id = tree.root_node_id().unwrap();
    let root = tree.get(root_id).unwrap();
    assert!(root.data().is_file());
    assert_eq!(root.data().path(), "testdata/a/f");
    assert!(root.parent().is_none());
    assert!(root.children().is_empty());
}

#[test]
fn git_ignore_flag_changes_nothing() {
    let with = create_file_tree("testdata", false, testdata_entries(), true).unwrap();
    let without = create_file_tree("testdata", false, testdata_entries(), false).unwrap();
    assert_eq!(pre_order(&with), pre_order(&without));
    let file = create_file_tree("testdata/a/f", true, Vec::new(), true).unwrap();
    assert_eq!(pre_order(&file), vec!["testdata/a/f".to_string()]);
}

#[test]
fn empty_directory_is_a_lone_root() {
    let tree = build_tree("empty", Vec::new()).unwrap();
    let root_id = tree.root_node_id().unwrap();
    let root = tree.get(root_id).unwrap();
    assert_eq!(pre_order(&tree), vec!["empty".to_string()]);
    assert!(!root.data().is_file());
    assert!(root.children().is_empty());
    assert!(root.parent().is_none());
}

#[test]
fn discovery_order_does_not_show() {
    let mut reversed = testdata_entries();
    reversed.reverse();
    let mut rotated = testdata_entries();
    rotated.rotate_left(4);
    let first = build_tree("testdata", testdata_entries()).unwrap();
    let second = build_tree("testdata", reversed).unwrap();
    let third = build_tree("testdata", rotated).unwrap();
    assert_eq!(pre_order(&first), pre_order(&second));
    assert_eq!(pre_order(&first), pre_order(&third));
}

#[test]
fn missing_ancestor_is_an_orphan() {
    let entries = vec![entry("root/a", false), entry("root/a/b/c", true)];
    assert_eq!(build_tree("root", entries).err(), Some(BuildError::OrphanEntry));
}

#[test]
fn entry_outside_the_root_is_an_orphan() {
    let entries = vec![entry("root/a", false), entry("elsewhere/b", true)];
    assert_eq!(build_tree("root", entries).err(), Some(BuildError::OrphanEntry));
}

#[test]
fn entry_without_parent_is_an_orphan() {
    assert_eq!(build_tree("root", vec![entry("", false)]).err(), Some(BuildError::OrphanEntry));
    assert_eq!(build_tree("root", vec![entry("/", false)]).err(), Some(BuildError::OrphanEntry));
    assert_eq!(build_tree("root", vec![entry("//", false)]).err(), Some(BuildError::OrphanEntry));
}

#[test]
fn rooted_entry_under_a_relative_root_is_an_orphan() {
    let entries = vec![entry("/r/c", true)];
    assert_eq!(build_tree("r", entries).err(), Some(BuildError::OrphanEntry));
    let entries = vec![entry("r/c", true)];
    assert_eq!(build_tree("/r", entries).err(), Some(BuildError::OrphanEntry));
}

#[test]
fn dot_behind_the_front_is_skipped() {
    let tree = build_tree("r", vec![entry("r/./a", true)]).unwrap();
    assert_eq!(pre_order(&tree), vec!["r", "r/./a"]);
    let root_id = tree.root_node_id().unwrap();
    assert_eq!(tree.get(root_id).unwrap().children().len(), 1);
}

#[test]
fn dot_in_front_stays() {
    let entries = vec![entry("./a/b", true), entry("./a", false)];
    let tree = build_tree(".", entries).unwrap();
    assert_eq!(pre_order(&tree), vec![".", "./a", "./a/b"]);
    let entries = vec![entry("a", false)];
    assert_eq!(build_tree(".", entries).err(), Some(BuildError::OrphanEntry));
}

#[test]
fn rooted_directory() {
    let entries = vec![
        entry("/tmp/x/b", true),
        entry("/tmp/x/a/c", true),
        entry("/tmp/x/a", false),
    ];
    let tree = build_tree("/tmp/x", entries).unwrap();
    assert_eq!(pre_order(&tree), vec!["/tmp/x", "/tmp/x/a", "/tmp/x/a/c", "/tmp/x/b"]);
    let tree = build_tree("/", vec![entry("/bin", false)]).unwrap();
    assert_eq!(pre_order(&tree), vec!["/", "/bin"]);
}

#[test]
fn children_know_their_parent() {
    let tree = build_tree("testdata", testdata_entries()).unwrap();
    let root_id = tree.root_node_id().unwrap();
    for id in tree.traverse_pre_order_ids(root_id).unwrap() {
        let node = tree.get(&id).unwrap();
        for child_id in node.children() {
            let child = tree.get(child_id).unwrap();
            assert_eq!(child.parent(), Some(&id));
            let above = Path::new(child.data().path()).parent().unwrap();
            assert_eq!(above, Path::new(node.data().path()));
        }
    }
}

#[test]
fn siblings_ascend_by_key() {
    let entries = vec![
        entry("r/b", true),
        entry("r/a-b", true),
        entry("r/a", false),
        entry("r/B", true),
        entry("r/a/z", true),
        entry("r/a0", true),
    ];
    let tree = build_tree("r", entries).unwrap();
    assert_eq!(
        pre_order(&tree),
        vec!["r", "r/B", "r/a", "r/a/z", "r/a-b", "r/a0", "r/b"]
    );
}

#[test]
fn separators_do_not_change_the_place() {
    let entries = vec![entry("r//a/", false), entry("r/a//b", true), entry("r/./c", true)];
    let tree = build_tree("r/", entries).unwrap();
    assert_eq!(pre_order(&tree), vec!["r/", "r//a/", "r/a//b", "r/./c"]);
}

#[test]
fn ancestors_come_first_in_pre_order() {
    let tree = build_tree("testdata", testdata_entries()).unwrap();
    let root_id = tree.root_node_id().unwrap();
    let order: Vec<_> = tree.traverse_pre_order_ids(root_id).unwrap().collect();
    assert_eq!(order.len(), 10);
    assert_eq!(&order[0], root_id);
    for (at, id) in order.iter().enumerate() {
        for above in tree.ancestor_ids(id).unwrap() {
            let seen = order.iter().position(|other| other == above).unwrap();
            assert!(seen < at);
        }
    }
}

#[test]
fn every_entry_has_one_node() {
    let tree = build_tree("testdata", testdata_entries()).unwrap();
    let mut found = pre_order(&tree);
    found.sort();
    let mut expected: Vec<String> =
        testdata_entries().iter().map(|item| item.path().to_string()).collect();
    expected.push("testdata".to_string());
    expected.sort();
    assert_eq!(found, expected);
}

#[test]
fn files_and_directories_keep_their_kind() {
    let tree = build_tree("testdata", testdata_entries()).unwrap();
    let root_id = tree.root_node_id().unwrap();
    for node in tree.traverse_pre_order(root_id).unwrap() {
        let path = node.data().path();
        let expected = path.ends_with(".gitkeep") || path.ends_with("/f");
        assert_eq!(node.data().is_file(), expected);
    }
}
