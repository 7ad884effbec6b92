use file_tree::path::{parent_key, path_depth, path_key};

#[test]
fn key_joins_segments() {
    assert_eq!(path_key("testdata/a/b"), "testdata/a/b");
    assert_eq!(path_key("testdata/"), "testdata");
    assert_eq!(path_key("usr//lib/"), "usr/lib");
    assert_eq!(path_key("a"), "a");
    assert_eq!(path_key(""), "");
}

#[test]
fn key_keeps_the_root_as_a_segment() {
    assert_eq!(path_key("/"), "/");
    assert_eq!(path_key("///"), "/");
    assert_eq!(path_key("/r"), "//r");
    assert_eq!(path_key("/usr//lib/"), "//usr/lib");
    assert_ne!(path_key("/r"), path_key("r"));
}

#[test]
fn key_skips_dots_behind_the_front() {
    assert_eq!(path_key("r/./a"), "r/a");
    assert_eq!(path_key("a/b/."), "a/b");
    assert_eq!(path_key("/./a"), "//a");
    assert_eq!(path_key("/."), "/");
    assert_eq!(path_key("./a"), "./a");
    assert_eq!(path_key("././a"), "./a");
    assert_eq!(path_key("."), ".");
    assert_eq!(path_key("a/../b"), "a/../b");
    assert_eq!(path_key("a/.b/c."), "a/.b/c.");
}

#[test]
fn key_keeps_other_characters() {
    assert_eq!(path_key("d\u{e9}j\u{e0}/vu"), "d\u{e9}j\u{e0}/vu");
    assert_eq!(path_key("./a b/.gitkeep"), "./a b/.gitkeep");
}

#[test]
fn depth_counts_segments() {
    assert_eq!(path_depth(""), 0);
    assert_eq!(path_depth("/"), 1);
    assert_eq!(path_depth("a"), 1);
    assert_eq!(path_depth("/a"), 2);
    assert_eq!(path_depth("testdata/a/b/c/.gitkeep"), 5);
    assert_eq!(path_depth("//a//b//"), 3);
    assert_eq!(path_depth("r/./a"), 2);
    assert_eq!(path_depth("./a"), 2);
}

#[test]
fn parent_key_drops_the_last_segment() {
    assert_eq!(parent_key("testdata/a/b"), Some("testdata/a".to_string()));
    assert_eq!(parent_key("testdata/a/b/"), Some("testdata/a".to_string()));
    assert_eq!(parent_key("a"), Some(String::new()));
    assert_eq!(parent_key("."), Some(String::new()));
    assert_eq!(parent_key("/a"), Some("/".to_string()));
    assert_eq!(parent_key("/r/c"), Some("//r".to_string()));
    assert_eq!(parent_key("r/./a"), Some("r".to_string()));
}

#[test]
fn empty_path_and_root_have_no_parent() {
    assert_eq!(parent_key(""), None);
    assert_eq!(parent_key("/"), None);
    assert_eq!(parent_key("//"), None);
    assert_eq!(parent_key("/."), None);
}

#[test]
fn segments_are_those_of_std() {
    let paths = [
        "", "/", "//", "a", "/a", "a/", "a//b", "./a", "a/./b", "a/.", "/.", "/./a", "././a",
        ".", "..", "a/../b", "/../a", ".a/b.", "testdata/a/b/c/.gitkeep",
    ];
    for path in paths {
        let parts: Vec<&str> =
            std::path::Path::new(path).iter().map(|part| part.to_str().unwrap()).collect();
        assert_eq!(path_key(path), parts.join("/"), "key of {:?}", path);
        assert_eq!(path_depth(path), parts.len(), "depth of {:?}", path);
        let above = std::path::Path::new(path).parent().map(|up| {
            let parts: Vec<&str> = up.iter().map(|part| part.to_str().unwrap()).collect();
            parts.join("/")
        });
        assert_eq!(parent_key(path), above, "parent key of {:?}", path);
    }
}
