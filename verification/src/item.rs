//! The entries that a walk discovers, and the ways a build can fail.

use vstd::prelude::*;

verus! {

/// One discovered filesystem object: its path, and whether it is a regular file.
#[derive(Debug, Clone)]
pub struct Item {
    path: String,
    is_file: bool,
}

/// What an [`Item`] holds, as plain values.
pub struct ItemView {
    pub path: Seq<char>,
    pub is_file: bool,
}

impl View for Item {
    type V = ItemView;

    closed spec fn view(&self) -> ItemView {
        ItemView { path: self.path@, is_file: self.is_file }
    }
}

impl Item {
    /// An entry for `path`; `is_file` is false for a directory.
    pub fn new(path: String, is_file: bool) -> (item: Item)
        ensures
            item@ == (ItemView { path: path@, is_file }),
    {
        Item { path, is_file }
    }

    /// The path as it was discovered.
    pub fn path(&self) -> (path: &str)
        ensures
            path@ == self@.path,
    {
        self.path.as_str()
    }

    /// Whether the entry is a regular file.
    pub fn is_file(&self) -> (is_file: bool)
        ensures
            is_file == self@.is_file,
    {
        self.is_file
    }
}

/// The views of a list of entries, in the same order.
pub open spec fn item_views(items: Seq<Item>) -> Seq<ItemView> {
    items.map_values(|item: Item| item@)
}

/// Why a tree could not be built.
#[derive(Debug, Clone, Copy, PartialEq, Eq, Structural)]
pub enum BuildError {
    /// An entry lies in no directory, or in one that is neither the root nor among
    /// the entries.
    OrphanEntry,
    /// The tree refused an insertion.
    TreeInsertion,
}

} // verus!
