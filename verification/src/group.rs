//! Groups: the nodes of the container hierarchy.

use vstd::prelude::*;

verus! {

/// A container node.  Groups live in one arena (the file's group table) and
/// point to their parent by index, so the hierarchy is a tree rooted at
/// index zero without shared ownership.  Dimensions and variables name their
/// owning group the same way; a name lookup in a group walks parent links
/// toward the root.
#[derive(Debug)]
pub struct Group {
    /// The group's name; the root's name is empty.
    pub name: Vec<u8>,
    /// The parent group's index; `None` exactly for the root.
    pub parent: Option<usize>,
}

} // verus!
