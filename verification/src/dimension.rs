//! Dimensions: named axis lengths, shared by reference across variables.

use vstd::prelude::*;

verus! {

/// A dimension definition.  The handle of a dimension is its index in the
/// file's dimension table; variables refer to dimensions by handle, so a
/// dimension owned by one group can serve as an axis of variables elsewhere.
///
/// `len` is the live, file-wide length: growing an unlimited dimension
/// through any variable's write updates it here, and every shape query reads
/// it fresh.
#[derive(Debug)]
pub struct Dimension {
    /// The dimension's name, unique within its owning group.
    pub name: Vec<u8>,
    /// The group (by index in the file's group table) that defines it.
    pub owner: usize,
    /// The current length.  Immutable unless `unlimited`.
    pub len: usize,
    /// Whether the dimension may grow when a write addresses an index
    /// beyond its current length.
    pub unlimited: bool,
}

} // verus!
