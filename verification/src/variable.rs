//! Variables: typed multi-dimensional arrays over referenced dimensions.

use vstd::prelude::*;
use crate::cells::{CellStore, TextStore};
use crate::types::{NumericType, VarType};

verus! {

/// A variable definition together with its cell storage.
///
/// The element type and the axis list are fixed at creation; the shape is
/// never stored, it is recomputed from the referenced dimensions on every
/// query, because any write anywhere may have grown a shared unlimited
/// dimension.
#[derive(Debug)]
pub struct Variable {
    /// The variable's name, unique within its owning group.
    pub name: Vec<u8>,
    /// The group (by index in the file's group table) that defines it.
    pub owner: usize,
    /// The element type, fixed at creation.
    pub vartype: VarType,
    /// The axes: dimension handles in declaration order; the last axis
    /// varies fastest (row-major order).
    pub dims: Vec<usize>,
    /// Whether fill mode is on (the default).  In fill mode never-written
    /// cells read back as the fill value.
    pub fill_enabled: bool,
    /// The configured fill value, if one was ever set.  Kept across a
    /// switch to no-fill mode: the engine retains the stale value, and this
    /// model preserves that quirk, so never-written cells in no-fill mode
    /// read back as the retained value rather than as arbitrary storage.
    pub fill: Option<i128>,
    /// Per-axis chunk sizes, once configured.
    pub chunking: Option<Vec<usize>>,
    /// Compression level 0 to 9, once configured.
    pub compression: Option<u32>,
    /// Written numeric cells (used when `vartype` is numeric).
    pub cells: CellStore,
    /// Written text cells (used when `vartype` is `Text`).
    pub text: TextStore,
}

impl Variable {
    /// The fill value that answers reads of never-written numeric cells:
    /// the configured value if one was ever set, else the type default.
    pub open spec fn effective_fill(self) -> int {
        match self.vartype {
            VarType::Numeric(t) => match self.fill {
                Some(v) => v as int,
                None => t.default_fill_spec(),
            },
            VarType::Text => 0,
        }
    }

    /// Internal consistency of a variable.
    pub open spec fn wf(self) -> bool {
        &&& self.cells.wf()
        &&& (forall|i: int|
            0 <= i < self.cells.vals_spec().len() ==> crate::types::storable(
                #[trigger] self.cells.vals_spec()[i] as int,
            ))
        &&& self.text.wf()
        &&& (match (self.fill, self.vartype) {
            (Some(v), VarType::Numeric(t)) => t.in_range(v as int),
            (Some(_), VarType::Text) => false,
            (None, _) => true,
        })
    }

    /// What a read of the numeric cell at `key` observes: the written value
    /// if the cell was ever written, else the effective fill value.
    pub open spec fn cell_value(self, key: Seq<usize>) -> int {
        match self.cells.lookup(key) {
            Some(v) => v as int,
            None => self.effective_fill(),
        }
    }

    /// What a read of the text cell at `key` observes: the written string
    /// if the cell was ever written, else the empty string.
    pub open spec fn text_value(self, key: Seq<usize>) -> Seq<u8> {
        match self.text.lookup(key) {
            Some(v) => v,
            None => Seq::empty(),
        }
    }

    /// The numeric element type of a numeric variable.
    pub open spec fn numeric_type(self) -> NumericType
        recommends
            self.vartype is Numeric,
    {
        match self.vartype {
            VarType::Numeric(t) => t,
            VarType::Text => NumericType::I8,
        }
    }
}

} // verus!
