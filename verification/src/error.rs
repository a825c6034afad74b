//! The error taxonomy shared by every fallible operation of the library.
//!
//! Validation failures are detected before the engine state is touched and
//! reported through one of these kinds; callers branch on the kind (for
//! example, retrying with explicit counts after `Ambiguous`).

use vstd::prelude::*;

verus! {

/// Everything that can go wrong short of a caller breaking a stated
/// precondition (those are contract violations, not error values).
#[derive(Clone, Copy, PartialEq, Eq, Structural, Debug)]
pub enum NcError {
    /// A name or handle lookup missed.
    NotFound,
    /// A duplicate name was used at creation.
    AlreadyExists,
    /// A supplied index, count or stride vector does not fit the variable's
    /// rank, or an index or count reaches outside a fixed-length axis, or a
    /// buffer's length cannot be reconciled with the requested region.
    DimensionMismatch,
    /// A write with no explicit count on a variable with several unlimited
    /// axes: the engine cannot decide which axis to grow.
    Ambiguous,
    /// A stride entry of zero, or a chunk vector whose length is not the
    /// variable's rank.
    InvalidStride,
    /// A fill value or element read against an incompatible representation.
    TypeMismatch,
    /// An opaque non-zero status from the storage engine, with its code.
    EngineError(i32),
    /// A value out of range for the requested numeric representation.
    Conversion,
}

/// Engine status code for a name longer than the engine's limit.
pub const CODE_NAME_TOO_LONG: i32 = -53;

/// Engine status code for bytes that are not a container image.
pub const CODE_NOT_CONTAINER: i32 = -51;

/// Engine status code for an invalid argument, such as a compression level
/// outside 0 to 9.
pub const CODE_INVALID_ARG: i32 = -36;


} // verus!
