//! The closed set of numeric representations a caller may choose, and the
//! element types a variable may store.
//!
//! A logical get or put is parameterized by one of these tags; the engine
//! converts between the variable's storage type and the requested
//! representation, rejecting values that do not fit (`Conversion`).
//! Values travel as `i128`, which holds every representable value of every
//! tag.

use vstd::prelude::*;

verus! {

/// One tag per supported numeric representation.
#[derive(Clone, Copy, PartialEq, Eq, Structural, Debug)]
pub enum NumericType {
    /// Signed 8-bit integers.
    I8,
    /// Unsigned 8-bit integers.
    U8,
    /// Signed 16-bit integers.
    I16,
    /// Unsigned 16-bit integers.
    U16,
    /// Signed 32-bit integers.
    I32,
    /// Unsigned 32-bit integers.
    U32,
    /// Signed 64-bit integers.
    I64,
    /// Unsigned 64-bit integers.
    U64,
}

impl NumericType {
    /// The smallest value of the representation.
    pub open spec fn min_spec(self) -> int {
        match self {
            NumericType::I8 => i8::MIN as int,
            NumericType::U8 => 0,
            NumericType::I16 => i16::MIN as int,
            NumericType::U16 => 0,
            NumericType::I32 => i32::MIN as int,
            NumericType::U32 => 0,
            NumericType::I64 => i64::MIN as int,
            NumericType::U64 => 0,
        }
    }

    /// The largest value of the representation.
    pub open spec fn max_spec(self) -> int {
        match self {
            NumericType::I8 => i8::MAX as int,
            NumericType::U8 => u8::MAX as int,
            NumericType::I16 => i16::MAX as int,
            NumericType::U16 => u16::MAX as int,
            NumericType::I32 => i32::MAX as int,
            NumericType::U32 => u32::MAX as int,
            NumericType::I64 => i64::MAX as int,
            NumericType::U64 => u64::MAX as int,
        }
    }

    /// Whether `v` is representable under this tag.
    pub open spec fn in_range(self, v: int) -> bool {
        self.min_spec() <= v <= self.max_spec()
    }

    /// Decides whether `v` is representable under this tag.
    pub fn accepts(self, v: i128) -> (r: bool)
        ensures
            r == self.in_range(v as int),
    {
        match self {
            NumericType::I8 => i8::MIN as i128 <= v && v <= i8::MAX as i128,
            NumericType::U8 => 0 <= v && v <= u8::MAX as i128,
            NumericType::I16 => i16::MIN as i128 <= v && v <= i16::MAX as i128,
            NumericType::U16 => 0 <= v && v <= u16::MAX as i128,
            NumericType::I32 => i32::MIN as i128 <= v && v <= i32::MAX as i128,
            NumericType::U32 => 0 <= v && v <= u32::MAX as i128,
            NumericType::I64 => i64::MIN as i128 <= v && v <= i64::MAX as i128,
            NumericType::U64 => 0 <= v && v <= u64::MAX as i128,
        }
    }

    /// The value the engine reserves for never-written cells of this
    /// representation when no explicit fill value has been configured.
    pub open spec fn default_fill_spec(self) -> int {
        match self {
            NumericType::I8 => -127,
            NumericType::U8 => 255,
            NumericType::I16 => -32767,
            NumericType::U16 => 65535,
            NumericType::I32 => -2147483647,
            NumericType::U32 => 4294967295,
            NumericType::I64 => -9223372036854775806,
            NumericType::U64 => 18446744073709551614,
        }
    }

    /// Returns the engine's default fill value for this representation.
    pub fn default_fill(self) -> (r: i128)
        ensures
            r as int == self.default_fill_spec(),
            self.in_range(r as int),
    {
        match self {
            NumericType::I8 => -127,
            NumericType::U8 => 255,
            NumericType::I16 => -32767,
            NumericType::U16 => 65535,
            NumericType::I32 => -2147483647,
            NumericType::U32 => 4294967295,
            NumericType::I64 => -9223372036854775806,
            NumericType::U64 => 18446744073709551614,
        }
    }
}

/// Whether a value lies within the widest range any storage type can
/// hold; every representable value of every tag satisfies it.
pub open spec fn storable(v: int) -> bool {
    i64::MIN <= v <= u64::MAX
}

/// Every value a representation accepts is storable.
pub proof fn lemma_in_range_storable(t: NumericType, v: int)
    requires
        t.in_range(v),
    ensures
        storable(v),
{
}

/// The element type a variable is created with: one of the numeric
/// representations, or whole text elements addressed one string per cell.
#[derive(Clone, Copy, PartialEq, Eq, Structural, Debug)]
pub enum VarType {
    /// Numeric cells of the tagged representation.
    Numeric(NumericType),
    /// Text cells; each logical index holds one whole string.
    Text,
}

} // verus!
