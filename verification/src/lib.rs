//! Typed, shape-aware access to multi-dimensional arrays held in a
//! hierarchical container: nested groups holding named dimensions and typed
//! variables, each variable with its own fill policy.
//!
//! Clients read and write rectangular sub-regions ("hyperslabs") of a
//! variable's array by logical index; axes flagged unlimited grow on write.
//! The storage engine is an in-memory model owned by the file value, so every
//! operation is a plain function of the file's state and is verified as such.
//! Reading a file from disk and writing one back are byte-level operations on
//! the image produced by [`codec`]; performing the actual disk I/O is left to
//! the embedding program.

#![verifier::loop_isolation(false)]

use vstd::prelude::*;
use vstd::string::StringSliceAdditionalSpecFns;

pub mod cells;
pub mod codec;
pub mod dimension;
pub mod error;
pub mod file;
pub mod group;
pub mod hyperslab;
pub mod laws;
pub mod types;
pub mod variable;

pub use error::NcError;
pub use file::{File, MutableFile, RawFile};
pub use types::{NumericType, VarType};

verus! {

/// Flags chosen when a file is created or opened.
///
/// The model keeps the flags but gives them no further meaning: the in-memory
/// engine serves every format the same way.
#[derive(Clone, Copy, PartialEq, Eq, Structural, Debug)]
pub struct Options {
    /// Raw flag bits, as handed to the engine.
    pub bits: u32,
}

/// Flag requesting the hierarchical (group-capable) format.
pub const FORMAT_HIERARCHICAL: u32 = 0x1000;

impl Options {
    /// Options selecting the hierarchical format.
    pub fn hierarchical() -> (r: Options)
        ensures
            r.bits == FORMAT_HIERARCHICAL,
    {
        Options { bits: FORMAT_HIERARCHICAL }
    }
}

impl Default for Options {
    /// The default options: no flag set.
    fn default() -> (r: Options)
        ensures
            r.bits == 0,
    {
        Options { bits: 0 }
    }
}


/// Creates a new container in the hierarchical format, with nothing in it
/// but the root group.  The embedding program persists it by writing
/// [`MutableFile::to_bytes`] wherever `name` should live.
pub fn create(name: &str) -> (r: Result<MutableFile, NcError>)
    ensures
        match r {
            Ok(f) => f.wf() && f.state().fresh_spec(name.spec_bytes(), FORMAT_HIERARCHICAL),
            Err(_) => false,
        },
{
    create_with(name, Options::hierarchical())
}

/// Creates a new, empty container with the given options.
pub fn create_with(name: &str, options: Options) -> (r: Result<MutableFile, NcError>)
    ensures
        match r {
            Ok(f) => f.wf() && f.state().fresh_spec(name.spec_bytes(), options.bits),
            Err(_) => false,
        },
{
    Ok(MutableFile::from_raw(crate::file::RawFile::fresh(name, options.bits)))
}

/// Opens a container image for reading.  A success returns a well-formed
/// file whose own image is exactly the bytes given, and success is owed
/// whenever the bytes are the image of some well-formed file; bytes that
/// are not an intact image are refused with the engine's not-a-container
/// code.
pub fn open(data: &Vec<u8>) -> (r: Result<File, NcError>)
    ensures
        match r {
            Ok(f) => f.wf() && crate::codec::image_spec(f.state()) == data@,
            Err(e) => e == NcError::EngineError(crate::error::CODE_NOT_CONTAINER),
        },
        (exists|g: crate::file::RawFile| g.wf() && crate::codec::image_spec(g) == data@) ==> r
            is Ok,
{
    open_with(data, Options::default())
}

/// Opens a container image for reading with the given options.  The image
/// carries its own format flags; the options are accepted for symmetry and
/// have no further effect on the in-memory engine.
pub fn open_with(data: &Vec<u8>, options: Options) -> (r: Result<File, NcError>)
    ensures
        match r {
            Ok(f) => f.wf() && crate::codec::image_spec(f.state()) == data@,
            Err(e) => e == NcError::EngineError(crate::error::CODE_NOT_CONTAINER),
        },
        (exists|g: crate::file::RawFile| g.wf() && crate::codec::image_spec(g) == data@) ==> r
            is Ok,
{
    let _ = options;
    match crate::codec::from_image(data) {
        Ok(raw) => Ok(File::from_raw(raw)),
        Err(e) => Err(e),
    }
}

/// Opens a container image for writing: everything it holds stays, and new
/// dimensions, variables and data may be added.  A success returns a
/// well-formed file whose own image is exactly the bytes given, and
/// success is owed whenever the bytes are the image of some well-formed
/// file.
pub fn append(data: &Vec<u8>) -> (r: Result<MutableFile, NcError>)
    ensures
        match r {
            Ok(f) => f.wf() && crate::codec::image_spec(f.state()) == data@,
            Err(e) => e == NcError::EngineError(crate::error::CODE_NOT_CONTAINER),
        },
        (exists|g: crate::file::RawFile| g.wf() && crate::codec::image_spec(g) == data@) ==> r
            is Ok,
{
    append_with(data, Options::default())
}

/// Opens a container image for writing with the given options.
pub fn append_with(data: &Vec<u8>, options: Options) -> (r: Result<MutableFile, NcError>)
    ensures
        match r {
            Ok(f) => f.wf() && crate::codec::image_spec(f.state()) == data@,
            Err(e) => e == NcError::EngineError(crate::error::CODE_NOT_CONTAINER),
        },
        (exists|g: crate::file::RawFile| g.wf() && crate::codec::image_spec(g) == data@) ==> r
            is Ok,
{
    let _ = options;
    match crate::codec::from_image(data) {
        Ok(raw) => Ok(MutableFile::from_raw(raw)),
        Err(e) => Err(e),
    }
}

/// Opens a container image held in memory for reading.  The optional name
/// is a caller-side label; the image carries its own.
pub fn open_mem(name: Option<&str>, mem: &[u8]) -> (r: Result<File, NcError>)
    ensures
        match r {
            Ok(f) => f.wf() && crate::codec::image_spec(f.state()) == mem@,
            Err(e) => e == NcError::EngineError(crate::error::CODE_NOT_CONTAINER),
        },
        (exists|g: crate::file::RawFile| g.wf() && crate::codec::image_spec(g) == mem@) ==> r
            is Ok,
{
    let _ = name;
    let data = vstd::slice::slice_to_vec(mem);
    match crate::codec::from_image(&data) {
        Ok(raw) => Ok(File::from_raw(raw)),
        Err(e) => Err(e),
    }
}

} // verus!
