//! A schema-flexible, columnar binary serialization engine.
use vstd::prelude::*;

pub mod boolean;
pub mod branch;
pub mod codec;
pub mod integer;
pub mod names;
pub mod packed_bool;
pub mod parse;
pub mod protocol;
pub mod tags;
pub mod varint;

verus! {

/// The two ways a decode can fail.
#[derive(PartialEq, Eq, Structural, Clone, Copy, Debug)]
pub enum ReadError {
    /// The parsed shape does not fit the requested type.
    SchemaMismatch,
    /// The bytes are truncated or hold inconsistent tags or lengths.
    InvalidFormat,
}

} // verus!
