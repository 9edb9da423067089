//! What can go wrong while decoding bencode or reading a value as a type.

use vstd::prelude::*;

verus! {

#[derive(Debug, Clone, Copy, PartialEq, Eq, Structural)]
pub enum Error {
    /// The bytes do not follow the bencode grammar.
    Syntax,
    /// An integer lies outside the signed 64-bit range.
    OutOfRange,
    /// Bytes are left after the outermost value.
    TrailingData,
    /// The value is of another kind than the one asked for.
    InvalidType,
    /// The value is of the right kind but does not fit the type asked for.
    InvalidValue,
    /// A record lacks a field.
    MissingField,
}

} // verus!
