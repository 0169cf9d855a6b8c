//! The error taxonomy of the codec.
//!
//! Every failure of decoding or encoding is surfaced to the caller through
//! one of these variants; none is silently recovered.  Decoding is
//! deterministic: a given malformed buffer always fails the same way.

use vstd::prelude::*;
use crate::kind::TagKind;

verus! {

/// Everything that can go wrong while decoding bytes into a tag tree or
/// encoding a tag tree back into bytes.
#[derive(Clone, Copy, Debug, Eq, PartialEq, Structural)]
pub enum NbtError {
    /// The buffer was exhausted in the middle of a field.
    UnexpectedEof,
    /// A kind byte outside 0 through 12 was read where a valid kind was
    /// required; carries the offending byte.
    UnknownTagKind(u8),
    /// A byte, int or long array announced a negative element count; carries
    /// the array kind and the offending count.
    NegativeArrayLength(TagKind, i32),
    /// A string's bytes are not well-formed modified UTF-8.
    InvalidModifiedUtf8,
    /// A string longer than 65535 bytes cannot be carried by the 16-bit
    /// length prefix.
    StringTooLong,
    /// An array or list holds more elements than the signed 32-bit count
    /// field can carry.
    LengthOverflow,
    /// The tree nests deeper than the fixed recursion limit.
    NestingTooDeep,
    /// The caller required the whole buffer to be consumed, and decoding one
    /// complete named tag left bytes over.
    TrailingBytes,
}

} // verus!
