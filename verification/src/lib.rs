//! A verified codec for the Named Binary Tag (NBT) binary tree format.
//!
//! NBT encodes arbitrarily nested, named, typed data trees in a compact
//! big-endian binary form.  The crate offers the closed [`TagKind`] registry
//! with its framing metadata, the [`Tag`] value model, and the two entry
//! points [`decode`] and [`encode`], together with machine-checked proofs
//! that decoding inverts encoding on every well-formed tree.

pub mod bytes;
pub mod decode;
pub mod encode;
pub mod error;
pub mod kind;
pub mod laws;
pub mod mutf8;
pub mod tag;

pub use decode::decode;
pub use decode::decode_prefix;
pub use encode::encode;
pub use error::NbtError;
pub use kind::TagKind;
pub use mutf8::NbtString;
pub use tag::NamedTag;
pub use tag::Tag;
