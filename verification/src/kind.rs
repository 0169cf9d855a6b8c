//! The closed registry of NBT tag kinds and their static framing metadata.
//!
//! Each kind carries three immutable attributes: its wire identifier byte
//! (`id`, 0 through 12), the number of bytes that follow the kind/name header
//! (`len`: the scalar width for fixed kinds, the prefix width for variable
//! kinds), and whether the payload is length-prefixed (`is_prefixed`).

use vstd::prelude::*;

verus! {

/// Defines the possible data types in the NBT specification.
#[derive(Clone, Copy, Debug, Eq, Hash, PartialEq, Structural)]
pub enum TagKind {
    /// Signifies the end of a compound.  It carries no payload and no name,
    /// and is also used as the canonical element kind of an empty list.
    End,
    /// A single signed byte.
    Byte,
    /// A single signed, big-endian 16-bit integer.
    Short,
    /// A single signed, big-endian 32-bit integer.
    Int,
    /// A single signed, big-endian 64-bit integer.
    Long,
    /// A single big-endian IEEE-754 single-precision floating point number,
    /// carried by this codec as its 4-byte bit pattern.
    Float,
    /// A single big-endian IEEE-754 double-precision floating point number,
    /// carried by this codec as its 8-byte bit pattern.
    Double,
    /// A length-prefixed array of signed bytes.  The prefix is a signed
    /// 32-bit integer (thus 4 bytes).
    ByteArray,
    /// A length-prefixed modified-UTF-8 string.  The prefix is an unsigned
    /// 16-bit integer (thus 2 bytes) giving the length in bytes.
    String,
    /// A list of nameless tags, all of the same kind.  The header is the
    /// element kind byte (1 byte) plus a signed 32-bit element count
    /// (4 more bytes).  When the count is zero or negative the element kind
    /// byte may hold any value.
    List,
    /// A sequence of named tags, terminated by an `End` kind byte.
    Compound,
    /// A length-prefixed array of signed 32-bit integers.  The prefix is a
    /// signed 32-bit integer (thus 4 bytes) counting elements.
    IntArray,
    /// A length-prefixed array of signed 64-bit integers.  The prefix is a
    /// signed 32-bit integer (thus 4 bytes) counting elements.
    LongArray,
}

impl TagKind {
    /// The wire identifier of this kind, as a mathematical function.
    pub open spec fn spec_id(&self) -> u8 {
        match self {
            TagKind::End => 0,
            TagKind::Byte => 1,
            TagKind::Short => 2,
            TagKind::Int => 3,
            TagKind::Long => 4,
            TagKind::Float => 5,
            TagKind::Double => 6,
            TagKind::ByteArray => 7,
            TagKind::String => 8,
            TagKind::List => 9,
            TagKind::Compound => 10,
            TagKind::IntArray => 11,
            TagKind::LongArray => 12,
        }
    }

    /// Returns the ID of this tag kind, as defined by the NBT specification.
    #[verifier::when_used_as_spec(spec_id)]
    #[inline]
    pub fn id(&self) -> (r: u8)
        ensures
            r == self.spec_id(),
    {
        match self {
            TagKind::End => 0,
            TagKind::Byte => 1,
            TagKind::Short => 2,
            TagKind::Int => 3,
            TagKind::Long => 4,
            TagKind::Float => 5,
            TagKind::Double => 6,
            TagKind::ByteArray => 7,
            TagKind::String => 8,
            TagKind::List => 9,
            TagKind::Compound => 10,
            TagKind::IntArray => 11,
            TagKind::LongArray => 12,
        }
    }

    /// The number of bytes expected after the kind/name header, as a
    /// mathematical function.
    pub open spec fn spec_len(&self) -> usize {
        match self {
            TagKind::End => 0,
            TagKind::Byte => 1,
            TagKind::Short => 2,
            TagKind::Int => 4,
            TagKind::Long => 8,
            TagKind::Float => 4,
            TagKind::Double => 8,
            TagKind::ByteArray => 4,
            TagKind::String => 2,
            TagKind::List => 5,
            TagKind::Compound => 0,
            TagKind::IntArray => 4,
            TagKind::LongArray => 4,
        }
    }

    /// Returns the number of bytes expected after the tag's kind/name header.
    ///
    /// If this is a [prefixed kind](TagKind::is_prefixed), this is the length
    /// of the prefix (for a list, 1 element-kind byte plus a 4-byte count).
    /// Else, it is the length of the fixed payload.
    #[verifier::when_used_as_spec(spec_len)]
    #[inline]
    pub fn len(&self) -> (r: usize)
        ensures
            r == self.spec_len(),
    {
        match self {
            TagKind::End => 0,
            TagKind::Byte => 1,
            TagKind::Short => 2,
            TagKind::Int => 4,
            TagKind::Long => 8,
            TagKind::Float => 4,
            TagKind::Double => 8,
            TagKind::ByteArray => 4,
            TagKind::String => 2,
            TagKind::List => 5,
            TagKind::Compound => 0,
            TagKind::IntArray => 4,
            TagKind::LongArray => 4,
        }
    }

    /// Whether this kind's payload is length-prefixed, as a mathematical
    /// function.
    pub open spec fn spec_is_prefixed(&self) -> bool {
        match self {
            TagKind::End
            | TagKind::Byte
            | TagKind::Short
            | TagKind::Int
            | TagKind::Long
            | TagKind::Float
            | TagKind::Double => false,
            TagKind::ByteArray
            | TagKind::String
            | TagKind::List
            | TagKind::Compound
            | TagKind::IntArray
            | TagKind::LongArray => true,
        }
    }

    /// Returns whether this tag kind is prefixed.
    ///
    /// Non-prefixed kinds have a statically sized payload.  Prefixed kinds
    /// are dynamically sized but start with a fixed-size length/type header.
    #[verifier::when_used_as_spec(spec_is_prefixed)]
    #[inline]
    pub fn is_prefixed(&self) -> (r: bool)
        ensures
            r == self.spec_is_prefixed(),
    {
        match self {
            TagKind::End
            | TagKind::Byte
            | TagKind::Short
            | TagKind::Int
            | TagKind::Long
            | TagKind::Float
            | TagKind::Double => false,
            TagKind::ByteArray
            | TagKind::String
            | TagKind::List
            | TagKind::Compound
            | TagKind::IntArray
            | TagKind::LongArray => true,
        }
    }

    /// The fallible lookup from a wire identifier byte to a kind, as a
    /// mathematical function.  Bytes outside 0 through 12 map to `None`.
    pub open spec fn spec_from_id(b: u8) -> Option<TagKind> {
        if b == 0 {
            Some(TagKind::End)
        } else if b == 1 {
            Some(TagKind::Byte)
        } else if b == 2 {
            Some(TagKind::Short)
        } else if b == 3 {
            Some(TagKind::Int)
        } else if b == 4 {
            Some(TagKind::Long)
        } else if b == 5 {
            Some(TagKind::Float)
        } else if b == 6 {
            Some(TagKind::Double)
        } else if b == 7 {
            Some(TagKind::ByteArray)
        } else if b == 8 {
            Some(TagKind::String)
        } else if b == 9 {
            Some(TagKind::List)
        } else if b == 10 {
            Some(TagKind::Compound)
        } else if b == 11 {
            Some(TagKind::IntArray)
        } else if b == 12 {
            Some(TagKind::LongArray)
        } else {
            None
        }
    }

    /// Looks a kind up by its wire identifier byte; any byte outside
    /// 0 through 12 is unknown and yields `None`.
    #[verifier::when_used_as_spec(spec_from_id)]
    pub fn from_id(b: u8) -> (r: Option<TagKind>)
        ensures
            r == TagKind::spec_from_id(b),
    {
        match b {
            0 => Some(TagKind::End),
            1 => Some(TagKind::Byte),
            2 => Some(TagKind::Short),
            3 => Some(TagKind::Int),
            4 => Some(TagKind::Long),
            5 => Some(TagKind::Float),
            6 => Some(TagKind::Double),
            7 => Some(TagKind::ByteArray),
            8 => Some(TagKind::String),
            9 => Some(TagKind::List),
            10 => Some(TagKind::Compound),
            11 => Some(TagKind::IntArray),
            12 => Some(TagKind::LongArray),
            _ => None,
        }
    }
}

/// Law: the wire identifier is a bijection over the thirteen kinds; looking
/// up a kind's own identifier returns that kind.
pub proof fn lemma_from_id_of_id(k: TagKind)
    ensures
        TagKind::spec_from_id(k.spec_id()) == Some(k),
{
}

/// Law: looking up any byte either yields the unique kind carrying that
/// identifier (for bytes 0 through 12) or fails (for all larger bytes).
pub proof fn lemma_id_of_from_id(b: u8)
    ensures
        b <= 12 ==> (TagKind::spec_from_id(b) matches Some(k) && k.spec_id() == b),
        b > 12 ==> TagKind::spec_from_id(b) is None,
{
}

/// Law: the prefixed kinds are exactly the six variable-length kinds:
/// `ByteArray`, `String`, `List`, `Compound`, `IntArray` and `LongArray`.
pub proof fn lemma_is_prefixed_exact(k: TagKind)
    ensures
        k.spec_is_prefixed() <==> (k == TagKind::ByteArray || k == TagKind::String
            || k == TagKind::List || k == TagKind::Compound || k == TagKind::IntArray
            || k == TagKind::LongArray),
{
}

} // verus!
