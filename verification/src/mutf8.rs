//! Modified UTF-8, the string byte encoding of the wire format.
//!
//! Modified UTF-8 is the superset of UTF-8 used by the format: code points
//! are stored in one-, two- or three-byte groups (the NUL code point may use
//! the two-byte group `C0 80`, and supplementary-plane code points are stored
//! as surrogate pairs of three-byte groups), and there is no four-byte group.
//! A byte sequence is well formed when it parses into such groups: a leading
//! byte `0x00..=0x7F` alone, `0xC0..=0xDF` followed by one continuation byte,
//! or `0xE0..=0xEF` followed by two continuation bytes, where a continuation
//! byte is `0x80..=0xBF`.
//!
//! [`NbtString`] holds the validated bytes of one string or name; its
//! invariant is well-formedness plus the 16-bit bound that the length prefix
//! of the wire format imposes.

use vstd::prelude::*;
use crate::error::NbtError;

verus! {

/// Whether `b` is a modified-UTF-8 continuation byte.
pub open spec fn is_mutf8_cont(b: u8) -> bool {
    0x80 <= b <= 0xBF
}

/// Whether `s` parses into well-formed modified-UTF-8 groups.
pub open spec fn valid_mutf8(s: Seq<u8>) -> bool
    decreases s.len(),
{
    if s.len() == 0 {
        true
    } else if s[0] <= 0x7F {
        valid_mutf8(s.skip(1))
    } else if 0xC0 <= s[0] <= 0xDF {
        s.len() >= 2 && is_mutf8_cont(s[1]) && valid_mutf8(s.skip(2))
    } else if 0xE0 <= s[0] <= 0xEF {
        s.len() >= 3 && is_mutf8_cont(s[1]) && is_mutf8_cont(s[2]) && valid_mutf8(s.skip(3))
    } else {
        false
    }
}

/// Whether `s` can be carried by the wire format: well-formed modified UTF-8
/// that fits the unsigned 16-bit length prefix.
pub open spec fn wf_str(s: Seq<u8>) -> bool {
    valid_mutf8(s) && s.len() <= 0xFFFF
}

/// Checks a whole buffer for modified-UTF-8 well-formedness.
pub fn is_valid_mutf8(bytes: &[u8]) -> (r: bool)
    ensures
        r == valid_mutf8(bytes@),
{
    let len: usize = bytes.len();
    let mut i: usize = 0;
    proof {
        assert(bytes@.skip(0) =~= bytes@);
    }
    loop
        invariant
            i <= len,
            len == bytes@.len(),
            valid_mutf8(bytes@) == valid_mutf8(bytes@.skip(i as int)),
        decreases len - i,
    {
        if i == len {
            proof {
                assert(bytes@.skip(i as int).len() == 0);
            }
            return true;
        }
        let b0: u8 = bytes[i];
        proof {
            assert(bytes@.skip(i as int)[0] == bytes@[i as int]);
        }
        if b0 <= 0x7F {
            proof {
                assert(bytes@.skip(i as int).skip(1) =~= bytes@.skip(i as int + 1));
            }
            i = i + 1;
        } else if 0xC0 <= b0 && b0 <= 0xDF {
            if len - i < 2 {
                return false;
            }
            let b1: u8 = bytes[i + 1];
            proof {
                assert(bytes@.skip(i as int)[1] == bytes@[i as int + 1]);
            }
            if !(0x80 <= b1 && b1 <= 0xBF) {
                return false;
            }
            proof {
                assert(bytes@.skip(i as int).skip(2) =~= bytes@.skip(i as int + 2));
            }
            i = i + 2;
        } else if 0xE0 <= b0 && b0 <= 0xEF {
            if len - i < 3 {
                return false;
            }
            let b1: u8 = bytes[i + 1];
            let b2: u8 = bytes[i + 2];
            proof {
                assert(bytes@.skip(i as int)[1] == bytes@[i as int + 1]);
                assert(bytes@.skip(i as int)[2] == bytes@[i as int + 2]);
            }
            if !(0x80 <= b1 && b1 <= 0xBF) {
                return false;
            }
            if !(0x80 <= b2 && b2 <= 0xBF) {
                return false;
            }
            proof {
                assert(bytes@.skip(i as int).skip(3) =~= bytes@.skip(i as int + 3));
            }
            i = i + 3;
        } else {
            return false;
        }
    }
}

/// One string or name of the tree: validated modified-UTF-8 bytes, at most
/// 65535 of them, exactly as they stand on the wire.
#[derive(Debug, Eq, PartialEq)]
pub struct NbtString {
    bytes: Vec<u8>,
}

impl View for NbtString {
    type V = Seq<u8>;

    closed spec fn view(&self) -> Seq<u8> {
        self.bytes@
    }
}

/// The invariant of every [`NbtString`] value: its bytes are well-formed
/// modified UTF-8 and fit the 16-bit length prefix.
#[verifier::type_invariant]
pub open spec fn nbt_string_inv(s: NbtString) -> bool {
    wf_str(s@)
}

impl NbtString {
    /// Validates `bytes` and takes them as a string.  Fails with
    /// `InvalidModifiedUtf8` on malformed bytes, and with `StringTooLong` on
    /// well-formed bytes that outgrow the 16-bit length prefix.
    pub fn from_bytes(bytes: Vec<u8>) -> (r: Result<NbtString, NbtError>)
        ensures
            wf_str(bytes@) ==> (r matches Ok(s) && s@ == bytes@),
            !valid_mutf8(bytes@) ==> r == Err::<NbtString, NbtError>(
                NbtError::InvalidModifiedUtf8,
            ),
            valid_mutf8(bytes@) && bytes@.len() > 0xFFFF ==> r == Err::<NbtString, NbtError>(
                NbtError::StringTooLong,
            ),
    {
        if !is_valid_mutf8(bytes.as_slice()) {
            Err(NbtError::InvalidModifiedUtf8)
        } else if bytes.len() > 0xFFFF {
            Err(NbtError::StringTooLong)
        } else {
            Ok(NbtString { bytes })
        }
    }

    /// Takes bytes already known to be well formed.
    pub(crate) fn from_valid(bytes: Vec<u8>) -> (r: NbtString)
        requires
            wf_str(bytes@),
        ensures
            r@ == bytes@,
    {
        NbtString { bytes }
    }

    /// The empty string.
    pub fn empty() -> (r: NbtString)
        ensures
            r@ == Seq::<u8>::empty(),
    {
        proof {
            assert(valid_mutf8(Seq::<u8>::empty()));
        }
        NbtString { bytes: Vec::new() }
    }

    /// The raw modified-UTF-8 bytes of the string.
    pub fn as_bytes(&self) -> (r: &Vec<u8>)
        ensures
            r@ == self@,
    {
        &self.bytes
    }

    /// The length of the string in bytes.
    pub fn len(&self) -> (r: usize)
        ensures
            r == self@.len(),
    {
        self.bytes.len()
    }
}

} // verus!
