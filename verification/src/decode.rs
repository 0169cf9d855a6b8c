//! The tree decoder: recursive descent over a byte buffer, driven by the
//! framing metadata of the kind registry.
//!
//! [`dec_payload`] and its companions define decoding as total mathematical
//! functions from the buffer and a position to the decoded value and the
//! position after it, or to the exact error.  The executable functions are
//! proved to return precisely what those functions say, so every behaviour
//! on malformed input (truncation, negative counts, unknown kind bytes,
//! over-deep nesting) is pinned down by the contracts.

use vstd::prelude::*;
use crate::bytes::read_u16_be;
use crate::bytes::read_u32_be;
use crate::bytes::read_u64_be;
use crate::bytes::u16_of_be;
use crate::bytes::u32_of_be;
use crate::bytes::u64_of_be;
use crate::error::NbtError;
use crate::kind::TagKind;
use crate::mutf8::NbtString;
use crate::mutf8::is_valid_mutf8;
use crate::mutf8::valid_mutf8;
use crate::tag::DEPTH_LIMIT;
use crate::tag::NamedTag;
use crate::tag::NamedTagV;
use crate::tag::Tag;
use crate::tag::TagV;
use crate::tag::entries_view;
use crate::tag::lemma_entries_view_push;
use crate::tag::lemma_tags_view_push;
use crate::tag::tags_view;

verus! {

/// The signed bytes of an unsigned byte array slice, one for one.
pub open spec fn i8s_of_bytes(s: Seq<u8>) -> Seq<i8> {
    s.map_values(|b: u8| b as i8)
}

/// Decodes a string where `pos` stands on its 16-bit length prefix.
pub open spec fn dec_str(bytes: Seq<u8>, pos: int) -> Result<(Seq<u8>, int), NbtError> {
    if 0 <= pos && pos + 2 <= bytes.len() {
        let l = u16_of_be(bytes[pos], bytes[pos + 1]) as int;
        if pos + 2 + l <= bytes.len() {
            let s = bytes.subrange(pos + 2, pos + 2 + l);
            if valid_mutf8(s) {
                Ok((s, pos + 2 + l))
            } else {
                Err(NbtError::InvalidModifiedUtf8)
            }
        } else {
            Err(NbtError::UnexpectedEof)
        }
    } else {
        Err(NbtError::UnexpectedEof)
    }
}

/// Decodes `n` consecutive big-endian 32-bit integers starting at `pos`.
pub open spec fn dec_i32s(bytes: Seq<u8>, pos: int, n: nat) -> Result<(Seq<i32>, int), NbtError>
    decreases n,
{
    if n == 0 {
        Ok((Seq::empty(), pos))
    } else if 0 <= pos && pos + 4 <= bytes.len() {
        let v = u32_of_be(bytes[pos], bytes[pos + 1], bytes[pos + 2], bytes[pos + 3]) as i32;
        match dec_i32s(bytes, pos + 4, (n - 1) as nat) {
            Ok((rest, p)) => Ok((seq![v] + rest, p)),
            Err(e) => Err(e),
        }
    } else {
        Err(NbtError::UnexpectedEof)
    }
}

/// Decodes `n` consecutive big-endian 64-bit integers starting at `pos`.
pub open spec fn dec_i64s(bytes: Seq<u8>, pos: int, n: nat) -> Result<(Seq<i64>, int), NbtError>
    decreases n,
{
    if n == 0 {
        Ok((Seq::empty(), pos))
    } else if 0 <= pos && pos + 8 <= bytes.len() {
        let v = u64_of_be(
            bytes[pos],
            bytes[pos + 1],
            bytes[pos + 2],
            bytes[pos + 3],
            bytes[pos + 4],
            bytes[pos + 5],
            bytes[pos + 6],
            bytes[pos + 7],
        ) as i64;
        match dec_i64s(bytes, pos + 8, (n - 1) as nat) {
            Ok((rest, p)) => Ok((seq![v] + rest, p)),
            Err(e) => Err(e),
        }
    } else {
        Err(NbtError::UnexpectedEof)
    }
}

/// Decodes the payload of a tag of kind `k` starting at `pos`, with `d`
/// depth units left to spend on entering lists and compounds.
pub open spec fn dec_payload(bytes: Seq<u8>, pos: int, k: TagKind, d: nat) -> Result<
    (TagV, int),
    NbtError,
>
    decreases d, 0nat, 0nat,
{
    match k {
        TagKind::End => Err(NbtError::UnknownTagKind(0)),
        TagKind::Byte => if 0 <= pos && pos + 1 <= bytes.len() {
            Ok((TagV::Byte(bytes[pos] as i8), pos + 1))
        } else {
            Err(NbtError::UnexpectedEof)
        },
        TagKind::Short => if 0 <= pos && pos + 2 <= bytes.len() {
            Ok((TagV::Short(u16_of_be(bytes[pos], bytes[pos + 1]) as i16), pos + 2))
        } else {
            Err(NbtError::UnexpectedEof)
        },
        TagKind::Int => if 0 <= pos && pos + 4 <= bytes.len() {
            Ok(
                (
                    TagV::Int(
                        u32_of_be(bytes[pos], bytes[pos + 1], bytes[pos + 2], bytes[pos + 3])
                            as i32,
                    ),
                    pos + 4,
                ),
            )
        } else {
            Err(NbtError::UnexpectedEof)
        },
        TagKind::Long => if 0 <= pos && pos + 8 <= bytes.len() {
            Ok(
                (
                    TagV::Long(
                        u64_of_be(
                            bytes[pos],
                            bytes[pos + 1],
                            bytes[pos + 2],
                            bytes[pos + 3],
                            bytes[pos + 4],
                            bytes[pos + 5],
                            bytes[pos + 6],
                            bytes[pos + 7],
                        ) as i64,
                    ),
                    pos + 8,
                ),
            )
        } else {
            Err(NbtError::UnexpectedEof)
        },
        TagKind::Float => if 0 <= pos && pos + 4 <= bytes.len() {
            Ok(
                (
                    TagV::Float(
                        u32_of_be(bytes[pos], bytes[pos + 1], bytes[pos + 2], bytes[pos + 3]),
                    ),
                    pos + 4,
                ),
            )
        } else {
            Err(NbtError::UnexpectedEof)
        },
        TagKind::Double => if 0 <= pos && pos + 8 <= bytes.len() {
            Ok(
                (
                    TagV::Double(
                        u64_of_be(
                            bytes[pos],
                            bytes[pos + 1],
                            bytes[pos + 2],
                            bytes[pos + 3],
                            bytes[pos + 4],
                            bytes[pos + 5],
                            bytes[pos + 6],
                            bytes[pos + 7],
                        ),
                    ),
                    pos + 8,
                ),
            )
        } else {
            Err(NbtError::UnexpectedEof)
        },
        TagKind::ByteArray => if 0 <= pos && pos + 4 <= bytes.len() {
            let n = u32_of_be(bytes[pos], bytes[pos + 1], bytes[pos + 2], bytes[pos + 3]) as i32;
            if n < 0 {
                Err(NbtError::NegativeArrayLength(TagKind::ByteArray, n))
            } else if pos + 4 + n <= bytes.len() {
                Ok(
                    (
                        TagV::ByteArray(i8s_of_bytes(bytes.subrange(pos + 4, pos + 4 + n))),
                        pos + 4 + n,
                    ),
                )
            } else {
                Err(NbtError::UnexpectedEof)
            }
        } else {
            Err(NbtError::UnexpectedEof)
        },
        TagKind::String => match dec_str(bytes, pos) {
            Ok((s, p)) => Ok((TagV::String(s), p)),
            Err(e) => Err(e),
        },
        TagKind::List => if 0 <= pos && pos + 5 <= bytes.len() {
            let eb = bytes[pos];
            let n = u32_of_be(bytes[pos + 1], bytes[pos + 2], bytes[pos + 3], bytes[pos + 4])
                as i32;
            if n <= 0 {
                Ok((TagV::List(TagKind::End, Seq::empty()), pos + 5))
            } else {
                match TagKind::spec_from_id(eb) {
                    None => Err(NbtError::UnknownTagKind(eb)),
                    Some(ek) => if ek == TagKind::End {
                        Err(NbtError::UnknownTagKind(eb))
                    } else if d == 0 {
                        Err(NbtError::NestingTooDeep)
                    } else {
                        match dec_elems(bytes, pos + 5, ek, n as nat, (d - 1) as nat) {
                            Ok((es, p)) => Ok((TagV::List(ek, es), p)),
                            Err(e) => Err(e),
                        }
                    },
                }
            }
        } else {
            Err(NbtError::UnexpectedEof)
        },
        TagKind::Compound => if d == 0 {
            Err(NbtError::NestingTooDeep)
        } else {
            match dec_entries(bytes, pos, (d - 1) as nat) {
                Ok((es, p)) => Ok((TagV::Compound(es), p)),
                Err(e) => Err(e),
            }
        },
        TagKind::IntArray => if 0 <= pos && pos + 4 <= bytes.len() {
            let n = u32_of_be(bytes[pos], bytes[pos + 1], bytes[pos + 2], bytes[pos + 3]) as i32;
            if n < 0 {
                Err(NbtError::NegativeArrayLength(TagKind::IntArray, n))
            } else {
                match dec_i32s(bytes, pos + 4, n as nat) {
                    Ok((s, p)) => Ok((TagV::IntArray(s), p)),
                    Err(e) => Err(e),
                }
            }
        } else {
            Err(NbtError::UnexpectedEof)
        },
        TagKind::LongArray => if 0 <= pos && pos + 4 <= bytes.len() {
            let n = u32_of_be(bytes[pos], bytes[pos + 1], bytes[pos + 2], bytes[pos + 3]) as i32;
            if n < 0 {
                Err(NbtError::NegativeArrayLength(TagKind::LongArray, n))
            } else {
                match dec_i64s(bytes, pos + 4, n as nat) {
                    Ok((s, p)) => Ok((TagV::LongArray(s), p)),
                    Err(e) => Err(e),
                }
            }
        } else {
            Err(NbtError::UnexpectedEof)
        },
    }
}

/// Decodes `n` nameless list elements of kind `k` starting at `pos`.
pub open spec fn dec_elems(bytes: Seq<u8>, pos: int, k: TagKind, n: nat, d: nat) -> Result<
    (Seq<TagV>, int),
    NbtError,
>
    decreases d, 1nat, n,
{
    if n == 0 {
        Ok((Seq::empty(), pos))
    } else {
        match dec_payload(bytes, pos, k, d) {
            Ok((v, p)) => match dec_elems(bytes, p, k, (n - 1) as nat, d) {
                Ok((rest, p2)) => Ok((seq![v] + rest, p2)),
                Err(e) => Err(e),
            },
            Err(e) => Err(e),
        }
    }
}

/// Decodes named compound entries starting at `pos`, up to and including the
/// terminating `End` kind byte.
pub open spec fn dec_entries(bytes: Seq<u8>, pos: int, d: nat) -> Result<
    (Seq<(Seq<u8>, TagV)>, int),
    NbtError,
>
    decreases d, 1nat, bytes.len() - pos,
{
    if !(0 <= pos && pos < bytes.len()) {
        Err(NbtError::UnexpectedEof)
    } else {
        let b = bytes[pos];
        if b == 0 {
            Ok((Seq::empty(), pos + 1))
        } else {
            match TagKind::spec_from_id(b) {
                None => Err(NbtError::UnknownTagKind(b)),
                Some(k) => match dec_str(bytes, pos + 1) {
                    Ok((name, p2)) => match dec_payload(bytes, p2, k, d) {
                        Ok((v, p3)) => if pos < p3 <= bytes.len() {
                            match dec_entries(bytes, p3, d) {
                                Ok((rest, p4)) => Ok((seq![(name, v)] + rest, p4)),
                                Err(e) => Err(e),
                            }
                        } else {
                            Err(NbtError::UnexpectedEof)
                        },
                        Err(e) => Err(e),
                    },
                    Err(e) => Err(e),
                },
            }
        }
    }
}

/// Decodes one named tag (kind byte, name, payload) starting at `pos`.
pub open spec fn dec_named(bytes: Seq<u8>, pos: int, d: nat) -> Result<
    (NamedTagV, int),
    NbtError,
> {
    if !(0 <= pos && pos < bytes.len()) {
        Err(NbtError::UnexpectedEof)
    } else {
        let b = bytes[pos];
        match TagKind::spec_from_id(b) {
            None => Err(NbtError::UnknownTagKind(b)),
            Some(k) => if k == TagKind::End {
                Err(NbtError::UnknownTagKind(b))
            } else {
                match dec_str(bytes, pos + 1) {
                    Ok((name, p2)) => match dec_payload(bytes, p2, k, d) {
                        Ok((v, p3)) => Ok((NamedTagV { name, tag: v }, p3)),
                        Err(e) => Err(e),
                    },
                    Err(e) => Err(e),
                }
            },
        }
    }
}

/// Decodes one whole document: one named tag that must consume the entire
/// buffer, with `TrailingBytes` on leftovers.
pub open spec fn dec_document(bytes: Seq<u8>, d: nat) -> Result<NamedTagV, NbtError> {
    match dec_named(bytes, 0, d) {
        Ok((nv, p)) => if p == bytes.len() {
            Ok(nv)
        } else {
            Err(NbtError::TrailingBytes)
        },
        Err(e) => Err(e),
    }
}

/// Copies `n` bytes starting at `pos` out of the buffer.
fn read_bytes(bytes: &[u8], pos: usize, n: usize) -> (r: Vec<u8>)
    requires
        pos + n <= bytes@.len(),
    ensures
        r@ == bytes@.subrange(pos as int, pos as int + n as int),
{
    let len: usize = bytes.len();
    let mut out: Vec<u8> = Vec::new();
    let mut i: usize = 0;
    proof {
        assert(bytes@.subrange(pos as int, pos as int) =~= Seq::<u8>::empty());
    }
    while i < n
        invariant
            i <= n,
            len == bytes@.len(),
            pos + n <= bytes@.len(),
            out@ == bytes@.subrange(pos as int, pos as int + i as int),
        decreases n - i,
    {
        out.push(bytes[pos + i]);
        proof {
            assert(bytes@.subrange(pos as int, pos as int + i as int + 1) =~= bytes@.subrange(
                pos as int,
                pos as int + i as int,
            ).push(bytes@[pos as int + i as int]));
        }
        i = i + 1;
    }
    out
}

/// Reads one length-prefixed string starting at `pos`.
fn read_str(bytes: &[u8], pos: usize) -> (r: Result<(NbtString, usize), NbtError>)
    requires
        pos <= bytes@.len(),
    ensures
        (match r {
            Ok((s, p)) => pos + 2 <= p <= bytes@.len() && dec_str(bytes@, pos as int) == Ok::<
                (Seq<u8>, int),
                NbtError,
            >((s@, p as int)),
            Err(e) => dec_str(bytes@, pos as int) == Err::<(Seq<u8>, int), NbtError>(e),
        }),
{
    if bytes.len() - pos < 2 {
        return Err(NbtError::UnexpectedEof);
    }
    let l: usize = read_u16_be(bytes, pos) as usize;
    if bytes.len() - (pos + 2) < l {
        return Err(NbtError::UnexpectedEof);
    }
    let v = read_bytes(bytes, pos + 2, l);
    if !is_valid_mutf8(v.as_slice()) {
        return Err(NbtError::InvalidModifiedUtf8);
    }
    let s = NbtString::from_valid(v);
    Ok((s, pos + 2 + l))
}

/// Decodes the payload of kind `k` starting at `pos`, with `d` depth units
/// left: exactly what [`dec_payload`] says, including on every error.
fn dec_tag(bytes: &[u8], pos: usize, k: TagKind, d: u32) -> (r: Result<(Tag, usize), NbtError>)
    requires
        pos <= bytes@.len(),
    ensures
        (match r {
            Ok((t, p)) => pos < p <= bytes@.len() && dec_payload(bytes@, pos as int, k, d as nat)
                == Ok::<(TagV, int), NbtError>((t@, p as int)),
            Err(e) => dec_payload(bytes@, pos as int, k, d as nat) == Err::<(TagV, int), NbtError>(
                e,
            ),
        }),
    decreases d,
{
    match k {
        TagKind::End => Err(NbtError::UnknownTagKind(0)),
        TagKind::Byte => {
            if bytes.len() - pos < 1 {
                return Err(NbtError::UnexpectedEof);
            }
            Ok((Tag::Byte(bytes[pos] as i8), pos + 1))
        },
        TagKind::Short => {
            if bytes.len() - pos < 2 {
                return Err(NbtError::UnexpectedEof);
            }
            Ok((Tag::Short(read_u16_be(bytes, pos) as i16), pos + 2))
        },
        TagKind::Int => {
            if bytes.len() - pos < 4 {
                return Err(NbtError::UnexpectedEof);
            }
            Ok((Tag::Int(read_u32_be(bytes, pos) as i32), pos + 4))
        },
        TagKind::Long => {
            if bytes.len() - pos < 8 {
                return Err(NbtError::UnexpectedEof);
            }
            Ok((Tag::Long(read_u64_be(bytes, pos) as i64), pos + 8))
        },
        TagKind::Float => {
            if bytes.len() - pos < 4 {
                return Err(NbtError::UnexpectedEof);
            }
            Ok((Tag::Float(read_u32_be(bytes, pos)), pos + 4))
        },
        TagKind::Double => {
            if bytes.len() - pos < 8 {
                return Err(NbtError::UnexpectedEof);
            }
            Ok((Tag::Double(read_u64_be(bytes, pos)), pos + 8))
        },
        TagKind::ByteArray => {
            if bytes.len() - pos < 4 {
                return Err(NbtError::UnexpectedEof);
            }
            let n = read_u32_be(bytes, pos) as i32;
            if n < 0 {
                return Err(NbtError::NegativeArrayLength(TagKind::ByteArray, n));
            }
            let count: usize = n as usize;
            let blen: usize = bytes.len();
            if blen - (pos + 4) < count {
                return Err(NbtError::UnexpectedEof);
            }
            let mut v: Vec<i8> = Vec::new();
            let mut j: usize = 0;
            proof {
                assert(bytes@.subrange(pos + 4, pos + 4) =~= Seq::<u8>::empty());
                assert(i8s_of_bytes(Seq::<u8>::empty()) =~= Seq::<i8>::empty());
            }
            while j < count
                invariant
                    j <= count,
                    blen == bytes@.len(),
                    pos + 4 + count <= bytes@.len(),
                    v@ == i8s_of_bytes(bytes@.subrange(pos + 4, pos + 4 + j)),
                decreases count - j,
            {
                v.push(bytes[pos + 4 + j] as i8);
                proof {
                    assert(bytes@.subrange(pos + 4, pos + 4 + j + 1) =~= bytes@.subrange(
                        pos + 4,
                        pos + 4 + j,
                    ).push(bytes@[pos + 4 + j]));
                    assert(v@ =~= i8s_of_bytes(bytes@.subrange(pos + 4, pos + 4 + j + 1)));
                }
                j = j + 1;
            }
            Ok((Tag::ByteArray(v), pos + 4 + count))
        },
        TagKind::String => {
            match read_str(bytes, pos) {
                Ok((s, p)) => Ok((Tag::String(s), p)),
                Err(e) => Err(e),
            }
        },
        TagKind::List => {
            if bytes.len() - pos < 5 {
                return Err(NbtError::UnexpectedEof);
            }
            let eb: u8 = bytes[pos];
            let n = read_u32_be(bytes, pos + 1) as i32;
            if n <= 0 {
                proof {
                    assert(tags_view(Seq::<Tag>::empty()) =~= Seq::<TagV>::empty());
                }
                return Ok((Tag::List(TagKind::End, Vec::new()), pos + 5));
            }
            let ek = match TagKind::from_id(eb) {
                None => {
                    return Err(NbtError::UnknownTagKind(eb));
                },
                Some(ek) => ek,
            };
            if ek.id() == 0 {
                return Err(NbtError::UnknownTagKind(eb));
            }
            if d == 0 {
                return Err(NbtError::NestingTooDeep);
            }
            let count: usize = n as usize;
            let ghost dd = (d - 1) as nat;
            let mut elems: Vec<Tag> = Vec::new();
            let mut p: usize = pos + 5;
            let mut j: usize = 0;
            proof {
                assert(tags_view(Seq::<Tag>::empty()) =~= Seq::<TagV>::empty());
                if dec_elems(bytes@, pos + 5, ek, count as nat, dd) is Ok {
                    let rest = dec_elems(bytes@, pos + 5, ek, count as nat, dd)->Ok_0;
                    assert(Seq::<TagV>::empty() + rest.0 =~= rest.0);
                }
            }
            while j < count
                invariant
                    j <= count,
                    d >= 1,
                    k == TagKind::List,
                    ek != TagKind::End,
                    dd == (d - 1) as nat,
                    pos + 5 <= p <= bytes@.len(),
                    tags_view(elems@).len() == elems@.len(),
                    dec_payload(bytes@, pos as int, TagKind::List, d as nat) == (match dec_elems(
                        bytes@,
                        pos + 5,
                        ek,
                        count as nat,
                        dd,
                    ) {
                        Ok((es, p2)) => Ok::<(TagV, int), NbtError>((TagV::List(ek, es), p2)),
                        Err(e) => Err::<(TagV, int), NbtError>(e),
                    }),
                    dec_elems(bytes@, pos + 5, ek, count as nat, dd) == (match dec_elems(
                        bytes@,
                        p as int,
                        ek,
                        (count - j) as nat,
                        dd,
                    ) {
                        Ok((rest, p2)) => Ok::<(Seq<TagV>, int), NbtError>(
                            (tags_view(elems@) + rest, p2),
                        ),
                        Err(e) => Err::<(Seq<TagV>, int), NbtError>(e),
                    }),
                decreases count - j,
            {
                match dec_tag(bytes, p, ek, d - 1) {
                    Ok((t, p2)) => {
                        proof {
                            lemma_tags_view_push(elems@, t);
                            if dec_elems(bytes@, p2 as int, ek, (count - j - 1) as nat, dd)
                                is Ok {
                                let rest = dec_elems(
                                    bytes@,
                                    p2 as int,
                                    ek,
                                    (count - j - 1) as nat,
                                    dd,
                                )->Ok_0;
                                assert(tags_view(elems@) + (seq![t@] + rest.0) =~= tags_view(
                                    elems@,
                                ).push(t@) + rest.0);
                            }
                        }
                        elems.push(t);
                        p = p2;
                    },
                    Err(e) => {
                        return Err(e);
                    },
                }
                j = j + 1;
            }
            proof {
                let done = tags_view(elems@);
                assert(done + Seq::<TagV>::empty() =~= done);
            }
            Ok((Tag::List(ek, elems), p))
        },
        TagKind::Compound => {
            if d == 0 {
                return Err(NbtError::NestingTooDeep);
            }
            let ghost dd = (d - 1) as nat;
            let mut entries: Vec<(NbtString, Tag)> = Vec::new();
            let mut p: usize = pos;
            proof {
                assert(entries_view(Seq::<(NbtString, Tag)>::empty()) =~= Seq::<
                    (Seq<u8>, TagV),
                >::empty());
                if dec_entries(bytes@, pos as int, dd) is Ok {
                    let rest = dec_entries(bytes@, pos as int, dd)->Ok_0;
                    assert(Seq::<(Seq<u8>, TagV)>::empty() + rest.0 =~= rest.0);
                }
            }
            loop
                invariant
                    d >= 1,
                    k == TagKind::Compound,
                    dd == (d - 1) as nat,
                    pos <= p <= bytes@.len(),
                    dec_payload(bytes@, pos as int, TagKind::Compound, d as nat) == (match
                        dec_entries(bytes@, pos as int, dd) {
                        Ok((es, p2)) => Ok::<(TagV, int), NbtError>((TagV::Compound(es), p2)),
                        Err(e) => Err::<(TagV, int), NbtError>(e),
                    }),
                    dec_entries(bytes@, pos as int, dd) == (match dec_entries(
                        bytes@,
                        p as int,
                        dd,
                    ) {
                        Ok((rest, p2)) => Ok::<(Seq<(Seq<u8>, TagV)>, int), NbtError>(
                            (entries_view(entries@) + rest, p2),
                        ),
                        Err(e) => Err::<(Seq<(Seq<u8>, TagV)>, int), NbtError>(e),
                    }),
                decreases bytes@.len() - p,
            {
                if bytes.len() - p < 1 {
                    return Err(NbtError::UnexpectedEof);
                }
                let b: u8 = bytes[p];
                if b == 0 {
                    proof {
                        let done = entries_view(entries@);
                        assert(done + Seq::<(Seq<u8>, TagV)>::empty() =~= done);
                    }
                    return Ok((Tag::Compound(entries), p + 1));
                }
                let k2 = match TagKind::from_id(b) {
                    None => {
                        return Err(NbtError::UnknownTagKind(b));
                    },
                    Some(k2) => k2,
                };
                let (name, p2) = match read_str(bytes, p + 1) {
                    Ok(pair) => pair,
                    Err(e) => {
                        return Err(e);
                    },
                };
                let (t, p3) = match dec_tag(bytes, p2, k2, d - 1) {
                    Ok(pair) => pair,
                    Err(e) => {
                        return Err(e);
                    },
                };
                proof {
                    lemma_entries_view_push(entries@, name, t);
                    if dec_entries(bytes@, p3 as int, dd) is Ok {
                        let rest = dec_entries(bytes@, p3 as int, dd)->Ok_0;
                        assert(entries_view(entries@) + (seq![(name@, t@)] + rest.0)
                            =~= entries_view(entries@).push((name@, t@)) + rest.0);
                    }
                }
                entries.push((name, t));
                p = p3;
            }
        },
        TagKind::IntArray => {
            if bytes.len() - pos < 4 {
                return Err(NbtError::UnexpectedEof);
            }
            let n = read_u32_be(bytes, pos) as i32;
            if n < 0 {
                return Err(NbtError::NegativeArrayLength(TagKind::IntArray, n));
            }
            let count: usize = n as usize;
            let mut v: Vec<i32> = Vec::new();
            let mut p: usize = pos + 4;
            let mut j: usize = 0;
            proof {
                if dec_i32s(bytes@, pos + 4, count as nat) is Ok {
                    let rest = dec_i32s(bytes@, pos + 4, count as nat)->Ok_0;
                    assert(Seq::<i32>::empty() + rest.0 =~= rest.0);
                }
            }
            while j < count
                invariant
                    j <= count,
                    k == TagKind::IntArray,
                    pos + 4 <= p <= bytes@.len(),
                    dec_payload(bytes@, pos as int, TagKind::IntArray, d as nat) == (match
                        dec_i32s(bytes@, pos + 4, count as nat) {
                        Ok((s, p2)) => Ok::<(TagV, int), NbtError>((TagV::IntArray(s), p2)),
                        Err(e) => Err::<(TagV, int), NbtError>(e),
                    }),
                    dec_i32s(bytes@, pos + 4, count as nat) == (match dec_i32s(
                        bytes@,
                        p as int,
                        (count - j) as nat,
                    ) {
                        Ok((rest, p2)) => Ok::<(Seq<i32>, int), NbtError>((v@ + rest, p2)),
                        Err(e) => Err::<(Seq<i32>, int), NbtError>(e),
                    }),
                decreases count - j,
            {
                if bytes.len() - p < 4 {
                    return Err(NbtError::UnexpectedEof);
                }
                let x = read_u32_be(bytes, p) as i32;
                proof {
                    if dec_i32s(bytes@, p + 4, (count - j - 1) as nat) is Ok {
                        let rest = dec_i32s(bytes@, p + 4, (count - j - 1) as nat)->Ok_0;
                        assert(v@ + (seq![x] + rest.0) =~= v@.push(x) + rest.0);
                    }
                }
                v.push(x);
                p = p + 4;
                j = j + 1;
            }
            proof {
                assert(v@ + Seq::<i32>::empty() =~= v@);
            }
            Ok((Tag::IntArray(v), p))
        },
        TagKind::LongArray => {
            if bytes.len() - pos < 4 {
                return Err(NbtError::UnexpectedEof);
            }
            let n = read_u32_be(bytes, pos) as i32;
            if n < 0 {
                return Err(NbtError::NegativeArrayLength(TagKind::LongArray, n));
            }
            let count: usize = n as usize;
            let mut v: Vec<i64> = Vec::new();
            let mut p: usize = pos + 4;
            let mut j: usize = 0;
            proof {
                if dec_i64s(bytes@, pos + 4, count as nat) is Ok {
                    let rest = dec_i64s(bytes@, pos + 4, count as nat)->Ok_0;
                    assert(Seq::<i64>::empty() + rest.0 =~= rest.0);
                }
            }
            while j < count
                invariant
                    j <= count,
                    k == TagKind::LongArray,
                    pos + 4 <= p <= bytes@.len(),
                    dec_payload(bytes@, pos as int, TagKind::LongArray, d as nat) == (match
                        dec_i64s(bytes@, pos + 4, count as nat) {
                        Ok((s, p2)) => Ok::<(TagV, int), NbtError>((TagV::LongArray(s), p2)),
                        Err(e) => Err::<(TagV, int), NbtError>(e),
                    }),
                    dec_i64s(bytes@, pos + 4, count as nat) == (match dec_i64s(
                        bytes@,
                        p as int,
                        (count - j) as nat,
                    ) {
                        Ok((rest, p2)) => Ok::<(Seq<i64>, int), NbtError>((v@ + rest, p2)),
                        Err(e) => Err::<(Seq<i64>, int), NbtError>(e),
                    }),
                decreases count - j,
            {
                if bytes.len() - p < 8 {
                    return Err(NbtError::UnexpectedEof);
                }
                let x = read_u64_be(bytes, p) as i64;
                proof {
                    if dec_i64s(bytes@, p + 8, (count - j - 1) as nat) is Ok {
                        let rest = dec_i64s(bytes@, p + 8, (count - j - 1) as nat)->Ok_0;
                        assert(v@ + (seq![x] + rest.0) =~= v@.push(x) + rest.0);
                    }
                }
                v.push(x);
                p = p + 8;
                j = j + 1;
            }
            proof {
                assert(v@ + Seq::<i64>::empty() =~= v@);
            }
            Ok((Tag::LongArray(v), p))
        },
    }
}

/// Decodes one named tag from the start of the buffer and returns it with
/// the number of bytes consumed, tolerating trailing data.
pub fn decode_prefix(bytes: &[u8]) -> (r: Result<(NamedTag, usize), NbtError>)
    ensures
        (match r {
            Ok((nt, p)) => 0 < p <= bytes@.len() && dec_named(bytes@, 0, DEPTH_LIMIT as nat)
                == Ok::<(NamedTagV, int), NbtError>((nt@, p as int)),
            Err(e) => dec_named(bytes@, 0, DEPTH_LIMIT as nat) == Err::<
                (NamedTagV, int),
                NbtError,
            >(e),
        }),
{
    if bytes.len() == 0 {
        return Err(NbtError::UnexpectedEof);
    }
    let b: u8 = bytes[0];
    let k = match TagKind::from_id(b) {
        None => {
            return Err(NbtError::UnknownTagKind(b));
        },
        Some(k) => k,
    };
    if k.id() == 0 {
        return Err(NbtError::UnknownTagKind(b));
    }
    let (name, p2) = match read_str(bytes, 1) {
        Ok(pair) => pair,
        Err(e) => {
            return Err(e);
        },
    };
    match dec_tag(bytes, p2, k, DEPTH_LIMIT) {
        Ok((t, p3)) => Ok((NamedTag { name, tag: t }, p3)),
        Err(e) => Err(e),
    }
}

/// Decodes one whole document: one named tag that must consume the entire
/// buffer.  Yields `TrailingBytes` when decoding succeeds short of the end.
pub fn decode(bytes: &[u8]) -> (r: Result<NamedTag, NbtError>)
    ensures
        (match r {
            Ok(nt) => dec_document(bytes@, DEPTH_LIMIT as nat) == Ok::<NamedTagV, NbtError>(nt@),
            Err(e) => dec_document(bytes@, DEPTH_LIMIT as nat) == Err::<NamedTagV, NbtError>(e),
        }),
{
    match decode_prefix(bytes) {
        Ok((nt, p)) => {
            if p == bytes.len() {
                Ok(nt)
            } else {
                Err(NbtError::TrailingBytes)
            }
        },
        Err(e) => Err(e),
    }
}

} // verus!
