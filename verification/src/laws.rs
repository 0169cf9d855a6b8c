//! The laws of the codec, proved by induction over the tag tree against the
//! same spec functions that the contracts of [`crate::encode::encode`] and
//! [`crate::decode::decode`] are stated over.
//!
//! - [`lemma_decode_encode`]: decoding the encoding of any well-formed named
//!   tag tree within the depth limit returns exactly that tree, consuming
//!   the whole buffer.
//! - [`lemma_reencode_idempotent`]: re-encoding what was decoded from an
//!   encoding reproduces the same bytes.
//! - [`lemma_truncation_eof`]: cutting a valid encoding at any byte offset
//!   makes decoding fail with `UnexpectedEof` and nothing else.
//! - [`lemma_decoded_trees_reencode`]: whatever the input bytes, a tree the
//!   decoder accepts is well formed, within the depth limit, and encodable.

use vstd::prelude::*;
use crate::bytes::lemma_i8_round_trip;
use crate::bytes::lemma_i16_round_trip;
use crate::bytes::lemma_i32_round_trip;
use crate::bytes::lemma_i64_round_trip;
use crate::bytes::lemma_u16_be_round_trip;
use crate::bytes::lemma_u32_be_round_trip;
use crate::bytes::lemma_u64_be_round_trip;
use crate::bytes::u16_be_bytes;
use crate::bytes::u32_be_bytes;
use crate::bytes::u64_be_bytes;
use crate::decode::dec_document;
use crate::decode::dec_elems;
use crate::decode::dec_entries;
use crate::decode::dec_i32s;
use crate::decode::dec_i64s;
use crate::decode::dec_named;
use crate::decode::dec_payload;
use crate::decode::dec_str;
use crate::decode::i8s_of_bytes;
use crate::encode::bytes_of_i8s;
use crate::encode::enc_elems;
use crate::encode::enc_entries;
use crate::encode::enc_i32s;
use crate::encode::enc_i64s;
use crate::encode::enc_named;
use crate::encode::enc_named_run;
use crate::encode::enc_payload;
use crate::encode::enc_str;
use crate::encode::lemma_enc_run_ok;
use crate::error::NbtError;
use crate::kind::TagKind;
use crate::kind::lemma_from_id_of_id;
use crate::mutf8::wf_str;
use crate::tag::DEPTH_LIMIT;
use crate::tag::NamedTagV;
use crate::tag::TagV;
use crate::tag::depth_elems;
use crate::tag::depth_entries;
use crate::tag::depth_tag;
use crate::tag::kind_of;
use crate::tag::wf_elems;
use crate::tag::wf_entries;
use crate::tag::wf_named;
use crate::tag::wf_tag;

verus! {

/// A matching window splits: when the bytes from `pos` match `a + b`, the
/// first part matches `a` and the rest matches `b`.
proof fn lemma_split(bytes: Seq<u8>, pos: int, a: Seq<u8>, b: Seq<u8>)
    requires
        0 <= pos,
        pos + a.len() + b.len() <= bytes.len(),
        bytes.subrange(pos, pos + a.len() + b.len()) == a + b,
    ensures
        bytes.subrange(pos, pos + a.len()) == a,
        bytes.subrange(pos + a.len(), pos + a.len() + b.len()) == b,
{
    let whole = bytes.subrange(pos, pos + a.len() + b.len());
    assert forall|i: int| 0 <= i < a.len() implies bytes.subrange(pos, pos + a.len() as int)[i]
        == a[i] by {
        assert(whole[i] == bytes[pos + i]);
        assert(bytes.subrange(pos, pos + a.len() as int)[i] == bytes[pos + i]);
    }
    assert(bytes.subrange(pos, pos + a.len() as int) =~= a);
    assert forall|i: int| 0 <= i < b.len() implies bytes.subrange(
        pos + a.len(),
        pos + a.len() + b.len(),
    )[i] == b[i] by {
        assert(whole[a.len() + i] == bytes[pos + a.len() + i]);
        assert(bytes.subrange(pos + a.len(), pos + a.len() + b.len())[i] == bytes[pos + a.len()
            + i]);
    }
    assert(bytes.subrange(pos + a.len(), pos + a.len() + b.len()) =~= b);
}

/// A matching window gives the bytes themselves, position by position.
proof fn lemma_window_index(bytes: Seq<u8>, pos: int, s: Seq<u8>)
    requires
        0 <= pos,
        pos + s.len() <= bytes.len(),
        bytes.subrange(pos, pos + s.len()) == s,
    ensures
        forall|j: int| pos <= j < pos + s.len() ==> #[trigger] bytes[j] == s[j - pos],
{
    assert forall|j: int| pos <= j < pos + s.len() implies #[trigger] bytes[j] == s[j - pos] by {
        assert(bytes.subrange(pos, pos + s.len() as int)[j - pos] == bytes[j]);
    }
}

/// The signed bytes of the unsigned bytes of a signed array are the array.
proof fn lemma_i8s_of_bytes_round_trip(s: Seq<i8>)
    ensures
        i8s_of_bytes(bytes_of_i8s(s)) == s,
{
    assert forall|i: int| 0 <= i < s.len() implies i8s_of_bytes(bytes_of_i8s(s))[i] == s[i] by {
        lemma_i8_round_trip(s[i]);
    }
    assert(i8s_of_bytes(bytes_of_i8s(s)) =~= s);
}

/// Each 32-bit element takes four bytes.
proof fn lemma_enc_i32s_len(s: Seq<i32>)
    ensures
        enc_i32s(s).len() == 4 * s.len(),
    decreases s.len(),
{
    if s.len() > 0 {
        lemma_enc_i32s_len(s.drop_first());
    }
}

/// Each 64-bit element takes eight bytes.
proof fn lemma_enc_i64s_len(s: Seq<i64>)
    ensures
        enc_i64s(s).len() == 8 * s.len(),
    decreases s.len(),
{
    if s.len() > 0 {
        lemma_enc_i64s_len(s.drop_first());
    }
}

/// Decoding an encoded string window returns the string and stops after it.
proof fn lemma_dec_enc_str(bytes: Seq<u8>, pos: int, s: Seq<u8>)
    requires
        wf_str(s),
        0 <= pos,
        pos + 2 + s.len() <= bytes.len(),
        bytes.subrange(pos, pos + 2 + s.len()) == enc_str(s),
    ensures
        dec_str(bytes, pos) == Ok::<(Seq<u8>, int), NbtError>((s, pos + 2 + s.len())),
{
    let lu = s.len() as u16;
    assert(enc_str(s) == u16_be_bytes(lu) + s);
    lemma_split(bytes, pos, u16_be_bytes(lu), s);
    lemma_window_index(bytes, pos, u16_be_bytes(lu));
    assert(bytes[pos] == (lu >> 8) as u8);
    assert(bytes[pos + 1] == lu as u8);
    lemma_u16_be_round_trip(lu);
    assert(crate::bytes::u16_of_be(bytes[pos], bytes[pos + 1]) == lu);
    assert(bytes.subrange(pos + 2, pos + 2 + s.len()) == s);
}

/// Decoding an encoded window of 32-bit elements returns the elements.
proof fn lemma_dec_enc_i32s(bytes: Seq<u8>, pos: int, s: Seq<i32>)
    requires
        0 <= pos,
        pos + enc_i32s(s).len() <= bytes.len(),
        bytes.subrange(pos, pos + enc_i32s(s).len()) == enc_i32s(s),
    ensures
        dec_i32s(bytes, pos, s.len()) == Ok::<(Seq<i32>, int), NbtError>(
            (s, pos + enc_i32s(s).len()),
        ),
    decreases s.len(),
{
    lemma_enc_i32s_len(s);
    if s.len() == 0 {
        assert(s =~= Seq::<i32>::empty());
    } else {
        let xu = s[0] as u32;
        lemma_enc_i32s_len(s.drop_first());
        lemma_split(bytes, pos, u32_be_bytes(xu), enc_i32s(s.drop_first()));
        lemma_window_index(bytes, pos, u32_be_bytes(xu));
        lemma_u32_be_round_trip(xu);
        lemma_i32_round_trip(s[0]);
        lemma_dec_enc_i32s(bytes, pos + 4, s.drop_first());
        assert(seq![s[0]] + s.drop_first() =~= s);
    }
}

/// Decoding an encoded window of 64-bit elements returns the elements.
proof fn lemma_dec_enc_i64s(bytes: Seq<u8>, pos: int, s: Seq<i64>)
    requires
        0 <= pos,
        pos + enc_i64s(s).len() <= bytes.len(),
        bytes.subrange(pos, pos + enc_i64s(s).len()) == enc_i64s(s),
    ensures
        dec_i64s(bytes, pos, s.len()) == Ok::<(Seq<i64>, int), NbtError>(
            (s, pos + enc_i64s(s).len()),
        ),
    decreases s.len(),
{
    lemma_enc_i64s_len(s);
    if s.len() == 0 {
        assert(s =~= Seq::<i64>::empty());
    } else {
        let xu = s[0] as u64;
        lemma_enc_i64s_len(s.drop_first());
        lemma_split(bytes, pos, u64_be_bytes(xu), enc_i64s(s.drop_first()));
        lemma_window_index(bytes, pos, u64_be_bytes(xu));
        lemma_u64_be_round_trip(xu);
        lemma_i64_round_trip(s[0]);
        lemma_dec_enc_i64s(bytes, pos + 8, s.drop_first());
        assert(seq![s[0]] + s.drop_first() =~= s);
    }
}

/// No payload belongs to the `End` kind.
proof fn lemma_kind_of_not_end(v: TagV)
    ensures
        kind_of(v) != TagKind::End,
{
    match v {
        TagV::Byte(_) => {},
        TagV::Short(_) => {},
        TagV::Int(_) => {},
        TagV::Long(_) => {},
        TagV::Float(_) => {},
        TagV::Double(_) => {},
        TagV::ByteArray(_) => {},
        TagV::String(_) => {},
        TagV::List(_, _) => {},
        TagV::Compound(_) => {},
        TagV::IntArray(_) => {},
        TagV::LongArray(_) => {},
    }
}

/// Decoding the encoded payload of a well-formed tag, wherever it stands in
/// a larger buffer, returns exactly that tag and stops exactly after it.
/// The byte-array case of the payload round trip.
proof fn lemma_dec_enc_byte_array(bytes: Seq<u8>, pos: int, s: Seq<i8>)
    requires
        s.len() <= 0x7FFF_FFFF,
        0 <= pos,
        pos + 4 + s.len() <= bytes.len(),
        bytes.subrange(pos, pos + 4 + s.len()) == u32_be_bytes(s.len() as u32) + bytes_of_i8s(s),
    ensures
        dec_payload(bytes, pos, TagKind::ByteArray, 0) == Ok::<(TagV, int), NbtError>(
            (TagV::ByteArray(s), pos + 4 + s.len()),
        ),
{
    let nu = s.len() as u32;
    lemma_split(bytes, pos, u32_be_bytes(nu), bytes_of_i8s(s));
    lemma_window_index(bytes, pos, u32_be_bytes(nu));
    lemma_u32_be_round_trip(nu);
    lemma_i8s_of_bytes_round_trip(s);
    assert(nu as i32 == s.len());
}

/// Decoding a payload of any kind does not depend on the depth budget where
/// no list or compound is entered; for arrays this is direct.
proof fn lemma_dec_payload_depth_free(bytes: Seq<u8>, pos: int, k: TagKind, d: nat)
    requires
        k != TagKind::List,
        k != TagKind::Compound,
    ensures
        dec_payload(bytes, pos, k, d) == dec_payload(bytes, pos, k, 0),
{
}

/// The int-array case of the payload round trip.
proof fn lemma_dec_enc_int_array(bytes: Seq<u8>, pos: int, s: Seq<i32>)
    requires
        s.len() <= 0x7FFF_FFFF,
        0 <= pos,
        pos + 4 + enc_i32s(s).len() <= bytes.len(),
        bytes.subrange(pos, pos + 4 + enc_i32s(s).len()) == u32_be_bytes(s.len() as u32)
            + enc_i32s(s),
    ensures
        dec_payload(bytes, pos, TagKind::IntArray, 0) == Ok::<(TagV, int), NbtError>(
            (TagV::IntArray(s), pos + 4 + enc_i32s(s).len()),
        ),
{
    let nu = s.len() as u32;
    lemma_enc_i32s_len(s);
    lemma_split(bytes, pos, u32_be_bytes(nu), enc_i32s(s));
    lemma_window_index(bytes, pos, u32_be_bytes(nu));
    lemma_u32_be_round_trip(nu);
    assert(nu as i32 == s.len());
    lemma_dec_enc_i32s(bytes, pos + 4, s);
}

/// The long-array case of the payload round trip.
proof fn lemma_dec_enc_long_array(bytes: Seq<u8>, pos: int, s: Seq<i64>)
    requires
        s.len() <= 0x7FFF_FFFF,
        0 <= pos,
        pos + 4 + enc_i64s(s).len() <= bytes.len(),
        bytes.subrange(pos, pos + 4 + enc_i64s(s).len()) == u32_be_bytes(s.len() as u32)
            + enc_i64s(s),
    ensures
        dec_payload(bytes, pos, TagKind::LongArray, 0) == Ok::<(TagV, int), NbtError>(
            (TagV::LongArray(s), pos + 4 + enc_i64s(s).len()),
        ),
{
    let nu = s.len() as u32;
    lemma_enc_i64s_len(s);
    lemma_split(bytes, pos, u32_be_bytes(nu), enc_i64s(s));
    lemma_window_index(bytes, pos, u32_be_bytes(nu));
    lemma_u32_be_round_trip(nu);
    assert(nu as i32 == s.len());
    lemma_dec_enc_i64s(bytes, pos + 4, s);
}

/// The list case of the payload round trip.
#[verifier::rlimit(100)]
proof fn lemma_dec_enc_list(bytes: Seq<u8>, pos: int, v: TagV, d: nat)
    requires
        v is List,
        wf_tag(v),
        depth_tag(v) <= d,
        0 <= pos,
        pos + enc_payload(v).len() <= bytes.len(),
        bytes.subrange(pos, pos + enc_payload(v).len()) == enc_payload(v),
    ensures
        dec_payload(bytes, pos, TagKind::List, d) == Ok::<(TagV, int), NbtError>(
            (v, pos + enc_payload(v).len()),
        ),
    decreases v, 0nat,
{
    let k = v->List_0;
    let es = v->List_1;
    let nu = es.len() as u32;
    assert(enc_payload(v) =~= seq![k.id()] + (u32_be_bytes(nu) + enc_elems(es)));
    lemma_split(bytes, pos, seq![k.id()], u32_be_bytes(nu) + enc_elems(es));
    lemma_window_index(bytes, pos, seq![k.id()]);
    lemma_split(bytes, pos + 1, u32_be_bytes(nu), enc_elems(es));
    lemma_window_index(bytes, pos + 1, u32_be_bytes(nu));
    assert(bytes[pos] == k.id());
    assert(bytes[pos + 1] == (nu >> 24) as u8);
    assert(bytes[pos + 2] == (nu >> 16) as u8);
    assert(bytes[pos + 3] == (nu >> 8) as u8);
    assert(bytes[pos + 4] == nu as u8);
    lemma_u32_be_round_trip(nu);
    assert(nu as i32 == es.len());
    if es.len() == 0 {
        assert(enc_elems(es) =~= Seq::<u8>::empty());
        assert(es =~= Seq::<TagV>::empty());
    } else {
        lemma_from_id_of_id(k);
        lemma_dec_enc_elems(bytes, pos + 5, k, es, (d - 1) as nat);
    }
}

/// The compound case of the payload round trip.
proof fn lemma_dec_enc_compound(bytes: Seq<u8>, pos: int, v: TagV, d: nat)
    requires
        v is Compound,
        wf_tag(v),
        depth_tag(v) <= d,
        0 <= pos,
        pos + enc_payload(v).len() <= bytes.len(),
        bytes.subrange(pos, pos + enc_payload(v).len()) == enc_payload(v),
    ensures
        dec_payload(bytes, pos, TagKind::Compound, d) == Ok::<(TagV, int), NbtError>(
            (v, pos + enc_payload(v).len()),
        ),
    decreases v, 0nat,
{
    let es = v->Compound_0;
    lemma_dec_enc_entries(bytes, pos, es, (d - 1) as nat);
}

/// Decoding the encoded payload of a well-formed tag, wherever it stands in
/// a larger buffer, returns exactly that tag and stops exactly after it.
proof fn lemma_dec_enc_payload(bytes: Seq<u8>, pos: int, v: TagV, d: nat)
    requires
        wf_tag(v),
        depth_tag(v) <= d,
        0 <= pos,
        pos + enc_payload(v).len() <= bytes.len(),
        bytes.subrange(pos, pos + enc_payload(v).len()) == enc_payload(v),
    ensures
        dec_payload(bytes, pos, kind_of(v), d) == Ok::<(TagV, int), NbtError>(
            (v, pos + enc_payload(v).len()),
        ),
    decreases v, 1nat,
{
    match v {
        TagV::Byte(x) => {
            lemma_window_index(bytes, pos, enc_payload(v));
            lemma_i8_round_trip(x);
        },
        TagV::Short(x) => {
            lemma_window_index(bytes, pos, enc_payload(v));
            lemma_u16_be_round_trip(x as u16);
            lemma_i16_round_trip(x);
        },
        TagV::Int(x) => {
            lemma_window_index(bytes, pos, enc_payload(v));
            lemma_u32_be_round_trip(x as u32);
            lemma_i32_round_trip(x);
        },
        TagV::Long(x) => {
            lemma_window_index(bytes, pos, enc_payload(v));
            lemma_u64_be_round_trip(x as u64);
            lemma_i64_round_trip(x);
        },
        TagV::Float(b) => {
            lemma_window_index(bytes, pos, enc_payload(v));
            lemma_u32_be_round_trip(b);
        },
        TagV::Double(b) => {
            lemma_window_index(bytes, pos, enc_payload(v));
            lemma_u64_be_round_trip(b);
        },
        TagV::ByteArray(s) => {
            lemma_dec_enc_byte_array(bytes, pos, s);
            lemma_dec_payload_depth_free(bytes, pos, TagKind::ByteArray, d);
        },
        TagV::String(s) => {
            lemma_dec_enc_str(bytes, pos, s);
        },
        TagV::List(_, _) => {
            lemma_dec_enc_list(bytes, pos, v, d);
        },
        TagV::Compound(_) => {
            lemma_dec_enc_compound(bytes, pos, v, d);
        },
        TagV::IntArray(s) => {
            lemma_dec_enc_int_array(bytes, pos, s);
            lemma_dec_payload_depth_free(bytes, pos, TagKind::IntArray, d);
        },
        TagV::LongArray(s) => {
            lemma_dec_enc_long_array(bytes, pos, s);
            lemma_dec_payload_depth_free(bytes, pos, TagKind::LongArray, d);
        },
    }
}

/// Decoding the encoded elements of a well-formed homogeneous list returns
/// exactly those elements.
proof fn lemma_dec_enc_elems(bytes: Seq<u8>, pos: int, k: TagKind, es: Seq<TagV>, d: nat)
    requires
        wf_elems(k, es),
        depth_elems(es) <= d,
        0 <= pos,
        pos + enc_elems(es).len() <= bytes.len(),
        bytes.subrange(pos, pos + enc_elems(es).len()) == enc_elems(es),
    ensures
        dec_elems(bytes, pos, k, es.len(), d) == Ok::<(Seq<TagV>, int), NbtError>(
            (es, pos + enc_elems(es).len()),
        ),
    decreases es, 1nat,
{
    if es.len() == 0 {
        assert(es =~= Seq::<TagV>::empty());
    } else {
        let head = enc_payload(es[0]);
        let tail = enc_elems(es.drop_first());
        lemma_split(bytes, pos, head, tail);
        lemma_dec_enc_payload(bytes, pos, es[0], d);
        lemma_dec_enc_elems(bytes, pos + head.len(), k, es.drop_first(), d);
        assert(seq![es[0]] + es.drop_first() =~= es);
    }
}

/// Decoding the encoded entries of a well-formed compound, followed by the
/// terminating `End` byte, returns exactly those entries.
#[verifier::rlimit(100)]
proof fn lemma_dec_enc_entries(bytes: Seq<u8>, pos: int, es: Seq<(Seq<u8>, TagV)>, d: nat)
    requires
        wf_entries(es),
        depth_entries(es) <= d,
        0 <= pos,
        pos + enc_entries(es).len() + 1 <= bytes.len(),
        bytes.subrange(pos, pos + enc_entries(es).len() + 1) == enc_entries(es) + seq![0u8],
    ensures
        dec_entries(bytes, pos, d) == Ok::<(Seq<(Seq<u8>, TagV)>, int), NbtError>(
            (es, pos + enc_entries(es).len() + 1),
        ),
    decreases es, 1nat,
{
    lemma_window_index(bytes, pos, enc_entries(es) + seq![0u8]);
    if es.len() == 0 {
        assert(es =~= Seq::<(Seq<u8>, TagV)>::empty());
        assert(enc_entries(es) =~= Seq::<u8>::empty());
        assert((enc_entries(es) + seq![0u8])[0] == 0u8);
        assert(bytes[pos] == 0u8);
    } else {
        let name = es[0].0;
        let v0 = es[0].1;
        let k0 = kind_of(v0);
        let piece = seq![k0.id()] + enc_str(name) + enc_payload(v0);
        let rest = enc_entries(es.drop_first()) + seq![0u8];
        assert(enc_entries(es) + seq![0u8] =~= piece + rest);
        lemma_split(bytes, pos, piece, rest);
        lemma_window_index(bytes, pos, piece);
        assert(piece[0] == k0.id());
        assert(bytes[pos] == k0.id());
        lemma_kind_of_not_end(v0);
        lemma_from_id_of_id(k0);
        assert(bytes[pos] != 0) by {
            lemma_from_id_of_id(TagKind::End);
            if k0.id() == 0 {
                assert(TagKind::spec_from_id(0) == Some(k0));
                assert(TagKind::spec_from_id(0) == Some(TagKind::End));
            }
        }
        // the name window
        assert(seq![k0.id()] + enc_str(name) + enc_payload(v0) =~= seq![k0.id()] + (enc_str(name)
            + enc_payload(v0)));
        lemma_split(bytes, pos, seq![k0.id()], enc_str(name) + enc_payload(v0));
        lemma_split(bytes, pos + 1, enc_str(name), enc_payload(v0));
        lemma_dec_enc_str(bytes, pos + 1, name);
        let p2 = pos + 1 + 2 + name.len();
        assert(pos + 1 + enc_str(name).len() == p2);
        lemma_dec_enc_payload(bytes, p2, v0, d);
        let p3 = p2 + enc_payload(v0).len();
        assert(pos < p3 <= bytes.len());
        assert(bytes.subrange(p3, p3 + enc_entries(es.drop_first()).len() + 1) == rest) by {
            assert(p3 == pos + piece.len());
        }
        lemma_dec_enc_entries(bytes, p3, es.drop_first(), d);
        assert((name, v0) == es[0]);
        assert(seq![(name, v0)] + es.drop_first() =~= es);
        assert(p3 + enc_entries(es.drop_first()).len() + 1 == pos + enc_entries(es).len() + 1);
    }
}

/// Round trip: decoding the encoding of any well-formed named tag tree
/// within the depth limit returns exactly that tree, with the whole buffer
/// consumed.
#[verifier::rlimit(100)]
pub proof fn lemma_decode_encode(name: Seq<u8>, v: TagV)
    requires
        wf_str(name),
        wf_tag(v),
        depth_tag(v) <= DEPTH_LIMIT,
    ensures
        dec_document(enc_named(name, v), DEPTH_LIMIT as nat) == Ok::<NamedTagV, NbtError>(
            NamedTagV { name, tag: v },
        ),
{
    let bytes = enc_named(name, v);
    let k = kind_of(v);
    assert(bytes =~= seq![k.id()] + (enc_str(name) + enc_payload(v)));
    assert(bytes.subrange(0, bytes.len() as int) =~= bytes);
    lemma_split(bytes, 0, seq![k.id()], enc_str(name) + enc_payload(v));
    lemma_window_index(bytes, 0, seq![k.id()]);
    assert(bytes[0] == k.id());
    lemma_kind_of_not_end(v);
    lemma_from_id_of_id(k);
    lemma_split(bytes, 1, enc_str(name), enc_payload(v));
    lemma_dec_enc_str(bytes, 1, name);
    let p2 = 3 + name.len() as int;
    lemma_dec_enc_payload(bytes, p2, v, DEPTH_LIMIT as nat);
    assert(p2 + enc_payload(v).len() == bytes.len());
}

/// Idempotent re-encode: encoding what was decoded from an encoding gives
/// back the same bytes.
pub proof fn lemma_reencode_idempotent(name: Seq<u8>, v: TagV)
    requires
        wf_str(name),
        wf_tag(v),
        depth_tag(v) <= DEPTH_LIMIT,
    ensures
        ({
            let bytes = enc_named(name, v);
            &&& dec_document(bytes, DEPTH_LIMIT as nat) matches Ok(nv)
            &&& enc_named_run(
                dec_document(bytes, DEPTH_LIMIT as nat)->Ok_0,
                DEPTH_LIMIT as nat,
            ) == Ok::<Seq<u8>, NbtError>(bytes)
        }),
{
    lemma_decode_encode(name, v);
    lemma_enc_run_ok(v, DEPTH_LIMIT as nat);
}

/// Taking a prefix no longer than the first part of a concatenation reads
/// only from the first part.
proof fn lemma_take_concat(a: Seq<u8>, b: Seq<u8>, m: int)
    requires
        0 <= m <= a.len(),
    ensures
        (a + b).take(m) == a.take(m),
{
    assert((a + b).take(m) =~= a.take(m));
}

/// A truncated matching window splits: when the buffer ends inside `a + b`
/// but at or past the end of `a`, it holds all of `a` and then a prefix of
/// `b`.
proof fn lemma_split_prefix(bytes: Seq<u8>, pos: int, a: Seq<u8>, b: Seq<u8>)
    requires
        0 <= pos <= bytes.len(),
        pos + a.len() <= bytes.len(),
        bytes.len() <= pos + a.len() + b.len(),
        bytes.subrange(pos, bytes.len() as int) == (a + b).take(bytes.len() - pos),
    ensures
        bytes.subrange(pos, pos + a.len()) == a,
        bytes.subrange(pos + a.len(), bytes.len() as int) == b.take(
            bytes.len() - pos - a.len(),
        ),
{
    let whole = bytes.subrange(pos, bytes.len() as int);
    assert forall|i: int| 0 <= i < a.len() implies bytes.subrange(pos, pos + a.len() as int)[i]
        == a[i] by {
        assert(whole[i] == bytes[pos + i]);
        assert(bytes.subrange(pos, pos + a.len() as int)[i] == bytes[pos + i]);
    }
    assert(bytes.subrange(pos, pos + a.len() as int) =~= a);
    assert forall|i: int| 0 <= i < bytes.len() - pos - a.len() implies #[trigger] (bytes.subrange(
        pos + a.len(),
        bytes.len() as int,
    )[i]) == b.take(bytes.len() - pos - a.len())[i] by {
        assert(whole[a.len() + i] == bytes[pos + a.len() + i]);
        assert(bytes.subrange(pos + a.len(), bytes.len() as int)[i] == bytes[pos + a.len() + i]);
    }
    assert(bytes.subrange(pos + a.len(), bytes.len() as int) =~= b.take(
        bytes.len() - pos - a.len(),
    ));
}

/// A string whose encoding is cut short reads as `UnexpectedEof`.
proof fn lemma_trunc_str(bytes: Seq<u8>, pos: int, s: Seq<u8>)
    requires
        wf_str(s),
        0 <= pos <= bytes.len(),
        bytes.len() < pos + 2 + s.len(),
        bytes.subrange(pos, bytes.len() as int) == enc_str(s).take(bytes.len() - pos),
    ensures
        dec_str(bytes, pos) == Err::<(Seq<u8>, int), NbtError>(NbtError::UnexpectedEof),
{
    if bytes.len() >= pos + 2 {
        let lu = s.len() as u16;
        assert(enc_str(s) == u16_be_bytes(lu) + s);
        lemma_split_prefix(bytes, pos, u16_be_bytes(lu), s);
        lemma_window_index(bytes, pos, u16_be_bytes(lu));
        lemma_u16_be_round_trip(lu);
        assert(crate::bytes::u16_of_be(bytes[pos], bytes[pos + 1]) == lu);
    }
}

/// A 32-bit array window cut short reads as `UnexpectedEof`.
proof fn lemma_trunc_i32s(bytes: Seq<u8>, pos: int, s: Seq<i32>)
    requires
        0 <= pos <= bytes.len(),
        bytes.len() < pos + enc_i32s(s).len(),
        bytes.subrange(pos, bytes.len() as int) == enc_i32s(s).take(bytes.len() - pos),
    ensures
        dec_i32s(bytes, pos, s.len()) == Err::<(Seq<i32>, int), NbtError>(
            NbtError::UnexpectedEof,
        ),
    decreases s.len(),
{
    lemma_enc_i32s_len(s);
    if bytes.len() >= pos + 4 {
        lemma_enc_i32s_len(s.drop_first());
        lemma_split_prefix(bytes, pos, u32_be_bytes(s[0] as u32), enc_i32s(s.drop_first()));
        lemma_trunc_i32s(bytes, pos + 4, s.drop_first());
    }
}

/// A 64-bit array window cut short reads as `UnexpectedEof`.
proof fn lemma_trunc_i64s(bytes: Seq<u8>, pos: int, s: Seq<i64>)
    requires
        0 <= pos <= bytes.len(),
        bytes.len() < pos + enc_i64s(s).len(),
        bytes.subrange(pos, bytes.len() as int) == enc_i64s(s).take(bytes.len() - pos),
    ensures
        dec_i64s(bytes, pos, s.len()) == Err::<(Seq<i64>, int), NbtError>(
            NbtError::UnexpectedEof,
        ),
    decreases s.len(),
{
    lemma_enc_i64s_len(s);
    if bytes.len() >= pos + 8 {
        lemma_enc_i64s_len(s.drop_first());
        lemma_split_prefix(bytes, pos, u64_be_bytes(s[0] as u64), enc_i64s(s.drop_first()));
        lemma_trunc_i64s(bytes, pos + 8, s.drop_first());
    }
}

/// The list case of the truncation law.
#[verifier::rlimit(100)]
proof fn lemma_trunc_list(bytes: Seq<u8>, pos: int, v: TagV, d: nat)
    requires
        v is List,
        wf_tag(v),
        depth_tag(v) <= d,
        0 <= pos <= bytes.len(),
        bytes.len() < pos + enc_payload(v).len(),
        bytes.subrange(pos, bytes.len() as int) == enc_payload(v).take(bytes.len() - pos),
    ensures
        dec_payload(bytes, pos, TagKind::List, d) == Err::<(TagV, int), NbtError>(
            NbtError::UnexpectedEof,
        ),
    decreases v, 0nat,
{
    let k = v->List_0;
    let es = v->List_1;
    let nu = es.len() as u32;
    if bytes.len() >= pos + 5 {
        if es.len() == 0 {
            assert(enc_elems(es) =~= Seq::<u8>::empty());
            assert(false);
        }
        assert(enc_payload(v) =~= seq![k.id()] + (u32_be_bytes(nu) + enc_elems(es)));
        lemma_split_prefix(bytes, pos, seq![k.id()], u32_be_bytes(nu) + enc_elems(es));
        lemma_window_index(bytes, pos, seq![k.id()]);
        lemma_split_prefix(bytes, pos + 1, u32_be_bytes(nu), enc_elems(es));
        lemma_window_index(bytes, pos + 1, u32_be_bytes(nu));
        assert(bytes[pos] == k.id());
        assert(bytes[pos + 1] == (nu >> 24) as u8);
        assert(bytes[pos + 2] == (nu >> 16) as u8);
        assert(bytes[pos + 3] == (nu >> 8) as u8);
        assert(bytes[pos + 4] == nu as u8);
        lemma_u32_be_round_trip(nu);
        assert(nu as i32 == es.len());
        lemma_from_id_of_id(k);
        lemma_trunc_elems(bytes, pos + 5, k, es, (d - 1) as nat);
    }
}

/// The compound case of the truncation law.
proof fn lemma_trunc_compound(bytes: Seq<u8>, pos: int, v: TagV, d: nat)
    requires
        v is Compound,
        wf_tag(v),
        depth_tag(v) <= d,
        0 <= pos <= bytes.len(),
        bytes.len() < pos + enc_payload(v).len(),
        bytes.subrange(pos, bytes.len() as int) == enc_payload(v).take(bytes.len() - pos),
    ensures
        dec_payload(bytes, pos, TagKind::Compound, d) == Err::<(TagV, int), NbtError>(
            NbtError::UnexpectedEof,
        ),
    decreases v, 0nat,
{
    let es = v->Compound_0;
    lemma_trunc_entries(bytes, pos, es, (d - 1) as nat);
}

/// A payload whose encoding is cut short at any byte reads as
/// `UnexpectedEof` — never as any other error and never as a value.
#[verifier::rlimit(100)]
proof fn lemma_trunc_payload(bytes: Seq<u8>, pos: int, v: TagV, d: nat)
    requires
        wf_tag(v),
        depth_tag(v) <= d,
        0 <= pos <= bytes.len(),
        bytes.len() < pos + enc_payload(v).len(),
        bytes.subrange(pos, bytes.len() as int) == enc_payload(v).take(bytes.len() - pos),
    ensures
        dec_payload(bytes, pos, kind_of(v), d) == Err::<(TagV, int), NbtError>(
            NbtError::UnexpectedEof,
        ),
    decreases v, 1nat,
{
    match v {
        TagV::Byte(_) => {},
        TagV::Short(_) => {},
        TagV::Int(_) => {},
        TagV::Long(_) => {},
        TagV::Float(_) => {},
        TagV::Double(_) => {},
        TagV::ByteArray(s) => {
            if bytes.len() >= pos + 4 {
                let nu = s.len() as u32;
                lemma_split_prefix(bytes, pos, u32_be_bytes(nu), bytes_of_i8s(s));
                lemma_window_index(bytes, pos, u32_be_bytes(nu));
                lemma_u32_be_round_trip(nu);
                assert(nu as i32 == s.len());
            }
        },
        TagV::String(s) => {
            lemma_trunc_str(bytes, pos, s);
        },
        TagV::List(_, _) => {
            lemma_trunc_list(bytes, pos, v, d);
        },
        TagV::Compound(_) => {
            lemma_trunc_compound(bytes, pos, v, d);
        },
        TagV::IntArray(s) => {
            if bytes.len() >= pos + 4 {
                let nu = s.len() as u32;
                lemma_enc_i32s_len(s);
                lemma_split_prefix(bytes, pos, u32_be_bytes(nu), enc_i32s(s));
                lemma_window_index(bytes, pos, u32_be_bytes(nu));
                lemma_u32_be_round_trip(nu);
                assert(nu as i32 == s.len());
                lemma_trunc_i32s(bytes, pos + 4, s);
            }
        },
        TagV::LongArray(s) => {
            if bytes.len() >= pos + 4 {
                let nu = s.len() as u32;
                lemma_enc_i64s_len(s);
                lemma_split_prefix(bytes, pos, u32_be_bytes(nu), enc_i64s(s));
                lemma_window_index(bytes, pos, u32_be_bytes(nu));
                lemma_u32_be_round_trip(nu);
                assert(nu as i32 == s.len());
                lemma_trunc_i64s(bytes, pos + 4, s);
            }
        },
    }
}

/// List elements whose window is cut short read as `UnexpectedEof`.
proof fn lemma_trunc_elems(bytes: Seq<u8>, pos: int, k: TagKind, es: Seq<TagV>, d: nat)
    requires
        wf_elems(k, es),
        depth_elems(es) <= d,
        0 <= pos <= bytes.len(),
        bytes.len() < pos + enc_elems(es).len(),
        bytes.subrange(pos, bytes.len() as int) == enc_elems(es).take(bytes.len() - pos),
    ensures
        dec_elems(bytes, pos, k, es.len(), d) == Err::<(Seq<TagV>, int), NbtError>(
            NbtError::UnexpectedEof,
        ),
    decreases es, 1nat,
{
    if es.len() == 0 {
        assert(false);
    } else {
        let head = enc_payload(es[0]);
        let tail = enc_elems(es.drop_first());
        if bytes.len() < pos + head.len() {
            lemma_take_concat(head, tail, bytes.len() - pos);
            lemma_trunc_payload(bytes, pos, es[0], d);
        } else {
            lemma_split_prefix(bytes, pos, head, tail);
            lemma_dec_enc_payload(bytes, pos, es[0], d);
            lemma_trunc_elems(bytes, pos + head.len(), k, es.drop_first(), d);
        }
    }
}

/// Compound entries whose window, `End` byte included, is cut short read as
/// `UnexpectedEof`.
#[verifier::rlimit(100)]
proof fn lemma_trunc_entries(bytes: Seq<u8>, pos: int, es: Seq<(Seq<u8>, TagV)>, d: nat)
    requires
        wf_entries(es),
        depth_entries(es) <= d,
        0 <= pos <= bytes.len(),
        bytes.len() < pos + enc_entries(es).len() + 1,
        bytes.subrange(pos, bytes.len() as int) == (enc_entries(es) + seq![0u8]).take(
            bytes.len() - pos,
        ),
    ensures
        dec_entries(bytes, pos, d) == Err::<(Seq<(Seq<u8>, TagV)>, int), NbtError>(
            NbtError::UnexpectedEof,
        ),
    decreases es, 1nat,
{
    if es.len() == 0 {
        assert(enc_entries(es) =~= Seq::<u8>::empty());
        assert(pos == bytes.len());
    } else if pos < bytes.len() {
        let name = es[0].0;
        let v0 = es[0].1;
        let k0 = kind_of(v0);
        let b_str = enc_str(name);
        let c_pay = enc_payload(v0);
        let rest = enc_entries(es.drop_first()) + seq![0u8];
        assert(enc_entries(es) + seq![0u8] =~= seq![k0.id()] + (b_str + (c_pay + rest)));
        lemma_split_prefix(bytes, pos, seq![k0.id()], b_str + (c_pay + rest));
        lemma_window_index(bytes, pos, seq![k0.id()]);
        assert(bytes[pos] == k0.id());
        lemma_kind_of_not_end(v0);
        lemma_from_id_of_id(k0);
        assert(bytes[pos] != 0) by {
            lemma_from_id_of_id(TagKind::End);
            if k0.id() == 0 {
                assert(TagKind::spec_from_id(0) == Some(k0));
                assert(TagKind::spec_from_id(0) == Some(TagKind::End));
            }
        }
        if bytes.len() < pos + 1 + 2 + name.len() {
            lemma_take_concat(b_str, c_pay + rest, bytes.len() - (pos + 1));
            lemma_trunc_str(bytes, pos + 1, name);
        } else {
            lemma_split_prefix(bytes, pos + 1, b_str, c_pay + rest);
            lemma_dec_enc_str(bytes, pos + 1, name);
            let p2 = pos + 3 + name.len() as int;
            assert(pos + 1 + b_str.len() == p2);
            if bytes.len() < p2 + c_pay.len() {
                lemma_take_concat(c_pay, rest, bytes.len() - p2);
                lemma_trunc_payload(bytes, p2, v0, d);
            } else {
                lemma_split_prefix(bytes, p2, c_pay, rest);
                lemma_dec_enc_payload(bytes, p2, v0, d);
                let p3 = p2 + c_pay.len();
                assert(pos < p3 <= bytes.len());
                assert(enc_entries(es).len() == (1 + b_str.len() + c_pay.len()) + enc_entries(
                    es.drop_first(),
                ).len());
                lemma_trunc_entries(bytes, p3, es.drop_first(), d);
            }
        }
    }
}

/// Truncation law: cutting the encoding of any well-formed named tag tree
/// at any byte offset makes decoding fail with `UnexpectedEof` — never with
/// another error, and never with a value.
#[verifier::rlimit(100)]
pub proof fn lemma_truncation_eof(name: Seq<u8>, v: TagV, n: int)
    requires
        wf_str(name),
        wf_tag(v),
        depth_tag(v) <= DEPTH_LIMIT,
        0 <= n < enc_named(name, v).len(),
    ensures
        dec_document(enc_named(name, v).take(n), DEPTH_LIMIT as nat) == Err::<
            NamedTagV,
            NbtError,
        >(NbtError::UnexpectedEof),
{
    let full = enc_named(name, v);
    let bytes = full.take(n);
    let k = kind_of(v);
    assert(bytes.len() == n);
    assert(full =~= seq![k.id()] + (enc_str(name) + enc_payload(v)));
    assert(bytes.subrange(0, n) =~= (seq![k.id()] + (enc_str(name) + enc_payload(v))).take(n));
    if n > 0 {
        lemma_split_prefix(bytes, 0, seq![k.id()], enc_str(name) + enc_payload(v));
        lemma_window_index(bytes, 0, seq![k.id()]);
        assert(bytes[0] == k.id());
        lemma_kind_of_not_end(v);
        lemma_from_id_of_id(k);
        if n < 3 + name.len() {
            lemma_take_concat(enc_str(name), enc_payload(v), n - 1);
            lemma_trunc_str(bytes, 1, name);
        } else {
            lemma_split_prefix(bytes, 1, enc_str(name), enc_payload(v));
            lemma_dec_enc_str(bytes, 1, name);
            let p2 = 3 + name.len() as int;
            lemma_trunc_payload(bytes, p2, v, DEPTH_LIMIT as nat);
        }
    }
}

/// A 32-bit array decode returns exactly the announced element count.
proof fn lemma_dec_i32s_len(bytes: Seq<u8>, pos: int, n: nat)
    ensures
        dec_i32s(bytes, pos, n) matches Ok((s, _)) ==> s.len() == n,
    decreases n,
{
    if n > 0 {
        lemma_dec_i32s_len(bytes, pos + 4, (n - 1) as nat);
    }
}

/// A 64-bit array decode returns exactly the announced element count.
proof fn lemma_dec_i64s_len(bytes: Seq<u8>, pos: int, n: nat)
    ensures
        dec_i64s(bytes, pos, n) matches Ok((s, _)) ==> s.len() == n,
    decreases n,
{
    if n > 0 {
        lemma_dec_i64s_len(bytes, pos + 8, (n - 1) as nat);
    }
}

/// Whatever the input bytes, a payload the decoder accepts is well formed,
/// has the kind it was decoded under, and fits the depth budget it was
/// decoded with.
#[verifier::rlimit(100)]
proof fn lemma_dec_payload_wf(bytes: Seq<u8>, pos: int, k: TagKind, d: nat)
    ensures
        dec_payload(bytes, pos, k, d) matches Ok((v, _)) ==> wf_tag(v) && depth_tag(v) <= d
            && kind_of(v) == k,
    decreases d, 0nat, 0nat,
{
    match k {
        TagKind::List => {
            if 0 <= pos && pos + 5 <= bytes.len() {
                let n = crate::bytes::u32_of_be(
                    bytes[pos + 1],
                    bytes[pos + 2],
                    bytes[pos + 3],
                    bytes[pos + 4],
                ) as i32;
                if n <= 0 {
                    assert(wf_elems(TagKind::End, Seq::<TagV>::empty()));
                } else {
                    match TagKind::spec_from_id(bytes[pos]) {
                        Some(ek) => {
                            if ek != TagKind::End && d > 0 {
                                lemma_dec_elems_wf(bytes, pos + 5, ek, n as nat, (d - 1) as nat);
                            }
                        },
                        None => {},
                    }
                }
            }
        },
        TagKind::Compound => {
            if d > 0 {
                lemma_dec_entries_wf(bytes, pos, (d - 1) as nat);
            }
        },
        TagKind::IntArray => {
            if 0 <= pos && pos + 4 <= bytes.len() {
                let n = crate::bytes::u32_of_be(
                    bytes[pos],
                    bytes[pos + 1],
                    bytes[pos + 2],
                    bytes[pos + 3],
                ) as i32;
                if n >= 0 {
                    lemma_dec_i32s_len(bytes, pos + 4, n as nat);
                }
            }
        },
        TagKind::LongArray => {
            if 0 <= pos && pos + 4 <= bytes.len() {
                let n = crate::bytes::u32_of_be(
                    bytes[pos],
                    bytes[pos + 1],
                    bytes[pos + 2],
                    bytes[pos + 3],
                ) as i32;
                if n >= 0 {
                    lemma_dec_i64s_len(bytes, pos + 4, n as nat);
                }
            }
        },
        _ => {},
    }
}

/// List elements the decoder accepts under element kind `k` all have kind
/// `k`, are well formed, and fit the depth budget.
proof fn lemma_dec_elems_wf(bytes: Seq<u8>, pos: int, k: TagKind, n: nat, d: nat)
    ensures
        dec_elems(bytes, pos, k, n, d) matches Ok((es, _)) ==> es.len() == n && wf_elems(k, es)
            && depth_elems(es) <= d,
    decreases d, 1nat, n,
{
    if n > 0 {
        lemma_dec_payload_wf(bytes, pos, k, d);
        match dec_payload(bytes, pos, k, d) {
            Ok((v, p)) => {
                lemma_dec_elems_wf(bytes, p, k, (n - 1) as nat, d);
                match dec_elems(bytes, p, k, (n - 1) as nat, d) {
                    Ok((rest, _)) => {
                        let es = seq![v] + rest;
                        assert(es[0] == v);
                        assert(es.drop_first() =~= rest);
                    },
                    Err(_) => {},
                }
            },
            Err(_) => {},
        }
    }
}

/// Compound entries the decoder accepts carry well-formed names and
/// well-formed values within the depth budget.
#[verifier::rlimit(100)]
proof fn lemma_dec_entries_wf(bytes: Seq<u8>, pos: int, d: nat)
    ensures
        dec_entries(bytes, pos, d) matches Ok((es, _)) ==> wf_entries(es) && depth_entries(es)
            <= d,
    decreases d, 1nat, bytes.len() - pos,
{
    if 0 <= pos && pos < bytes.len() && bytes[pos] != 0 {
        match TagKind::spec_from_id(bytes[pos]) {
            Some(k) => {
                match dec_str(bytes, pos + 1) {
                    Ok((name, p2)) => {
                        lemma_dec_payload_wf(bytes, p2, k, d);
                        match dec_payload(bytes, p2, k, d) {
                            Ok((v, p3)) => {
                                if pos < p3 <= bytes.len() {
                                    lemma_dec_entries_wf(bytes, p3, d);
                                    match dec_entries(bytes, p3, d) {
                                        Ok((rest, _)) => {
                                            let es = seq![(name, v)] + rest;
                                            assert(es[0] == (name, v));
                                            assert(es.drop_first() =~= rest);
                                        },
                                        Err(_) => {},
                                    }
                                }
                            },
                            Err(_) => {},
                        }
                    },
                    Err(_) => {},
                }
            },
            None => {},
        }
    }
}

/// Whatever the input bytes, a tree the decoder accepts is well formed and
/// within the depth limit, so encoding it succeeds.
pub proof fn lemma_decoded_trees_reencode(bytes: Seq<u8>)
    ensures
        dec_document(bytes, DEPTH_LIMIT as nat) matches Ok(nv) ==> wf_named(nv) && depth_tag(
            nv.tag,
        ) <= DEPTH_LIMIT && enc_named_run(nv, DEPTH_LIMIT as nat) is Ok,
{
    match dec_named(bytes, 0, DEPTH_LIMIT as nat) {
        Ok((nv, _)) => {
            match TagKind::spec_from_id(bytes[0]) {
                Some(k) => {
                    match dec_str(bytes, 1) {
                        Ok((_, p2)) => {
                            lemma_dec_payload_wf(bytes, p2, k, DEPTH_LIMIT as nat);
                            lemma_enc_run_ok(nv.tag, DEPTH_LIMIT as nat);
                        },
                        Err(_) => {},
                    }
                },
                None => {},
            }
        },
        Err(_) => {},
    }
}

/// Round trip stated over whole named-tag views.
pub proof fn lemma_round_trip_named(nv: NamedTagV)
    requires
        wf_named(nv),
        depth_tag(nv.tag) <= DEPTH_LIMIT,
    ensures
        dec_document(enc_named(nv.name, nv.tag), DEPTH_LIMIT as nat) == Ok::<NamedTagV, NbtError>(
            nv,
        ),
{
    lemma_decode_encode(nv.name, nv.tag);
    assert(NamedTagV { name: nv.name, tag: nv.tag } =~= nv);
}

} // verus!
