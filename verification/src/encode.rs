//! The tree encoder: walks an in-memory tag tree and writes the bytes the
//! decoder accepts.
//!
//! [`enc_payload`] and its companions give the byte sequence of a payload as
//! a total mathematical function.  [`enc_run`] is the fueled, fallible
//! mirror of the executable encoder: it says exactly which trees encode and
//! which fail, and with which error.  On every well-formed tree within the
//! depth limit the two agree, which is what [`encode`]'s contract states.

use vstd::prelude::*;
use crate::bytes::push_u16_be;
use crate::bytes::push_u32_be;
use crate::bytes::push_u64_be;
use crate::bytes::u16_be_bytes;
use crate::bytes::u32_be_bytes;
use crate::bytes::u64_be_bytes;
use crate::error::NbtError;
use crate::kind::TagKind;
use crate::mutf8::NbtString;
use crate::mutf8::wf_str;
use crate::tag::DEPTH_LIMIT;
use crate::tag::NamedTag;
use crate::tag::NamedTagV;
use crate::tag::Tag;
use crate::tag::TagV;
use crate::tag::depth_elems;
use crate::tag::depth_entries;
use crate::tag::depth_tag;
use crate::tag::entries_view;
use crate::tag::kind_of;
use crate::tag::lemma_entries_view_index;
use crate::tag::lemma_tags_view_index;
use crate::tag::tags_view;
use crate::tag::wf_elems;
use crate::tag::wf_entries;
use crate::tag::wf_named;
use crate::tag::wf_tag;

verus! {

/// The unsigned bytes of a signed byte array, one for one.
pub open spec fn bytes_of_i8s(s: Seq<i8>) -> Seq<u8> {
    s.map_values(|x: i8| x as u8)
}

/// The concatenated big-endian encodings of 32-bit array elements.
pub open spec fn enc_i32s(s: Seq<i32>) -> Seq<u8>
    decreases s.len(),
{
    if s.len() == 0 {
        Seq::empty()
    } else {
        u32_be_bytes(s[0] as u32) + enc_i32s(s.drop_first())
    }
}

/// The concatenated big-endian encodings of 64-bit array elements.
pub open spec fn enc_i64s(s: Seq<i64>) -> Seq<u8>
    decreases s.len(),
{
    if s.len() == 0 {
        Seq::empty()
    } else {
        u64_be_bytes(s[0] as u64) + enc_i64s(s.drop_first())
    }
}

/// The wire form of a string: 16-bit big-endian byte length, then the bytes.
pub open spec fn enc_str(s: Seq<u8>) -> Seq<u8> {
    u16_be_bytes(s.len() as u16) + s
}

/// The payload bytes of one tag: what follows its kind/name header.
pub open spec fn enc_payload(v: TagV) -> Seq<u8>
    decreases v,
{
    match v {
        TagV::Byte(x) => seq![x as u8],
        TagV::Short(x) => u16_be_bytes(x as u16),
        TagV::Int(x) => u32_be_bytes(x as u32),
        TagV::Long(x) => u64_be_bytes(x as u64),
        TagV::Float(b) => u32_be_bytes(b),
        TagV::Double(b) => u64_be_bytes(b),
        TagV::ByteArray(s) => u32_be_bytes(s.len() as u32) + bytes_of_i8s(s),
        TagV::String(s) => enc_str(s),
        TagV::List(k, es) => seq![k.id()] + u32_be_bytes(es.len() as u32) + enc_elems(es),
        TagV::Compound(es) => enc_entries(es) + seq![0u8],
        TagV::IntArray(s) => u32_be_bytes(s.len() as u32) + enc_i32s(s),
        TagV::LongArray(s) => u32_be_bytes(s.len() as u32) + enc_i64s(s),
    }
}

/// The concatenated payloads of list elements, which carry neither kind
/// bytes nor names.
pub open spec fn enc_elems(es: Seq<TagV>) -> Seq<u8>
    decreases es,
{
    if es.len() == 0 {
        Seq::empty()
    } else {
        enc_payload(es[0]) + enc_elems(es.drop_first())
    }
}

/// The concatenated encodings of compound entries: kind byte, name, payload
/// for each, without the terminating `End` byte.
pub open spec fn enc_entries(es: Seq<(Seq<u8>, TagV)>) -> Seq<u8>
    decreases es,
{
    if es.len() == 0 {
        Seq::empty()
    } else {
        seq![kind_of(es[0].1).id()] + enc_str(es[0].0) + enc_payload(es[0].1) + enc_entries(
            es.drop_first(),
        )
    }
}

/// The encoding of a whole named tag: kind byte, name, payload.
pub open spec fn enc_named(name: Seq<u8>, v: TagV) -> Seq<u8> {
    seq![kind_of(v).id()] + enc_str(name) + enc_payload(v)
}

/// What the executable encoder computes for a payload with `d` depth units
/// left: the bytes of [`enc_payload`], or the first size or depth violation
/// met in writing order.
pub open spec fn enc_run(v: TagV, d: nat) -> Result<Seq<u8>, NbtError>
    decreases v,
{
    match v {
        TagV::Byte(_) => Ok(enc_payload(v)),
        TagV::Short(_) => Ok(enc_payload(v)),
        TagV::Int(_) => Ok(enc_payload(v)),
        TagV::Long(_) => Ok(enc_payload(v)),
        TagV::Float(_) => Ok(enc_payload(v)),
        TagV::Double(_) => Ok(enc_payload(v)),
        TagV::ByteArray(s) => if s.len() > 0x7FFF_FFFF {
            Err(NbtError::LengthOverflow)
        } else {
            Ok(enc_payload(v))
        },
        TagV::String(s) => if s.len() > 0xFFFF {
            Err(NbtError::StringTooLong)
        } else {
            Ok(enc_payload(v))
        },
        TagV::List(k, es) => if es.len() > 0x7FFF_FFFF {
            Err(NbtError::LengthOverflow)
        } else if es.len() == 0 {
            Ok(seq![k.id()] + u32_be_bytes(0))
        } else if d == 0 {
            Err(NbtError::NestingTooDeep)
        } else {
            match enc_elems_run(es, (d - 1) as nat) {
                Ok(body) => Ok(seq![k.id()] + u32_be_bytes(es.len() as u32) + body),
                Err(e) => Err(e),
            }
        },
        TagV::Compound(es) => if d == 0 {
            Err(NbtError::NestingTooDeep)
        } else {
            match enc_entries_run(es, (d - 1) as nat) {
                Ok(body) => Ok(body + seq![0u8]),
                Err(e) => Err(e),
            }
        },
        TagV::IntArray(s) => if s.len() > 0x7FFF_FFFF {
            Err(NbtError::LengthOverflow)
        } else {
            Ok(enc_payload(v))
        },
        TagV::LongArray(s) => if s.len() > 0x7FFF_FFFF {
            Err(NbtError::LengthOverflow)
        } else {
            Ok(enc_payload(v))
        },
    }
}

/// What the executable encoder computes for list elements, left to right.
pub open spec fn enc_elems_run(es: Seq<TagV>, d: nat) -> Result<Seq<u8>, NbtError>
    decreases es,
{
    if es.len() == 0 {
        Ok(Seq::empty())
    } else {
        match enc_run(es[0], d) {
            Ok(head) => match enc_elems_run(es.drop_first(), d) {
                Ok(tail) => Ok(head + tail),
                Err(e) => Err(e),
            },
            Err(e) => Err(e),
        }
    }
}

/// What the executable encoder computes for compound entries, left to right.
pub open spec fn enc_entries_run(es: Seq<(Seq<u8>, TagV)>, d: nat) -> Result<Seq<u8>, NbtError>
    decreases es,
{
    if es.len() == 0 {
        Ok(Seq::empty())
    } else if es[0].0.len() > 0xFFFF {
        Err(NbtError::StringTooLong)
    } else {
        match enc_run(es[0].1, d) {
            Ok(payload) => match enc_entries_run(es.drop_first(), d) {
                Ok(tail) => Ok(
                    seq![kind_of(es[0].1).id()] + enc_str(es[0].0) + payload + tail,
                ),
                Err(e) => Err(e),
            },
            Err(e) => Err(e),
        }
    }
}

/// What the executable encoder computes for a whole named tag.
pub open spec fn enc_named_run(nv: NamedTagV, d: nat) -> Result<Seq<u8>, NbtError> {
    if nv.name.len() > 0xFFFF {
        Err(NbtError::StringTooLong)
    } else {
        match enc_run(nv.tag, d) {
            Ok(payload) => Ok(seq![kind_of(nv.tag).id()] + enc_str(nv.name) + payload),
            Err(e) => Err(e),
        }
    }
}

/// Law: on a well-formed payload within the depth budget, the fallible
/// encoder succeeds and writes exactly the mathematical encoding.
pub proof fn lemma_enc_run_ok(v: TagV, d: nat)
    requires
        wf_tag(v),
        depth_tag(v) <= d,
    ensures
        enc_run(v, d) == Ok::<Seq<u8>, NbtError>(enc_payload(v)),
    decreases v,
{
    match v {
        TagV::List(k, es) => {
            if es.len() == 0 {
                assert(enc_elems(es) =~= Seq::<u8>::empty());
                assert(seq![k.id()] + u32_be_bytes(0) =~= enc_payload(v));
            } else {
                lemma_enc_elems_run_ok(k, es, (d - 1) as nat);
            }
        },
        TagV::Compound(es) => {
            lemma_enc_entries_run_ok(es, (d - 1) as nat);
        },
        _ => {},
    }
}

/// Law: on well-formed list elements within the depth budget, the fallible
/// encoder writes exactly their concatenated payloads.
pub proof fn lemma_enc_elems_run_ok(k: TagKind, es: Seq<TagV>, d: nat)
    requires
        wf_elems(k, es),
        depth_elems(es) <= d,
    ensures
        enc_elems_run(es, d) == Ok::<Seq<u8>, NbtError>(enc_elems(es)),
    decreases es,
{
    if es.len() > 0 {
        lemma_enc_run_ok(es[0], d);
        lemma_enc_elems_run_ok(k, es.drop_first(), d);
    }
}

/// Law: on well-formed compound entries within the depth budget, the
/// fallible encoder writes exactly their concatenated encodings.
pub proof fn lemma_enc_entries_run_ok(es: Seq<(Seq<u8>, TagV)>, d: nat)
    requires
        wf_entries(es),
        depth_entries(es) <= d,
    ensures
        enc_entries_run(es, d) == Ok::<Seq<u8>, NbtError>(enc_entries(es)),
    decreases es,
{
    if es.len() > 0 {
        lemma_enc_run_ok(es[0].1, d);
        lemma_enc_entries_run_ok(es.drop_first(), d);
    }
}

/// Appends all of `bytes`.
fn push_bytes(out: &mut Vec<u8>, bytes: &Vec<u8>)
    ensures
        final(out)@ == old(out)@ + bytes@,
{
    let n: usize = bytes.len();
    let mut i: usize = 0;
    while i < n
        invariant
            i <= n,
            n == bytes@.len(),
            out@ == old(out)@ + bytes@.subrange(0, i as int),
        decreases n - i,
    {
        out.push(bytes[i]);
        proof {
            assert(bytes@.subrange(0, i + 1) =~= bytes@.subrange(0, i as int).push(
                bytes@[i as int],
            ));
        }
        i = i + 1;
    }
    proof {
        assert(bytes@.subrange(0, n as int) =~= bytes@);
    }
}

/// Appends the wire form of a string: its 16-bit length, then its bytes.
fn push_str(out: &mut Vec<u8>, s: &NbtString)
    ensures
        final(out)@ == old(out)@ + enc_str(s@),
        wf_str(s@),
{
    proof {
        use_type_invariant(s);
    }
    push_u16_be(out, s.len() as u16);
    push_bytes(out, s.as_bytes());
    proof {
        assert(out@ =~= old(out)@ + enc_str(s@));
    }
}

/// Encodes one payload with `d` depth units left, appending to `out`.
/// On an error, `out` may hold a partial prefix; the caller discards it.
fn enc_tag(t: &Tag, d: u32, out: &mut Vec<u8>) -> (r: Result<(), NbtError>)
    ensures
        (match enc_run(t@, d as nat) {
            Ok(s) => r is Ok && final(out)@ == old(out)@ + s,
            Err(e) => r == Err::<(), NbtError>(e),
        }),
    decreases d,
{
    match t {
        Tag::Byte(x) => {
            out.push(*x as u8);
            proof {
                assert(out@ =~= old(out)@ + enc_payload(t@));
            }
            Ok(())
        },
        Tag::Short(x) => {
            push_u16_be(out, *x as u16);
            Ok(())
        },
        Tag::Int(x) => {
            push_u32_be(out, *x as u32);
            Ok(())
        },
        Tag::Long(x) => {
            push_u64_be(out, *x as u64);
            Ok(())
        },
        Tag::Float(b) => {
            push_u32_be(out, *b);
            Ok(())
        },
        Tag::Double(b) => {
            push_u64_be(out, *b);
            Ok(())
        },
        Tag::ByteArray(v) => {
            if v.len() > 0x7FFF_FFFF {
                return Err(NbtError::LengthOverflow);
            }
            push_u32_be(out, v.len() as u32);
            let ghost mid = out@;
            let n: usize = v.len();
            let mut i: usize = 0;
            while i < n
                invariant
                    i <= n,
                    n == v@.len(),
                    out@ == mid + bytes_of_i8s(v@.subrange(0, i as int)),
                decreases n - i,
            {
                out.push(v[i] as u8);
                proof {
                    assert(v@.subrange(0, i + 1) =~= v@.subrange(0, i as int).push(v@[i as int]));
                    assert(bytes_of_i8s(v@.subrange(0, i + 1)) =~= bytes_of_i8s(
                        v@.subrange(0, i as int),
                    ).push(v@[i as int] as u8));
                }
                i = i + 1;
            }
            proof {
                assert(v@.subrange(0, n as int) =~= v@);
                assert(out@ =~= old(out)@ + enc_payload(t@));
            }
            Ok(())
        },
        Tag::String(s) => {
            push_str(out, s);
            Ok(())
        },
        Tag::List(k, es) => {
            proof {
                lemma_tags_view_index(es@);
            }
            if es.len() > 0x7FFF_FFFF {
                return Err(NbtError::LengthOverflow);
            }
            out.push(k.id());
            push_u32_be(out, es.len() as u32);
            if es.len() == 0 {
                proof {
                    assert(out@ =~= old(out)@ + (seq![k.id()] + u32_be_bytes(0)));
                }
                return Ok(());
            }
            if d == 0 {
                return Err(NbtError::NestingTooDeep);
            }
            let ghost mid = out@;
            let ghost vs = tags_view(es@);
            let ghost dd = (d - 1) as nat;
            let ghost mut w: Seq<u8> = Seq::empty();
            let n: usize = es.len();
            let mut i: usize = 0;
            proof {
                assert(vs.skip(0) =~= vs);
                if enc_elems_run(vs, dd) is Ok {
                    let rest = enc_elems_run(vs, dd)->Ok_0;
                    assert(Seq::<u8>::empty() + rest =~= rest);
                }
                assert(mid + Seq::<u8>::empty() =~= mid);
            }
            while i < n
                invariant
                    i <= n,
                    d >= 1,
                    n == es@.len(),
                    1 <= n <= 0x7FFF_FFFF,
                    vs == tags_view(es@),
                    vs.len() == n,
                    t@ == TagV::List(*k, vs),
                    forall|j: int| 0 <= j < n ==> vs[j] == es@[j]@,
                    dd == (d - 1) as nat,
                    out@ == mid + w,
                    mid == old(out)@ + seq![k.id()] + u32_be_bytes(n as u32),
                    enc_elems_run(vs, dd) == (match enc_elems_run(vs.skip(i as int), dd) {
                        Ok(rest) => Ok::<Seq<u8>, NbtError>(w + rest),
                        Err(e) => Err::<Seq<u8>, NbtError>(e),
                    }),
                decreases n - i,
            {
                proof {
                    assert(vs.skip(i as int)[0] == vs[i as int]);
                    assert(vs.skip(i as int).drop_first() =~= vs.skip(i + 1));
                }
                match enc_tag(&es[i], d - 1, out) {
                    Ok(()) => {
                        proof {
                            let s_i = enc_run(vs[i as int], dd)->Ok_0;
                            let w_old = w;
                            w = w + s_i;
                            if enc_elems_run(vs.skip(i + 1), dd) is Ok {
                                let rest = enc_elems_run(vs.skip(i + 1), dd)->Ok_0;
                                assert(w_old + (s_i + rest) =~= w + rest);
                            }
                        }
                    },
                    Err(e) => {
                        return Err(e);
                    },
                }
                i = i + 1;
            }
            proof {
                assert(vs.skip(n as int) =~= Seq::<TagV>::empty());
                assert(w + Seq::<u8>::empty() =~= w);
                assert(out@ =~= old(out)@ + (seq![k.id()] + u32_be_bytes(es@.len() as u32) + w));
            }
            Ok(())
        },
        Tag::Compound(es) => {
            if d == 0 {
                return Err(NbtError::NestingTooDeep);
            }
            proof {
                lemma_entries_view_index(es@);
            }
            let ghost base = out@;
            let ghost evs = entries_view(es@);
            let ghost dd = (d - 1) as nat;
            let ghost mut w: Seq<u8> = Seq::empty();
            let n: usize = es.len();
            let mut i: usize = 0;
            proof {
                assert(evs.skip(0) =~= evs);
                if enc_entries_run(evs, dd) is Ok {
                    let rest = enc_entries_run(evs, dd)->Ok_0;
                    assert(Seq::<u8>::empty() + rest =~= rest);
                }
                assert(base + Seq::<u8>::empty() =~= base);
            }
            while i < n
                invariant
                    i <= n,
                    d >= 1,
                    n == es@.len(),
                    evs == entries_view(es@),
                    evs.len() == n,
                    t@ == TagV::Compound(evs),
                    forall|j: int| 0 <= j < n ==> evs[j] == (es@[j].0@, es@[j].1@),
                    dd == (d - 1) as nat,
                    out@ == base + w,
                    base == old(out)@,
                    enc_entries_run(evs, dd) == (match enc_entries_run(evs.skip(i as int), dd) {
                        Ok(rest) => Ok::<Seq<u8>, NbtError>(w + rest),
                        Err(e) => Err::<Seq<u8>, NbtError>(e),
                    }),
                decreases n - i,
            {
                proof {
                    assert(evs.skip(i as int)[0] == evs[i as int]);
                    assert(evs.skip(i as int).drop_first() =~= evs.skip(i + 1));
                }
                let entry = &es[i];
                out.push(entry.1.kind().id());
                push_str(out, &entry.0);
                match enc_tag(&entry.1, d - 1, out) {
                    Ok(()) => {
                        proof {
                            let s_i = enc_run(evs[i as int].1, dd)->Ok_0;
                            let piece = seq![kind_of(evs[i as int].1).id()] + enc_str(
                                evs[i as int].0,
                            ) + s_i;
                            let w_old = w;
                            w = w + piece;
                            assert(out@ =~= base + w);
                            if enc_entries_run(evs.skip(i + 1), dd) is Ok {
                                let rest = enc_entries_run(evs.skip(i + 1), dd)->Ok_0;
                                assert(w_old + (piece + rest) =~= w + rest);
                            }
                        }
                    },
                    Err(e) => {
                        return Err(e);
                    },
                }
                i = i + 1;
            }
            out.push(0);
            proof {
                assert(evs.skip(n as int) =~= Seq::<(Seq<u8>, TagV)>::empty());
                assert(w + Seq::<u8>::empty() =~= w);
                assert(out@ =~= old(out)@ + (w + seq![0u8]));
            }
            Ok(())
        },
        Tag::IntArray(v) => {
            if v.len() > 0x7FFF_FFFF {
                return Err(NbtError::LengthOverflow);
            }
            push_u32_be(out, v.len() as u32);
            let ghost mid = out@;
            let ghost mut w: Seq<u8> = Seq::empty();
            let n: usize = v.len();
            let mut i: usize = 0;
            proof {
                assert(v@.skip(0) =~= v@);
                assert(Seq::<u8>::empty() + enc_i32s(v@) =~= enc_i32s(v@));
                assert(mid + Seq::<u8>::empty() =~= mid);
            }
            while i < n
                invariant
                    i <= n,
                    n == v@.len(),
                    out@ == mid + w,
                    enc_i32s(v@) == w + enc_i32s(v@.skip(i as int)),
                decreases n - i,
            {
                proof {
                    assert(v@.skip(i as int)[0] == v@[i as int]);
                    assert(v@.skip(i as int).drop_first() =~= v@.skip(i + 1));
                }
                push_u32_be(out, v[i] as u32);
                proof {
                    w = w + u32_be_bytes(v@[i as int] as u32);
                    assert(enc_i32s(v@) =~= w + enc_i32s(v@.skip(i + 1)));
                }
                i = i + 1;
            }
            proof {
                assert(v@.skip(n as int) =~= Seq::<i32>::empty());
                assert(enc_i32s(v@) =~= w);
                assert(out@ =~= old(out)@ + enc_payload(t@));
            }
            Ok(())
        },
        Tag::LongArray(v) => {
            if v.len() > 0x7FFF_FFFF {
                return Err(NbtError::LengthOverflow);
            }
            push_u32_be(out, v.len() as u32);
            let ghost mid = out@;
            let ghost mut w: Seq<u8> = Seq::empty();
            let n: usize = v.len();
            let mut i: usize = 0;
            proof {
                assert(v@.skip(0) =~= v@);
                assert(Seq::<u8>::empty() + enc_i64s(v@) =~= enc_i64s(v@));
                assert(mid + Seq::<u8>::empty() =~= mid);
            }
            while i < n
                invariant
                    i <= n,
                    n == v@.len(),
                    out@ == mid + w,
                    enc_i64s(v@) == w + enc_i64s(v@.skip(i as int)),
                decreases n - i,
            {
                proof {
                    assert(v@.skip(i as int)[0] == v@[i as int]);
                    assert(v@.skip(i as int).drop_first() =~= v@.skip(i + 1));
                }
                push_u64_be(out, v[i] as u64);
                proof {
                    w = w + u64_be_bytes(v@[i as int] as u64);
                    assert(enc_i64s(v@) =~= w + enc_i64s(v@.skip(i + 1)));
                }
                i = i + 1;
            }
            proof {
                assert(v@.skip(n as int) =~= Seq::<i64>::empty());
                assert(enc_i64s(v@) =~= w);
                assert(out@ =~= old(out)@ + enc_payload(t@));
            }
            Ok(())
        },
    }
}

/// Encodes one named tag into a fresh byte buffer.
///
/// Succeeds on exactly the trees whose strings fit the 16-bit length prefix,
/// whose arrays and lists fit the signed 32-bit count, and whose nesting
/// stays within [`DEPTH_LIMIT`]; the first violation met in writing order is
/// returned.  On every well-formed tree within the depth limit the output is
/// exactly the mathematical encoding [`enc_named`].
pub fn encode(t: &NamedTag) -> (r: Result<Vec<u8>, NbtError>)
    ensures
        (match enc_named_run(t@, DEPTH_LIMIT as nat) {
            Ok(s) => r matches Ok(out) && out@ == s,
            Err(e) => r == Err::<Vec<u8>, NbtError>(e),
        }),
        wf_named(t@) && depth_tag(t@.tag) <= DEPTH_LIMIT ==> (r matches Ok(out) && out@
            == enc_named(t@.name, t@.tag)),
{
    proof {
        use_type_invariant(&t.name);
        if wf_named(t@) && depth_tag(t@.tag) <= DEPTH_LIMIT {
            lemma_enc_run_ok(t@.tag, DEPTH_LIMIT as nat);
        }
    }
    let mut out: Vec<u8> = Vec::new();
    out.push(t.tag.kind().id());
    push_str(&mut out, &t.name);
    match enc_tag(&t.tag, DEPTH_LIMIT, &mut out) {
        Ok(()) => {
            proof {
                assert(out@ =~= seq![kind_of(t@.tag).id()] + enc_str(t@.name) + enc_run(
                    t@.tag,
                    DEPTH_LIMIT as nat,
                )->Ok_0);
            }
            Ok(out)
        },
        Err(e) => Err(e),
    }
}

} // verus!
