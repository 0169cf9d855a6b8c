//! The tag value model: the decoded tree, and its mathematical view.
//!
//! [`Tag`] is the executable tree a caller builds or receives; [`TagV`] is
//! its mathematical shadow over `Seq`, which every contract of the codec
//! speaks of.  Floating-point payloads are carried as their IEEE-754 bit
//! patterns, which is exactly what stands on the wire.

use vstd::prelude::*;
use crate::kind::TagKind;
use crate::mutf8::NbtString;
use crate::mutf8::wf_str;

verus! {

/// The decoder refuses trees that nest deeper than this many list/compound
/// levels, failing with `NestingTooDeep` rather than exhausting the call
/// stack on crafted input.  The encoder enforces the same bound.
pub const DEPTH_LIMIT: u32 = 512;

/// One decoded tag payload.
#[derive(Debug, PartialEq)]
pub enum Tag {
    /// A signed byte.
    Byte(i8),
    /// A signed big-endian 16-bit integer.
    Short(i16),
    /// A signed big-endian 32-bit integer.
    Int(i32),
    /// A signed big-endian 64-bit integer.
    Long(i64),
    /// The bit pattern of an IEEE-754 single-precision number.
    Float(u32),
    /// The bit pattern of an IEEE-754 double-precision number.
    Double(u64),
    /// An array of signed bytes.
    ByteArray(Vec<i8>),
    /// A modified-UTF-8 string.
    String(NbtString),
    /// An ordered list of nameless payloads, all of the declared kind.  An
    /// empty list canonically declares `End`.
    List(TagKind, Vec<Tag>),
    /// An ordered sequence of named tags; names need not be unique, and
    /// their order is preserved.
    Compound(Vec<(NbtString, Tag)>),
    /// An array of signed 32-bit integers.
    IntArray(Vec<i32>),
    /// An array of signed 64-bit integers.
    LongArray(Vec<i64>),
}

/// A name paired with a tag: what one whole document encodes.
#[derive(Debug, PartialEq)]
pub struct NamedTag {
    /// The root name; may be empty.
    pub name: NbtString,
    /// The root payload.
    pub tag: Tag,
}

/// The mathematical view of a tag payload.
#[verifier::ext_equal]
pub enum TagV {
    /// A signed byte.
    Byte(i8),
    /// A signed 16-bit integer.
    Short(i16),
    /// A signed 32-bit integer.
    Int(i32),
    /// A signed 64-bit integer.
    Long(i64),
    /// The bit pattern of a single-precision number.
    Float(u32),
    /// The bit pattern of a double-precision number.
    Double(u64),
    /// An array of signed bytes.
    ByteArray(Seq<i8>),
    /// The modified-UTF-8 bytes of a string.
    String(Seq<u8>),
    /// The declared element kind and the elements of a list.
    List(TagKind, Seq<TagV>),
    /// The named entries of a compound, in order.
    Compound(Seq<(Seq<u8>, TagV)>),
    /// An array of signed 32-bit integers.
    IntArray(Seq<i32>),
    /// An array of signed 64-bit integers.
    LongArray(Seq<i64>),
}

/// The mathematical view of a named tag.
#[verifier::ext_equal]
pub struct NamedTagV {
    /// The root name bytes.
    pub name: Seq<u8>,
    /// The root payload.
    pub tag: TagV,
}

/// The view of one tag.
pub open spec fn tag_view(t: Tag) -> TagV
    decreases t,
{
    match t {
        Tag::Byte(v) => TagV::Byte(v),
        Tag::Short(v) => TagV::Short(v),
        Tag::Int(v) => TagV::Int(v),
        Tag::Long(v) => TagV::Long(v),
        Tag::Float(v) => TagV::Float(v),
        Tag::Double(v) => TagV::Double(v),
        Tag::ByteArray(v) => TagV::ByteArray(v@),
        Tag::String(s) => TagV::String(s@),
        Tag::List(k, es) => TagV::List(k, tags_view(es@)),
        Tag::Compound(es) => TagV::Compound(entries_view(es@)),
        Tag::IntArray(v) => TagV::IntArray(v@),
        Tag::LongArray(v) => TagV::LongArray(v@),
    }
}

/// The views of a sequence of tags, elementwise and in order.
pub open spec fn tags_view(ts: Seq<Tag>) -> Seq<TagV>
    decreases ts,
{
    if ts.len() == 0 {
        Seq::empty()
    } else {
        seq![tag_view(ts[0])] + tags_view(ts.drop_first())
    }
}

/// The views of a sequence of named entries, elementwise and in order.
pub open spec fn entries_view(es: Seq<(NbtString, Tag)>) -> Seq<(Seq<u8>, TagV)>
    decreases es,
{
    if es.len() == 0 {
        Seq::empty()
    } else {
        seq![(es[0].0@, tag_view(es[0].1))] + entries_view(es.drop_first())
    }
}

impl View for Tag {
    type V = TagV;

    open spec fn view(&self) -> TagV {
        tag_view(*self)
    }
}

impl View for NamedTag {
    type V = NamedTagV;

    open spec fn view(&self) -> NamedTagV {
        NamedTagV { name: self.name@, tag: self.tag@ }
    }
}

/// The kind a payload belongs to.
pub open spec fn kind_of(v: TagV) -> TagKind {
    match v {
        TagV::Byte(_) => TagKind::Byte,
        TagV::Short(_) => TagKind::Short,
        TagV::Int(_) => TagKind::Int,
        TagV::Long(_) => TagKind::Long,
        TagV::Float(_) => TagKind::Float,
        TagV::Double(_) => TagKind::Double,
        TagV::ByteArray(_) => TagKind::ByteArray,
        TagV::String(_) => TagKind::String,
        TagV::List(_, _) => TagKind::List,
        TagV::Compound(_) => TagKind::Compound,
        TagV::IntArray(_) => TagKind::IntArray,
        TagV::LongArray(_) => TagKind::LongArray,
    }
}

impl Tag {
    /// The kind of this tag.
    pub fn kind(&self) -> (r: TagKind)
        ensures
            r == kind_of(self@),
    {
        match self {
            Tag::Byte(_) => TagKind::Byte,
            Tag::Short(_) => TagKind::Short,
            Tag::Int(_) => TagKind::Int,
            Tag::Long(_) => TagKind::Long,
            Tag::Float(_) => TagKind::Float,
            Tag::Double(_) => TagKind::Double,
            Tag::ByteArray(_) => TagKind::ByteArray,
            Tag::String(_) => TagKind::String,
            Tag::List(_, _) => TagKind::List,
            Tag::Compound(_) => TagKind::Compound,
            Tag::IntArray(_) => TagKind::IntArray,
            Tag::LongArray(_) => TagKind::LongArray,
        }
    }
}

/// Structural well-formedness of a payload: every string fits the format,
/// every array and list fits its signed 32-bit count, every list is
/// homogeneous in its declared kind, and an empty list canonically declares
/// `End`.
pub open spec fn wf_tag(v: TagV) -> bool
    decreases v,
{
    match v {
        TagV::Byte(_) => true,
        TagV::Short(_) => true,
        TagV::Int(_) => true,
        TagV::Long(_) => true,
        TagV::Float(_) => true,
        TagV::Double(_) => true,
        TagV::ByteArray(s) => s.len() <= 0x7FFF_FFFF,
        TagV::String(s) => wf_str(s),
        TagV::List(k, es) => es.len() <= 0x7FFF_FFFF && (es.len() == 0 ==> k == TagKind::End) && (
        es.len() > 0 ==> k != TagKind::End) && wf_elems(k, es),
        TagV::Compound(es) => wf_entries(es),
        TagV::IntArray(s) => s.len() <= 0x7FFF_FFFF,
        TagV::LongArray(s) => s.len() <= 0x7FFF_FFFF,
    }
}

/// Well-formedness of list elements: each has the declared kind and is
/// itself well formed.
pub open spec fn wf_elems(k: TagKind, es: Seq<TagV>) -> bool
    decreases es,
{
    if es.len() == 0 {
        true
    } else {
        kind_of(es[0]) == k && wf_tag(es[0]) && wf_elems(k, es.drop_first())
    }
}

/// Well-formedness of compound entries: each name fits the format and each
/// value is well formed.
pub open spec fn wf_entries(es: Seq<(Seq<u8>, TagV)>) -> bool
    decreases es,
{
    if es.len() == 0 {
        true
    } else {
        wf_str(es[0].0) && wf_tag(es[0].1) && wf_entries(es.drop_first())
    }
}

/// Well-formedness of a whole named tag.
pub open spec fn wf_named(nv: NamedTagV) -> bool {
    wf_str(nv.name) && wf_tag(nv.tag)
}

/// How many list/compound levels the codec must enter for this payload: the
/// number of depth units it charges against [`DEPTH_LIMIT`].  Entering a
/// compound or a non-empty list costs one unit; an empty list costs none,
/// since its elements are never visited.
pub open spec fn depth_tag(v: TagV) -> nat
    decreases v,
{
    match v {
        TagV::List(_, es) => if es.len() == 0 {
            0
        } else {
            1 + depth_elems(es)
        },
        TagV::Compound(es) => 1 + depth_entries(es),
        _ => 0,
    }
}

/// The deepest nesting among list elements.
pub open spec fn depth_elems(es: Seq<TagV>) -> nat
    decreases es,
{
    if es.len() == 0 {
        0
    } else {
        let d0 = depth_tag(es[0]);
        let dr = depth_elems(es.drop_first());
        if d0 >= dr {
            d0
        } else {
            dr
        }
    }
}

/// The deepest nesting among compound entry values.
pub open spec fn depth_entries(es: Seq<(Seq<u8>, TagV)>) -> nat
    decreases es,
{
    if es.len() == 0 {
        0
    } else {
        let d0 = depth_tag(es[0].1);
        let dr = depth_entries(es.drop_first());
        if d0 >= dr {
            d0
        } else {
            dr
        }
    }
}

/// Viewing a sequence of tags keeps its length and maps elementwise.
pub proof fn lemma_tags_view_index(ts: Seq<Tag>)
    ensures
        tags_view(ts).len() == ts.len(),
        forall|i: int| 0 <= i < ts.len() ==> tags_view(ts)[i] == tag_view(ts[i]),
    decreases ts.len(),
{
    if ts.len() > 0 {
        lemma_tags_view_index(ts.drop_first());
        assert forall|i: int| 0 <= i < ts.len() implies tags_view(ts)[i] == tag_view(ts[i]) by {
            if i > 0 {
                assert(ts.drop_first()[i - 1] == ts[i]);
            }
        }
    }
}

/// Appending a tag appends its view.
pub proof fn lemma_tags_view_push(ts: Seq<Tag>, t: Tag)
    ensures
        tags_view(ts.push(t)) == tags_view(ts).push(tag_view(t)),
    decreases ts.len(),
{
    let p = ts.push(t);
    assert(p.len() == ts.len() + 1);
    if ts.len() == 0 {
        assert(p[0] == t);
        assert(p.drop_first() =~= Seq::<Tag>::empty());
        assert(tags_view(p) == seq![tag_view(p[0])] + tags_view(p.drop_first()));
        assert(tags_view(Seq::<Tag>::empty()) == Seq::<TagV>::empty());
        assert(tags_view(p) =~= tags_view(ts).push(tag_view(t)));
    } else {
        assert(p[0] == ts[0]);
        assert(p.drop_first() =~= ts.drop_first().push(t));
        lemma_tags_view_push(ts.drop_first(), t);
        assert(tags_view(p) == seq![tag_view(p[0])] + tags_view(p.drop_first()));
        assert(tags_view(ts) == seq![tag_view(ts[0])] + tags_view(ts.drop_first()));
        assert(tags_view(p) =~= tags_view(ts).push(tag_view(t)));
    }
}

/// Viewing a sequence of entries keeps its length and maps elementwise.
pub proof fn lemma_entries_view_index(es: Seq<(NbtString, Tag)>)
    ensures
        entries_view(es).len() == es.len(),
        forall|i: int| 0 <= i < es.len() ==> entries_view(es)[i] == (es[i].0@, tag_view(es[i].1)),
    decreases es.len(),
{
    if es.len() > 0 {
        lemma_entries_view_index(es.drop_first());
        assert forall|i: int| 0 <= i < es.len() implies entries_view(es)[i] == (
        es[i].0@, tag_view(es[i].1)) by {
            if i > 0 {
                assert(es.drop_first()[i - 1] == es[i]);
            }
        }
    }
}

/// Appending an entry appends its view.
pub proof fn lemma_entries_view_push(es: Seq<(NbtString, Tag)>, name: NbtString, t: Tag)
    ensures
        entries_view(es.push((name, t))) == entries_view(es).push((name@, tag_view(t))),
    decreases es.len(),
{
    let p = es.push((name, t));
    assert(p.len() == es.len() + 1);
    if es.len() == 0 {
        assert(p[0] == (name, t));
        assert(p.drop_first() =~= Seq::<(NbtString, Tag)>::empty());
        assert(entries_view(p) == seq![(p[0].0@, tag_view(p[0].1))] + entries_view(p.drop_first()));
        assert(entries_view(Seq::<(NbtString, Tag)>::empty()) == Seq::<(Seq<u8>, TagV)>::empty());
        assert(entries_view(p) =~= entries_view(es).push((name@, tag_view(t))));
    } else {
        assert(p[0] == es[0]);
        assert(p.drop_first() =~= es.drop_first().push((name, t)));
        lemma_entries_view_push(es.drop_first(), name, t);
        assert(entries_view(p) == seq![(p[0].0@, tag_view(p[0].1))] + entries_view(p.drop_first()));
        assert(entries_view(es) == seq![(es[0].0@, tag_view(es[0].1))] + entries_view(
            es.drop_first(),
        ));
        assert(entries_view(p) =~= entries_view(es).push((name@, tag_view(t))));
    }
}

} // verus!
