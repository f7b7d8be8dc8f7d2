//! The NBT document model: a closed tagged union of decoded tag values,
//! with a mathematical mirror used by all specifications.

use vstd::prelude::*;

verus! {

/// Tag type bytes of the wire format.
pub const TAG_END: u8 = 0;
pub const TAG_BYTE: u8 = 1;
pub const TAG_SHORT: u8 = 2;
pub const TAG_INT: u8 = 3;
pub const TAG_LONG: u8 = 4;
pub const TAG_FLOAT: u8 = 5;
pub const TAG_DOUBLE: u8 = 6;
pub const TAG_BYTE_ARRAY: u8 = 7;
pub const TAG_STRING: u8 = 8;
pub const TAG_LIST: u8 = 9;
pub const TAG_COMPOUND: u8 = 10;
pub const TAG_INT_ARRAY: u8 = 11;
pub const TAG_LONG_ARRAY: u8 = 12;

/// One decoded NBT value.
///
/// Scalar variants hold their value directly; `Float` and `Double` hold the
/// raw IEEE-754 big-endian bit pattern read from the wire, uninterpreted.
/// `String` holds the raw modified-UTF-8 bytes: text decoding is deferred to
/// conversion time, so malformed text does not abort structural parsing.
/// A `List` carries its declared element tag type once, not per element.
/// A `Compound` is an ordered sequence of named entries; names are raw
/// modified-UTF-8 bytes, and duplicates are preserved in document order.
#[derive(Debug, PartialEq)]
pub enum Tag {
    End,
    Byte(i8),
    Short(i16),
    Int(i32),
    Long(i64),
    Float(u32),
    Double(u64),
    ByteArray(Vec<i8>),
    String(Vec<u8>),
    List(u8, Vec<Tag>),
    Compound(Vec<(Vec<u8>, Tag)>),
    IntArray(Vec<i32>),
    LongArray(Vec<i64>),
}

/// The mathematical mirror of `Tag`: the same tree over `Seq` in place of
/// `Vec`.  All contracts of the decoder and converter speak of this type.
pub enum GTag {
    End,
    Byte(i8),
    Short(i16),
    Int(i32),
    Long(i64),
    Float(u32),
    Double(u64),
    ByteArray(Seq<i8>),
    String(Seq<u8>),
    List(u8, Seq<GTag>),
    Compound(Seq<(Seq<u8>, GTag)>),
    IntArray(Seq<i32>),
    LongArray(Seq<i64>),
}

/// The mathematical value of a `Tag`: the same tree with every `Vec`
/// replaced by its sequence.
pub open spec fn tag_view(t: Tag) -> GTag
    decreases t, 0nat,
{
    match t {
        Tag::End => GTag::End,
        Tag::Byte(v) => GTag::Byte(v),
        Tag::Short(v) => GTag::Short(v),
        Tag::Int(v) => GTag::Int(v),
        Tag::Long(v) => GTag::Long(v),
        Tag::Float(v) => GTag::Float(v),
        Tag::Double(v) => GTag::Double(v),
        Tag::ByteArray(v) => GTag::ByteArray(v@),
        Tag::String(v) => GTag::String(v@),
        Tag::List(ety, elems) => GTag::List(ety, tags_view(elems@)),
        Tag::Compound(entries) => GTag::Compound(entries_view(entries@)),
        Tag::IntArray(v) => GTag::IntArray(v@),
        Tag::LongArray(v) => GTag::LongArray(v@),
    }
}

/// The views of a sequence of tags, elementwise.
pub open spec fn tags_view(s: Seq<Tag>) -> Seq<GTag>
    decreases s, 1nat,
{
    if s.len() == 0 {
        Seq::empty()
    } else {
        seq![tag_view(s[0])] + tags_view(s.drop_first())
    }
}

/// The views of a sequence of named entries, elementwise.
pub open spec fn entries_view(s: Seq<(Vec<u8>, Tag)>) -> Seq<(Seq<u8>, GTag)>
    decreases s, 1nat,
{
    if s.len() == 0 {
        Seq::empty()
    } else {
        seq![(s[0].0@, tag_view(s[0].1))] + entries_view(s.drop_first())
    }
}

impl View for Tag {
    type V = GTag;

    open spec fn view(&self) -> GTag {
        tag_view(*self)
    }
}

/// `tags_view` maps the view over the sequence elementwise.
pub proof fn lemma_tags_view(s: Seq<Tag>)
    ensures
        tags_view(s).len() == s.len(),
        forall|i: int| 0 <= i < s.len() ==> #[trigger] tags_view(s)[i] == tag_view(s[i]),
    decreases s.len(),
{
    if s.len() > 0 {
        lemma_tags_view(s.drop_first());
    }
}

/// Appending a tag on the right appends its view on the right.
pub proof fn lemma_tags_view_push(s: Seq<Tag>, t: Tag)
    ensures
        tags_view(s.push(t)) == tags_view(s).push(tag_view(t)),
{
    lemma_tags_view(s);
    lemma_tags_view(s.push(t));
    assert(tags_view(s.push(t)) =~= tags_view(s).push(tag_view(t)));
}

/// Appending an entry on the right appends its view on the right.
pub proof fn lemma_entries_view_push(s: Seq<(Vec<u8>, Tag)>, name: Vec<u8>, t: Tag)
    ensures
        entries_view(s.push((name, t))) == entries_view(s).push((name@, tag_view(t))),
{
    lemma_entries_view(s);
    lemma_entries_view(s.push((name, t)));
    assert(entries_view(s.push((name, t))) =~= entries_view(s).push((name@, tag_view(t))));
}

/// `entries_view` maps name and tag views over the sequence elementwise.
pub proof fn lemma_entries_view(s: Seq<(Vec<u8>, Tag)>)
    ensures
        entries_view(s).len() == s.len(),
        forall|i: int|
            0 <= i < s.len() ==> #[trigger] entries_view(s)[i] == (s[i].0@, tag_view(s[i].1)),
    decreases s.len(),
{
    if s.len() > 0 {
        lemma_entries_view(s.drop_first());
    }
}

/// The wire tag type byte that identifies a tag value.
pub open spec fn type_id(t: GTag) -> u8 {
    match t {
        GTag::End => TAG_END,
        GTag::Byte(_) => TAG_BYTE,
        GTag::Short(_) => TAG_SHORT,
        GTag::Int(_) => TAG_INT,
        GTag::Long(_) => TAG_LONG,
        GTag::Float(_) => TAG_FLOAT,
        GTag::Double(_) => TAG_DOUBLE,
        GTag::ByteArray(_) => TAG_BYTE_ARRAY,
        GTag::String(_) => TAG_STRING,
        GTag::List(_, _) => TAG_LIST,
        GTag::Compound(_) => TAG_COMPOUND,
        GTag::IntArray(_) => TAG_INT_ARRAY,
        GTag::LongArray(_) => TAG_LONG_ARRAY,
    }
}

impl Tag {
    /// The wire tag type byte of this tag.
    pub fn tag_type(&self) -> (r: u8)
        ensures
            r == type_id(self@),
    {
        match self {
            Tag::End => TAG_END,
            Tag::Byte(_) => TAG_BYTE,
            Tag::Short(_) => TAG_SHORT,
            Tag::Int(_) => TAG_INT,
            Tag::Long(_) => TAG_LONG,
            Tag::Float(_) => TAG_FLOAT,
            Tag::Double(_) => TAG_DOUBLE,
            Tag::ByteArray(_) => TAG_BYTE_ARRAY,
            Tag::String(_) => TAG_STRING,
            Tag::List(_, _) => TAG_LIST,
            Tag::Compound(_) => TAG_COMPOUND,
            Tag::IntArray(_) => TAG_INT_ARRAY,
            Tag::LongArray(_) => TAG_LONG_ARRAY,
        }
    }
}

} // verus!
