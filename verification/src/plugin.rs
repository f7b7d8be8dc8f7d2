//! The consumer-facing surface: `Nbt` turns a binary NBT document into a
//! generic structured value, and `Exists` is the state of the
//! path-existence filter whose I/O lives with the host.

use vstd::prelude::*;

use crate::decode::{parse_with_depth, sd_document, MAX_DEPTH};
use crate::error::NbtError;
use crate::mutf8::decode_mutf8;
use crate::tag::{entries_view, lemma_entries_view, lemma_tags_view, tag_view, tags_view, Tag, TAG_END};
use crate::value::{
    lemma_rows_view_push, lemma_values_view, lemma_values_view_push, sv_elems, sv_entries, sv_tag,
    values_view, GValue, Value,
};

verus! {

/// What converting a whole binary document yields: the converted root
/// compound, or the error that rejected decoding or conversion.
pub open spec fn nbt_value(data: Seq<u8>) -> Result<GValue, NbtError> {
    match sd_document(data, MAX_DEPTH as nat) {
        Ok((_name, root)) => sv_tag(root),
        Err(e) => Err(e),
    }
}

/// The NBT-to-value converter.
pub struct Nbt;

impl Nbt {
    /// A fresh converter.
    pub fn new() -> Nbt {
        Nbt
    }

    /// Converts one decoded tag into a generic value, returning exactly
    /// what the model `sv_tag` says.
    #[verifier::loop_isolation(false)]
    pub fn tag_to_value(tag: &Tag) -> (r: Result<Value, NbtError>)
        ensures
            match r {
                Ok(v) => sv_tag(tag@) == Ok::<GValue, NbtError>(v@),
                Err(e) => sv_tag(tag@) == Err::<GValue, NbtError>(e),
            },
        decreases tag, 0nat,
    {
        match tag {
            Tag::End => Err(NbtError::UnsupportedTag(TAG_END)),
            Tag::Byte(v) => Ok(Value::Int(*v as i64)),
            Tag::Short(v) => Ok(Value::Int(*v as i64)),
            Tag::Int(v) => Ok(Value::Int(*v as i64)),
            Tag::Long(v) => Ok(Value::Int(*v)),
            Tag::Float(b) => Ok(Value::Decimal(crate::bits::widen(*b))),
            Tag::Double(b) => Ok(Value::Decimal(*b)),
            Tag::ByteArray(v) => {
                let mut out: Vec<u8> = Vec::new();
                let mut i: usize = 0;
                while i < v.len()
                    invariant
                        i <= v@.len(),
                        out@.len() == i,
                        forall|j: int| 0 <= j < i ==> out@[j] == v@[j] as u8,
                    decreases v@.len() - i,
                {
                    out.push(v[i] as u8);
                    i += 1;
                }
                proof {
                    assert(out@ =~= v@.map_values(|x: i8| x as u8));
                }
                Ok(Value::Binary(out))
            },
            Tag::String(v) => match decode_mutf8(v.as_slice()) {
                Some(s) => Ok(Value::String(s)),
                None => Err(NbtError::InvalidText),
            },
            Tag::List(_ety, elems) => {
                proof {
                    lemma_tags_view(elems@);
                    assert(tags_view(elems@).skip(0) =~= tags_view(elems@));
                }
                let mut out: Vec<Value> = Vec::new();
                let mut i: usize = 0;
                while i < elems.len()
                    invariant
                        i <= elems@.len(),
                        out@.len() == i,
                        tags_view(elems@).len() == elems@.len(),
                        forall|j: int|
                            0 <= j < elems@.len() ==> #[trigger] tags_view(elems@)[j] == tag_view(
                                elems@[j],
                            ),
                        sv_elems(tags_view(elems@)) == (match sv_elems(
                            tags_view(elems@).skip(i as int),
                        ) {
                            Ok(rest) => Ok::<Seq<GValue>, NbtError>(values_view(out@) + rest),
                            Err(e) => Err::<Seq<GValue>, NbtError>(e),
                        }),
                    decreases elems@.len() - i,
                {
                    proof {
                        vstd::std_specs::vec::axiom_vec_index_decreases(*elems, i as int);
                    }
                    match Self::tag_to_value(&elems[i]) {
                        Ok(v) => {
                            let ghost old_out = out@;
                            out.push(v);
                            i += 1;
                            proof {
                                lemma_values_view_push(old_out, v);
                                assert(tags_view(elems@).skip(i - 1).drop_first() =~= tags_view(
                                    elems@,
                                ).skip(i as int));
                                match sv_elems(tags_view(elems@).skip(i as int)) {
                                    Ok(rest) => {
                                        assert(values_view(out@) + rest =~= values_view(old_out) + (
                                        seq![v@] + rest));
                                    },
                                    Err(e) => {},
                                }
                            }
                        },
                        Err(e) => {
                            return Err(e);
                        },
                    }
                }
                proof {
                    assert(tags_view(elems@).skip(elems@.len() as int) =~= Seq::<
                        crate::tag::GTag,
                    >::empty());
                    assert(values_view(out@) + Seq::<GValue>::empty() =~= values_view(out@));
                }
                Ok(Value::Table(out))
            },
            Tag::Compound(entries) => match Self::compound_to_value(entries) {
                Ok(v) => Ok(v),
                Err(e) => Err(e),
            },
            Tag::IntArray(v) => {
                let mut out: Vec<Value> = Vec::new();
                let mut i: usize = 0;
                while i < v.len()
                    invariant
                        i <= v@.len(),
                        out@.len() == i,
                        forall|j: int| 0 <= j < i ==> out@[j] == Value::Int(v@[j] as i64),
                    decreases v@.len() - i,
                {
                    out.push(Value::Int(v[i] as i64));
                    i += 1;
                }
                proof {
                    lemma_values_view(out@);
                    assert(values_view(out@) =~= v@.map_values(|x: i32| GValue::Int(x as i64)));
                }
                Ok(Value::Table(out))
            },
            Tag::LongArray(v) => {
                let mut out: Vec<Value> = Vec::new();
                let mut i: usize = 0;
                while i < v.len()
                    invariant
                        i <= v@.len(),
                        out@.len() == i,
                        forall|j: int| 0 <= j < i ==> out@[j] == Value::Int(v@[j]),
                    decreases v@.len() - i,
                {
                    out.push(Value::Int(v[i]));
                    i += 1;
                }
                proof {
                    lemma_values_view(out@);
                    assert(values_view(out@) =~= v@.map_values(|x: i64| GValue::Int(x)));
                }
                Ok(Value::Table(out))
            },
        }
    }

    /// Converts a compound's entries into a row value, preserving document
    /// order and duplicates, returning exactly what the model `sv_entries`
    /// says.
    #[verifier::loop_isolation(false)]
    pub fn compound_to_value(entries: &Vec<(Vec<u8>, Tag)>) -> (r: Result<Value, NbtError>)
        ensures
            match r {
                Ok(v) => sv_entries(entries_view(entries@)) matches Ok(rs) && v@ == GValue::Row(
                    rs,
                ),
                Err(e) => sv_entries(entries_view(entries@)) == Err::<
                    Seq<(Seq<char>, GValue)>,
                    NbtError,
                >(e),
            },
        decreases entries, 1nat,
    {
        proof {
            lemma_entries_view(entries@);
            assert(entries_view(entries@).skip(0) =~= entries_view(entries@));
        }
        let mut out: Vec<(String, Value)> = Vec::new();
        let mut i: usize = 0;
        while i < entries.len()
            invariant
                i <= entries@.len(),
                out@.len() == i,
                entries_view(entries@).len() == entries@.len(),
                forall|j: int|
                    0 <= j < entries@.len() ==> #[trigger] entries_view(entries@)[j] == (
                        entries@[j].0@,
                        tag_view(entries@[j].1),
                    ),
                sv_entries(entries_view(entries@)) == (match sv_entries(
                    entries_view(entries@).skip(i as int),
                ) {
                    Ok(rest) => Ok::<Seq<(Seq<char>, GValue)>, NbtError>(
                        crate::value::rows_view(out@) + rest,
                    ),
                    Err(e) => Err::<Seq<(Seq<char>, GValue)>, NbtError>(e),
                }),
            decreases entries@.len() - i,
        {
            let entry = &entries[i];
            let key = match decode_mutf8(entry.0.as_slice()) {
                Some(k) => k,
                None => {
                    return Err(NbtError::InvalidText);
                },
            };
            proof {
                vstd::std_specs::vec::axiom_vec_index_decreases(*entries, i as int);
            }
            match Self::tag_to_value(&entry.1) {
                Ok(v) => {
                    let ghost old_out = out@;
                    let ghost gkey = key@;
                    out.push((key, v));
                    i += 1;
                    proof {
                        lemma_rows_view_push(old_out, out@[out@.len() - 1].0, v);
                        assert(entries_view(entries@).skip(i - 1).drop_first() =~= entries_view(
                            entries@,
                        ).skip(i as int));
                        match sv_entries(entries_view(entries@).skip(i as int)) {
                            Ok(rest) => {
                                assert(crate::value::rows_view(out@) + rest =~= crate::value::rows_view(
                                    old_out,
                                ) + (seq![(gkey, v@)] + rest));
                            },
                            Err(e) => {},
                        }
                    }
                },
                Err(e) => {
                    return Err(e);
                },
            }
        }
        proof {
            assert(entries_view(entries@).skip(entries@.len() as int) =~= Seq::<
                (Seq<u8>, crate::tag::GTag),
            >::empty());
            assert(crate::value::rows_view(out@) + Seq::<(Seq<char>, GValue)>::empty()
                =~= crate::value::rows_view(out@));
        }
        Ok(Value::Row(out))
    }

    /// Decodes a binary NBT document and converts its root compound into a
    /// generic value, returning exactly what the model `nbt_value` says.
    pub fn from_nbt(&mut self, data: &[u8]) -> (r: Result<Value, NbtError>)
        ensures
            match r {
                Ok(v) => nbt_value(data@) == Ok::<GValue, NbtError>(v@),
                Err(e) => nbt_value(data@) == Err::<GValue, NbtError>(e),
            },
    {
        match parse_with_depth(data, MAX_DEPTH) {
            Ok((_name, root)) => Self::tag_to_value(&root),
            Err(e) => Err(e),
        }
    }
}

/// The state of the path-existence filter.  The check itself asks the file
/// system and lives with the host; this type only anchors that surface.
pub struct Exists;

impl Exists {
    /// A fresh filter.
    pub fn new() -> Exists {
        Exists
    }
}

} // verus!
