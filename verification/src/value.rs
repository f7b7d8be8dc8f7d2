//! The generic structured value a decoded tag tree converts into, and the
//! mathematical model of that conversion.
//!
//! A `Row` keeps every compound entry in document order; duplicate names are
//! preserved rather than silently dropped, since the wire format does not
//! forbid them.

use vstd::prelude::*;

use crate::bits::widen_bits;
use crate::error::NbtError;
use crate::mutf8::mutf8_decode;
use crate::tag::{GTag, TAG_END};

verus! {

/// A host-neutral structured value: integers, decimals (as IEEE-754 double
/// bit patterns), binary blobs, text, ordered tables and ordered rows.
#[derive(Debug, PartialEq)]
pub enum Value {
    Int(i64),
    Decimal(u64),
    Binary(Vec<u8>),
    String(String),
    Table(Vec<Value>),
    Row(Vec<(String, Value)>),
}

/// The mathematical mirror of `Value`, over `Seq` in place of `Vec`.
pub enum GValue {
    Int(i64),
    Decimal(u64),
    Binary(Seq<u8>),
    String(Seq<char>),
    Table(Seq<GValue>),
    Row(Seq<(Seq<char>, GValue)>),
}

/// The mathematical value of a `Value`.
pub open spec fn value_view(v: Value) -> GValue
    decreases v, 0nat,
{
    match v {
        Value::Int(x) => GValue::Int(x),
        Value::Decimal(x) => GValue::Decimal(x),
        Value::Binary(b) => GValue::Binary(b@),
        Value::String(s) => GValue::String(s@),
        Value::Table(t) => GValue::Table(values_view(t@)),
        Value::Row(r) => GValue::Row(rows_view(r@)),
    }
}

/// The views of a sequence of values, elementwise.
pub open spec fn values_view(s: Seq<Value>) -> Seq<GValue>
    decreases s, 1nat,
{
    if s.len() == 0 {
        Seq::empty()
    } else {
        seq![value_view(s[0])] + values_view(s.drop_first())
    }
}

/// The views of a sequence of named row entries, elementwise.
pub open spec fn rows_view(s: Seq<(String, Value)>) -> Seq<(Seq<char>, GValue)>
    decreases s, 1nat,
{
    if s.len() == 0 {
        Seq::empty()
    } else {
        seq![(s[0].0@, value_view(s[0].1))] + rows_view(s.drop_first())
    }
}

impl View for Value {
    type V = GValue;

    open spec fn view(&self) -> GValue {
        value_view(*self)
    }
}

/// `values_view` maps the view over the sequence elementwise.
pub proof fn lemma_values_view(s: Seq<Value>)
    ensures
        values_view(s).len() == s.len(),
        forall|i: int| 0 <= i < s.len() ==> #[trigger] values_view(s)[i] == value_view(s[i]),
    decreases s.len(),
{
    if s.len() > 0 {
        lemma_values_view(s.drop_first());
    }
}

/// Appending a value on the right appends its view on the right.
pub proof fn lemma_values_view_push(s: Seq<Value>, v: Value)
    ensures
        values_view(s.push(v)) == values_view(s).push(value_view(v)),
{
    lemma_values_view(s);
    lemma_values_view(s.push(v));
    assert(values_view(s.push(v)) =~= values_view(s).push(value_view(v)));
}

/// `rows_view` maps name and value views over the sequence elementwise.
pub proof fn lemma_rows_view(s: Seq<(String, Value)>)
    ensures
        rows_view(s).len() == s.len(),
        forall|i: int|
            0 <= i < s.len() ==> #[trigger] rows_view(s)[i] == (s[i].0@, value_view(s[i].1)),
    decreases s.len(),
{
    if s.len() > 0 {
        lemma_rows_view(s.drop_first());
    }
}

/// Appending a row entry on the right appends its view on the right.
pub proof fn lemma_rows_view_push(s: Seq<(String, Value)>, name: String, v: Value)
    ensures
        rows_view(s.push((name, v))) == rows_view(s).push((name@, value_view(v))),
{
    lemma_rows_view(s);
    lemma_rows_view(s.push((name, v)));
    assert(rows_view(s.push((name, v))) =~= rows_view(s).push((name@, value_view(v))));
}

/// What converting one tag yields: integers widen to 64 bits, a Float
/// widens to a double-precision bit pattern, byte arrays become binary
/// blobs, strings and names decode from modified UTF-8, lists and the
/// two numeric arrays become tables, compounds become rows in document
/// order, and the End sentinel is rejected.
pub open spec fn sv_tag(t: GTag) -> Result<GValue, NbtError>
    decreases t, 0nat,
{
    match t {
        GTag::End => Err(NbtError::UnsupportedTag(TAG_END)),
        GTag::Byte(v) => Ok(GValue::Int(v as i64)),
        GTag::Short(v) => Ok(GValue::Int(v as i64)),
        GTag::Int(v) => Ok(GValue::Int(v as i64)),
        GTag::Long(v) => Ok(GValue::Int(v)),
        GTag::Float(b) => Ok(GValue::Decimal(widen_bits(b))),
        GTag::Double(b) => Ok(GValue::Decimal(b)),
        GTag::ByteArray(s) => Ok(GValue::Binary(s.map_values(|x: i8| x as u8))),
        GTag::String(s) => match mutf8_decode(s) {
            Some(cs) => Ok(GValue::String(cs)),
            None => Err(NbtError::InvalidText),
        },
        GTag::List(_ety, elems) => match sv_elems(elems) {
            Ok(vs) => Ok(GValue::Table(vs)),
            Err(e) => Err(e),
        },
        GTag::Compound(es) => match sv_entries(es) {
            Ok(rs) => Ok(GValue::Row(rs)),
            Err(e) => Err(e),
        },
        GTag::IntArray(s) => Ok(GValue::Table(s.map_values(|x: i32| GValue::Int(x as i64)))),
        GTag::LongArray(s) => Ok(GValue::Table(s.map_values(|x: i64| GValue::Int(x)))),
    }
}

/// Converting the same tag tree twice yields value-equal results:
/// conversion is a pure function of the tree, with no hidden state across
/// calls.
pub proof fn lemma_convert_idempotent(
    t: GTag,
    r1: Result<GValue, NbtError>,
    r2: Result<GValue, NbtError>,
)
    requires
        r1 == sv_tag(t),
        r2 == sv_tag(t),
    ensures
        r1 == r2,
{
}

/// What converting the elements of a list yields: each element in order,
/// short-circuiting on the first error.
pub open spec fn sv_elems(s: Seq<GTag>) -> Result<Seq<GValue>, NbtError>
    decreases s, 1nat,
{
    if s.len() == 0 {
        Ok(Seq::empty())
    } else {
        match sv_tag(s[0]) {
            Ok(v) => match sv_elems(s.drop_first()) {
                Ok(rest) => Ok(seq![v] + rest),
                Err(e) => Err(e),
            },
            Err(e) => Err(e),
        }
    }
}

/// What converting the entries of a compound yields: for each entry the
/// name decodes from modified UTF-8 and the value converts, in document
/// order, short-circuiting on the first error.
pub open spec fn sv_entries(s: Seq<(Seq<u8>, GTag)>) -> Result<
    Seq<(Seq<char>, GValue)>,
    NbtError,
>
    decreases s, 1nat,
{
    if s.len() == 0 {
        Ok(Seq::empty())
    } else {
        match mutf8_decode(s[0].0) {
            None => Err(NbtError::InvalidText),
            Some(k) => match sv_tag(s[0].1) {
                Ok(v) => match sv_entries(s.drop_first()) {
                    Ok(rest) => Ok(seq![(k, v)] + rest),
                    Err(e) => Err(e),
                },
                Err(e) => Err(e),
            },
        }
    }
}

} // verus!
