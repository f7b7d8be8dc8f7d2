//! A mathematical encoder for the wire format, and the round-trip theorem:
//! decoding the encoding of any well-formed tag tree gives that tree back.
//!
//! The library has no executable write path; the encoder exists at the
//! specification level to pin the decoder down: together with the decoder
//! model it states that every well-formed tree is representable and that
//! decoding loses nothing.

use vstd::prelude::*;

use crate::bits::{be16, be32, be64};
use crate::decode::{sd_document, sd_entries, sd_list, sd_payload, MAX_DEPTH};
use crate::error::NbtError;
use crate::tag::{type_id, GTag, TAG_COMPOUND, TAG_END, TAG_LIST};

verus! {

use vstd::arithmetic::div_mod::lemma_fundamental_div_mod;

/// The two big-endian bytes of a value below 2^16.
pub open spec fn enc_u16(v: int) -> Seq<u8> {
    seq![(v / 0x100) as u8, (v % 0x100) as u8]
}

/// The four big-endian bytes of a value below 2^32.
pub open spec fn enc_u32(v: int) -> Seq<u8> {
    enc_u16(v / 0x10000) + enc_u16(v % 0x10000)
}

/// The eight big-endian bytes of a value below 2^64.
pub open spec fn enc_u64(v: int) -> Seq<u8> {
    enc_u32(v / 0x100000000) + enc_u32(v % 0x100000000)
}

/// Reading back two encoded big-endian bytes gives the encoded value.
pub proof fn lemma_be16_enc(data: Seq<u8>, pos: int, v: int)
    requires
        0 <= v < 0x10000,
        0 <= pos,
        pos + 2 <= data.len(),
        data.subrange(pos, pos + 2) == enc_u16(v),
    ensures
        be16(data, pos) == v,
{
    assert(data[pos] == enc_u16(v)[0]);
    assert(data[pos + 1] == enc_u16(v)[1]);
    lemma_fundamental_div_mod(v, 0x100);
}

/// Reading back four encoded big-endian bytes gives the encoded value.
pub proof fn lemma_be32_enc(data: Seq<u8>, pos: int, v: int)
    requires
        0 <= v < 0x100000000,
        0 <= pos,
        pos + 4 <= data.len(),
        data.subrange(pos, pos + 4) == enc_u32(v),
    ensures
        be32(data, pos) == v,
{
    let hi = v / 0x10000;
    let lo = v % 0x10000;
    lemma_fundamental_div_mod(v, 0x10000);
    let e = data.subrange(pos, pos + 4);
    assert(e.subrange(0, 2) =~= data.subrange(pos, pos + 2));
    assert(e.subrange(2, 4) =~= data.subrange(pos + 2, pos + 4));
    assert(e.subrange(0, 2) =~= enc_u16(hi));
    assert(e.subrange(2, 4) =~= enc_u16(lo));
    lemma_be16_enc(data, pos, hi);
    lemma_be16_enc(data, pos + 2, lo);
    assert(be32(data, pos) == be16(data, pos) * 0x10000 + be16(data, pos + 2));
}

/// Reading back eight encoded big-endian bytes gives the encoded value.
pub proof fn lemma_be64_enc(data: Seq<u8>, pos: int, v: int)
    requires
        0 <= v < 0x10000000000000000,
        0 <= pos,
        pos + 8 <= data.len(),
        data.subrange(pos, pos + 8) == enc_u64(v),
    ensures
        be64(data, pos) == v,
{
    let hi = v / 0x100000000;
    let lo = v % 0x100000000;
    lemma_fundamental_div_mod(v, 0x100000000);
    let e = data.subrange(pos, pos + 8);
    assert(e.subrange(0, 4) =~= data.subrange(pos, pos + 4));
    assert(e.subrange(4, 8) =~= data.subrange(pos + 4, pos + 8));
    assert(e.subrange(0, 4) =~= enc_u32(hi));
    assert(e.subrange(4, 8) =~= enc_u32(lo));
    lemma_be32_enc(data, pos, hi);
    lemma_be32_enc(data, pos + 4, lo);
    assert(be64(data, pos) == be32(data, pos) * 0x100000000 + be32(data, pos + 4));
}

/// Whether a tag tree fits the wire format: lengths fit their prefixes,
/// list elements all carry the declared element type, and no End sentinel
/// stands as a value.
pub open spec fn wf(t: GTag) -> bool
    decreases t, 0nat,
{
    match t {
        GTag::ByteArray(s) => s.len() < 0x80000000,
        GTag::String(s) => s.len() < 0x10000,
        GTag::List(ety, elems) => elems.len() < 0x80000000 && wf_elems(elems, ety),
        GTag::Compound(es) => wf_entries(es),
        GTag::IntArray(s) => s.len() < 0x80000000,
        GTag::LongArray(s) => s.len() < 0x80000000,
        _ => true,
    }
}

/// Whether every list element carries the declared type and is well-formed.
pub open spec fn wf_elems(s: Seq<GTag>, ety: u8) -> bool
    decreases s, 1nat,
{
    s.len() == 0 || (type_id(s[0]) == ety && wf(s[0]) && wf_elems(s.drop_first(), ety))
}

/// Whether every compound entry has a name that fits its length prefix and
/// a well-formed value that is not the End sentinel.
pub open spec fn wf_entries(s: Seq<(Seq<u8>, GTag)>) -> bool
    decreases s, 1nat,
{
    s.len() == 0 || (s[0].0.len() < 0x10000 && type_id(s[0].1) != TAG_END && wf(s[0].1)
        && wf_entries(s.drop_first()))
}

/// The nesting depth of a tag tree: each list or compound level counts one.
pub open spec fn height(t: GTag) -> nat
    decreases t, 0nat,
{
    match t {
        GTag::List(_ety, elems) => 1 + height_elems(elems),
        GTag::Compound(es) => 1 + height_entries(es),
        _ => 0,
    }
}

/// The greatest height among list elements.
pub open spec fn height_elems(s: Seq<GTag>) -> nat
    decreases s, 1nat,
{
    if s.len() == 0 {
        0
    } else if height(s[0]) >= height_elems(s.drop_first()) {
        height(s[0])
    } else {
        height_elems(s.drop_first())
    }
}

/// The greatest height among compound entry values.
pub open spec fn height_entries(s: Seq<(Seq<u8>, GTag)>) -> nat
    decreases s, 1nat,
{
    if s.len() == 0 {
        0
    } else if height(s[0].1) >= height_entries(s.drop_first()) {
        height(s[0].1)
    } else {
        height_entries(s.drop_first())
    }
}

/// The payload bytes of a tag, per the wire format.
pub open spec fn enc_payload(t: GTag) -> Seq<u8>
    decreases t, 0nat,
{
    match t {
        GTag::End => Seq::empty(),
        GTag::Byte(b) => seq![b as u8],
        GTag::Short(v) => enc_u16((v as u16) as int),
        GTag::Int(v) => enc_u32((v as u32) as int),
        GTag::Long(v) => enc_u64((v as u64) as int),
        GTag::Float(b) => enc_u32(b as int),
        GTag::Double(b) => enc_u64(b as int),
        GTag::ByteArray(s) => enc_u32(s.len() as int) + s.map_values(|x: i8| x as u8),
        GTag::String(s) => enc_u16(s.len() as int) + s,
        GTag::List(ety, elems) => seq![ety] + enc_u32(elems.len() as int) + enc_elems(elems),
        GTag::Compound(es) => enc_entries(es) + seq![TAG_END],
        GTag::IntArray(s) => enc_u32(s.len() as int) + enc_ints(s),
        GTag::LongArray(s) => enc_u32(s.len() as int) + enc_longs(s),
    }
}

/// The concatenated payloads of a list's elements.
pub open spec fn enc_elems(s: Seq<GTag>) -> Seq<u8>
    decreases s, 1nat,
{
    if s.len() == 0 {
        Seq::empty()
    } else {
        enc_payload(s[0]) + enc_elems(s.drop_first())
    }
}

/// The concatenated named entries of a compound, without the End sentinel.
pub open spec fn enc_entries(s: Seq<(Seq<u8>, GTag)>) -> Seq<u8>
    decreases s, 1nat,
{
    if s.len() == 0 {
        Seq::empty()
    } else {
        seq![type_id(s[0].1)] + enc_u16(s[0].0.len() as int) + s[0].0 + enc_payload(s[0].1)
            + enc_entries(s.drop_first())
    }
}

/// The concatenated big-endian elements of an Int array.
pub open spec fn enc_ints(s: Seq<i32>) -> Seq<u8>
    decreases s.len(),
{
    if s.len() == 0 {
        Seq::empty()
    } else {
        enc_u32((s[0] as u32) as int) + enc_ints(s.drop_first())
    }
}

/// The concatenated big-endian elements of a Long array.
pub open spec fn enc_longs(s: Seq<i64>) -> Seq<u8>
    decreases s.len(),
{
    if s.len() == 0 {
        Seq::empty()
    } else {
        enc_u64((s[0] as u64) as int) + enc_longs(s.drop_first())
    }
}

/// A whole document: one named tag of type Compound.
pub open spec fn enc_document(name: Seq<u8>, t: GTag) -> Seq<u8> {
    seq![TAG_COMPOUND] + enc_u16(name.len() as int) + name + enc_payload(t)
}

/// An encoded Int array takes four bytes per element.
pub proof fn lemma_enc_ints_len(s: Seq<i32>)
    ensures
        enc_ints(s).len() == 4 * s.len(),
    decreases s.len(),
{
    if s.len() > 0 {
        lemma_enc_ints_len(s.drop_first());
    }
}

/// Element `i` of an encoded Int array sits at byte offset `4 * i`.
pub proof fn lemma_enc_ints_index(s: Seq<i32>, i: int)
    requires
        0 <= i < s.len(),
    ensures
        enc_ints(s).len() == 4 * s.len(),
        enc_ints(s).subrange(4 * i, 4 * i + 4) == enc_u32((s[i] as u32) as int),
    decreases i,
{
    lemma_enc_ints_len(s);
    lemma_enc_ints_len(s.drop_first());
    if i == 0 {
        assert(enc_ints(s).subrange(0, 4) =~= enc_u32((s[0] as u32) as int));
    } else {
        lemma_enc_ints_index(s.drop_first(), i - 1);
        assert(enc_ints(s).subrange(4 * i, 4 * i + 4) =~= enc_ints(s.drop_first()).subrange(
            4 * (i - 1),
            4 * (i - 1) + 4,
        ));
    }
}

/// An encoded Long array takes eight bytes per element.
pub proof fn lemma_enc_longs_len(s: Seq<i64>)
    ensures
        enc_longs(s).len() == 8 * s.len(),
    decreases s.len(),
{
    if s.len() > 0 {
        lemma_enc_longs_len(s.drop_first());
    }
}

/// Element `i` of an encoded Long array sits at byte offset `8 * i`.
pub proof fn lemma_enc_longs_index(s: Seq<i64>, i: int)
    requires
        0 <= i < s.len(),
    ensures
        enc_longs(s).len() == 8 * s.len(),
        enc_longs(s).subrange(8 * i, 8 * i + 8) == enc_u64((s[i] as u64) as int),
    decreases i,
{
    lemma_enc_longs_len(s);
    lemma_enc_longs_len(s.drop_first());
    if i == 0 {
        assert(enc_longs(s).subrange(0, 8) =~= enc_u64((s[0] as u64) as int));
    } else {
        lemma_enc_longs_index(s.drop_first(), i - 1);
        assert(enc_longs(s).subrange(8 * i, 8 * i + 8) =~= enc_longs(s.drop_first()).subrange(
            8 * (i - 1),
            8 * (i - 1) + 8,
        ));
    }
}

/// Round trip of one payload: decoding the encoding of a well-formed tag at
/// its declared type gives back that tag and consumes exactly its bytes.
#[verifier::rlimit(100)]
#[verifier::spinoff_prover]
pub proof fn lemma_payload_round_trip(data: Seq<u8>, pos: int, t: GTag, depth: nat)
    requires
        wf(t),
        depth >= height(t),
        0 <= pos,
        pos + enc_payload(t).len() <= data.len(),
        data.subrange(pos, pos + enc_payload(t).len()) == enc_payload(t),
    ensures
        sd_payload(data, pos, type_id(t), depth) == Ok::<(GTag, int), NbtError>(
            (t, pos + enc_payload(t).len()),
        ),
    decreases t, 0nat,
{
    let enc = enc_payload(t);
    let e = data.subrange(pos, pos + enc.len());
    match t {
        GTag::End => {},
        GTag::Byte(b) => {
            assert(data[pos] == e[0]);
            let ghost x: i8 = b;
            assert((x as u8) as i8 == x) by (bit_vector);
        },
        GTag::Short(v) => {
            lemma_be16_enc(data, pos, (v as u16) as int);
            let ghost x: i16 = v;
            assert((x as u16) as i16 == x) by (bit_vector);
        },
        GTag::Int(v) => {
            lemma_be32_enc(data, pos, (v as u32) as int);
            let ghost x: i32 = v;
            assert((x as u32) as i32 == x) by (bit_vector);
        },
        GTag::Long(v) => {
            lemma_be64_enc(data, pos, (v as u64) as int);
            let ghost x: i64 = v;
            assert((x as u64) as i64 == x) by (bit_vector);
        },
        GTag::Float(b) => {
            lemma_be32_enc(data, pos, b as int);
        },
        GTag::Double(b) => {
            lemma_be64_enc(data, pos, b as int);
        },
        GTag::ByteArray(s) => {
            let n = s.len() as int;
            assert(e.subrange(0, 4) =~= data.subrange(pos, pos + 4));
            assert(e.subrange(0, 4) =~= enc_u32(n));
            lemma_be32_enc(data, pos, n);
            assert forall|i: int| 0 <= i < n implies data[pos + 4 + i] as i8 == s[i] by {
                assert(data[pos + 4 + i] == e[4 + i]);
                assert(e[4 + i] == s.map_values(|x: i8| x as u8)[i]);
                let ghost x: i8 = s[i];
                assert((x as u8) as i8 == x) by (bit_vector);
            }
            assert(Seq::new(n as nat, |i: int| data[pos + 4 + i] as i8) =~= s);
        },
        GTag::String(s) => {
            let n = s.len() as int;
            assert(e.subrange(0, 2) =~= data.subrange(pos, pos + 2));
            assert(e.subrange(0, 2) =~= enc_u16(n));
            lemma_be16_enc(data, pos, n);
            assert(data.subrange(pos + 2, pos + 2 + n) =~= e.subrange(2, 2 + n));
            assert(e.subrange(2, 2 + n) =~= s);
        },
        GTag::List(ety, elems) => {
            let n = elems.len() as int;
            assert(data[pos] == e[0]);
            assert(e.subrange(1, 5) =~= data.subrange(pos + 1, pos + 5));
            assert(e.subrange(1, 5) =~= enc_u32(n));
            lemma_be32_enc(data, pos + 1, n);
            assert(e.subrange(5, enc.len() as int) =~= data.subrange(pos + 5, pos + enc.len()));
            assert(e.subrange(5, enc.len() as int) =~= enc_elems(elems));
            lemma_elems_round_trip(data, pos + 5, elems, ety, (depth - 1) as nat);
        },
        GTag::Compound(es) => {
            lemma_entries_round_trip(data, pos, es, (depth - 1) as nat);
        },
        GTag::IntArray(s) => {
            let n = s.len() as int;
            lemma_enc_ints_len(s);
            assert(e.subrange(0, 4) =~= data.subrange(pos, pos + 4));
            assert(e.subrange(0, 4) =~= enc_u32(n));
            lemma_be32_enc(data, pos, n);
            assert forall|i: int| 0 <= i < n implies (be32(data, pos + 4 + 4 * i) as u32) as i32
                == s[i] by {
                lemma_enc_ints_index(s, i);
                assert(data.subrange(pos + 4 + 4 * i, pos + 4 + 4 * i + 4) =~= e.subrange(
                    4 + 4 * i,
                    4 + 4 * i + 4,
                ));
                assert(e.subrange(4 + 4 * i, 4 + 4 * i + 4) =~= enc_ints(s).subrange(
                    4 * i,
                    4 * i + 4,
                ));
                lemma_be32_enc(data, pos + 4 + 4 * i, (s[i] as u32) as int);
                let ghost x: i32 = s[i];
                assert((x as u32) as i32 == x) by (bit_vector);
            }
            assert(Seq::new(n as nat, |i: int| (be32(data, pos + 4 + 4 * i) as u32) as i32) =~= s);
        },
        GTag::LongArray(s) => {
            let n = s.len() as int;
            lemma_enc_longs_len(s);
            assert(e.subrange(0, 4) =~= data.subrange(pos, pos + 4));
            assert(e.subrange(0, 4) =~= enc_u32(n));
            lemma_be32_enc(data, pos, n);
            assert forall|i: int| 0 <= i < n implies (be64(data, pos + 4 + 8 * i) as u64) as i64
                == s[i] by {
                lemma_enc_longs_index(s, i);
                assert(data.subrange(pos + 4 + 8 * i, pos + 4 + 8 * i + 8) =~= e.subrange(
                    4 + 8 * i,
                    4 + 8 * i + 8,
                ));
                assert(e.subrange(4 + 8 * i, 4 + 8 * i + 8) =~= enc_longs(s).subrange(
                    8 * i,
                    8 * i + 8,
                ));
                lemma_be64_enc(data, pos + 4 + 8 * i, (s[i] as u64) as int);
                let ghost x: i64 = s[i];
                assert((x as u64) as i64 == x) by (bit_vector);
            }
            assert(Seq::new(n as nat, |i: int| (be64(data, pos + 4 + 8 * i) as u64) as i64) =~= s);
        },
    }
}

/// Round trip of a run of list elements.
pub proof fn lemma_elems_round_trip(data: Seq<u8>, pos: int, elems: Seq<GTag>, ety: u8, depth: nat)
    requires
        wf_elems(elems, ety),
        depth >= height_elems(elems),
        0 <= pos,
        pos + enc_elems(elems).len() <= data.len(),
        data.subrange(pos, pos + enc_elems(elems).len()) == enc_elems(elems),
    ensures
        sd_list(data, pos, ety, elems.len() as int, depth) == Ok::<(Seq<GTag>, int), NbtError>(
            (elems, pos + enc_elems(elems).len()),
        ),
    decreases elems, 1nat,
{
    if elems.len() == 0 {
        assert(elems =~= Seq::<GTag>::empty());
    } else {
        let e = data.subrange(pos, pos + enc_elems(elems).len());
        let t0 = elems[0];
        let l0 = enc_payload(t0).len() as int;
        assert(data.subrange(pos, pos + l0) =~= e.subrange(0, l0));
        assert(e.subrange(0, l0) =~= enc_payload(t0));
        lemma_payload_round_trip(data, pos, t0, depth);
        assert(data.subrange(pos + l0, pos + enc_elems(elems).len()) =~= e.subrange(
            l0,
            enc_elems(elems).len() as int,
        ));
        assert(e.subrange(l0, enc_elems(elems).len() as int) =~= enc_elems(elems.drop_first()));
        lemma_elems_round_trip(data, pos + l0, elems.drop_first(), ety, depth);
        assert(seq![t0] + elems.drop_first() =~= elems);
    }
}

/// Round trip of a compound body up to and including its End sentinel.
pub proof fn lemma_entries_round_trip(
    data: Seq<u8>,
    pos: int,
    es: Seq<(Seq<u8>, GTag)>,
    depth: nat,
)
    requires
        wf_entries(es),
        depth >= height_entries(es),
        0 <= pos,
        pos + enc_entries(es).len() + 1 <= data.len(),
        data.subrange(pos, pos + enc_entries(es).len() + 1) == enc_entries(es) + seq![TAG_END],
    ensures
        sd_entries(data, pos, depth) == Ok::<(Seq<(Seq<u8>, GTag)>, int), NbtError>(
            (es, pos + enc_entries(es).len() + 1),
        ),
    decreases es, 1nat,
{
    let e = data.subrange(pos, pos + enc_entries(es).len() + 1);
    if es.len() == 0 {
        assert(data[pos] == e[0]);
        assert(es =~= Seq::<(Seq<u8>, GTag)>::empty());
    } else {
        let name = es[0].0;
        let t0 = es[0].1;
        let nlen = name.len() as int;
        let l0 = enc_payload(t0).len() as int;
        assert(data[pos] == e[0]);
        assert(e[0] == type_id(t0));
        assert(e.subrange(1, 3) =~= data.subrange(pos + 1, pos + 3));
        assert(e.subrange(1, 3) =~= enc_u16(nlen));
        lemma_be16_enc(data, pos + 1, nlen);
        assert(data.subrange(pos + 3, pos + 3 + nlen) =~= e.subrange(3, 3 + nlen));
        assert(e.subrange(3, 3 + nlen) =~= name);
        assert(data.subrange(pos + 3 + nlen, pos + 3 + nlen + l0) =~= e.subrange(
            3 + nlen,
            3 + nlen + l0,
        ));
        assert(e.subrange(3 + nlen, 3 + nlen + l0) =~= enc_payload(t0));
        lemma_payload_round_trip(data, pos + 3 + nlen, t0, depth);
        let p2 = pos + 3 + nlen + l0;
        let end = pos + enc_entries(es).len() + 1;
        assert(data.subrange(p2, end) =~= e.subrange(3 + nlen + l0, e.len() as int));
        assert(e.subrange(3 + nlen + l0, e.len() as int) =~= enc_entries(es.drop_first()) + seq![
            TAG_END,
        ]);
        lemma_entries_round_trip(data, p2, es.drop_first(), depth);
        assert(seq![(name, t0)] + es.drop_first() =~= es);
    }
}

/// Round trip of a whole document: parsing the encoding of any well-formed
/// root compound under its name gives back exactly that name and tree.
pub proof fn lemma_document_round_trip(name: Seq<u8>, t: GTag, depth: nat)
    requires
        t is Compound,
        wf(t),
        name.len() < 0x10000,
        depth >= height(t),
    ensures
        sd_document(enc_document(name, t), depth) == Ok::<(Seq<u8>, GTag), NbtError>((name, t)),
{
    let data = enc_document(name, t);
    let nlen = name.len() as int;
    assert(data[0] == TAG_COMPOUND);
    assert(data.subrange(1, 3) =~= enc_u16(nlen));
    lemma_be16_enc(data, 1, nlen);
    assert(data.subrange(3, 3 + nlen) =~= name);
    assert(data.subrange(3 + nlen, 3 + nlen + enc_payload(t).len()) =~= enc_payload(t));
    lemma_payload_round_trip(data, 3 + nlen, t, depth);
}

/// The round trip under the default nesting bound, as `Document::parse`
/// uses it.
pub proof fn lemma_round_trip(name: Seq<u8>, t: GTag)
    requires
        t is Compound,
        wf(t),
        name.len() < 0x10000,
        height(t) <= MAX_DEPTH,
    ensures
        sd_document(enc_document(name, t), MAX_DEPTH as nat) == Ok::<(Seq<u8>, GTag), NbtError>(
            (name, t),
        ),
{
    lemma_document_round_trip(name, t, MAX_DEPTH as nat);
}

} // verus!
