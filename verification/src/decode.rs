//! The tag decoder: recursive descent over a byte buffer, driven by the tag
//! type bytes embedded in the data.
//!
//! The wire format is modelled by the spec functions `sd_payload`, `sd_list`,
//! `sd_entries` and `sd_document`; every executable decoding function is
//! proved to return exactly what the model says, success and error alike.

use vstd::prelude::*;

use crate::bits::{be16, be32, be64, read_be16, read_be32, read_be64};
use crate::error::NbtError;
use crate::tag::{
    entries_view, lemma_entries_view_push, lemma_tags_view_push, tag_view, tags_view, GTag, Tag, TAG_BYTE,
    TAG_BYTE_ARRAY, TAG_COMPOUND, TAG_DOUBLE, TAG_END, TAG_FLOAT, TAG_INT, TAG_INT_ARRAY, TAG_LIST,
    TAG_LONG, TAG_LONG_ARRAY, TAG_SHORT, TAG_STRING,
};

verus! {

/// The default bound on nesting depth of lists and compounds.
pub const MAX_DEPTH: u32 = 512;

/// What decoding the payload of a tag of type `ty` at `pos` yields: the tag
/// and the position just past its payload, or the error that rejects the
/// document.  `depth` is the number of nesting levels still allowed.
pub open spec fn sd_payload(data: Seq<u8>, pos: int, ty: u8, depth: nat) -> Result<
    (GTag, int),
    NbtError,
>
    decreases depth, 0int, 0int,
{
    if ty == TAG_END {
        Ok((GTag::End, pos))
    } else if ty == TAG_BYTE {
        if pos + 1 > data.len() {
            Err(NbtError::Truncated)
        } else {
            Ok((GTag::Byte(data[pos] as i8), pos + 1))
        }
    } else if ty == TAG_SHORT {
        if pos + 2 > data.len() {
            Err(NbtError::Truncated)
        } else {
            Ok((GTag::Short((be16(data, pos) as u16) as i16), pos + 2))
        }
    } else if ty == TAG_INT {
        if pos + 4 > data.len() {
            Err(NbtError::Truncated)
        } else {
            Ok((GTag::Int((be32(data, pos) as u32) as i32), pos + 4))
        }
    } else if ty == TAG_LONG {
        if pos + 8 > data.len() {
            Err(NbtError::Truncated)
        } else {
            Ok((GTag::Long((be64(data, pos) as u64) as i64), pos + 8))
        }
    } else if ty == TAG_FLOAT {
        if pos + 4 > data.len() {
            Err(NbtError::Truncated)
        } else {
            Ok((GTag::Float(be32(data, pos) as u32), pos + 4))
        }
    } else if ty == TAG_DOUBLE {
        if pos + 8 > data.len() {
            Err(NbtError::Truncated)
        } else {
            Ok((GTag::Double(be64(data, pos) as u64), pos + 8))
        }
    } else if ty == TAG_BYTE_ARRAY {
        if pos + 4 > data.len() {
            Err(NbtError::Truncated)
        } else if be32(data, pos) >= 0x80000000 {
            Err(NbtError::NegativeLength)
        } else {
            let n = be32(data, pos);
            if pos + 4 + n > data.len() {
                Err(NbtError::Truncated)
            } else {
                Ok(
                    (
                        GTag::ByteArray(Seq::new(n as nat, |i: int| data[pos + 4 + i] as i8)),
                        pos + 4 + n,
                    ),
                )
            }
        }
    } else if ty == TAG_STRING {
        if pos + 2 > data.len() {
            Err(NbtError::Truncated)
        } else {
            let n = be16(data, pos);
            if pos + 2 + n > data.len() {
                Err(NbtError::Truncated)
            } else {
                Ok((GTag::String(data.subrange(pos + 2, pos + 2 + n)), pos + 2 + n))
            }
        }
    } else if ty == TAG_LIST {
        if depth == 0 {
            Err(NbtError::DepthLimit)
        } else if pos + 5 > data.len() {
            Err(NbtError::Truncated)
        } else if be32(data, pos + 1) >= 0x80000000 {
            Err(NbtError::NegativeLength)
        } else {
            match sd_list(data, pos + 5, data[pos], be32(data, pos + 1), (depth - 1) as nat) {
                Ok((elems, p)) => Ok((GTag::List(data[pos], elems), p)),
                Err(e) => Err(e),
            }
        }
    } else if ty == TAG_COMPOUND {
        if depth == 0 {
            Err(NbtError::DepthLimit)
        } else {
            match sd_entries(data, pos, (depth - 1) as nat) {
                Ok((es, p)) => Ok((GTag::Compound(es), p)),
                Err(e) => Err(e),
            }
        }
    } else if ty == TAG_INT_ARRAY {
        if pos + 4 > data.len() {
            Err(NbtError::Truncated)
        } else if be32(data, pos) >= 0x80000000 {
            Err(NbtError::NegativeLength)
        } else {
            let n = be32(data, pos);
            if pos + 4 + 4 * n > data.len() {
                Err(NbtError::Truncated)
            } else {
                Ok(
                    (
                        GTag::IntArray(
                            Seq::new(n as nat, |i: int| (be32(data, pos + 4 + 4 * i) as u32) as i32),
                        ),
                        pos + 4 + 4 * n,
                    ),
                )
            }
        }
    } else if ty == TAG_LONG_ARRAY {
        if pos + 4 > data.len() {
            Err(NbtError::Truncated)
        } else if be32(data, pos) >= 0x80000000 {
            Err(NbtError::NegativeLength)
        } else {
            let n = be32(data, pos);
            if pos + 4 + 8 * n > data.len() {
                Err(NbtError::Truncated)
            } else {
                Ok(
                    (
                        GTag::LongArray(
                            Seq::new(n as nat, |i: int| (be64(data, pos + 4 + 8 * i) as u64) as i64),
                        ),
                        pos + 4 + 8 * n,
                    ),
                )
            }
        }
    } else {
        Err(NbtError::UnrecognizedTag(ty))
    }
}

/// What decoding `count` consecutive payloads of element type `ety` yields:
/// the elements in order and the position past the last, or the first error.
pub open spec fn sd_list(data: Seq<u8>, pos: int, ety: u8, count: int, depth: nat) -> Result<
    (Seq<GTag>, int),
    NbtError,
>
    decreases depth, count, 1int,
{
    if count <= 0 {
        Ok((Seq::empty(), pos))
    } else {
        match sd_payload(data, pos, ety, depth) {
            Ok((t, p)) => match sd_list(data, p, ety, count - 1, depth) {
                Ok((rest, q)) => Ok((seq![t] + rest, q)),
                Err(e) => Err(e),
            },
            Err(e) => Err(e),
        }
    }
}

/// What decoding a compound body at `pos` yields: the named entries up to
/// and excluding the End sentinel, in document order, and the position just
/// past the sentinel, or the first error.
pub open spec fn sd_entries(data: Seq<u8>, pos: int, depth: nat) -> Result<
    (Seq<(Seq<u8>, GTag)>, int),
    NbtError,
>
    decreases depth, data.len() - pos, 1int,
{
    if pos + 1 > data.len() {
        Err(NbtError::Truncated)
    } else {
        let ty = data[pos];
        if ty == TAG_END {
            Ok((Seq::empty(), pos + 1))
        } else if pos + 3 > data.len() {
            Err(NbtError::Truncated)
        } else {
            let nlen = be16(data, pos + 1);
            if pos + 3 + nlen > data.len() {
                Err(NbtError::Truncated)
            } else {
                let name = data.subrange(pos + 3, pos + 3 + nlen);
                match sd_payload(data, pos + 3 + nlen, ty, depth) {
                    Ok((t, p)) => if pos < p <= data.len() {
                        match sd_entries(data, p, depth) {
                            Ok((rest, q)) => Ok((seq![(name, t)] + rest, q)),
                            Err(e) => Err(e),
                        }
                    } else {
                        Err(NbtError::Truncated)
                    },
                    Err(e) => Err(e),
                }
            }
        }
    }
}

/// A decoded run of list elements is never partial: on success it holds
/// exactly the requested count of elements.
pub proof fn lemma_list_count(data: Seq<u8>, pos: int, ety: u8, count: int, depth: nat)
    requires
        count >= 0,
    ensures
        sd_list(data, pos, ety, count, depth) matches Ok((elems, _p)) ==> elems.len() == count,
    decreases count,
{
    if count > 0 {
        match sd_payload(data, pos, ety, depth) {
            Ok((_t, p)) => {
                lemma_list_count(data, p, ety, count - 1, depth);
            },
            Err(_) => {},
        }
    }
}

/// A decoded List tag is never partial: it holds exactly the element count
/// declared on the wire just after the element type byte.
pub proof fn lemma_list_complete(data: Seq<u8>, pos: int, depth: nat)
    ensures
        sd_payload(data, pos, TAG_LIST, depth) matches Ok((t, _p)) ==> t matches GTag::List(
            _ety,
            elems,
        ) && elems.len() == be32(data, pos + 1),
{
    if depth > 0 && pos + 5 <= data.len() && be32(data, pos + 1) < 0x80000000 {
        lemma_list_count(data, pos + 5, data[pos], be32(data, pos + 1), (depth - 1) as nat);
    }
}

/// A decoded Compound is never partial: on success the last byte consumed
/// is its End sentinel, so every entry before it was decoded.
pub proof fn lemma_compound_terminated(data: Seq<u8>, pos: int, depth: nat)
    ensures
        sd_entries(data, pos, depth) matches Ok((_es, p)) ==> pos < p <= data.len() && data[p - 1]
            == TAG_END,
    decreases data.len() - pos,
{
    if pos + 1 <= data.len() {
        let ty = data[pos];
        if ty != TAG_END && pos + 3 <= data.len() {
            let nlen = be16(data, pos + 1);
            if pos + 3 + nlen <= data.len() {
                match sd_payload(data, pos + 3 + nlen, ty, depth) {
                    Ok((_t, p2)) => {
                        if pos < p2 <= data.len() {
                            lemma_compound_terminated(data, p2, depth);
                        }
                    },
                    Err(_) => {},
                }
            }
        }
    }
}

/// A successful parse always yields a Compound root.
pub proof fn lemma_root_is_compound(data: Seq<u8>, depth: nat)
    ensures
        sd_document(data, depth) matches Ok((_name, t)) ==> t is Compound,
{
}

/// Decodes the payload of a tag of type `ty` at `pos`, returning exactly
/// what the wire-format model `sd_payload` says, success and error alike.
pub fn decode_payload(data: &[u8], pos: usize, ty: u8, depth: u32) -> (r: Result<
    (Tag, usize),
    NbtError,
>)
    requires
        pos <= data@.len(),
    ensures
        match r {
            Ok(tp) => sd_payload(data@, pos as int, ty, depth as nat) == Ok::<
                (GTag, int),
                NbtError,
            >((tag_view(tp.0), tp.1 as int)) && pos <= tp.1 <= data@.len(),
            Err(e) => sd_payload(data@, pos as int, ty, depth as nat) == Err::<
                (GTag, int),
                NbtError,
            >(e),
        },
    decreases depth, 0int,
{
    if ty == TAG_END {
        Ok((Tag::End, pos))
    } else if ty == TAG_BYTE {
        if data.len() - pos < 1 {
            Err(NbtError::Truncated)
        } else {
            Ok((Tag::Byte(data[pos] as i8), pos + 1))
        }
    } else if ty == TAG_SHORT {
        if data.len() - pos < 2 {
            Err(NbtError::Truncated)
        } else {
            let v = read_be16(data, pos);
            Ok((Tag::Short(v as i16), pos + 2))
        }
    } else if ty == TAG_INT {
        if data.len() - pos < 4 {
            Err(NbtError::Truncated)
        } else {
            let v = read_be32(data, pos);
            Ok((Tag::Int(v as i32), pos + 4))
        }
    } else if ty == TAG_LONG {
        if data.len() - pos < 8 {
            Err(NbtError::Truncated)
        } else {
            let v = read_be64(data, pos);
            Ok((Tag::Long(v as i64), pos + 8))
        }
    } else if ty == TAG_FLOAT {
        if data.len() - pos < 4 {
            Err(NbtError::Truncated)
        } else {
            Ok((Tag::Float(read_be32(data, pos)), pos + 4))
        }
    } else if ty == TAG_DOUBLE {
        if data.len() - pos < 8 {
            Err(NbtError::Truncated)
        } else {
            Ok((Tag::Double(read_be64(data, pos)), pos + 8))
        }
    } else if ty == TAG_BYTE_ARRAY {
        if data.len() - pos < 4 {
            Err(NbtError::Truncated)
        } else {
            let c = read_be32(data, pos);
            if c >= 0x80000000 {
                Err(NbtError::NegativeLength)
            } else {
                let n = c as usize;
                if data.len() - (pos + 4) < n {
                    Err(NbtError::Truncated)
                } else {
                    let mut v: Vec<i8> = Vec::new();
                    let mut i: usize = 0;
                    while i < n
                        invariant
                            data@.len() <= usize::MAX,
                            pos + 4 + n <= data@.len(),
                            i <= n,
                            v@.len() == i,
                            forall|j: int| 0 <= j < i ==> v@[j] == data@[pos + 4 + j] as i8,
                        decreases n - i,
                    {
                        v.push(data[pos + 4 + i] as i8);
                        i += 1;
                    }
                    proof {
                        assert(v@ =~= Seq::new(n as nat, |i: int| data@[pos + 4 + i] as i8));
                    }
                    Ok((Tag::ByteArray(v), pos + 4 + n))
                }
            }
        }
    } else if ty == TAG_STRING {
        if data.len() - pos < 2 {
            Err(NbtError::Truncated)
        } else {
            let n = read_be16(data, pos) as usize;
            if data.len() - (pos + 2) < n {
                Err(NbtError::Truncated)
            } else {
                let mut v: Vec<u8> = Vec::new();
                let mut i: usize = 0;
                while i < n
                    invariant
                        data@.len() <= usize::MAX,
                        pos + 2 + n <= data@.len(),
                        i <= n,
                        v@.len() == i,
                        forall|j: int| 0 <= j < i ==> v@[j] == data@[pos + 2 + j],
                    decreases n - i,
                {
                    v.push(data[pos + 2 + i]);
                    i += 1;
                }
                proof {
                    assert(v@ =~= data@.subrange(pos + 2, pos + 2 + n));
                }
                Ok((Tag::String(v), pos + 2 + n))
            }
        }
    } else if ty == TAG_LIST {
        if depth == 0 {
            Err(NbtError::DepthLimit)
        } else if data.len() - pos < 5 {
            Err(NbtError::Truncated)
        } else {
            let ety = data[pos];
            let c = read_be32(data, pos + 1);
            if c >= 0x80000000 {
                Err(NbtError::NegativeLength)
            } else {
                match decode_list(data, pos + 5, ety, c as usize, depth - 1) {
                    Ok((v, p)) => Ok((Tag::List(ety, v), p)),
                    Err(e) => Err(e),
                }
            }
        }
    } else if ty == TAG_COMPOUND {
        if depth == 0 {
            Err(NbtError::DepthLimit)
        } else {
            match decode_compound(data, pos, depth - 1) {
                Ok((es, p)) => Ok((Tag::Compound(es), p)),
                Err(e) => Err(e),
            }
        }
    } else if ty == TAG_INT_ARRAY {
        if data.len() - pos < 4 {
            Err(NbtError::Truncated)
        } else {
            let c = read_be32(data, pos);
            if c >= 0x80000000 {
                Err(NbtError::NegativeLength)
            } else {
                let n = c as usize;
                let rem = data.len() - (pos + 4);
                proof {
                    vstd::arithmetic::div_mod::lemma_fundamental_div_mod(rem as int, 4);
                }
                if rem / 4 < n {
                    Err(NbtError::Truncated)
                } else {
                    let mut v: Vec<i32> = Vec::new();
                    let mut i: usize = 0;
                    while i < n
                        invariant
                            data@.len() <= usize::MAX,
                            pos + 4 + 4 * n <= data@.len(),
                            i <= n,
                            v@.len() == i,
                            forall|j: int|
                                0 <= j < i ==> v@[j] == (be32(data@, pos + 4 + 4 * j) as u32) as i32,
                        decreases n - i,
                    {
                        let x = read_be32(data, pos + 4 + 4 * i);
                        v.push(x as i32);
                        i += 1;
                    }
                    proof {
                        assert(v@ =~= Seq::new(
                            n as nat,
                            |i: int| (be32(data@, pos + 4 + 4 * i) as u32) as i32,
                        ));
                    }
                    Ok((Tag::IntArray(v), pos + 4 + 4 * n))
                }
            }
        }
    } else if ty == TAG_LONG_ARRAY {
        if data.len() - pos < 4 {
            Err(NbtError::Truncated)
        } else {
            let c = read_be32(data, pos);
            if c >= 0x80000000 {
                Err(NbtError::NegativeLength)
            } else {
                let n = c as usize;
                let rem = data.len() - (pos + 4);
                proof {
                    vstd::arithmetic::div_mod::lemma_fundamental_div_mod(rem as int, 8);
                }
                if rem / 8 < n {
                    Err(NbtError::Truncated)
                } else {
                    let mut v: Vec<i64> = Vec::new();
                    let mut i: usize = 0;
                    while i < n
                        invariant
                            data@.len() <= usize::MAX,
                            pos + 4 + 8 * n <= data@.len(),
                            i <= n,
                            v@.len() == i,
                            forall|j: int|
                                0 <= j < i ==> v@[j] == (be64(data@, pos + 4 + 8 * j) as u64) as i64,
                        decreases n - i,
                    {
                        let x = read_be64(data, pos + 4 + 8 * i);
                        v.push(x as i64);
                        i += 1;
                    }
                    proof {
                        assert(v@ =~= Seq::new(
                            n as nat,
                            |i: int| (be64(data@, pos + 4 + 8 * i) as u64) as i64,
                        ));
                    }
                    Ok((Tag::LongArray(v), pos + 4 + 8 * n))
                }
            }
        }
    } else {
        Err(NbtError::UnrecognizedTag(ty))
    }
}

/// Decodes `count` consecutive payloads of element type `ety`, as the model
/// `sd_list` says.
fn decode_list(data: &[u8], pos: usize, ety: u8, count: usize, depth: u32) -> (r: Result<
    (Vec<Tag>, usize),
    NbtError,
>)
    requires
        pos <= data@.len(),
    ensures
        match r {
            Ok(vp) => sd_list(data@, pos as int, ety, count as int, depth as nat) == Ok::<
                (Seq<GTag>, int),
                NbtError,
            >((tags_view(vp.0@), vp.1 as int)) && pos <= vp.1 <= data@.len(),
            Err(e) => sd_list(data@, pos as int, ety, count as int, depth as nat) == Err::<
                (Seq<GTag>, int),
                NbtError,
            >(e),
        },
    decreases depth, 1int,
{
    let mut v: Vec<Tag> = Vec::new();
    let mut cur: usize = pos;
    let mut i: usize = 0;
    while i < count
        invariant
            pos <= cur <= data@.len(),
            i <= count,
            v@.len() == i,
            sd_list(data@, pos as int, ety, count as int, depth as nat) == (match sd_list(
                data@,
                cur as int,
                ety,
                count - i,
                depth as nat,
            ) {
                Ok((rest, q)) => Ok::<(Seq<GTag>, int), NbtError>((tags_view(v@) + rest, q)),
                Err(e) => Err::<(Seq<GTag>, int), NbtError>(e),
            }),
        decreases count - i,
    {
        match decode_payload(data, cur, ety, depth) {
            Ok((t, p)) => {
                let ghost old_v = v@;
                v.push(t);
                cur = p;
                i = i + 1;
                proof {
                    lemma_tags_view_push(old_v, t);
                    assert(tags_view(v@) =~= tags_view(old_v) + seq![tag_view(t)]);
                    match sd_list(data@, cur as int, ety, count - i, depth as nat) {
                        Ok((rest, q)) => {
                            assert(tags_view(v@) + rest =~= tags_view(old_v) + (seq![tag_view(t)]
                                + rest));
                        },
                        Err(e) => {},
                    }
                }
            },
            Err(e) => {
                return Err(e);
            },
        }
    }
    proof {
        assert(tags_view(v@) + Seq::<GTag>::empty() =~= tags_view(v@));
    }
    Ok((v, cur))
}

/// Decodes a compound body: named entries up to the End sentinel, as the
/// model `sd_entries` says.
fn decode_compound(data: &[u8], pos: usize, depth: u32) -> (r: Result<
    (Vec<(Vec<u8>, Tag)>, usize),
    NbtError,
>)
    requires
        pos <= data@.len(),
    ensures
        match r {
            Ok(vp) => sd_entries(data@, pos as int, depth as nat) == Ok::<
                (Seq<(Seq<u8>, GTag)>, int),
                NbtError,
            >((entries_view(vp.0@), vp.1 as int)) && pos <= vp.1 <= data@.len(),
            Err(e) => sd_entries(data@, pos as int, depth as nat) == Err::<
                (Seq<(Seq<u8>, GTag)>, int),
                NbtError,
            >(e),
        },
    decreases depth, 1int,
{
    let mut es: Vec<(Vec<u8>, Tag)> = Vec::new();
    let mut cur: usize = pos;
    loop
        invariant
            pos <= cur <= data@.len(),
            sd_entries(data@, pos as int, depth as nat) == (match sd_entries(
                data@,
                cur as int,
                depth as nat,
            ) {
                Ok((rest, q)) => Ok::<(Seq<(Seq<u8>, GTag)>, int), NbtError>(
                    (entries_view(es@) + rest, q),
                ),
                Err(e) => Err::<(Seq<(Seq<u8>, GTag)>, int), NbtError>(e),
            }),
        decreases data@.len() - cur,
    {
        if data.len() - cur < 1 {
            return Err(NbtError::Truncated);
        }
        let ty = data[cur];
        if ty == TAG_END {
            proof {
                assert(entries_view(es@) + Seq::<(Seq<u8>, GTag)>::empty() =~= entries_view(es@));
            }
            return Ok((es, cur + 1));
        }
        if data.len() - cur < 3 {
            return Err(NbtError::Truncated);
        }
        let nlen = read_be16(data, cur + 1) as usize;
        if data.len() - (cur + 3) < nlen {
            return Err(NbtError::Truncated);
        }
        let mut name: Vec<u8> = Vec::new();
        let mut i: usize = 0;
        while i < nlen
            invariant
                data@.len() <= usize::MAX,
                cur + 3 + nlen <= data@.len(),
                i <= nlen,
                name@.len() == i,
                forall|j: int| 0 <= j < i ==> name@[j] == data@[cur + 3 + j],
            decreases nlen - i,
        {
            name.push(data[cur + 3 + i]);
            i += 1;
        }
        proof {
            assert(name@ =~= data@.subrange(cur + 3, cur + 3 + nlen));
        }
        match decode_payload(data, cur + 3 + nlen, ty, depth) {
            Ok((t, p)) => {
                let ghost old_es = es@;
                let ghost old_cur = cur as int;
                let ghost gname = name@;
                es.push((name, t));
                cur = p;
                proof {
                    lemma_entries_view_push(old_es, es@[es@.len() - 1].0, t);
                    assert(entries_view(es@) =~= entries_view(old_es) + seq![
                        (gname, tag_view(t)),
                    ]);
                    match sd_entries(data@, cur as int, depth as nat) {
                        Ok((rest, q)) => {
                            assert(entries_view(es@) + rest =~= entries_view(old_es) + (seq![
                                (gname, tag_view(t)),
                            ] + rest));
                        },
                        Err(e) => {},
                    }
                }
            },
            Err(e) => {
                return Err(e);
            },
        }
    }
}

/// What parsing a whole document yields: the root tag's name and the root
/// compound, or the error that rejects the document.  The root tag type must
/// be a Compound; trailing bytes after the root tag are ignored.
pub open spec fn sd_document(data: Seq<u8>, depth: nat) -> Result<(Seq<u8>, GTag), NbtError> {
    if data.len() < 1 {
        Err(NbtError::Truncated)
    } else if data[0] > TAG_LONG_ARRAY {
        Err(NbtError::UnrecognizedTag(data[0]))
    } else if data[0] != TAG_COMPOUND {
        Err(NbtError::WrongRootType(data[0]))
    } else if 3 > data.len() {
        Err(NbtError::Truncated)
    } else {
        let nlen = be16(data, 1);
        if 3 + nlen > data.len() {
            Err(NbtError::Truncated)
        } else {
            match sd_payload(data, 3 + nlen, TAG_COMPOUND, depth) {
                Ok((t, _p)) => Ok((data.subrange(3, 3 + nlen), t)),
                Err(e) => Err(e),
            }
        }
    }
}

/// Parses the root named tag of a document with the given nesting bound, as
/// the model `sd_document` says.
pub fn parse_with_depth(data: &[u8], depth: u32) -> (r: Result<(Vec<u8>, Tag), NbtError>)
    ensures
        match r {
            Ok(nt) => sd_document(data@, depth as nat) == Ok::<(Seq<u8>, GTag), NbtError>(
                (nt.0@, tag_view(nt.1)),
            ),
            Err(e) => sd_document(data@, depth as nat) == Err::<(Seq<u8>, GTag), NbtError>(e),
        },
{
    if data.len() < 1 {
        return Err(NbtError::Truncated);
    }
    let ty = data[0];
    if ty > TAG_LONG_ARRAY {
        return Err(NbtError::UnrecognizedTag(ty));
    }
    if ty != TAG_COMPOUND {
        return Err(NbtError::WrongRootType(ty));
    }
    if data.len() < 3 {
        return Err(NbtError::Truncated);
    }
    let nlen = read_be16(data, 1) as usize;
    if data.len() - 3 < nlen {
        return Err(NbtError::Truncated);
    }
    let mut name: Vec<u8> = Vec::new();
    let mut i: usize = 0;
    while i < nlen
        invariant
            data@.len() <= usize::MAX,
            3 + nlen <= data@.len(),
            i <= nlen,
            name@.len() == i,
            forall|j: int| 0 <= j < i ==> name@[j] == data@[3 + j],
        decreases nlen - i,
    {
        name.push(data[3 + i]);
        i += 1;
    }
    proof {
        assert(name@ =~= data@.subrange(3, 3 + nlen));
    }
    match decode_payload(data, 3 + nlen, TAG_COMPOUND, depth) {
        Ok((t, _p)) => Ok((name, t)),
        Err(e) => Err(e),
    }
}

/// A byte buffer bound for parsing.  `load` binds the buffer; `parse`
/// consumes the root named tag and returns its name and root compound.
pub struct Document {
    data: Vec<u8>,
}

impl View for Document {
    type V = Seq<u8>;

    closed spec fn view(&self) -> Seq<u8> {
        self.data@
    }
}

impl Document {
    /// Binds a byte buffer for parsing.
    pub fn load(data: Vec<u8>) -> (d: Document)
        ensures
            d@ == data@,
    {
        Document { data }
    }

    /// Parses the root named tag with the default nesting bound, as the
    /// model `sd_document` says.
    pub fn parse(&self) -> (r: Result<(Vec<u8>, Tag), NbtError>)
        ensures
            match r {
                Ok(nt) => sd_document(self@, MAX_DEPTH as nat) == Ok::<(Seq<u8>, GTag), NbtError>(
                    (nt.0@, tag_view(nt.1)),
                ),
                Err(e) => sd_document(self@, MAX_DEPTH as nat) == Err::<(Seq<u8>, GTag), NbtError>(
                    e,
                ),
            },
    {
        parse_with_depth(self.data.as_slice(), MAX_DEPTH)
    }
}

} // verus!
