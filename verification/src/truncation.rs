//! The truncation theorem: cutting a document that decodes successfully at
//! any byte offset before the end of its root tag yields a truncation
//! error, never a silently wrong value.
//!
//! The proof has three steps over the decoder model: decoding never moves
//! the position backwards (`*_bound`); decoding only reads bytes below its
//! final position, so it is stable under cutting behind that position
//! (`*_stable`); and cutting strictly before the final position turns the
//! result into `Truncated` (`*_truncated`).

use vstd::prelude::*;

use crate::bits::{be16, be32};
use crate::decode::{sd_document, sd_entries, sd_list, sd_payload};
use crate::error::NbtError;
use crate::tag::{GTag, TAG_BYTE_ARRAY, TAG_COMPOUND, TAG_END, TAG_LIST, TAG_STRING};

verus! {

/// Decoding a payload never moves the position backwards.
pub proof fn lemma_payload_bound(data: Seq<u8>, pos: int, ty: u8, depth: nat)
    ensures
        sd_payload(data, pos, ty, depth) matches Ok((_t, p)) ==> p >= pos,
    decreases depth, 0int, 0int,
{
    if ty == TAG_LIST {
        if depth > 0 && pos + 5 <= data.len() && be32(data, pos + 1) < 0x80000000 {
            lemma_list_bound(data, pos + 5, data[pos], be32(data, pos + 1), (depth - 1) as nat);
        }
    } else if ty == TAG_COMPOUND {
        if depth > 0 {
            lemma_entries_bound(data, pos, (depth - 1) as nat);
        }
    }
}

/// Decoding a run of list elements never moves the position backwards.
pub proof fn lemma_list_bound(data: Seq<u8>, pos: int, ety: u8, count: int, depth: nat)
    ensures
        sd_list(data, pos, ety, count, depth) matches Ok((_es, p)) ==> p >= pos,
    decreases depth, count, 1int,
{
    if count > 0 {
        match sd_payload(data, pos, ety, depth) {
            Ok((_t, p0)) => {
                lemma_payload_bound(data, pos, ety, depth);
                lemma_list_bound(data, p0, ety, count - 1, depth);
            },
            Err(_) => {},
        }
    }
}

/// Decoding a compound body consumes at least its End sentinel.
pub proof fn lemma_entries_bound(data: Seq<u8>, pos: int, depth: nat)
    ensures
        sd_entries(data, pos, depth) matches Ok((_es, p)) ==> p >= pos + 1,
    decreases depth, data.len() - pos, 1int,
{
    if pos + 1 <= data.len() {
        let ty = data[pos];
        if ty != TAG_END && pos + 3 <= data.len() {
            let nlen = be16(data, pos + 1);
            if pos + 3 + nlen <= data.len() {
                match sd_payload(data, pos + 3 + nlen, ty, depth) {
                    Ok((_t, p0)) => {
                        lemma_payload_bound(data, pos + 3 + nlen, ty, depth);
                        if pos < p0 <= data.len() {
                            lemma_entries_bound(data, p0, depth);
                        }
                    },
                    Err(_) => {},
                }
            }
        }
    }
}

/// A payload decode only reads bytes below its final position: cutting the
/// buffer at or behind that position leaves the result unchanged.
pub proof fn lemma_payload_stable(data: Seq<u8>, k: int, pos: int, ty: u8, depth: nat)
    requires
        0 <= pos,
        0 <= k <= data.len(),
    ensures
        sd_payload(data, pos, ty, depth) matches Ok((t, p)) ==> (p <= k ==> sd_payload(
            data.subrange(0, k),
            pos,
            ty,
            depth,
        ) == Ok::<(GTag, int), NbtError>((t, p))),
    decreases depth, 0int, 0int,
{
    let data2 = data.subrange(0, k);
    if ty == TAG_BYTE_ARRAY {
        if pos + 4 <= data.len() && be32(data, pos) < 0x80000000 {
            let n = be32(data, pos);
            if pos + 4 + n <= data.len() && pos + 4 + n <= k {
                assert(Seq::new(n as nat, |i: int| data2[pos + 4 + i] as i8) =~= Seq::new(
                    n as nat,
                    |i: int| data[pos + 4 + i] as i8,
                ));
            }
        }
    } else if ty == TAG_STRING {
        if pos + 2 <= data.len() {
            let n = be16(data, pos);
            if pos + 2 + n <= data.len() && pos + 2 + n <= k {
                assert(data2.subrange(pos + 2, pos + 2 + n) =~= data.subrange(pos + 2, pos + 2 + n));
            }
        }
    } else if ty == TAG_LIST {
        if depth > 0 && pos + 5 <= data.len() && be32(data, pos + 1) < 0x80000000 {
            match sd_list(data, pos + 5, data[pos], be32(data, pos + 1), (depth - 1) as nat) {
                Ok((_es, p)) => {
                    lemma_list_bound(data, pos + 5, data[pos], be32(data, pos + 1), (depth
                        - 1) as nat);
                    if p <= k {
                        lemma_list_stable(data, k, pos + 5, data[pos], be32(data, pos + 1), (depth
                            - 1) as nat);
                    }
                },
                Err(_) => {},
            }
        }
    } else if ty == TAG_COMPOUND {
        if depth > 0 {
            match sd_entries(data, pos, (depth - 1) as nat) {
                Ok((_es, p)) => {
                    lemma_entries_bound(data, pos, (depth - 1) as nat);
                    if p <= k {
                        lemma_entries_stable(data, k, pos, (depth - 1) as nat);
                    }
                },
                Err(_) => {},
            }
        }
    } else if ty == crate::tag::TAG_INT_ARRAY {
        if pos + 4 <= data.len() && be32(data, pos) < 0x80000000 {
            let n = be32(data, pos);
            if pos + 4 + 4 * n <= data.len() && pos + 4 + 4 * n <= k {
                assert(Seq::new(n as nat, |i: int| (be32(data2, pos + 4 + 4 * i) as u32) as i32)
                    =~= Seq::new(n as nat, |i: int| (be32(data, pos + 4 + 4 * i) as u32) as i32));
            }
        }
    } else if ty == crate::tag::TAG_LONG_ARRAY {
        if pos + 4 <= data.len() && be32(data, pos) < 0x80000000 {
            let n = be32(data, pos);
            if pos + 4 + 8 * n <= data.len() && pos + 4 + 8 * n <= k {
                assert(Seq::new(
                    n as nat,
                    |i: int| (crate::bits::be64(data2, pos + 4 + 8 * i) as u64) as i64,
                ) =~= Seq::new(
                    n as nat,
                    |i: int| (crate::bits::be64(data, pos + 4 + 8 * i) as u64) as i64,
                ));
            }
        }
    }
}

/// A run of list elements is likewise stable under cutting behind its end.
pub proof fn lemma_list_stable(
    data: Seq<u8>,
    k: int,
    pos: int,
    ety: u8,
    count: int,
    depth: nat,
)
    requires
        0 <= pos,
        0 <= k <= data.len(),
    ensures
        sd_list(data, pos, ety, count, depth) matches Ok((es, p)) ==> (p <= k ==> sd_list(
            data.subrange(0, k),
            pos,
            ety,
            count,
            depth,
        ) == Ok::<(Seq<GTag>, int), NbtError>((es, p))),
    decreases depth, count, 1int,
{
    if count > 0 {
        match sd_payload(data, pos, ety, depth) {
            Ok((_t0, p0)) => {
                lemma_payload_bound(data, pos, ety, depth);
                match sd_list(data, p0, ety, count - 1, depth) {
                    Ok(_) => {
                        lemma_list_bound(data, p0, ety, count - 1, depth);
                        lemma_payload_stable(data, k, pos, ety, depth);
                        lemma_list_stable(data, k, p0, ety, count - 1, depth);
                    },
                    Err(_) => {},
                }
            },
            Err(_) => {},
        }
    }
}

/// A compound body is likewise stable under cutting behind its end.
pub proof fn lemma_entries_stable(data: Seq<u8>, k: int, pos: int, depth: nat)
    requires
        0 <= pos,
        0 <= k <= data.len(),
    ensures
        sd_entries(data, pos, depth) matches Ok((es, p)) ==> (p <= k ==> sd_entries(
            data.subrange(0, k),
            pos,
            depth,
        ) == Ok::<(Seq<(Seq<u8>, GTag)>, int), NbtError>((es, p))),
    decreases depth, data.len() - pos, 1int,
{
    let data2 = data.subrange(0, k);
    if pos + 1 <= data.len() {
        let ty = data[pos];
        if ty != TAG_END && pos + 3 <= data.len() {
            let nlen = be16(data, pos + 1);
            if pos + 3 + nlen <= data.len() {
                match sd_payload(data, pos + 3 + nlen, ty, depth) {
                    Ok((_t0, p0)) => {
                        lemma_payload_bound(data, pos + 3 + nlen, ty, depth);
                        if pos < p0 <= data.len() {
                            match sd_entries(data, p0, depth) {
                                Ok((_es, p)) => {
                                    lemma_entries_bound(data, p0, depth);
                                    if p <= k {
                                        assert(data2.subrange(pos + 3, pos + 3 + nlen)
                                            =~= data.subrange(pos + 3, pos + 3 + nlen));
                                        lemma_payload_stable(data, k, pos + 3 + nlen, ty, depth);
                                        lemma_entries_stable(data, k, p0, depth);
                                    }
                                },
                                Err(_) => {},
                            }
                        }
                    },
                    Err(_) => {},
                }
            }
        }
    }
}

/// Cutting a payload that decodes successfully strictly before its end
/// yields exactly a truncation error.
pub proof fn lemma_payload_truncated(data: Seq<u8>, k: int, pos: int, ty: u8, depth: nat)
    requires
        0 <= pos <= k <= data.len(),
    ensures
        sd_payload(data, pos, ty, depth) matches Ok((_t, p)) ==> (k < p ==> sd_payload(
            data.subrange(0, k),
            pos,
            ty,
            depth,
        ) == Err::<(GTag, int), NbtError>(NbtError::Truncated)),
    decreases depth, 0int, 0int,
{
    let data2 = data.subrange(0, k);
    if ty == TAG_BYTE_ARRAY || ty == crate::tag::TAG_INT_ARRAY || ty == crate::tag::TAG_LONG_ARRAY
        || ty == TAG_STRING {
        // the length prefix reads the same when it fits; the payload check
        // then fails against the shorter buffer
    } else if ty == TAG_LIST {
        if depth > 0 && pos + 5 <= data.len() && be32(data, pos + 1) < 0x80000000 {
            match sd_list(data, pos + 5, data[pos], be32(data, pos + 1), (depth - 1) as nat) {
                Ok((_es, p)) => {
                    if k < p && pos + 5 <= k {
                        lemma_list_truncated(data, k, pos + 5, data[pos], be32(data, pos + 1), (
                        depth - 1) as nat);
                    }
                },
                Err(_) => {},
            }
        }
    } else if ty == TAG_COMPOUND {
        if depth > 0 {
            match sd_entries(data, pos, (depth - 1) as nat) {
                Ok((_es, p)) => {
                    if k < p {
                        lemma_entries_truncated(data, k, pos, (depth - 1) as nat);
                    }
                },
                Err(_) => {},
            }
        }
    }
}

/// Cutting a run of list elements strictly before its end yields exactly a
/// truncation error.
pub proof fn lemma_list_truncated(
    data: Seq<u8>,
    k: int,
    pos: int,
    ety: u8,
    count: int,
    depth: nat,
)
    requires
        0 <= pos <= k <= data.len(),
    ensures
        sd_list(data, pos, ety, count, depth) matches Ok((_es, p)) ==> (k < p ==> sd_list(
            data.subrange(0, k),
            pos,
            ety,
            count,
            depth,
        ) == Err::<(Seq<GTag>, int), NbtError>(NbtError::Truncated)),
    decreases depth, count, 1int,
{
    if count > 0 {
        match sd_payload(data, pos, ety, depth) {
            Ok((_t0, p0)) => {
                lemma_payload_bound(data, pos, ety, depth);
                match sd_list(data, p0, ety, count - 1, depth) {
                    Ok(_) => {
                        lemma_list_bound(data, p0, ety, count - 1, depth);
                        if k < p0 {
                            lemma_payload_truncated(data, k, pos, ety, depth);
                        } else {
                            lemma_payload_stable(data, k, pos, ety, depth);
                            lemma_list_truncated(data, k, p0, ety, count - 1, depth);
                        }
                    },
                    Err(_) => {},
                }
            },
            Err(_) => {},
        }
    }
}

/// Cutting a compound body strictly before its End sentinel yields exactly
/// a truncation error.
pub proof fn lemma_entries_truncated(data: Seq<u8>, k: int, pos: int, depth: nat)
    requires
        0 <= pos <= k <= data.len(),
    ensures
        sd_entries(data, pos, depth) matches Ok((_es, p)) ==> (k < p ==> sd_entries(
            data.subrange(0, k),
            pos,
            depth,
        ) == Err::<(Seq<(Seq<u8>, GTag)>, int), NbtError>(NbtError::Truncated)),
    decreases depth, data.len() - pos, 1int,
{
    let data2 = data.subrange(0, k);
    if pos + 1 <= data.len() {
        let ty = data[pos];
        if ty != TAG_END && pos + 3 <= data.len() {
            let nlen = be16(data, pos + 1);
            if pos + 3 + nlen <= data.len() {
                match sd_payload(data, pos + 3 + nlen, ty, depth) {
                    Ok((_t0, p0)) => {
                        lemma_payload_bound(data, pos + 3 + nlen, ty, depth);
                        if pos < p0 <= data.len() {
                            match sd_entries(data, p0, depth) {
                                Ok((_es, p)) => {
                                    lemma_entries_bound(data, p0, depth);
                                    if k < p {
                                        if k >= pos + 3 + nlen {
                                            assert(data2.subrange(pos + 3, pos + 3 + nlen)
                                                =~= data.subrange(pos + 3, pos + 3 + nlen));
                                            if k < p0 {
                                                lemma_payload_truncated(
                                                    data,
                                                    k,
                                                    pos + 3 + nlen,
                                                    ty,
                                                    depth,
                                                );
                                            } else {
                                                lemma_payload_stable(
                                                    data,
                                                    k,
                                                    pos + 3 + nlen,
                                                    ty,
                                                    depth,
                                                );
                                                lemma_entries_truncated(data, k, p0, depth);
                                            }
                                        }
                                    }
                                },
                                Err(_) => {},
                            }
                        }
                    },
                    Err(_) => {},
                }
            }
        }
    }
}

/// Truncating a document that parses successfully at any byte offset before
/// the end of its root tag yields a truncation error, never a silently
/// wrong value.
pub proof fn lemma_document_truncated(data: Seq<u8>, k: int, depth: nat)
    requires
        0 <= k <= data.len(),
    ensures
        sd_document(data, depth) is Ok ==> (match sd_payload(
            data,
            3 + be16(data, 1),
            TAG_COMPOUND,
            depth,
        ) {
            Ok((_t, end)) => k < end ==> sd_document(data.subrange(0, k), depth) == Err::<
                (Seq<u8>, GTag),
                NbtError,
            >(NbtError::Truncated),
            Err(_) => true,
        }),
{
    if sd_document(data, depth) is Ok {
        let nlen = be16(data, 1);
        match sd_payload(data, 3 + nlen, TAG_COMPOUND, depth) {
            Ok((_t, end)) => {
                lemma_payload_bound(data, 3 + nlen, TAG_COMPOUND, depth);
                if k < end {
                    if k >= 3 + nlen {
                        lemma_payload_truncated(data, k, 3 + nlen, TAG_COMPOUND, depth);
                    }
                }
            },
            Err(_) => {},
        }
    }
}

} // verus!
