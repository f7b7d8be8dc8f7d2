//! Modified UTF-8: the text encoding used by NBT strings and entry names.
//!
//! It differs from standard UTF-8 in that code points above U+FFFF are
//! stored as a surrogate pair of two three-byte sequences, four-byte
//! sequences do not occur, and U+0000 may be stored as the two-byte
//! sequence 0xC0 0x80.  `mutf8_decode` is the full mathematical definition;
//! `decode_mutf8` is proved to return exactly what it says.

use vstd::prelude::*;

verus! {

/// Whether `b` is a continuation byte.
pub open spec fn is_cont(b: u8) -> bool {
    0x80 <= b < 0xC0
}

/// The characters denoted by the modified-UTF-8 bytes from `pos` on, or
/// `None` if they are not a valid encoding.
pub open spec fn mutf8_from(bytes: Seq<u8>, pos: int) -> Option<Seq<char>>
    decreases bytes.len() - pos,
{
    if pos >= bytes.len() {
        Some(Seq::empty())
    } else {
        let b0 = bytes[pos];
        if b0 < 0x80 {
            match mutf8_from(bytes, pos + 1) {
                Some(rest) => Some(seq![b0 as char] + rest),
                None => None,
            }
        } else if 0xC0 <= b0 < 0xE0 {
            if pos + 2 <= bytes.len() && is_cont(bytes[pos + 1]) {
                let cp = (b0 - 0xC0) * 0x40 + (bytes[pos + 1] - 0x80);
                match mutf8_from(bytes, pos + 2) {
                    Some(rest) => Some(seq![cp as char] + rest),
                    None => None,
                }
            } else {
                None
            }
        } else if 0xE0 <= b0 < 0xF0 {
            if pos + 3 <= bytes.len() && is_cont(bytes[pos + 1]) && is_cont(bytes[pos + 2]) {
                let cp = (b0 - 0xE0) * 0x1000 + (bytes[pos + 1] - 0x80) * 0x40 + (bytes[pos + 2]
                    - 0x80);
                if 0xD800 <= cp < 0xDC00 {
                    if pos + 6 <= bytes.len() && 0xE0 <= bytes[pos + 3] < 0xF0 && is_cont(
                        bytes[pos + 4],
                    ) && is_cont(bytes[pos + 5]) {
                        let cp2 = (bytes[pos + 3] - 0xE0) * 0x1000 + (bytes[pos + 4] - 0x80) * 0x40
                            + (bytes[pos + 5] - 0x80);
                        if 0xDC00 <= cp2 < 0xE000 {
                            let c = 0x10000 + (cp - 0xD800) * 0x400 + (cp2 - 0xDC00);
                            match mutf8_from(bytes, pos + 6) {
                                Some(rest) => Some(seq![c as char] + rest),
                                None => None,
                            }
                        } else {
                            None
                        }
                    } else {
                        None
                    }
                } else if 0xDC00 <= cp < 0xE000 {
                    None
                } else {
                    match mutf8_from(bytes, pos + 3) {
                        Some(rest) => Some(seq![cp as char] + rest),
                        None => None,
                    }
                }
            } else {
                None
            }
        } else {
            None
        }
    }
}

/// The characters denoted by a whole modified-UTF-8 byte sequence, or
/// `None` if it is not a valid encoding.
pub open spec fn mutf8_decode(bytes: Seq<u8>) -> Option<Seq<char>> {
    mutf8_from(bytes, 0)
}

/// Relies on `char::from_u32`: it returns the character with the given code
/// point for every Unicode scalar value, and `None` for surrogate code
/// points and values above the character range.
#[verifier::external_body]
fn char_from_code(cp: u32) -> (r: Option<char>)
    ensures
        r == if cp < 0xD800 || (0xE000 <= cp && cp <= 0x10FFFF) {
            Some(cp as char)
        } else {
            None::<char>
        },
{
    char::from_u32(cp)
}

/// Relies on `String::push`: it appends one character to the string.
#[verifier::external_body]
fn push_char(s: &mut String, c: char)
    ensures
        final(s)@ == old(s)@.push(c),
{
    s.push(c)
}

/// Decodes a modified-UTF-8 byte sequence to text, returning exactly what
/// the model `mutf8_decode` says.
pub fn decode_mutf8(bytes: &[u8]) -> (r: Option<String>)
    ensures
        match r {
            Some(s) => mutf8_decode(bytes@) == Some(s@),
            None => mutf8_decode(bytes@) is None,
        },
{
    let mut out = String::new();
    let mut pos: usize = 0;
    let n = bytes.len();
    while pos < n
        invariant
            pos <= bytes@.len(),
            n == bytes@.len(),
            mutf8_from(bytes@, 0) == (match mutf8_from(bytes@, pos as int) {
                Some(rest) => Some(out@ + rest),
                None => None::<Seq<char>>,
            }),
        decreases bytes@.len() - pos,
    {
        let ghost old_out = out@;
        let b0 = bytes[pos];
        if b0 < 0x80 {
            push_char(&mut out, b0 as char);
            pos = pos + 1;
            proof {
                match mutf8_from(bytes@, pos as int) {
                    Some(rest) => {
                        assert(old_out + (seq![b0 as char] + rest) =~= out@ + rest);
                    },
                    None => {},
                }
            }
        } else if b0 < 0xC0 {
            return None;
        } else if b0 < 0xE0 {
            if bytes.len() - pos < 2 {
                return None;
            }
            let b1 = bytes[pos + 1];
            if !(0x80 <= b1 && b1 < 0xC0) {
                return None;
            }
            let cp: u32 = ((b0 - 0xC0) as u32) * 0x40 + ((b1 - 0x80) as u32);
            let c = match char_from_code(cp) {
                Some(c) => c,
                None => {
                    // unreachable: the code point is a Unicode scalar value
                    proof {
                        assert(false);
                    }
                    return None;
                },
            };
            push_char(&mut out, c);
            pos = pos + 2;
            proof {
                match mutf8_from(bytes@, pos as int) {
                    Some(rest) => {
                        assert(old_out + (seq![c] + rest) =~= out@ + rest);
                    },
                    None => {},
                }
            }
        } else if b0 < 0xF0 {
            if bytes.len() - pos < 3 {
                return None;
            }
            let b1 = bytes[pos + 1];
            let b2 = bytes[pos + 2];
            if !(0x80 <= b1 && b1 < 0xC0) {
                return None;
            }
            if !(0x80 <= b2 && b2 < 0xC0) {
                return None;
            }
            let cp: u32 = ((b0 - 0xE0) as u32) * 0x1000 + ((b1 - 0x80) as u32) * 0x40 + ((b2
                - 0x80) as u32);
            if 0xD800 <= cp && cp < 0xDC00 {
                if bytes.len() - pos < 6 {
                    return None;
                }
                let b3 = bytes[pos + 3];
                let b4 = bytes[pos + 4];
                let b5 = bytes[pos + 5];
                if !(0xE0 <= b3 && b3 < 0xF0) {
                    return None;
                }
                if !(0x80 <= b4 && b4 < 0xC0) {
                    return None;
                }
                if !(0x80 <= b5 && b5 < 0xC0) {
                    return None;
                }
                let cp2: u32 = ((b3 - 0xE0) as u32) * 0x1000 + ((b4 - 0x80) as u32) * 0x40 + ((b5
                    - 0x80) as u32);
                if !(0xDC00 <= cp2 && cp2 < 0xE000) {
                    return None;
                }
                let c32: u32 = 0x10000 + (cp - 0xD800) * 0x400 + (cp2 - 0xDC00);
                let c = match char_from_code(c32) {
                    Some(c) => c,
                    None => {
                        // unreachable: the code point is a Unicode scalar value
                        proof {
                            assert(false);
                        }
                        return None;
                    },
                };
                push_char(&mut out, c);
                pos = pos + 6;
                proof {
                    match mutf8_from(bytes@, pos as int) {
                        Some(rest) => {
                            assert(old_out + (seq![c] + rest) =~= out@ + rest);
                        },
                        None => {},
                    }
                }
            } else if 0xDC00 <= cp && cp < 0xE000 {
                return None;
            } else {
                let c = match char_from_code(cp) {
                    Some(c) => c,
                    None => {
                        // unreachable: the code point is a Unicode scalar value
                        proof {
                            assert(false);
                        }
                        return None;
                    },
                };
                push_char(&mut out, c);
                pos = pos + 3;
                proof {
                    match mutf8_from(bytes@, pos as int) {
                        Some(rest) => {
                            assert(old_out + (seq![c] + rest) =~= out@ + rest);
                        },
                        None => {},
                    }
                }
            }
        } else {
            return None;
        }
    }
    proof {
        assert(out@ + Seq::<char>::empty() =~= out@);
    }
    Some(out)
}

} // verus!
