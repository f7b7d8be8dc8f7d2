//! The errors that decoding or converting an NBT document can report.

use vstd::prelude::*;

verus! {

/// Why an NBT document was rejected.  Every error is terminal: the caller
/// receives either a complete value or one of these, never a partial result.
#[derive(Clone, Copy, Debug, PartialEq, Eq, Structural)]
pub enum NbtError {
    /// The buffer ended before a required field or payload was fully read.
    Truncated,
    /// An array or list carried a negative element count.
    NegativeLength,
    /// A tag type byte outside the known set, carrying the offending byte.
    UnrecognizedTag(u8),
    /// The root tag of the document was not a Compound; carries the root's
    /// tag type byte.
    WrongRootType(u8),
    /// The document nests lists or compounds deeper than the allowed bound.
    DepthLimit,
    /// A string or entry name held bytes that are not valid modified UTF-8.
    InvalidText,
    /// A tag that is not valid standalone (the End sentinel) reached the
    /// converter; carries its tag type byte.
    UnsupportedTag(u8),
}

impl NbtError {
    /// A short label for the error, for hosts that display it.
    pub fn describe(&self) -> &'static str {
        match self {
            NbtError::Truncated => "input ended before the document was complete",
            NbtError::NegativeLength => "negative array or list length",
            NbtError::UnrecognizedTag(_) => "unrecognized NBT tag type",
            NbtError::WrongRootType(_) => "root tag is not a compound",
            NbtError::DepthLimit => "document nests deeper than the allowed bound",
            NbtError::InvalidText => "text is not valid modified UTF-8",
            NbtError::UnsupportedTag(_) => "tag is not valid in this position",
        }
    }
}

} // verus!
