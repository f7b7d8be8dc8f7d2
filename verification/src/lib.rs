//! Decoder for the Named Binary Tag (NBT) serialization format, and a
//! converter from the decoded tag tree into a generic structured value.
//!
//! The decoder walks a byte buffer whose structure is driven entirely by
//! tag-type bytes embedded in the data: fixed-width big-endian scalars,
//! length-prefixed arrays and strings, homogeneous lists, and nested named
//! compounds.  Malformed input is rejected with a descriptive error; no
//! partial document is ever returned.  The converter turns the tag tree into
//! a host-neutral value of integers, decimals, binary blobs, text, ordered
//! sequences and ordered key-value rows.
//!
//! Every executable function is proved against a mathematical model of the
//! wire format and of the conversion; `encode` states the round-trip
//! theorem over those models and `truncation` the truncation theorem.

pub mod bits;
pub mod decode;
pub mod encode;
pub mod error;
pub mod mutf8;
pub mod plugin;
pub mod tag;
pub mod truncation;
pub mod value;
