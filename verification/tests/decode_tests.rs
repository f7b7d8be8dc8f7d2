use from_nbt::decode::{parse_with_depth, Document, MAX_DEPTH};
use from_nbt::error::NbtError;
use from_nbt::plugin::Nbt;
use from_nbt::tag::Tag;
use from_nbt::value::Value;

/// Compound "" containing Byte "x" = 5, then End: decodes to the row {"x": 5}.
#[test]
fn minimal_compound_byte() {
    let data: Vec<u8> = vec![10, 0, 0, 1, 0, 1, b'x', 5, 0];
    let mut nbt = Nbt::new();
    let v = nbt.from_nbt(&data).unwrap();
    assert_eq!(
        v,
        Value::Row(vec![("x".to_string(), Value::Int(5))])
    );
}

/// Root compound "" with entry List "nums" of element type Int, count 2,
/// values [1, 2]: converts to {"nums": [1, 2]}.
#[test]
fn compound_with_int_list() {
    let data: Vec<u8> = vec![
        10, 0, 0, // Compound ""
        9, 0, 4, b'n', b'u', b'm', b's', // List "nums"
        3, // element type Int
        0, 0, 0, 2, // count 2
        0, 0, 0, 1, // 1
        0, 0, 0, 2, // 2
        0, // End
    ];
    let mut nbt = Nbt::new();
    let v = nbt.from_nbt(&data).unwrap();
    assert_eq!(
        v,
        Value::Row(vec![(
            "nums".to_string(),
            Value::Table(vec![Value::Int(1), Value::Int(2)])
        )])
    );
}

/// A String entry declaring length 4 with only 2 bytes left fails with a
/// truncation error, never a shortened string.
#[test]
fn truncated_string_rejected() {
    let data: Vec<u8> = vec![10, 0, 0, 8, 0, 1, b's', 0, 4, b'a', b'b'];
    let mut nbt = Nbt::new();
    assert_eq!(nbt.from_nbt(&data), Err(NbtError::Truncated));
}

/// An unknown tag type byte (13) fails with an unrecognized-tag error that
/// carries the offending byte; it is never silently skipped.
#[test]
fn unknown_tag_rejected() {
    let data: Vec<u8> = vec![10, 0, 0, 13, 0, 1, b'y', 1, 2, 3, 0];
    let mut nbt = Nbt::new();
    assert_eq!(nbt.from_nbt(&data), Err(NbtError::UnrecognizedTag(13)));
}

/// A List declared with element type Int and count 3 consumes exactly three
/// Int payloads; a buffer holding only two of them is rejected as truncated.
#[test]
fn short_int_list_rejected() {
    let data: Vec<u8> = vec![
        10, 0, 0, 9, 0, 1, b'a', 3, 0, 0, 0, 3, // count 3
        0, 0, 0, 1, 0, 0, 0, 2, // only two elements
        0,
    ];
    let mut nbt = Nbt::new();
    assert_eq!(nbt.from_nbt(&data), Err(NbtError::Truncated));
}

/// Truncating a valid document at any byte offset before its end yields a
/// truncation error, never a silently wrong value.
#[test]
fn every_proper_prefix_is_truncation() {
    let data: Vec<u8> = vec![
        10, 0, 0, 9, 0, 4, b'n', b'u', b'm', b's', 3, 0, 0, 0, 2, 0, 0, 0, 1, 0, 0, 0, 2, 0,
    ];
    let mut nbt = Nbt::new();
    assert!(nbt.from_nbt(&data).is_ok());
    for k in 0..data.len() {
        assert_eq!(nbt.from_nbt(&data[..k]), Err(NbtError::Truncated));
    }
}

/// A negative array length is a structural error, not a zero-length array.
#[test]
fn negative_array_length_rejected() {
    let data: Vec<u8> = vec![10, 0, 0, 7, 0, 1, b'b', 0xFF, 0xFF, 0xFF, 0xFF, 0];
    let mut nbt = Nbt::new();
    assert_eq!(nbt.from_nbt(&data), Err(NbtError::NegativeLength));
}

/// A negative list count is a structural error as well.
#[test]
fn negative_list_count_rejected() {
    let data: Vec<u8> = vec![10, 0, 0, 9, 0, 1, b'l', 1, 0x80, 0, 0, 0, 0];
    let mut nbt = Nbt::new();
    assert_eq!(nbt.from_nbt(&data), Err(NbtError::NegativeLength));
}

/// A root tag other than Compound is rejected with the offending type byte.
#[test]
fn wrong_root_type_rejected() {
    let data: Vec<u8> = vec![1, 0, 0, 5];
    let mut nbt = Nbt::new();
    assert_eq!(nbt.from_nbt(&data), Err(NbtError::WrongRootType(1)));
}

/// An unrecognized root tag byte reports the unknown tag, not a wrong root.
#[test]
fn unknown_root_tag_rejected() {
    let data: Vec<u8> = vec![13, 0, 0];
    let mut nbt = Nbt::new();
    assert_eq!(nbt.from_nbt(&data), Err(NbtError::UnrecognizedTag(13)));
}

/// Nesting deeper than the given bound is rejected, not recursed into.
#[test]
fn depth_bound_enforced() {
    // Compound "" containing Compound "a" containing Compound "b".
    let data: Vec<u8> = vec![10, 0, 0, 10, 0, 1, b'a', 10, 0, 1, b'b', 0, 0, 0];
    assert!(parse_with_depth(&data, MAX_DEPTH).is_ok());
    assert!(parse_with_depth(&data, 3).is_ok());
    assert_eq!(
        parse_with_depth(&data, 2).map(|_| ()),
        Err(NbtError::DepthLimit)
    );
}

/// The document parser hands back the root name and the decoded tag tree.
#[test]
fn document_parse_returns_root() {
    let data: Vec<u8> = vec![10, 0, 2, b'h', b'i', 1, 0, 1, b'x', 250, 0];
    let doc = Document::load(data);
    let (name, root) = doc.parse().unwrap();
    assert_eq!(name, b"hi".to_vec());
    assert_eq!(
        root,
        Tag::Compound(vec![(b"x".to_vec(), Tag::Byte(-6))])
    );
}

/// An empty list carries element type End and decodes to an empty table.
#[test]
fn empty_list_with_end_type() {
    let data: Vec<u8> = vec![10, 0, 0, 9, 0, 1, b'e', 0, 0, 0, 0, 0, 0];
    let mut nbt = Nbt::new();
    let v = nbt.from_nbt(&data).unwrap();
    assert_eq!(
        v,
        Value::Row(vec![("e".to_string(), Value::Table(vec![]))])
    );
}

/// All scalar widths decode big-endian and widen to 64-bit integers.
#[test]
fn scalar_values_exact() {
    let data: Vec<u8> = vec![
        10, 0, 0, //
        1, 0, 1, b'b', 0x80, // Byte -128
        2, 0, 1, b's', 0xFF, 0xFE, // Short -2
        3, 0, 1, b'i', 0x00, 0x01, 0x00, 0x00, // Int 65536
        4, 0, 1, b'l', 0xFF, 0xFF, 0xFF, 0xFF, 0xFF, 0xFF, 0xFF, 0xFF, // Long -1
        0,
    ];
    let mut nbt = Nbt::new();
    let v = nbt.from_nbt(&data).unwrap();
    assert_eq!(
        v,
        Value::Row(vec![
            ("b".to_string(), Value::Int(-128)),
            ("s".to_string(), Value::Int(-2)),
            ("i".to_string(), Value::Int(65536)),
            ("l".to_string(), Value::Int(-1)),
        ])
    );
}

/// Byte arrays become binary blobs; Int and Long arrays become tables of
/// integers.
#[test]
fn arrays_convert() {
    let data: Vec<u8> = vec![
        10, 0, 0, //
        7, 0, 1, b'b', 0, 0, 0, 2, 0xFF, 1, // ByteArray [-1, 1]
        11, 0, 1, b'i', 0, 0, 0, 1, 0xFF, 0xFF, 0xFF, 0xFF, // IntArray [-1]
        12, 0, 1, b'l', 0, 0, 0, 1, 0, 0, 0, 0, 0, 0, 0, 9, // LongArray [9]
        0,
    ];
    let mut nbt = Nbt::new();
    let v = nbt.from_nbt(&data).unwrap();
    assert_eq!(
        v,
        Value::Row(vec![
            ("b".to_string(), Value::Binary(vec![0xFF, 1])),
            ("i".to_string(), Value::Table(vec![Value::Int(-1)])),
            ("l".to_string(), Value::Table(vec![Value::Int(9)])),
        ])
    );
}

/// Duplicate entry names are preserved in document order, not dropped.
#[test]
fn duplicate_names_preserved() {
    let data: Vec<u8> = vec![10, 0, 0, 1, 0, 1, b'x', 1, 1, 0, 1, b'x', 2, 0];
    let mut nbt = Nbt::new();
    let v = nbt.from_nbt(&data).unwrap();
    assert_eq!(
        v,
        Value::Row(vec![
            ("x".to_string(), Value::Int(1)),
            ("x".to_string(), Value::Int(2)),
        ])
    );
}

/// Trailing bytes after the root tag are ignored, as a bound cursor would.
#[test]
fn trailing_bytes_ignored() {
    let data: Vec<u8> = vec![10, 0, 0, 0, 42, 42, 42];
    let mut nbt = Nbt::new();
    assert_eq!(nbt.from_nbt(&data), Ok(Value::Row(vec![])));
}

/// Converting the same tag tree twice yields value-equal results.
#[test]
fn conversion_is_repeatable() {
    let tag = Tag::Compound(vec![
        (b"a".to_vec(), Tag::Int(7)),
        (b"b".to_vec(), Tag::List(1, vec![Tag::Byte(1), Tag::Byte(2)])),
    ]);
    let first = Nbt::tag_to_value(&tag);
    let second = Nbt::tag_to_value(&tag);
    assert_eq!(first, second);
}

/// The End sentinel is not a standalone value and is rejected by the
/// converter.
#[test]
fn end_tag_not_convertible() {
    assert_eq!(
        Nbt::tag_to_value(&Tag::End),
        Err(NbtError::UnsupportedTag(0))
    );
}

/// Every error carries a human-readable label.
#[test]
fn errors_describe_themselves() {
    assert!(NbtError::Truncated.describe().contains("ended"));
    assert!(NbtError::UnrecognizedTag(13).describe().contains("unrecognized"));
    assert!(NbtError::NegativeLength.describe().contains("negative"));
}
