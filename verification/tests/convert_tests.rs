use from_nbt::bits::widen;
use from_nbt::error::NbtError;
use from_nbt::mutf8::decode_mutf8;
use from_nbt::plugin::{Exists, Nbt};
use from_nbt::tag::Tag;
use from_nbt::value::Value;

/// Builds a single-entry root compound document around one payload.
fn doc(ty: u8, name: &[u8], payload: &[u8]) -> Vec<u8> {
    let mut d: Vec<u8> = vec![10, 0, 0, ty];
    d.push((name.len() >> 8) as u8);
    d.push(name.len() as u8);
    d.extend_from_slice(name);
    d.extend_from_slice(payload);
    d.push(0);
    d
}

/// ASCII strings decode to themselves.
#[test]
fn ascii_string_decodes() {
    let data = doc(8, b"s", &[0, 5, b'h', b'e', b'l', b'l', b'o']);
    let mut nbt = Nbt::new();
    assert_eq!(
        nbt.from_nbt(&data),
        Ok(Value::Row(vec![(
            "s".to_string(),
            Value::String("hello".to_string())
        )]))
    );
}

/// The two-byte sequence 0xC0 0x80 denotes U+0000, as modified UTF-8 has it.
#[test]
fn embedded_nul_decodes() {
    assert_eq!(decode_mutf8(&[0xC0, 0x80]), Some("\0".to_string()));
}

/// Two- and three-byte sequences decode as in standard UTF-8.
#[test]
fn multibyte_sequences_decode() {
    assert_eq!(decode_mutf8(&[0xC3, 0xA9]), Some("\u{e9}".to_string()));
    assert_eq!(decode_mutf8(&[0xE2, 0x82, 0xAC]), Some("\u{20ac}".to_string()));
}

/// Code points above U+FFFF are stored as a surrogate pair of two
/// three-byte sequences.
#[test]
fn surrogate_pair_decodes() {
    let bytes = [0xED, 0xA0, 0xBD, 0xED, 0xB8, 0x80];
    assert_eq!(decode_mutf8(&bytes), Some("\u{1f600}".to_string()));
}

/// Lone surrogates, stray continuation bytes and four-byte sequences are
/// not valid modified UTF-8.
#[test]
fn invalid_text_rejected() {
    assert_eq!(decode_mutf8(&[0xED, 0xA0, 0xBD]), None);
    assert_eq!(decode_mutf8(&[0xED, 0xB8, 0x80]), None);
    assert_eq!(decode_mutf8(&[0x80]), None);
    assert_eq!(decode_mutf8(&[0xF0, 0x9F, 0x98, 0x80]), None);
    assert_eq!(decode_mutf8(&[0xC3]), None);
}

/// A string whose bytes are not valid modified UTF-8 surfaces as a text
/// error from the converter, not a mangled value.
#[test]
fn invalid_string_entry_rejected() {
    let data = doc(8, b"s", &[0, 1, 0xF0]);
    let mut nbt = Nbt::new();
    assert_eq!(nbt.from_nbt(&data), Err(NbtError::InvalidText));
}

/// An entry name that is not valid modified UTF-8 is rejected the same way.
#[test]
fn invalid_name_rejected() {
    let data = doc(1, &[0xFF], &[7]);
    let mut nbt = Nbt::new();
    assert_eq!(nbt.from_nbt(&data), Err(NbtError::InvalidText));
}

/// Widening single-precision bit patterns matches the hardware conversion,
/// for normal numbers, negative zero, subnormals, infinities and NaN.
#[test]
fn widen_matches_hardware() {
    let cases: [f32; 9] = [
        1.5,
        -2.25,
        0.0,
        -0.0,
        f32::MIN_POSITIVE,
        f32::from_bits(1),        // smallest subnormal
        f32::from_bits(0x007F_FFFF), // largest subnormal
        f32::INFINITY,
        f32::NEG_INFINITY,
    ];
    for f in cases {
        assert_eq!(widen(f.to_bits()), (f as f64).to_bits(), "widening {f}");
    }
    // The canonical quiet NaN widens to the canonical quiet NaN; for other
    // NaNs the payload moves into the top of the double fraction, which the
    // hardware cast does not pin down, so only NaN-ness is compared.
    assert_eq!(widen(0x7FC0_0000), 0x7FF8_0000_0000_0000);
    let w = widen(0x7FC0_0001);
    assert!(f64::from_bits(w).is_nan());
    assert_eq!(w, 0x7FF8_0000_2000_0000);
}

/// Float and Double entries convert to the double-precision bit pattern of
/// the same number.
#[test]
fn float_entries_convert() {
    let fbits = 1.25f32.to_bits();
    let data = doc(
        5,
        b"f",
        &[
            (fbits >> 24) as u8,
            (fbits >> 16) as u8,
            (fbits >> 8) as u8,
            fbits as u8,
        ],
    );
    let mut nbt = Nbt::new();
    assert_eq!(
        nbt.from_nbt(&data),
        Ok(Value::Row(vec![(
            "f".to_string(),
            Value::Decimal(1.25f64.to_bits())
        )]))
    );

    let dbits = (-3.5f64).to_bits();
    let payload: Vec<u8> = dbits.to_be_bytes().to_vec();
    let data = doc(6, b"d", &payload);
    assert_eq!(
        nbt.from_nbt(&data),
        Ok(Value::Row(vec![(
            "d".to_string(),
            Value::Decimal(dbits)
        )]))
    );
}

/// Decoding a hand-encoded tree gives back the same tree: a concrete
/// round trip through the wire format.
#[test]
fn round_trip_structural() {
    let data: Vec<u8> = vec![
        10, 0, 0, // Compound ""
        9, 0, 1, b'n', 3, 0, 0, 0, 2, 0, 0, 0, 1, 0, 0, 0, 2, // List "n" [1, 2]
        8, 0, 1, b's', 0, 2, b'o', b'k', // String "s" = "ok"
        0,
    ];
    let doc = from_nbt::decode::Document::load(data);
    let (name, root) = doc.parse().unwrap();
    assert_eq!(name, Vec::<u8>::new());
    assert_eq!(
        root,
        Tag::Compound(vec![
            (b"n".to_vec(), Tag::List(3, vec![Tag::Int(1), Tag::Int(2)])),
            (b"s".to_vec(), Tag::String(b"ok".to_vec())),
        ])
    );
}

/// The two plugin states construct without further ceremony.
#[test]
fn constructors() {
    let _nbt = Nbt::new();
    let _exists = Exists::new();
}

/// Every tag reports its wire type byte.
#[test]
fn tag_types() {
    assert_eq!(Tag::End.tag_type(), 0);
    assert_eq!(Tag::Byte(0).tag_type(), 1);
    assert_eq!(Tag::Double(0).tag_type(), 6);
    assert_eq!(Tag::List(3, vec![]).tag_type(), 9);
    assert_eq!(Tag::Compound(vec![]).tag_type(), 10);
    assert_eq!(Tag::LongArray(vec![]).tag_type(), 12);
}
