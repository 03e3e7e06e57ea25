//! The binary codec, exercised on hand-built byte images: exact encodings,
//! round trips over all five value kinds, and every decode error.

use gguf_metadata_modifier::GGUFFile;
use gguf_metadata_modifier::GGUFMetadata;
use gguf_metadata_modifier::GgufError;
use gguf_metadata_modifier::MetaValue;

fn record(key: &str, value: MetaValue, value_type: &str) -> GGUFMetadata {
    GGUFMetadata {
        key: key.as_bytes().to_vec(),
        value,
        value_type: value_type.as_bytes().to_vec(),
    }
}

fn header(count: u64) -> Vec<u8> {
    let mut bytes = Vec::new();
    bytes.extend_from_slice(b"GGUF");
    bytes.extend_from_slice(&1u32.to_le_bytes());
    bytes.extend_from_slice(&0u64.to_le_bytes());
    bytes.extend_from_slice(&count.to_le_bytes());
    bytes
}

#[test]
fn test_empty_store_encodes_to_bare_header() {
    let gguf = GGUFFile { metadata: vec![] };
    assert_eq!(gguf.save(), header(0));
}

#[test]
fn test_exact_encoding_of_one_record() {
    let gguf = GGUFFile {
        metadata: vec![record("ab", MetaValue::Int(-2), "2")],
    };
    let mut expected = header(1);
    expected.extend_from_slice(&2u64.to_le_bytes());
    expected.extend_from_slice(b"ab");
    expected.extend_from_slice(&2u32.to_le_bytes());
    expected.extend_from_slice(&(-2i64).to_le_bytes());
    assert_eq!(gguf.save(), expected);
}

#[test]
fn test_round_trip_all_five_kinds() {
    let gguf = GGUFFile {
        metadata: vec![
            record("a_null", MetaValue::Null, "0"),
            record("a_bool", MetaValue::Bool(false), "1"),
            record("an_int", MetaValue::Int(i64::MIN), "2"),
            record("a_float", MetaValue::Float((-0.5f64).to_bits()), "3"),
            record("a_string", MetaValue::Str(b"payload".to_vec()), "4"),
        ],
    };
    let reopened = GGUFFile::new(&gguf.save()).unwrap();
    assert_eq!(reopened.metadata.len(), 5);
    for (before, after) in gguf.metadata.iter().zip(reopened.metadata.iter()) {
        assert_eq!(after.key, before.key);
        assert_eq!(after.value, before.value);
    }
}

#[test]
fn test_round_trip_normalizes_value_type_label() {
    let gguf = GGUFFile {
        metadata: vec![record("k", MetaValue::Int(5), "banana")],
    };
    let reopened = GGUFFile::new(&gguf.save()).unwrap();
    assert_eq!(reopened.metadata[0].value, MetaValue::Int(5));
    assert_eq!(reopened.metadata[0].value_type, b"2".to_vec());
}

#[test]
fn test_version_is_accepted_unread() {
    let mut bytes = Vec::new();
    bytes.extend_from_slice(b"GGUF");
    bytes.extend_from_slice(&999u32.to_le_bytes());
    bytes.extend_from_slice(&0u64.to_le_bytes());
    bytes.extend_from_slice(&0u64.to_le_bytes());
    let gguf = GGUFFile::new(&bytes).unwrap();
    assert_eq!(gguf.metadata.len(), 0);
}

#[test]
fn test_nonzero_bool_byte_decodes_to_true() {
    let mut bytes = header(1);
    bytes.extend_from_slice(&1u64.to_le_bytes());
    bytes.extend_from_slice(b"b");
    bytes.extend_from_slice(&1u32.to_le_bytes());
    bytes.push(2);
    let gguf = GGUFFile::new(&bytes).unwrap();
    assert_eq!(gguf.metadata[0].value, MetaValue::Bool(true));
}

#[test]
fn test_bad_magic_is_invalid_format() {
    let mut bytes = header(0);
    bytes[0] = b'X';
    assert_eq!(GGUFFile::new(&bytes), Err(GgufError::InvalidFormat));
}

#[test]
fn test_short_header_is_truncated_input() {
    let bytes = b"GGUF\x01".to_vec();
    assert_eq!(GGUFFile::new(&bytes), Err(GgufError::TruncatedInput));
}

#[test]
fn test_overlong_key_length_is_truncated_input() {
    let mut bytes = header(1);
    bytes.extend_from_slice(&100u64.to_le_bytes());
    bytes.extend_from_slice(b"shor");
    assert_eq!(GGUFFile::new(&bytes), Err(GgufError::TruncatedInput));
}

#[test]
fn test_overlong_string_length_is_truncated_input() {
    let mut bytes = header(1);
    bytes.extend_from_slice(&1u64.to_le_bytes());
    bytes.extend_from_slice(b"k");
    bytes.extend_from_slice(&4u32.to_le_bytes());
    bytes.extend_from_slice(&50u64.to_le_bytes());
    bytes.extend_from_slice(b"tiny");
    assert_eq!(GGUFFile::new(&bytes), Err(GgufError::TruncatedInput));
}

#[test]
fn test_unknown_tag_is_unsupported_type() {
    let mut bytes = header(1);
    bytes.extend_from_slice(&1u64.to_le_bytes());
    bytes.extend_from_slice(b"k");
    bytes.extend_from_slice(&5u32.to_le_bytes());
    assert_eq!(GGUFFile::new(&bytes), Err(GgufError::UnsupportedType));
}

#[test]
fn test_trailing_bytes_are_ignored() {
    let mut bytes = header(0);
    bytes.extend_from_slice(b"tensor data that the reader never looks at");
    let gguf = GGUFFile::new(&bytes).unwrap();
    assert_eq!(gguf.metadata.len(), 0);
}

#[test]
fn test_float_bits_survive_exactly() {
    let bits = 3.14f64.to_bits();
    let gguf = GGUFFile {
        metadata: vec![record("pi", MetaValue::Float(bits), "3")],
    };
    let reopened = GGUFFile::new(&gguf.save()).unwrap();
    match reopened.metadata[0].value {
        MetaValue::Float(after) => assert_eq!(f64::from_bits(after), 3.14f64),
        _ => panic!("expected a float value"),
    }
}
