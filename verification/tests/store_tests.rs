//! The store operations, exercised through full save/reopen cycles on
//! in-memory file images.

use gguf_metadata_modifier::GGUFFile;
use gguf_metadata_modifier::GGUFMetadata;
use gguf_metadata_modifier::MetaValue;

fn record(key: &str, value: MetaValue, value_type: &str) -> GGUFMetadata {
    GGUFMetadata {
        key: key.as_bytes().to_vec(),
        value,
        value_type: value_type.as_bytes().to_vec(),
    }
}

fn create_test_store() -> GGUFFile {
    GGUFFile {
        metadata: vec![
            record("test_string", MetaValue::Str(b"test_value".to_vec()), "4"),
            record("test_int", MetaValue::Int(42), "2"),
            record("test_float", MetaValue::Float(3.14f64.to_bits()), "3"),
            record("test_bool", MetaValue::Bool(true), "1"),
        ],
    }
}

#[test]
fn test_new_gguf_file() {
    let bytes = create_test_store().save();

    let gguf = GGUFFile::new(&bytes).unwrap();
    assert_eq!(gguf.metadata.len(), 4);
    assert_eq!(gguf.metadata[0].key, b"test_string".to_vec());
    assert_eq!(gguf.metadata[0].value, MetaValue::Str(b"test_value".to_vec()));
    assert_eq!(gguf.metadata[1].key, b"test_int".to_vec());
    assert_eq!(gguf.metadata[1].value, MetaValue::Int(42));
    assert_eq!(gguf.metadata[2].key, b"test_float".to_vec());
    assert_eq!(gguf.metadata[2].value, MetaValue::Float(3.14f64.to_bits()));
    assert_eq!(gguf.metadata[3].key, b"test_bool".to_vec());
    assert_eq!(gguf.metadata[3].value, MetaValue::Bool(true));
}

#[test]
fn test_modify_metadata() {
    let bytes = create_test_store().save();

    let mut gguf = GGUFFile::new(&bytes).unwrap();
    gguf.modify_metadata(
        &b"test_string".to_vec(),
        MetaValue::Str(b"new_value".to_vec()),
        &b"4".to_vec(),
    );
    gguf.modify_metadata(&b"new_key".to_vec(), MetaValue::Int(100), &b"2".to_vec());
    let bytes = gguf.save();

    let gguf = GGUFFile::new(&bytes).unwrap();
    assert_eq!(gguf.metadata.len(), 5);
    assert_eq!(gguf.metadata[0].value, MetaValue::Str(b"new_value".to_vec()));
    assert_eq!(gguf.metadata[4].key, b"new_key".to_vec());
    assert_eq!(gguf.metadata[4].value, MetaValue::Int(100));
}

#[test]
fn test_remove_metadata() {
    let bytes = create_test_store().save();

    let mut gguf = GGUFFile::new(&bytes).unwrap();
    gguf.remove_metadata(&b"test_int".to_vec());
    let bytes = gguf.save();

    let gguf = GGUFFile::new(&bytes).unwrap();
    assert_eq!(gguf.metadata.len(), 3);
    assert!(!gguf.metadata.iter().any(|m| m.key == b"test_int".to_vec()));
}

#[test]
fn test_export_import_metadata() {
    let bytes = create_test_store().save();

    // Export the records.
    let gguf = GGUFFile::new(&bytes).unwrap();
    let exported = gguf.export_metadata();

    // Alter the original store.
    let mut gguf = GGUFFile::new(&bytes).unwrap();
    gguf.remove_metadata(&b"test_int".to_vec());
    gguf.remove_metadata(&b"test_float".to_vec());

    // Import the exported records back and persist.
    gguf.import_metadata(exported);
    let bytes = gguf.save();

    // The original records are restored.
    let gguf = GGUFFile::new(&bytes).unwrap();
    assert_eq!(gguf.metadata.len(), 4);
    assert!(gguf.metadata.iter().any(|m| m.key == b"test_int".to_vec()));
    assert!(gguf.metadata.iter().any(|m| m.key == b"test_float".to_vec()));
}

#[test]
fn test_search_metadata() {
    let bytes = create_test_store().save();
    let gguf = GGUFFile::new(&bytes).unwrap();

    let results = gguf.search_metadata(&b"test".to_vec());
    assert_eq!(results.len(), 4);

    let results = gguf.search_metadata(&b"int".to_vec());
    assert_eq!(results.len(), 1);
    assert_eq!(results[0].key, b"test_int".to_vec());

    let results = gguf.search_metadata(&b"nonexistent".to_vec());
    assert_eq!(results.len(), 0);
}

#[test]
fn test_invalid_gguf_file() {
    let bytes = b"This is not a GGUF file".to_vec();
    let result = GGUFFile::new(&bytes);
    assert!(result.is_err());
}

#[test]
fn test_large_metadata() {
    let mut gguf = GGUFFile { metadata: vec![] };

    // Add 1000 metadata entries.
    for i in 0..1000 {
        gguf.metadata.push(record(
            &format!("key_{}", i),
            MetaValue::Str(format!("value_{}", i).into_bytes()),
            "4",
        ));
    }

    let bytes = gguf.save();

    // Read the image back and check that all records survived in order.
    let gguf = GGUFFile::new(&bytes).unwrap();
    assert_eq!(gguf.metadata.len(), 1000);
    for i in 0..1000 {
        assert_eq!(gguf.metadata[i].key, format!("key_{}", i).into_bytes());
        assert_eq!(
            gguf.metadata[i].value,
            MetaValue::Str(format!("value_{}", i).into_bytes())
        );
    }
}

#[test]
fn test_end_to_end_workflow() {
    let sample = GGUFFile {
        metadata: vec![
            record("model_name", MetaValue::Str(b"Old Model Name".to_vec()), "4"),
            record("vocab_size", MetaValue::Int(32000), "2"),
        ],
    };
    let bytes = sample.save();

    let mut gguf = GGUFFile::new(&bytes).unwrap();

    // Modify metadata.
    gguf.modify_metadata(
        &b"model_name".to_vec(),
        MetaValue::Str(b"New Model Name".to_vec()),
        &b"string".to_vec(),
    );

    // Add a new field.
    gguf.modify_metadata(
        &b"learning_rate".to_vec(),
        MetaValue::Float(0.01f64.to_bits()),
        &b"float".to_vec(),
    );

    // Save and reload the image.
    let bytes = gguf.save();
    let reloaded = GGUFFile::new(&bytes).unwrap();

    // Verify the changes persisted.
    let updated_model = reloaded
        .metadata
        .iter()
        .find(|m| m.key == b"model_name".to_vec())
        .unwrap();
    assert_eq!(updated_model.value, MetaValue::Str(b"New Model Name".to_vec()));

    let new_field = reloaded
        .metadata
        .iter()
        .find(|m| m.key == b"learning_rate".to_vec())
        .unwrap();
    assert_eq!(new_field.value, MetaValue::Float(0.01f64.to_bits()));
}

#[test]
fn test_remove_absent_key_is_noop() {
    let mut gguf = create_test_store();
    gguf.remove_metadata(&b"no_such_key".to_vec());
    assert_eq!(gguf.metadata, create_test_store().metadata);
}

#[test]
fn test_remove_deletes_every_occurrence() {
    let mut gguf = GGUFFile {
        metadata: vec![
            record("dup", MetaValue::Int(1), "2"),
            record("other", MetaValue::Int(2), "2"),
            record("dup", MetaValue::Int(3), "2"),
        ],
    };
    gguf.remove_metadata(&b"dup".to_vec());
    assert_eq!(gguf.metadata.len(), 1);
    assert_eq!(gguf.metadata[0].key, b"other".to_vec());
}

#[test]
fn test_modify_existing_key_keeps_position() {
    let mut gguf = create_test_store();
    gguf.modify_metadata(&b"test_int".to_vec(), MetaValue::Int(7), &b"2".to_vec());
    assert_eq!(gguf.metadata.len(), 4);
    assert_eq!(gguf.metadata[1].key, b"test_int".to_vec());
    assert_eq!(gguf.metadata[1].value, MetaValue::Int(7));
    assert_eq!(gguf.metadata[0].key, b"test_string".to_vec());
    assert_eq!(gguf.metadata[3].key, b"test_bool".to_vec());
}

#[test]
fn test_modify_new_key_appends_at_end() {
    let mut gguf = create_test_store();
    gguf.modify_metadata(&b"brand_new".to_vec(), MetaValue::Null, &b"0".to_vec());
    assert_eq!(gguf.metadata.len(), 5);
    assert_eq!(gguf.metadata[4].key, b"brand_new".to_vec());
    assert_eq!(gguf.metadata[4].value, MetaValue::Null);
}

#[test]
fn test_modify_with_duplicate_keys_replaces_first_occurrence() {
    let mut gguf = GGUFFile {
        metadata: vec![
            record("dup", MetaValue::Int(1), "2"),
            record("dup", MetaValue::Int(2), "2"),
        ],
    };
    gguf.modify_metadata(&b"dup".to_vec(), MetaValue::Int(9), &b"2".to_vec());
    assert_eq!(gguf.metadata.len(), 2);
    assert_eq!(gguf.metadata[0].value, MetaValue::Int(9));
    assert_eq!(gguf.metadata[1].value, MetaValue::Int(2));
}

#[test]
fn test_import_is_a_full_replace() {
    let mut gguf = create_test_store();
    gguf.import_metadata(vec![record("only", MetaValue::Bool(false), "1")]);
    assert_eq!(gguf.metadata.len(), 1);
    assert_eq!(gguf.metadata[0].key, b"only".to_vec());

    let mut gguf = create_test_store();
    gguf.import_metadata(Vec::new());
    assert_eq!(gguf.metadata.len(), 0);
}

#[test]
fn test_search_results_keep_store_order() {
    let gguf = create_test_store();
    let results = gguf.search_metadata(&b"test_".to_vec());
    assert_eq!(results.len(), 4);
    assert_eq!(results[0].key, b"test_string".to_vec());
    assert_eq!(results[1].key, b"test_int".to_vec());
    assert_eq!(results[2].key, b"test_float".to_vec());
    assert_eq!(results[3].key, b"test_bool".to_vec());
}

#[test]
fn test_search_empty_pattern_matches_all() {
    let gguf = create_test_store();
    let results = gguf.search_metadata(&Vec::new());
    assert_eq!(results.len(), 4);
}

#[test]
fn test_search_is_case_sensitive() {
    let gguf = create_test_store();
    let results = gguf.search_metadata(&b"TEST".to_vec());
    assert_eq!(results.len(), 0);
}
