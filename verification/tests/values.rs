use iceberg_transaction::manifest::{
    FieldSummary, ManifestContentType, ManifestEntry, ManifestFile, ManifestStatus,
};
use iceberg_transaction::manifest::{DataContentType, DataFile, DataFileFormat};
use iceberg_transaction::properties::Properties;
use iceberg_transaction::text::{
    decimal_text, is_text_before, joined, parse_bool, parse_unsigned, signed_decimal_text,
};

#[test]
fn decimals_are_written_like_std_writes_them() {
    for n in [0u64, 1, 9, 10, 42, 100, 8388608, u64::MAX] {
        assert_eq!(decimal_text(n), n.to_string());
    }
    for n in [0i64, -1, 7, -10, 43, i64::MAX, i64::MIN] {
        assert_eq!(signed_decimal_text(n), n.to_string());
    }
}

#[test]
fn numbers_are_read_like_std_reads_them() {
    for s in [
        "", "+", "-", "0", "00", "+0", "-0", "7", "+7", "++7", "007", " 7", "7 ", "4294967295",
        "4294967296", "18446744073709551615", "18446744073709551616", "000000000000000000000001",
        "1_000", "0x10", "1e3", "\u{0661}",
    ] {
        assert_eq!(parse_unsigned(s, u64::MAX), s.parse::<u64>().ok(), "{s}");
        assert_eq!(
            parse_unsigned(s, u32::MAX as u64),
            s.parse::<u32>().ok().map(|n| n as u64),
            "{s}"
        );
    }
    for s in ["true", "false", "True", "", "1", "true "] {
        assert_eq!(parse_bool(&s.to_string()), s.parse::<bool>().ok(), "{s}");
    }
}

#[test]
fn texts_are_ordered_like_std_orders_them() {
    let texts = ["", "a", "ab", "b", "B", "z", "é", "\u{10000}", "\u{ffff}", "a\u{0}"];
    for a in texts {
        for b in texts {
            assert_eq!(is_text_before(a, b), a < b, "{a:?} {b:?}");
        }
    }
    assert_eq!(joined("ab", "c"), "abc");
}

#[test]
fn properties_hold_one_value_for_each_key() {
    let mut properties = Properties::new();
    assert_eq!(properties.get(&"a".to_string()), None);
    properties.insert("a".to_string(), "1".to_string());
    properties.insert("b".to_string(), "2".to_string());
    properties.insert("a".to_string(), "3".to_string());
    assert_eq!(properties.get(&"a".to_string()), Some(&"3".to_string()));
    assert_eq!(properties.get(&"b".to_string()), Some(&"2".to_string()));
    assert_eq!(properties.get(&"c".to_string()), None);
    assert_eq!(properties.pairs().len(), 2);
    let mut copy = properties.clone();
    copy.insert("c".to_string(), "4".to_string());
    assert_eq!(copy.get(&"a".to_string()), Some(&"3".to_string()));
    assert_eq!(properties.get(&"c".to_string()), None);
}

#[test]
fn copies_of_manifests_are_complete() {
    let manifest = ManifestFile {
        manifest_path: "m.avro".to_string(),
        manifest_length: 10,
        partition_spec_id: 2,
        content: ManifestContentType::Deletes,
        sequence_number: 3,
        min_sequence_number: 4,
        added_snapshot_id: 5,
        added_files_count: Some(0),
        existing_files_count: None,
        deleted_files_count: Some(6),
        added_rows_count: Some(7),
        existing_rows_count: None,
        deleted_rows_count: Some(8),
        partitions: Some(vec![FieldSummary {
            contains_null: true,
            contains_nan: Some(false),
            lower_bound: Some(vec![1]),
            upper_bound: None,
        }]),
        key_metadata: Some(vec![9, 9]),
        first_row_id: Some(10),
    };
    assert_eq!(format!("{:?}", manifest.clone()), format!("{:?}", manifest));
    assert!(!manifest.has_added_files());
    assert!(manifest.has_deleted_files());
}

#[test]
fn entries_tell_whether_they_are_alive_and_numbered() {
    let mut entry = ManifestEntry {
        status: ManifestStatus::Added,
        snapshot_id: Some(1),
        sequence_number: Some(2),
        file_sequence_number: None,
        data_file: DataFile {
            content: DataContentType::EqualityDeletes,
            file_path: "f".to_string(),
            file_format: DataFileFormat::Avro,
            partition: vec![],
            partition_spec_id: 0,
            record_count: 1,
            file_size_in_bytes: 1,
            column_sizes: vec![],
            value_counts: vec![],
            null_value_counts: vec![],
            nan_value_counts: vec![],
            lower_bounds: vec![],
            upper_bounds: vec![],
            key_metadata: None,
            split_offsets: None,
            equality_ids: Some(vec![1]),
            sort_order_id: None,
            first_row_id: None,
            referenced_data_file: None,
            content_offset: None,
            content_size_in_bytes: None,
        },
    };
    assert!(entry.is_alive());
    assert!(!entry.is_numbered());
    assert_eq!(entry.content_type(), DataContentType::EqualityDeletes);
    entry.file_sequence_number = Some(3);
    entry.status = ManifestStatus::Deleted;
    assert!(!entry.is_alive());
    assert!(entry.is_numbered());
}
