use iceberg_transaction::clustering::{
    ClusterByFunc, ClusterWriter, ClusteringPass, LoadedManifest,
};
use iceberg_transaction::manifest::{
    DataContentType, DataFile, DataFileFormat, ManifestContentType, ManifestEntry, ManifestFile,
    ManifestStatus, ManifestWriter,
};

fn entry(path: &str, status: ManifestStatus, sequence_number: i64) -> ManifestEntry {
    ManifestEntry {
        status,
        snapshot_id: Some(1),
        sequence_number: Some(sequence_number),
        file_sequence_number: Some(sequence_number),
        data_file: DataFile {
            content: DataContentType::Data,
            file_path: path.to_string(),
            file_format: DataFileFormat::Parquet,
            partition: vec![],
            partition_spec_id: 0,
            record_count: 10,
            file_size_in_bytes: 100,
            column_sizes: vec![],
            value_counts: vec![],
            null_value_counts: vec![],
            nan_value_counts: vec![],
            lower_bounds: vec![],
            upper_bounds: vec![],
            key_metadata: None,
            split_offsets: None,
            equality_ids: None,
            sort_order_id: None,
            first_row_id: None,
            referenced_data_file: None,
            content_offset: None,
            content_size_in_bytes: None,
        },
    }
}

fn loaded(partition_spec_id: i32, paths: &[&str]) -> LoadedManifest {
    let file = ManifestFile {
        manifest_path: "m.avro".to_string(),
        manifest_length: 1,
        partition_spec_id,
        content: ManifestContentType::Data,
        sequence_number: 1,
        min_sequence_number: 1,
        added_snapshot_id: 1,
        added_files_count: None,
        existing_files_count: None,
        deleted_files_count: None,
        added_rows_count: None,
        existing_rows_count: None,
        deleted_rows_count: None,
        partitions: None,
        key_metadata: None,
        first_row_id: None,
    };
    let entries = paths
        .iter()
        .map(|path| entry(path, ManifestStatus::Added, 1))
        .collect();
    LoadedManifest::new(&file, entries)
}

fn by_first_char() -> ClusterByFunc {
    Box::new(|df: &DataFile| df.file_path()[..1].to_string())
}

fn per_entry(writer: &ManifestWriter) -> Result<u64, String> {
    Ok(writer.entries.len() as u64 * 10)
}

fn listed(writer: &ClusterWriter) -> (String, i32, Vec<&str>) {
    (
        writer.key.clone(),
        writer.writer.partition_spec_id,
        writer
            .writer
            .entries
            .iter()
            .map(|e| e.data_file.file_path())
            .collect(),
    )
}

#[test]
fn files_of_one_key_end_up_together() {
    let mut pass = ClusteringPass::new(1000);
    let func = by_first_char();
    for mut manifest in [loaded(0, &["b1", "a1", "b2"]), loaded(0, &["a2", "c1"])] {
        let sealed = pass.route_until_sealed(&mut manifest, &func, &per_entry);
        assert!(matches!(sealed, Ok(None)));
        assert!(manifest.pending.is_empty());
    }
    assert_eq!(pass.entry_count(), 5);
    let rest = pass.finish();
    let lists: Vec<_> = rest.iter().map(listed).collect();
    assert_eq!(
        lists,
        vec![
            ("a".to_string(), 0, vec!["a1", "a2"]),
            ("b".to_string(), 0, vec!["b1", "b2"]),
            ("c".to_string(), 0, vec!["c1"]),
        ]
    );
}

#[test]
fn partition_specs_are_kept_apart() {
    let mut pass = ClusteringPass::new(1000);
    let func = by_first_char();
    for mut manifest in [loaded(3, &["a1"]), loaded(-1, &["a2"]), loaded(3, &["a3"])] {
        assert!(pass
            .route_until_sealed(&mut manifest, &func, &per_entry)
            .is_ok());
    }
    let rest = pass.finish();
    let lists: Vec<_> = rest.iter().map(listed).collect();
    assert_eq!(
        lists,
        vec![
            ("a".to_string(), -1, vec!["a2"]),
            ("a".to_string(), 3, vec!["a1", "a3"]),
        ]
    );
}

#[test]
fn writer_is_sealed_once_it_reaches_the_target() {
    let mut pass = ClusteringPass::new(20);
    let func = by_first_char();
    let mut manifest = loaded(0, &["a1", "b1", "a2", "a3", "b2"]);
    let first = pass
        .route_until_sealed(&mut manifest, &func, &per_entry)
        .unwrap()
        .unwrap();
    assert_eq!(listed(&first), ("a".to_string(), 0, vec!["a1", "a2"]));
    assert_eq!(manifest.pending.len(), 2);
    let second = pass
        .route_until_sealed(&mut manifest, &func, &per_entry)
        .unwrap()
        .unwrap();
    assert_eq!(listed(&second), ("b".to_string(), 0, vec!["b1", "b2"]));
    assert!(pass
        .route_until_sealed(&mut manifest, &func, &per_entry)
        .unwrap()
        .is_none());
    assert_eq!(pass.entry_count(), 5);
    let rest = pass.finish();
    assert_eq!(rest.len(), 1);
    assert_eq!(listed(&rest[0]), ("a".to_string(), 0, vec!["a3"]));
}

#[test]
fn target_of_zero_seals_every_entry() {
    let mut pass = ClusteringPass::new(0);
    let func = by_first_char();
    let mut manifest = loaded(0, &["a1", "a2"]);
    let mut sealed = 0;
    while let Some(writer) = pass
        .route_until_sealed(&mut manifest, &func, &per_entry)
        .unwrap()
    {
        assert_eq!(writer.writer.entries.len(), 1);
        sealed += 1;
    }
    assert_eq!(sealed, 2);
    assert!(pass.finish().is_empty());
}

#[test]
fn deleted_entries_are_passed_over() {
    let mut pass = ClusteringPass::new(1000);
    let func = by_first_char();
    let mut manifest = loaded(0, &[]);
    manifest.pending.push_back(entry("a1", ManifestStatus::Deleted, 1));
    manifest.pending.push_back(entry("a2", ManifestStatus::Existing, 7));
    manifest.pending.push_back(entry("a3", ManifestStatus::Added, 8));
    assert!(matches!(
        pass.route_until_sealed(&mut manifest, &func, &per_entry),
        Ok(None)
    ));
    assert_eq!(pass.entry_count(), 2);
    let rest = pass.finish();
    assert_eq!(listed(&rest[0]), ("a".to_string(), 0, vec!["a2", "a3"]));
    for carried in &rest[0].writer.entries {
        assert_eq!(carried.status, ManifestStatus::Existing);
        assert_eq!(carried.snapshot_id, Some(1));
    }
    assert_eq!(rest[0].writer.entries[0].sequence_number, Some(7));
    assert_eq!(rest[0].writer.entries[1].sequence_number, Some(8));
}

#[test]
fn failing_measure_ends_the_routing() {
    let mut pass = ClusteringPass::new(1000);
    let func = by_first_char();
    let mut manifest = loaded(0, &["a1", "a2", "a3"]);
    let measure = |writer: &ManifestWriter| -> Result<u64, String> {
        if writer.entries.len() == 2 {
            Err("too much".to_string())
        } else {
            Ok(0)
        }
    };
    let result = pass.route_until_sealed(&mut manifest, &func, &measure);
    assert_eq!(result.unwrap_err(), "too much".to_string());
    assert_eq!(manifest.pending.len(), 1);
    assert_eq!(pass.entry_count(), 2);
}

#[test]
fn writers_are_ordered_by_the_bytes_of_their_keys() {
    let mut pass = ClusteringPass::new(1000);
    let mut put = |key: &str, spec: i32, path: &str| {
        pass.add_entry(
            key.to_string(),
            spec,
            entry(path, ManifestStatus::Existing, 1),
        )
    };
    assert_eq!(put("é", 0, "1"), 0);
    assert_eq!(put("z", 0, "2"), 0);
    assert_eq!(put("", 0, "3"), 0);
    assert_eq!(put("za", 0, "4"), 2);
    assert_eq!(put("z", 0, "5"), 1);
    let slot = put("z", -5, "6");
    assert_eq!(slot, 1);
    assert_eq!(pass.writer(2).entries.len(), 2);
    assert!(pass.roll_over(2, 999).is_none());
    let sealed = pass.roll_over(2, 1000).unwrap();
    assert_eq!(sealed.key, "z");
    let keys: Vec<String> = pass.finish().into_iter().map(|w| w.key).collect();
    assert_eq!(keys, vec!["", "z", "za", "é"]);
}

#[test]
fn whole_pass_leaves_one_manifest_below_the_target_for_each_key_and_spec() {
    let mut pass = ClusteringPass::new(20);
    let func = by_first_char();
    let mut written = Vec::new();
    for mut manifest in [
        loaded(0, &["a1", "b1", "a2", "a3"]),
        loaded(7, &["a4"]),
        loaded(0, &["a5", "b2", "a6"]),
        loaded(7, &["b3", "a7", "a8"]),
    ] {
        while let Some(sealed) = pass
            .route_until_sealed(&mut manifest, &func, &per_entry)
            .unwrap()
        {
            assert_eq!(sealed.writer.entries.len(), 2);
            written.push(sealed);
        }
    }
    assert_eq!(pass.entry_count(), 11);
    written.extend(pass.finish());
    let lists: Vec<_> = written.iter().map(listed).collect();
    assert_eq!(
        lists,
        vec![
            ("a".to_string(), 0, vec!["a1", "a2"]),
            ("a".to_string(), 0, vec!["a3", "a5"]),
            ("b".to_string(), 0, vec!["b1", "b2"]),
            ("a".to_string(), 7, vec!["a4", "a7"]),
            ("a".to_string(), 0, vec!["a6"]),
            ("a".to_string(), 7, vec!["a8"]),
            ("b".to_string(), 7, vec!["b3"]),
        ]
    );
}
