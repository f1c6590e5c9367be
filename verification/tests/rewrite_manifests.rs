use std::collections::{HashMap, HashSet};

use iceberg_transaction::clustering::{ClusterByFunc, ClusterWriter, LoadedManifest};
use iceberg_transaction::error::Error;
use iceberg_transaction::manifest::{
    DataContentType, DataFile, DataFileFormat, ManifestContentType, ManifestEntry, ManifestFile,
    ManifestStatus, ManifestWriter, Operation,
};
use iceberg_transaction::properties::Properties;
use iceberg_transaction::rewrite_manifests::{
    active_files_count, is_countable, RewriteCommit, RewriteManifestsAction, RewriteManifestsOperation,
    RewriteOutcome, RewriteStep, CREATED_MANIFESTS_COUNT, KEPT_MANIFESTS_COUNT,
    PROCESSED_ENTRY_COUNT, REPLACED_MANIFESTS_COUNT,
};
use iceberg_transaction::table::{TableMetadata, MANIFEST_TARGET_SIZE_BYTES};
use uuid::Uuid;

/// A table as the tests see it: its metadata, the manifests of its current snapshot,
/// and the store that holds their entries.
struct Table {
    metadata: TableMetadata,
    next_row_id: u64,
    manifests: Vec<ManifestFile>,
    store: HashMap<String, Vec<ManifestEntry>>,
}

fn make_minimal_table() -> Table {
    Table {
        metadata: TableMetadata {
            partition_spec_ids: vec![0],
            properties: Properties::new(),
            snapshots: vec![],
        },
        next_row_id: 0,
        manifests: vec![],
        store: HashMap::new(),
    }
}

fn test_manifest(
    path: &str,
    added: Option<u32>,
    existing: Option<u32>,
    deleted: Option<u32>,
) -> ManifestFile {
    ManifestFile {
        manifest_path: path.to_string(),
        manifest_length: 1000,
        partition_spec_id: 0,
        content: ManifestContentType::Data,
        sequence_number: 0,
        min_sequence_number: 0,
        added_snapshot_id: 0,
        added_files_count: added,
        existing_files_count: existing,
        deleted_files_count: deleted,
        added_rows_count: Some(0),
        existing_rows_count: Some(0),
        deleted_rows_count: Some(0),
        partitions: None,
        key_metadata: None,
        first_row_id: None,
    }
}

/// The size of a writer, as the tests estimate it.
fn estimated_size(writer: &ManifestWriter) -> Result<u64, Error> {
    Ok(writer.entries.len() as u64 * 100)
}

/// Writes a manifest to the store.
fn write(table: &mut Table, path: String, snapshot_id: i64, writer: ManifestWriter) -> ManifestFile {
    let mut manifest = test_manifest(&path, Some(0), Some(writer.entries.len() as u32), Some(0));
    manifest.partition_spec_id = writer.partition_spec_id;
    manifest.content = writer.content;
    manifest.added_snapshot_id = snapshot_id;
    table.store.insert(path, writer.entries);
    manifest
}

/// One commit attempt against a table. Manifests are loaded and written one by one.
fn commit(action: &mut RewriteManifestsAction, table: &mut Table) -> Result<RewriteOutcome, Error> {
    let proposed = action.begin_commit();
    let snapshot_id = proposed.snapshot_id.unwrap_or(4711);
    action.settle_snapshot_id(snapshot_id);
    match action.prepare(&table.manifests, &table.metadata)? {
        RewriteStep::Cluster { mut pass, manifests } => {
            let mut written: Vec<ManifestFile> = Vec::new();
            let mut put = |table: &mut Table, sealed: ClusterWriter| {
                let path = format!(
                    "memory:///test/location/metadata/{}-m{}.avro",
                    proposed.commit_uuid,
                    written.len()
                );
                let manifest = write(table, path, snapshot_id, sealed.writer);
                written.push(manifest);
            };
            let func = action.cluster_by_func.as_ref().unwrap();
            for manifest in &manifests {
                let entries = table.store[&manifest.manifest_path].clone();
                let mut loaded = LoadedManifest::new(manifest, entries);
                while let Some(sealed) =
                    pass.route_until_sealed(&mut loaded, func, &estimated_size)?
                {
                    put(table, sealed);
                }
            }
            let entry_count = pass.entry_count();
            for sealed in pass.finish() {
                put(table, sealed);
            }
            action.finish_clustering(manifests, written, entry_count);
        }
        RewriteStep::Assemble => {}
    }
    assert!(action.is_countable());
    action.assemble(table.manifests.clone())
}

fn committed(action: &mut RewriteManifestsAction, table: &mut Table) -> RewriteCommit {
    match commit(action, table) {
        Ok(RewriteOutcome::Commit(commit)) => commit,
        Ok(RewriteOutcome::Unchanged) => panic!("the commit must add a snapshot"),
        Err(error) => panic!("unexpected error: {}", error.message),
    }
}

/// Commits an action and asserts that it fails with the expected message.
fn assert_commit_err(mut action: RewriteManifestsAction, table: &mut Table, expected_msg: &str) {
    match commit(&mut action, table) {
        Ok(_) => panic!("expected error containing '{expected_msg}', but commit succeeded"),
        Err(e) => assert!(
            e.message.contains(expected_msg),
            "expected error containing '{expected_msg}', got: {}",
            e.message
        ),
    }
}

/// The row range of the snapshot: the ids from the table's next one, where the
/// operation assigns any.
fn row_range(table: &Table, commit: &RewriteCommit) -> Option<u64> {
    if commit.operation.assigns_row_ids() {
        Some(table.next_row_id)
    } else {
        None
    }
}

fn property(commit: &RewriteCommit, name: &str) -> Option<String> {
    commit.snapshot_properties.get(&name.to_string()).cloned()
}

#[test]
fn test_rewrite_manifests_v3_assigns_no_row_ids() {
    let mut table = make_minimal_table();
    assert_eq!(
        table.next_row_id, 0,
        "precondition: the fixture starts with no row-ID space assigned"
    );

    let mut manifest = test_manifest("s3://bucket/manifest-ok.avro", Some(0), Some(0), Some(0));
    manifest.first_row_id = Some(1000);

    let mut action = RewriteManifestsAction::new().add_manifest(manifest);
    let commit = committed(&mut action, &mut table);

    assert_eq!(
        row_range(&table, &commit),
        None,
        "a rewrite adds no rows, so the snapshot must carry no row range"
    );
    let manifests = commit.operation.existing_manifest();
    assert_eq!(manifests.len(), 1);
    assert_eq!(manifests[0].first_row_id, None);
}

#[test]
fn test_rewrite_manifests_v3_with_cluster_by_is_supported() {
    let mut table = make_minimal_table();
    let manifest = test_manifest("s3://bucket/manifest-cb.avro", Some(0), Some(0), Some(0));

    let mut action = RewriteManifestsAction::new()
        .cluster_by(Box::new(|_: &DataFile| "default".to_string()))
        .add_manifest(manifest);
    let commit = committed(&mut action, &mut table);

    assert_eq!(
        row_range(&table, &commit),
        None,
        "cluster_by must not change the row-lineage outcome"
    );
}

#[test]
fn test_rewrite_manifests_v2_is_unaffected_by_row_id_change() {
    let mut table = make_minimal_table();
    let manifest = test_manifest("s3://bucket/manifest-v2.avro", Some(0), Some(0), Some(0));

    let mut action = RewriteManifestsAction::new().add_manifest(manifest);
    let commit = committed(&mut action, &mut table);

    assert_eq!(
        row_range(&table, &commit),
        None,
        "a V2 snapshot never carries a row range"
    );
}

#[test]
fn test_add_manifest_rejects_delete_type_manifest() {
    let mut table = make_minimal_table();
    let mut manifest = test_manifest("s3://bucket/manifest-del.avro", Some(0), Some(5), Some(0));
    manifest.content = ManifestContentType::Deletes;
    let action = RewriteManifestsAction::new().add_manifest(manifest);
    assert_commit_err(
        action,
        &mut table,
        "Cannot add a delete-type manifest via rewrite_manifests",
    );
}

#[test]
fn test_add_manifest_rejects_unknown_partition_spec_id() {
    let mut table = make_minimal_table();
    // The minimal table only has partition spec id 0.
    let mut manifest = test_manifest(
        "s3://bucket/manifest-bad-spec.avro",
        Some(0),
        Some(5),
        Some(0),
    );
    manifest.partition_spec_id = 9999;
    let action = RewriteManifestsAction::new().add_manifest(manifest);
    assert_commit_err(action, &mut table, "unknown partition spec id 9999");
}

#[test]
fn test_add_manifest_rejects_added_files_count_some_positive() {
    let mut table = make_minimal_table();
    let manifest = test_manifest("s3://bucket/manifest-1.avro", Some(5), Some(0), Some(0));
    let action = RewriteManifestsAction::new().add_manifest(manifest);
    assert_commit_err(action, &mut table, "Cannot add manifest with added files");
}

#[test]
fn test_add_manifest_rejects_deleted_files_count_some_positive() {
    let mut table = make_minimal_table();
    let manifest = test_manifest("s3://bucket/manifest-1.avro", Some(0), Some(0), Some(3));
    let action = RewriteManifestsAction::new().add_manifest(manifest);
    assert_commit_err(action, &mut table, "Cannot add manifest with deleted files");
}

#[test]
fn test_add_manifest_rejects_none_added_files_count() {
    let mut table = make_minimal_table();
    // None means "assumed non-zero": rejected.
    let manifest = test_manifest("s3://bucket/manifest-v1.avro", None, Some(10), None);
    let action = RewriteManifestsAction::new().add_manifest(manifest);
    assert_commit_err(action, &mut table, "Cannot add manifest with added files");
}

#[test]
fn test_add_manifest_rejects_none_deleted_files_count() {
    let mut table = make_minimal_table();
    // added_files_count is known-zero, but deleted_files_count is None: rejected.
    let manifest = test_manifest("s3://bucket/manifest-v1.avro", Some(0), Some(10), None);
    let action = RewriteManifestsAction::new().add_manifest(manifest);
    assert_commit_err(action, &mut table, "Cannot add manifest with deleted files");
}

#[test]
fn test_add_manifest_accepts_zero_counts() {
    let mut table = make_minimal_table();
    let manifest = test_manifest("s3://bucket/manifest-ok.avro", Some(0), Some(0), Some(0));
    let mut action = RewriteManifestsAction::new().add_manifest(manifest);
    if let Err(e) = commit(&mut action, &mut table) {
        assert!(
            !e.message.contains("Cannot add manifest with added files")
                && !e.message.contains("Cannot add manifest with deleted files"),
            "unexpected rejection for zero-count manifest: {}",
            e.message
        );
    }
}

fn data_file(path: &str, partition_x: i64, record_count: u64) -> DataFile {
    DataFile {
        content: DataContentType::Data,
        file_path: path.to_string(),
        file_format: DataFileFormat::Parquet,
        partition: vec![Some(partition_x.to_le_bytes().to_vec())],
        partition_spec_id: 0,
        record_count,
        file_size_in_bytes: 100,
        column_sizes: vec![],
        value_counts: vec![],
        null_value_counts: vec![],
        nan_value_counts: vec![],
        lower_bounds: vec![],
        upper_bounds: vec![],
        key_metadata: None,
        split_offsets: None,
        equality_ids: None,
        sort_order_id: None,
        first_row_id: None,
        referenced_data_file: None,
        content_offset: None,
        content_size_in_bytes: None,
    }
}

/// Writes a data manifest with one live existing entry per file.
fn write_data_manifest(
    table: &mut Table,
    path: &str,
    added_snapshot_id: i64,
    sequence_number: i64,
    files: Vec<DataFile>,
) -> ManifestFile {
    let entries = files
        .into_iter()
        .map(|data_file| ManifestEntry {
            status: ManifestStatus::Existing,
            snapshot_id: Some(added_snapshot_id),
            sequence_number: Some(sequence_number),
            file_sequence_number: Some(sequence_number),
            data_file,
        })
        .collect();
    let mut writer = ManifestWriter::new(ManifestContentType::Data, 0);
    writer.entries = entries;
    let mut manifest = write(table, path.to_string(), added_snapshot_id, writer);
    manifest.sequence_number = sequence_number;
    manifest.min_sequence_number = sequence_number;
    manifest
}

/// Buckets entries by the file path's first character.
fn cluster_by_first_char() -> ClusterByFunc {
    Box::new(|df: &DataFile| {
        df.file_path()
            .chars()
            .next()
            .map(|c| c.to_string())
            .unwrap_or_default()
    })
}

fn paths(manifests: &[ManifestFile]) -> Vec<String> {
    manifests.iter().map(|m| m.manifest_path.clone()).collect()
}

fn path_set(manifests: &[ManifestFile]) -> HashSet<String> {
    paths(manifests).into_iter().collect()
}

#[test]
fn test_rewrite_manifests_rolls_over_and_preserves_count() {
    let mut table = make_minimal_table();

    // Eight files that all cluster to the same key ('a'), in one input manifest.
    let files: Vec<DataFile> = (0..8)
        .map(|i| data_file(&format!("a-{i}.parquet"), 1, 10))
        .collect();
    let m1 = write_data_manifest(
        &mut table,
        "memory:///test/location/metadata/m1.avro",
        1,
        1,
        files,
    );
    table.manifests = vec![m1];

    // Tiny target so each writer seals after a couple of entries, forcing the single
    // hot key to span multiple manifests.
    let mut properties = Properties::new();
    properties.insert(MANIFEST_TARGET_SIZE_BYTES.to_string(), "200".to_string());
    let mut action = RewriteManifestsAction::new()
        .cluster_by(cluster_by_first_char())
        .set_snapshot_properties(properties);
    committed(&mut action, &mut table);

    let state = &action.state;
    assert!(
        state.new_manifests.len() >= 2,
        "a hot key over the target must roll over into multiple manifests, got {}",
        state.new_manifests.len()
    );
    let total_files: u32 = state
        .new_manifests
        .iter()
        .map(|m| m.added_files_count.unwrap_or(0) + m.existing_files_count.unwrap_or(0))
        .sum();
    assert_eq!(
        total_files, 8,
        "all 8 input files must be preserved across the split manifests"
    );
    assert_eq!(
        state.entry_count, 8,
        "every live entry must be processed exactly once"
    );
}

/// A table with two data manifests of one file each.
fn table_with_two_manifests() -> (Table, ManifestFile, ManifestFile) {
    let mut table = make_minimal_table();
    let m1 = write_data_manifest(
        &mut table,
        "memory:///test/location/metadata/m1.avro",
        1,
        1,
        vec![data_file("a-1.parquet", 1, 10)],
    );
    let m2 = write_data_manifest(
        &mut table,
        "memory:///test/location/metadata/m2.avro",
        1,
        1,
        vec![data_file("a-2.parquet", 1, 10)],
    );
    table.manifests = vec![m1.clone(), m2.clone()];
    (table, m1, m2)
}

#[test]
fn test_rewrite_manifests_reuses_output_on_concurrent_append() {
    let (mut table, m1, m2) = table_with_two_manifests();

    // Attempt 1: full rewrite against [M1, M2].
    let mut action = RewriteManifestsAction::new().cluster_by(cluster_by_first_char());
    let commit_v1 = committed(&mut action, &mut table);

    assert!(
        !action.state.new_manifests.is_empty(),
        "attempt 1 should have produced new manifests"
    );
    let first_new_paths = paths(&action.state.new_manifests);
    assert_eq!(
        path_set(&action.state.rewritten_manifests),
        path_set(&[m1.clone(), m2.clone()])
    );
    assert_eq!(action.state.entry_count, 2);
    assert_eq!(
        property(&commit_v1, PROCESSED_ENTRY_COUNT),
        Some("2".to_string())
    );

    // A concurrent append adds M3 to the current snapshot between attempts.
    let m3 = write_data_manifest(
        &mut table,
        "memory:///test/location/metadata/m3.avro",
        2,
        2,
        vec![data_file("a-3.parquet", 1, 10)],
    );
    table.manifests = vec![m1, m2, m3];

    // Attempt 2: same action, same state.
    let commit_v2 = committed(&mut action, &mut table);

    assert_eq!(
        paths(&action.state.new_manifests),
        first_new_paths,
        "reuse path must return the same new_manifests across attempts"
    );
    assert_eq!(
        property(&commit_v2, PROCESSED_ENTRY_COUNT),
        Some("2".to_string()),
        "entry_count must be preserved from attempt 1 on the reuse path"
    );
    assert_eq!(
        property(&commit_v1, KEPT_MANIFESTS_COUNT),
        Some("0".to_string())
    );
    assert_eq!(
        property(&commit_v2, KEPT_MANIFESTS_COUNT),
        Some("1".to_string())
    );
    assert_eq!(
        property(&commit_v1, CREATED_MANIFESTS_COUNT),
        property(&commit_v2, CREATED_MANIFESTS_COUNT),
        "reuse path must not create additional new manifests"
    );
}

#[test]
fn test_rewrite_manifests_full_reexecution_when_concurrent_rewrite_removes_input() {
    let (mut table, m1, _m2) = table_with_two_manifests();

    let mut action = RewriteManifestsAction::new().cluster_by(cluster_by_first_char());
    committed(&mut action, &mut table);
    let first_new_paths = paths(&action.state.new_manifests);
    assert!(
        !first_new_paths.is_empty(),
        "attempt 1 should have produced new manifests"
    );

    // A concurrent rewrite dropped M2 and introduced a replacement M2' that holds its
    // entry. M1 is still present.
    let m2_prime = write_data_manifest(
        &mut table,
        "memory:///test/location/metadata/m2-prime.avro",
        2,
        2,
        vec![data_file("a-2.parquet", 1, 10)],
    );
    table.manifests = vec![m1.clone(), m2_prime.clone()];

    committed(&mut action, &mut table);

    assert_eq!(
        path_set(&action.state.rewritten_manifests),
        path_set(&[m1, m2_prime]),
        "retry must re-run clustering against the fresh manifest list"
    );
    assert!(
        !first_new_paths.is_empty(),
        "attempt 1 must have produced at least one new manifest"
    );
}

#[test]
fn test_rewrite_manifests_reuse_after_multiple_concurrent_appends() {
    let (mut table, m1, m2) = table_with_two_manifests();

    let mut action = RewriteManifestsAction::new().cluster_by(cluster_by_first_char());
    let commit_v1 = committed(&mut action, &mut table);
    let baseline_new_paths = paths(&action.state.new_manifests);
    let baseline_rewritten_paths = paths(&action.state.rewritten_manifests);

    // Three concurrent appends, each of which adds one more manifest.
    let mut carried: Vec<ManifestFile> = vec![m1, m2];
    for i in 0..3 {
        let mi = write_data_manifest(
            &mut table,
            &format!("memory:///test/location/metadata/concurrent-{i}.avro"),
            (10 + i) as i64,
            (10 + i) as i64,
            vec![data_file(&format!("a-c{i}.parquet"), 1, 10)],
        );
        carried.push(mi);
        table.manifests = carried.clone();

        let commit_next = committed(&mut action, &mut table);

        assert_eq!(
            paths(&action.state.new_manifests),
            baseline_new_paths,
            "attempt {} (retry): new_manifests must not change on the reuse path",
            i + 2,
        );
        assert_eq!(
            paths(&action.state.rewritten_manifests),
            baseline_rewritten_paths,
            "attempt {} (retry): rewritten_manifests must not change on the reuse path",
            i + 2,
        );
        let expected_kept = (i + 1).to_string();
        assert_eq!(
            property(&commit_next, KEPT_MANIFESTS_COUNT),
            Some(expected_kept),
            "attempt {} (retry): kept-manifest count must include all prior concurrent appends",
            i + 2,
        );
        assert_eq!(
            property(&commit_next, CREATED_MANIFESTS_COUNT),
            property(&commit_v1, CREATED_MANIFESTS_COUNT),
            "attempt {} (retry): reuse path must not create additional new manifests",
            i + 2,
        );
        assert_eq!(
            property(&commit_next, PROCESSED_ENTRY_COUNT),
            property(&commit_v1, PROCESSED_ENTRY_COUNT),
            "attempt {} (retry): reuse path must preserve entry_count from attempt 1",
            i + 2,
        );
    }
}

#[test]
fn identity_is_stable_across_attempts() {
    let (mut table, _, _) = table_with_two_manifests();
    let mut action = RewriteManifestsAction::new();
    let first = action.begin_commit();
    assert_eq!(first.commit_uuid.get_version_num(), 7);
    assert_eq!(first.snapshot_id, None);
    action.settle_snapshot_id(123);
    assert!(action.prepare(&table.manifests, &table.metadata).is_ok());
    table.manifests.pop();
    let second = action.begin_commit();
    assert_eq!(second.commit_uuid, first.commit_uuid);
    assert_eq!(second.snapshot_id, Some(123));
    // An id that comes later does not replace the one that was settled.
    action.settle_snapshot_id(456);
    assert_eq!(action.begin_commit().snapshot_id, Some(123));
}

#[test]
fn caller_sets_the_identity() {
    let uuid = Uuid::from_u128(17);
    let mut action = RewriteManifestsAction::new()
        .set_commit_uuid(uuid)
        .set_snapshot_id(99)
        .set_key_metadata(vec![4, 5])
        .set_target_branch("audit".to_string());
    let proposed = action.begin_commit_under(Uuid::from_u128(18));
    assert_eq!(proposed.commit_uuid, uuid);
    assert_eq!(proposed.snapshot_id, Some(99));
    assert_eq!(proposed.key_metadata, Some(vec![4, 5]));
    assert_eq!(proposed.target_branch, Some("audit".to_string()));
    assert_eq!(action.state.commit_uuid, Some(uuid));

    let mut action = RewriteManifestsAction::default();
    let fresh = Uuid::from_u128(19);
    assert_eq!(action.begin_commit_under(fresh).commit_uuid, fresh);
    assert_eq!(
        action.begin_commit_under(Uuid::from_u128(20)).commit_uuid,
        fresh
    );
}

#[test]
fn nothing_to_do_adds_no_snapshot() {
    let (mut table, _, _) = table_with_two_manifests();
    let mut action = RewriteManifestsAction::new();
    assert!(matches!(
        commit(&mut action, &mut table),
        Ok(RewriteOutcome::Unchanged)
    ));
    // Neither does a predicate that selects no manifest.
    let mut action = RewriteManifestsAction::new()
        .cluster_by(cluster_by_first_char())
        .rewrite_if(Box::new(|_: &ManifestFile| false));
    assert!(matches!(
        commit(&mut action, &mut table),
        Ok(RewriteOutcome::Unchanged)
    ));
}

#[test]
fn predicate_selects_the_manifests_to_rewrite() {
    let (mut table, m1, m2) = table_with_two_manifests();
    let mut action = RewriteManifestsAction::new()
        .cluster_by(cluster_by_first_char())
        .rewrite_if(Box::new(|m: &ManifestFile| m.manifest_path.contains("m2")));
    let commit = committed(&mut action, &mut table);
    assert_eq!(paths(&action.state.rewritten_manifests), paths(&[m2]));
    let result = paths(&commit.operation.result_manifests);
    assert_eq!(result.len(), 2);
    assert_eq!(result[0], m1.manifest_path);
    assert_eq!(property(&commit, KEPT_MANIFESTS_COUNT), Some("1".to_string()));
    assert_eq!(property(&commit, CREATED_MANIFESTS_COUNT), Some("1".to_string()));
    assert_eq!(property(&commit, REPLACED_MANIFESTS_COUNT), Some("1".to_string()));
    assert_eq!(property(&commit, PROCESSED_ENTRY_COUNT), Some("1".to_string()));
}

#[test]
fn delete_manifests_are_never_rewritten() {
    let (mut table, _, _) = table_with_two_manifests();
    let mut deletes = test_manifest("deletes.avro", Some(0), Some(3), Some(0));
    deletes.content = ManifestContentType::Deletes;
    table.manifests.insert(1, deletes);
    let mut action = RewriteManifestsAction::new().cluster_by(cluster_by_first_char());
    let commit = committed(&mut action, &mut table);
    assert_eq!(action.state.rewritten_manifests.len(), 2);
    assert_eq!(commit.operation.result_manifests[0].manifest_path, "deletes.avro");
    let before = active_files_count(&table.manifests);
    let after = active_files_count(&commit.operation.result_manifests);
    assert_eq!(before, Some(5));
    assert_eq!(after, before);
}

#[test]
fn deleted_manifests_are_checked() {
    let (mut table, m1, _) = table_with_two_manifests();
    let mut deletes = test_manifest("deletes.avro", Some(0), Some(3), Some(0));
    deletes.content = ManifestContentType::Deletes;
    table.manifests.push(deletes.clone());

    let unknown = test_manifest("unknown.avro", Some(0), Some(1), Some(0));
    assert_commit_err(
        RewriteManifestsAction::new().delete_manifest(unknown),
        &mut table,
        "Deleted manifest does not exist in the current snapshot: unknown.avro",
    );
    // What counts is the content type that the table knows.
    deletes.content = ManifestContentType::Data;
    assert_commit_err(
        RewriteManifestsAction::new().delete_manifest(deletes),
        &mut table,
        "Cannot delete a delete-type manifest via rewrite_manifests: deletes.avro",
    );
    assert_commit_err(
        RewriteManifestsAction::new()
            .delete_manifest(m1.clone())
            .delete_manifest(m1),
        &mut table,
        "deleted_manifests contains duplicate manifest paths",
    );
}

#[test]
fn added_manifests_are_checked() {
    let (mut table, m1, _) = table_with_two_manifests();
    let added = test_manifest("new.avro", Some(0), Some(1), Some(0));
    assert_commit_err(
        RewriteManifestsAction::new()
            .add_manifest(added.clone())
            .add_manifest(added.clone()),
        &mut table,
        "added_manifests contains duplicate manifest paths",
    );
    assert_commit_err(
        RewriteManifestsAction::new().add_manifest(m1.clone()),
        &mut table,
        "Cannot add manifest that already exists in the current snapshot: \
         memory:///test/location/metadata/m1.avro",
    );
    let mut negative = added;
    negative.partition_spec_id = -7;
    assert_commit_err(
        RewriteManifestsAction::new().add_manifest(negative),
        &mut table,
        "Cannot add manifest with unknown partition spec id -7: new.avro",
    );
    // A manifest that is removed at the same time may be added again.
    let mut action = RewriteManifestsAction::new()
        .delete_manifest(m1.clone())
        .add_manifest(m1);
    let commit = committed(&mut action, &mut table);
    assert_eq!(
        paths(&commit.operation.result_manifests),
        vec![
            "memory:///test/location/metadata/m2.avro",
            "memory:///test/location/metadata/m1.avro"
        ]
    );
    assert_eq!(property(&commit, PROCESSED_ENTRY_COUNT), Some("0".to_string()));
}

#[test]
fn file_counts_must_match_where_they_are_known() {
    let (mut table, m1, _) = table_with_two_manifests();
    let added = test_manifest("new.avro", Some(0), Some(7), Some(0));
    assert_commit_err(
        RewriteManifestsAction::new()
            .delete_manifest(m1.clone())
            .add_manifest(added),
        &mut table,
        "Rewrite manifests file count mismatch: created 7 files but replaced 1 files",
    );
    // An unknown count skips the check.
    let unknown = test_manifest("new.avro", Some(0), None, Some(0));
    let mut action = RewriteManifestsAction::new()
        .delete_manifest(m1)
        .add_manifest(unknown);
    committed(&mut action, &mut table);
}

#[test]
fn counts_take_precedence_over_user_properties() {
    let (mut table, m1, _) = table_with_two_manifests();
    let mut properties = Properties::new();
    properties.insert(CREATED_MANIFESTS_COUNT.to_string(), "1000".to_string());
    properties.insert("owner".to_string(), "me".to_string());
    let mut action = RewriteManifestsAction::new()
        .delete_manifest(m1)
        .add_manifest(test_manifest("new.avro", Some(0), Some(1), Some(0)))
        .set_snapshot_properties(properties);
    let commit = committed(&mut action, &mut table);
    assert_eq!(property(&commit, CREATED_MANIFESTS_COUNT), Some("1".to_string()));
    assert_eq!(property(&commit, REPLACED_MANIFESTS_COUNT), Some("1".to_string()));
    assert_eq!(property(&commit, KEPT_MANIFESTS_COUNT), Some("1".to_string()));
    assert_eq!(property(&commit, "owner"), Some("me".to_string()));
}

#[test]
fn target_size_is_resolved_in_order() {
    let sized = |text: &str| {
        let mut properties = Properties::new();
        properties.insert(MANIFEST_TARGET_SIZE_BYTES.to_string(), text.to_string());
        properties
    };
    let none = Properties::new();
    let action = RewriteManifestsAction::new();
    assert_eq!(action.target_manifest_size_bytes(&none), 8388608);
    assert_eq!(action.target_manifest_size_bytes(&sized("512")), 512);
    assert_eq!(action.target_manifest_size_bytes(&sized("4294967296")), 4294967296);
    let action = RewriteManifestsAction::new().set_snapshot_properties(sized("64"));
    assert_eq!(action.target_manifest_size_bytes(&sized("512")), 64);
    // A text that is no number hides the table's property.
    let action = RewriteManifestsAction::new().set_snapshot_properties(sized("64k"));
    assert_eq!(action.target_manifest_size_bytes(&sized("512")), 8388608);
}

#[test]
fn active_files_are_added_and_existing_ones() {
    let known = test_manifest("a", Some(2), Some(3), Some(100));
    let large = test_manifest("b", Some(u32::MAX), Some(u32::MAX), None);
    let unknown = test_manifest("c", None, Some(1), Some(0));
    assert_eq!(active_files_count(&[]), Some(0));
    assert_eq!(active_files_count(&[known.clone()]), Some(5));
    assert_eq!(
        active_files_count(&[known.clone(), large]),
        Some(5 + 2 * (u32::MAX as u64))
    );
    assert_eq!(active_files_count(&[known, unknown]), None);
}

#[test]
fn operation_replaces_without_delete_entries() {
    let mut claimed = test_manifest("a", Some(0), Some(1), Some(0));
    claimed.first_row_id = Some(7);
    let operation = RewriteManifestsOperation {
        result_manifests: vec![claimed, test_manifest("b", Some(0), Some(1), Some(0))],
    };
    assert_eq!(operation.operation(), Operation::Replace);
    assert!(operation.delete_entries().is_empty());
    assert!(!operation.assigns_row_ids());
    let manifests = operation.existing_manifest();
    assert_eq!(paths(&manifests), vec!["a", "b"]);
    assert!(manifests.iter().all(|m| m.first_row_id.is_none()));
}

#[test]
fn output_is_reused_wherever_new_manifests_stand() {
    let (mut table, m1, m2) = table_with_two_manifests();
    let mut action = RewriteManifestsAction::new().cluster_by(cluster_by_first_char());
    let first = committed(&mut action, &mut table);
    let written = paths(&action.state.new_manifests);

    // The consumed manifests have changed places, among new ones on every side.
    let front = test_manifest("front.avro", Some(0), Some(1), Some(0));
    let middle = test_manifest("middle.avro", Some(0), Some(1), Some(0));
    let back = test_manifest("back.avro", Some(0), Some(1), Some(0));
    table.manifests = vec![front, m2, middle, m1, back];
    assert!(!action.requires_rewrite(&table.manifests));
    let second = committed(&mut action, &mut table);
    assert_eq!(paths(&action.state.new_manifests), written);
    assert_eq!(property(&first, KEPT_MANIFESTS_COUNT), Some("0".to_string()));
    assert_eq!(property(&second, KEPT_MANIFESTS_COUNT), Some("3".to_string()));
    for name in [
        CREATED_MANIFESTS_COUNT,
        REPLACED_MANIFESTS_COUNT,
        PROCESSED_ENTRY_COUNT,
    ] {
        assert_eq!(property(&first, name), property(&second, name));
    }
    let result = paths(&second.operation.result_manifests);
    assert_eq!(result[..3], ["front.avro", "middle.avro", "back.avro"]);
    assert_eq!(result[3..], written[..]);
}

#[test]
fn live_entries_are_preserved() {
    let (mut table, m1, m2) = table_with_two_manifests();
    // One entry of M1 is of a file that was deleted; M3 is left alone.
    let mut dead = table.store[&m1.manifest_path][0].clone();
    dead.status = ManifestStatus::Deleted;
    dead.data_file = data_file("a-0.parquet", 1, 10);
    table.store.get_mut(&m1.manifest_path).unwrap().push(dead);
    let m3 = write_data_manifest(
        &mut table,
        "memory:///test/location/metadata/m3.avro",
        1,
        1,
        vec![data_file("b-1.parquet", 1, 10), data_file("a-3.parquet", 1, 10)],
    );
    table.manifests = vec![m1, m3, m2];

    let live = |table: &Table, manifests: &[ManifestFile]| -> Vec<(String, Option<i64>)> {
        let mut files: Vec<(String, Option<i64>)> = manifests
            .iter()
            .flat_map(|m| table.store[&m.manifest_path].clone())
            .filter(|e| e.is_alive())
            .map(|e| (e.data_file.file_path, e.sequence_number))
            .collect();
        files.sort();
        files
    };
    let before = live(&table, &table.manifests);
    let mut action = RewriteManifestsAction::new()
        .cluster_by(cluster_by_first_char())
        .rewrite_if(Box::new(|m: &ManifestFile| !m.manifest_path.contains("m3")));
    let commit = committed(&mut action, &mut table);
    let after = live(&table, &commit.operation.result_manifests);
    assert_eq!(before.len(), 4);
    assert_eq!(after, before);
    assert_eq!(action.state.entry_count, 2);

    // A concurrent append comes first; the retry uses the same output, and no file of
    // either snapshot is lost.
    let m4 = write_data_manifest(
        &mut table,
        "memory:///test/location/metadata/m4.avro",
        2,
        2,
        vec![data_file("a-4.parquet", 1, 10)],
    );
    table.manifests.insert(0, m4);
    assert!(!action.requires_rewrite(&table.manifests));
    let before = live(&table, &table.manifests);
    let commit = committed(&mut action, &mut table);
    let after = live(&table, &commit.operation.result_manifests);
    assert_eq!(before.len(), 5);
    assert_eq!(after, before);
}

#[test]
fn live_entries_change_only_as_the_caller_asks() {
    let (mut table, m1, _) = table_with_two_manifests();
    // M1 is swapped for a manifest that lists another file.
    let added = write_data_manifest(
        &mut table,
        "memory:///test/location/metadata/added.avro",
        1,
        1,
        vec![data_file("c-1.parquet", 1, 10)],
    );
    let files = |table: &Table, manifests: &[ManifestFile]| -> Vec<String> {
        let mut files: Vec<String> = manifests
            .iter()
            .flat_map(|m| table.store[&m.manifest_path].clone())
            .filter(|e| e.is_alive())
            .map(|e| e.data_file.file_path)
            .collect();
        files.sort();
        files
    };
    for cluster in [false, true] {
        let mut action = RewriteManifestsAction::new()
            .delete_manifest(m1.clone())
            .add_manifest(added.clone());
        if cluster {
            action = action.cluster_by(cluster_by_first_char());
        }
        let commit = committed(&mut action, &mut table);
        assert_eq!(
            files(&table, &commit.operation.result_manifests),
            vec!["a-2.parquet", "c-1.parquet"]
        );
    }
}

#[test]
fn ordinary_lists_are_countable() {
    let large = test_manifest("a", Some(u32::MAX), Some(u32::MAX), Some(0));
    let unknown = test_manifest("b", Some(1), None, Some(0));
    assert!(is_countable(&[]));
    assert!(is_countable(&[large.clone(), large.clone()]));
    assert!(is_countable(&[unknown, large]));
}
