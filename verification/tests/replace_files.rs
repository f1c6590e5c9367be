use iceberg_transaction::manifest::{
    DataContentType, DataFile, DataFileFormat, ManifestContentType, ManifestEntry, ManifestFile,
    ManifestStatus, Operation,
};
use iceberg_transaction::properties::Properties;
use iceberg_transaction::replace_files::{
    CommitStep, CurrentManifest, ExistingManifest, ManifestProcess, Overwrite,
    OverwriteFilesAction, ReplaceFilesAction, ReplaceFilesMode, ReplaceFilesOperation, Rewrite,
    RewriteFilesAction,
};
use iceberg_transaction::snapshot::{
    delete_manifests, SnapshotProducer, FIELD_ID_POSITIONAL_DELETE_FILE_PATH,
};
use iceberg_transaction::table::{
    Snapshot, TableMetadata, MANIFEST_MERGE_ENABLED, MANIFEST_MIN_MERGE_COUNT,
    MANIFEST_TARGET_SIZE_BYTES,
};
use uuid::Uuid;

const PARENT_SNAPSHOT_ID: i64 = 42;
const PARENT_SEQUENCE_NUMBER: i64 = 1;
const REMOVED_DELETE_FILE: &str = "test/removed-delete.parquet";
const RETAINED_DELETE_FILE: &str = "test/retained-delete.parquet";

/// The snapshot a concurrent writer adds *after* the one a rewrite read.
const NEW_SNAPSHOT_ID: i64 = 43;
const NEW_SEQUENCE_NUMBER: i64 = PARENT_SEQUENCE_NUMBER + 1;
const REWRITTEN_DATA_FILE: &str = "test/rewritten-data.parquet";
const UNTOUCHED_DATA_FILE: &str = "test/untouched-data.parquet";
const NEW_DELETION_VECTOR: &str = "memory:///test/location/data/new-dv.puffin";

/// A table as the tests see it: its metadata, the snapshot that its main branch is at,
/// and the manifests of that snapshot.
struct Table {
    metadata: TableMetadata,
    head: Option<i64>,
    manifests: Vec<(ManifestFile, Vec<ManifestEntry>)>,
}

impl Table {
    fn current_manifests(&self) -> Vec<CurrentManifest> {
        self.manifests
            .iter()
            .map(|(file, entries)| CurrentManifest {
                file: file.clone(),
                entries: entries.clone(),
            })
            .collect()
    }

    fn delete_entries(&self) -> Vec<ManifestEntry> {
        self.manifests
            .iter()
            .filter(|(file, _)| file.content == ManifestContentType::Deletes)
            .flat_map(|(_, entries)| entries.clone())
            .collect()
    }
}

fn file(content: DataContentType, path: &str) -> DataFile {
    DataFile {
        content,
        file_path: path.to_string(),
        file_format: DataFileFormat::Parquet,
        partition: vec![Some(300i64.to_le_bytes().to_vec())],
        partition_spec_id: 0,
        record_count: 10,
        file_size_in_bytes: 100,
        column_sizes: vec![],
        value_counts: vec![],
        null_value_counts: vec![],
        nan_value_counts: vec![],
        lower_bounds: vec![],
        upper_bounds: vec![],
        key_metadata: None,
        split_offsets: None,
        equality_ids: None,
        sort_order_id: None,
        first_row_id: None,
        referenced_data_file: None,
        content_offset: None,
        content_size_in_bytes: None,
    }
}

fn position_delete_file(path: &str) -> DataFile {
    file(DataContentType::PositionDeletes, path)
}

fn entry(data_file: DataFile, snapshot_id: i64, sequence_number: i64) -> ManifestEntry {
    ManifestEntry {
        status: ManifestStatus::Existing,
        snapshot_id: Some(snapshot_id),
        sequence_number: Some(sequence_number),
        file_sequence_number: Some(sequence_number),
        data_file,
    }
}

fn manifest_file(path: &str, content: ManifestContentType, files: u32) -> ManifestFile {
    ManifestFile {
        manifest_path: path.to_string(),
        manifest_length: 1000,
        partition_spec_id: 0,
        content,
        sequence_number: PARENT_SEQUENCE_NUMBER,
        min_sequence_number: PARENT_SEQUENCE_NUMBER,
        added_snapshot_id: PARENT_SNAPSHOT_ID,
        added_files_count: Some(0),
        existing_files_count: Some(files),
        deleted_files_count: Some(0),
        added_rows_count: Some(0),
        existing_rows_count: Some(0),
        deleted_rows_count: Some(0),
        partitions: None,
        key_metadata: None,
        first_row_id: None,
    }
}

/// A table whose parent snapshot has one delete manifest with two delete files.
fn make_v2_table_with_delete_manifest() -> Table {
    Table {
        metadata: TableMetadata {
            partition_spec_ids: vec![0],
            properties: Properties::new(),
            snapshots: vec![Snapshot {
                snapshot_id: PARENT_SNAPSHOT_ID,
                parent_snapshot_id: None,
                sequence_number: PARENT_SEQUENCE_NUMBER,
            }],
        },
        head: Some(PARENT_SNAPSHOT_ID),
        manifests: vec![(
            manifest_file(
                "memory:///test/location/metadata/delete-manifest.avro",
                ManifestContentType::Deletes,
                2,
            ),
            vec![
                entry(
                    position_delete_file(REMOVED_DELETE_FILE),
                    PARENT_SNAPSHOT_ID,
                    PARENT_SEQUENCE_NUMBER,
                ),
                entry(
                    position_delete_file(RETAINED_DELETE_FILE),
                    PARENT_SNAPSHOT_ID,
                    PARENT_SEQUENCE_NUMBER,
                ),
            ],
        )],
    }
}

/// A deletion vector: a Puffin position-delete that names the single data file it
/// applies to.
fn deletion_vector(referenced_data_file: &str) -> DataFile {
    DataFile {
        file_format: DataFileFormat::Puffin,
        file_size_in_bytes: 128,
        record_count: 3,
        referenced_data_file: Some(referenced_data_file.to_string()),
        content_offset: Some(4),
        content_size_in_bytes: Some(64),
        ..position_delete_file(NEW_DELETION_VECTOR)
    }
}

/// The state a concurrent writer leaves behind: a newer snapshot whose delete manifest
/// holds `delete_file`.
fn make_table_with_delete_added_after_parent(mut base: Table, delete_file: DataFile) -> Table {
    base.metadata.snapshots.push(Snapshot {
        snapshot_id: NEW_SNAPSHOT_ID,
        parent_snapshot_id: Some(PARENT_SNAPSHOT_ID),
        sequence_number: NEW_SEQUENCE_NUMBER,
    });
    base.head = Some(NEW_SNAPSHOT_ID);
    base.manifests = vec![(
        manifest_file(
            "memory:///test/location/metadata/delete-manifest-2.avro",
            ManifestContentType::Deletes,
            1,
        ),
        vec![entry(delete_file, NEW_SNAPSHOT_ID, NEW_SEQUENCE_NUMBER)],
    )];
    base
}

fn make_table_with_deletion_vector_added_after_parent(referenced_data_file: &str) -> Table {
    make_table_with_delete_added_after_parent(
        make_v2_table_with_delete_manifest(),
        deletion_vector(referenced_data_file),
    )
}

fn position_delete_with_path_bounds(path: &str, lower: &str, upper: &str) -> DataFile {
    DataFile {
        file_size_in_bytes: 128,
        record_count: 3,
        lower_bounds: vec![(
            FIELD_ID_POSITIONAL_DELETE_FILE_PATH,
            lower.as_bytes().to_vec(),
        )],
        upper_bounds: vec![(
            FIELD_ID_POSITIONAL_DELETE_FILE_PATH,
            upper.as_bytes().to_vec(),
        )],
        ..position_delete_file(path)
    }
}

fn equality_delete(path: &str) -> DataFile {
    DataFile {
        file_size_in_bytes: 128,
        record_count: 3,
        equality_ids: Some(vec![1]),
        ..file(DataContentType::EqualityDeletes, path)
    }
}

/// What a test hands to a producer.
struct Changes {
    properties: Properties,
    none: Vec<DataFile>,
    removed_data: Vec<DataFile>,
    removed_delete: Vec<DataFile>,
    key_metadata: Option<Vec<u8>>,
}

impl Changes {
    fn removing(data_file_path: &str) -> Self {
        Changes {
            properties: Properties::new(),
            none: vec![],
            removed_data: vec![file(DataContentType::Data, data_file_path)],
            removed_delete: vec![],
            key_metadata: None,
        }
    }

    fn removing_delete_file(path: &str) -> Self {
        Changes {
            removed_data: vec![],
            removed_delete: vec![position_delete_file(path)],
            ..Changes::removing("")
        }
    }

    fn producer(&self) -> SnapshotProducer<'_> {
        SnapshotProducer::new(
            Uuid::now_v7(),
            &self.key_metadata,
            None,
            &self.properties,
            &self.none,
            &self.none,
            &self.removed_data,
            &self.removed_delete,
        )
    }

    /// Rewrites must keep the starting snapshot's sequence number so existing equality
    /// deletes still apply to the replacement files; the validation enforces it.
    fn producer_at_parent(&self) -> SnapshotProducer<'_> {
        let mut producer = self.producer();
        producer.set_new_data_file_sequence_number(PARENT_SEQUENCE_NUMBER);
        producer
    }
}

fn validate(producer: &SnapshotProducer, table: &Table, starting: i64) -> Result<(), String> {
    producer
        .validate_no_new_deletes_for_data_files(
            &table.metadata,
            table.head,
            &table.delete_entries(),
            starting,
        )
        .map_err(|error| error.message)
}

#[test]
fn test_validate_rejects_new_deletion_vector_for_a_rewritten_data_file() {
    let table = make_table_with_deletion_vector_added_after_parent(REWRITTEN_DATA_FILE);
    let changes = Changes::removing(REWRITTEN_DATA_FILE);

    let message = validate(&changes.producer_at_parent(), &table, PARENT_SNAPSHOT_ID)
        .expect_err("a delete added after the starting snapshot must be a conflict");

    assert!(
        message.contains(REWRITTEN_DATA_FILE) && message.contains(NEW_DELETION_VECTOR),
        "error should name both the data file and the new delete file, got: {message}"
    );
}

#[test]
fn test_validate_allows_new_deletion_vector_for_an_untouched_data_file() {
    let table = make_table_with_deletion_vector_added_after_parent(UNTOUCHED_DATA_FILE);
    let changes = Changes::removing(REWRITTEN_DATA_FILE);

    validate(&changes.producer_at_parent(), &table, PARENT_SNAPSHOT_ID)
        .expect("a delete for an unrelated data file must not conflict");
}

#[test]
fn test_validate_allows_when_nothing_was_committed_concurrently() {
    let table = make_table_with_deletion_vector_added_after_parent(REWRITTEN_DATA_FILE);
    let changes = Changes::removing(REWRITTEN_DATA_FILE);

    validate(&changes.producer_at_parent(), &table, NEW_SNAPSHOT_ID)
        .expect("no concurrent commit means no conflict");
}

#[test]
fn test_validate_rejects_bounds_identified_position_delete_for_a_rewritten_data_file() {
    let delete_file = position_delete_with_path_bounds(
        "test/new-position-delete.parquet",
        REWRITTEN_DATA_FILE,
        REWRITTEN_DATA_FILE,
    );
    let table = make_table_with_delete_added_after_parent(
        make_v2_table_with_delete_manifest(),
        delete_file,
    );
    let changes = Changes::removing(REWRITTEN_DATA_FILE);

    let message = validate(&changes.producer_at_parent(), &table, PARENT_SNAPSHOT_ID)
        .expect_err("a bounds-identified delete for a removed data file must conflict");
    assert!(message.contains(REWRITTEN_DATA_FILE), "got: {message}");
}

#[test]
fn test_validate_allows_bounds_identified_position_delete_for_an_untouched_data_file() {
    let delete_file = position_delete_with_path_bounds(
        "test/new-position-delete.parquet",
        UNTOUCHED_DATA_FILE,
        UNTOUCHED_DATA_FILE,
    );
    let table = make_table_with_delete_added_after_parent(
        make_v2_table_with_delete_manifest(),
        delete_file,
    );
    let changes = Changes::removing(REWRITTEN_DATA_FILE);

    validate(&changes.producer_at_parent(), &table, PARENT_SNAPSHOT_ID)
        .expect("a delete bounded to an unrelated data file must not conflict");
}

#[test]
fn test_validate_rejects_unattributable_position_delete() {
    let delete_file = position_delete_with_path_bounds(
        "test/new-multi-file-position-delete.parquet",
        "test/aaa.parquet",
        "test/zzz.parquet",
    );
    let table = make_table_with_delete_added_after_parent(
        make_v2_table_with_delete_manifest(),
        delete_file,
    );
    let changes = Changes::removing(REWRITTEN_DATA_FILE);

    let message = validate(&changes.producer_at_parent(), &table, PARENT_SNAPSHOT_ID)
        .expect_err("an unattributable new delete file must be treated as a conflict");
    assert!(
        message.contains("does not identify the data file"),
        "got: {message}"
    );
}

#[test]
fn test_validate_allows_new_equality_delete_when_sequence_number_is_preserved() {
    let table = make_table_with_delete_added_after_parent(
        make_v2_table_with_delete_manifest(),
        equality_delete("test/new-equality-delete.parquet"),
    );
    let changes = Changes::removing(REWRITTEN_DATA_FILE);

    validate(&changes.producer_at_parent(), &table, PARENT_SNAPSHOT_ID)
        .expect("a new equality delete is handled by sequence number, not by data file");
}

#[test]
fn test_validate_requires_the_starting_sequence_number_to_be_preserved() {
    let table = make_table_with_deletion_vector_added_after_parent(UNTOUCHED_DATA_FILE);
    let changes = Changes::removing(REWRITTEN_DATA_FILE);

    // Deliberately *not* calling `set_new_data_file_sequence_number`.
    let message = validate(&changes.producer(), &table, PARENT_SNAPSHOT_ID)
        .expect_err("validation must refuse to promise anything without the sequence number");
    assert!(message.contains("sequence number"), "got: {message}");
}

#[test]
fn test_validate_rejects_starting_snapshot_that_is_not_an_ancestor() {
    let table = make_table_with_deletion_vector_added_after_parent(REWRITTEN_DATA_FILE);
    let changes = Changes::removing(REWRITTEN_DATA_FILE);
    let producer = changes.producer_at_parent();

    // Sanity: the genuine ancestor passes the ancestry check (and then trips the conflict).
    let ancestor_message = validate(&producer, &table, PARENT_SNAPSHOT_ID)
        .expect_err("this fixture conflicts on the DV");
    assert!(
        !ancestor_message.contains("not an ancestor"),
        "PARENT_SNAPSHOT_ID must be recognised as an ancestor, got: {ancestor_message}"
    );

    let message = validate(&producer, &table, -12345)
        .expect_err("a snapshot outside the branch history must be rejected");
    assert!(
        message.contains("not an ancestor"),
        "expected an ancestry rejection, got: {message}"
    );
}

#[test]
fn test_validate_rejects_unknown_starting_snapshot() {
    let table = make_table_with_deletion_vector_added_after_parent(REWRITTEN_DATA_FILE);
    let changes = Changes::removing(REWRITTEN_DATA_FILE);

    let message = validate(&changes.producer_at_parent(), &table, -999)
        .expect_err("an unknown starting snapshot must be rejected");
    assert!(message.contains("-999"), "got: {message}");
}

#[test]
fn test_modes_map_to_their_operations() {
    assert_eq!(Rewrite::OPERATION, Operation::Replace);
    assert_eq!(Overwrite::OPERATION, Operation::Overwrite);
    assert_eq!(
        ReplaceFilesOperation::<Rewrite>::new().operation(),
        Operation::Replace
    );
    assert_eq!(
        ReplaceFilesOperation::<Overwrite>::new().operation(),
        Operation::Overwrite
    );
}

/// Removing one delete file must not mark *unrelated* delete files as deleted.
fn assert_only_removed_delete_files_marked<M: ReplaceFilesMode>() {
    let table = make_v2_table_with_delete_manifest();
    let changes = Changes::removing_delete_file(REMOVED_DELETE_FILE);

    let deleted_entries = ReplaceFilesOperation::<M>::new()
        .delete_entries(&changes.producer(), table.current_manifests());
    let deleted_paths: Vec<&str> = deleted_entries
        .iter()
        .map(|entry| entry.data_file.file_path())
        .collect();

    assert_eq!(
        deleted_paths,
        vec![REMOVED_DELETE_FILE],
        "only the removed delete file should be marked deleted; \
         {RETAINED_DELETE_FILE} must stay live"
    );
}

/// Rewriting a partially-deleted *delete* manifest must preserve its `Deletes` content
/// type, and must carry survivors forward as `Existing` rather than restamping them as
/// `Added`.
fn assert_delete_manifest_carried_forward_intact<M: ReplaceFilesMode>() {
    let table = make_v2_table_with_delete_manifest();
    let changes = Changes::removing_delete_file(REMOVED_DELETE_FILE);

    let existing = ReplaceFilesOperation::<M>::new()
        .existing_manifest(&changes.producer(), table.current_manifests());

    assert_eq!(existing.len(), 1, "the delete manifest should be rewritten");
    let writer = match &existing[0] {
        ExistingManifest::Rewritten(writer) => writer,
        ExistingManifest::Kept(_) => panic!("the delete manifest should be rewritten"),
    };
    assert_eq!(
        writer.content,
        ManifestContentType::Deletes,
        "a rewritten delete manifest must stay a Deletes manifest"
    );
    let paths: Vec<&str> = writer
        .entries
        .iter()
        .map(|entry| entry.data_file.file_path())
        .collect();
    assert_eq!(paths, vec![RETAINED_DELETE_FILE]);

    let retained = &writer.entries[0];
    assert_eq!(retained.status, ManifestStatus::Existing);
    assert_eq!(retained.snapshot_id, Some(PARENT_SNAPSHOT_ID));
    assert_eq!(retained.sequence_number, Some(PARENT_SEQUENCE_NUMBER));
    assert_eq!(retained.file_sequence_number, Some(PARENT_SEQUENCE_NUMBER));
}

#[test]
fn test_overwrite_only_marks_removed_delete_files() {
    assert_only_removed_delete_files_marked::<Overwrite>();
}

#[test]
fn test_rewrite_only_marks_removed_delete_files() {
    assert_only_removed_delete_files_marked::<Rewrite>();
}

#[test]
fn test_overwrite_preserves_delete_manifest_content_type() {
    assert_delete_manifest_carried_forward_intact::<Overwrite>();
}

#[test]
fn test_rewrite_preserves_delete_manifest_content_type() {
    assert_delete_manifest_carried_forward_intact::<Rewrite>();
}

#[test]
fn marked_entries_keep_their_numbers() {
    let table = make_v2_table_with_delete_manifest();
    let changes = Changes::removing_delete_file(REMOVED_DELETE_FILE);
    let marked = ReplaceFilesOperation::<Rewrite>::new()
        .delete_entries(&changes.producer(), table.current_manifests());
    assert_eq!(marked.len(), 1);
    assert_eq!(marked[0].status, ManifestStatus::Deleted);
    assert_eq!(marked[0].snapshot_id, Some(PARENT_SNAPSHOT_ID));
    assert_eq!(marked[0].sequence_number, Some(PARENT_SEQUENCE_NUMBER));
    assert_eq!(marked[0].file_sequence_number, Some(PARENT_SEQUENCE_NUMBER));
    assert_eq!(marked[0].data_file.content, DataContentType::PositionDeletes);
}

#[test]
fn data_files_and_delete_files_are_looked_for_apart() {
    // A data file whose path is that of a removed delete file is not marked.
    let changes = Changes::removing_delete_file("same-path");
    let producer = changes.producer();
    let data = entry(file(DataContentType::Data, "same-path"), 1, 1);
    let delete = entry(equality_delete("same-path"), 1, 1);
    assert!(!producer.is_removed(&data));
    assert!(producer.is_named(&data));
    assert!(producer.is_removed(&delete));
    let manifests = vec![CurrentManifest {
        file: manifest_file("m.avro", ManifestContentType::Data, 2),
        entries: vec![data, delete],
    }];
    let marked = ReplaceFilesOperation::<Overwrite>::new().delete_entries(&producer, manifests);
    assert_eq!(marked.len(), 1);
    assert_eq!(marked[0].data_file.content, DataContentType::EqualityDeletes);
}

#[test]
fn manifests_without_removed_files_are_kept() {
    let changes = Changes::removing("gone.parquet");
    let producer = changes.producer();
    let kept = ReplaceFilesOperation::<Rewrite>::new().existing_manifest(
        &producer,
        vec![
            CurrentManifest {
                file: manifest_file("m1.avro", ManifestContentType::Data, 1),
                entries: vec![entry(file(DataContentType::Data, "a.parquet"), 1, 1)],
            },
            CurrentManifest {
                file: manifest_file("m2.avro", ManifestContentType::Data, 0),
                entries: vec![],
            },
        ],
    );
    let paths: Vec<&str> = kept
        .iter()
        .map(|m| match m {
            ExistingManifest::Kept(file) => file.manifest_path.as_str(),
            ExistingManifest::Rewritten(_) => panic!("nothing was removed"),
        })
        .collect();
    assert_eq!(paths, vec!["m1.avro", "m2.avro"]);
}

#[test]
fn manifest_without_survivors_is_dropped() {
    let changes = Changes::removing("gone.parquet");
    let mut dead = entry(file(DataContentType::Data, "dead.parquet"), 1, 1);
    dead.status = ManifestStatus::Deleted;
    let existing = ReplaceFilesOperation::<Rewrite>::new().existing_manifest(
        &changes.producer(),
        vec![CurrentManifest {
            file: manifest_file("m1.avro", ManifestContentType::Data, 1),
            entries: vec![
                entry(file(DataContentType::Data, "gone.parquet"), 1, 1),
                dead,
            ],
        }],
    );
    assert!(existing.is_empty());
}

#[test]
fn every_live_file_is_carried_forward_or_marked() {
    let changes = Changes::removing("b.parquet");
    let producer = changes.producer();
    let manifests = || {
        vec![CurrentManifest {
            file: manifest_file("m1.avro", ManifestContentType::Data, 3),
            entries: vec![
                entry(file(DataContentType::Data, "a.parquet"), 7, 5),
                entry(file(DataContentType::Data, "b.parquet"), 7, 5),
                entry(file(DataContentType::Data, "c.parquet"), 8, 6),
            ],
        }]
    };
    let operation = ReplaceFilesOperation::<Overwrite>::new();
    let marked = operation.delete_entries(&producer, manifests());
    let existing = operation.existing_manifest(&producer, manifests());
    assert_eq!(marked.len(), 1);
    assert_eq!(marked[0].data_file.file_path(), "b.parquet");
    match &existing[0] {
        ExistingManifest::Rewritten(writer) => {
            assert_eq!(writer.partition_spec_id, 0);
            assert_eq!(writer.content, ManifestContentType::Data);
            let carried: Vec<(&str, Option<i64>)> = writer
                .entries
                .iter()
                .map(|e| (e.data_file.file_path(), e.sequence_number))
                .collect();
            assert_eq!(
                carried,
                vec![("a.parquet", Some(5)), ("c.parquet", Some(6))]
            );
        }
        ExistingManifest::Kept(_) => panic!("the manifest lists a removed file"),
    }
}

#[test]
fn branch_without_snapshot_has_nothing_to_delete_or_keep() {
    let changes = Changes::removing("a.parquet");
    let operation = ReplaceFilesOperation::<Rewrite>::new();
    assert!(operation.delete_entries(&changes.producer(), vec![]).is_empty());
    assert!(operation.existing_manifest(&changes.producer(), vec![]).is_empty());
}

#[test]
fn deletes_of_the_starting_snapshot_are_no_conflicts() {
    let mut table = make_table_with_deletion_vector_added_after_parent(REWRITTEN_DATA_FILE);
    let changes = Changes::removing(REWRITTEN_DATA_FILE);
    table.manifests[0].1[0].sequence_number = Some(PARENT_SEQUENCE_NUMBER);
    assert!(validate(&changes.producer_at_parent(), &table, PARENT_SNAPSHOT_ID).is_ok());
    // One that does not tell its sequence number counts as new.
    table.manifests[0].1[0].sequence_number = None;
    assert!(validate(&changes.producer_at_parent(), &table, PARENT_SNAPSHOT_ID).is_err());
    // A deletion vector that was removed again applies to nothing.
    table.manifests[0].1[0].status = ManifestStatus::Deleted;
    assert!(validate(&changes.producer_at_parent(), &table, PARENT_SNAPSHOT_ID).is_ok());
}

#[test]
fn unattributable_deletes_matter_only_where_data_files_are_removed() {
    let delete_file =
        position_delete_with_path_bounds("test/d.parquet", "test/aaa.parquet", "test/zzz.parquet");
    let table = make_table_with_delete_added_after_parent(
        make_v2_table_with_delete_manifest(),
        delete_file,
    );
    let changes = Changes::removing_delete_file(REMOVED_DELETE_FILE);
    assert!(validate(&changes.producer_at_parent(), &table, PARENT_SNAPSHOT_ID).is_ok());
}

#[test]
fn validation_messages_are_exact() {
    let table = make_table_with_deletion_vector_added_after_parent(REWRITTEN_DATA_FILE);
    let changes = Changes::removing(REWRITTEN_DATA_FILE);
    assert_eq!(
        validate(&changes.producer_at_parent(), &table, PARENT_SNAPSHOT_ID),
        Err(format!(
            "Cannot commit: delete file {NEW_DELETION_VECTOR} was added concurrently for removed \
             data file {REWRITTEN_DATA_FILE}"
        ))
    );
    assert_eq!(
        validate(&changes.producer(), &table, PARENT_SNAPSHOT_ID),
        Err(
            "Cannot validate deletes: new data files must keep the sequence number 1 of snapshot 42"
                .to_string()
        )
    );
    assert_eq!(
        validate(&changes.producer(), &table, i64::MIN),
        Err(
            "Cannot validate deletes: snapshot -9223372036854775808 is not an ancestor of the \
             current snapshot"
                .to_string()
        )
    );
}

#[test]
fn history_follows_parents() {
    let snapshot = |snapshot_id: i64, parent_snapshot_id: Option<i64>| Snapshot {
        snapshot_id,
        parent_snapshot_id,
        sequence_number: snapshot_id,
    };
    let metadata = TableMetadata {
        partition_spec_ids: vec![0],
        properties: Properties::new(),
        snapshots: vec![
            snapshot(1, None),
            snapshot(2, Some(1)),
            snapshot(3, Some(2)),
            snapshot(4, Some(1)),
            // A broken history that goes round in circles.
            snapshot(5, Some(6)),
            snapshot(6, Some(5)),
        ],
    };
    assert!(metadata.has_in_history(Some(3), 1));
    assert!(metadata.has_in_history(Some(3), 3));
    assert!(!metadata.has_in_history(Some(3), 4));
    assert!(!metadata.has_in_history(None, 1));
    assert!(!metadata.has_in_history(Some(99), 99));
    assert!(metadata.has_in_history(Some(5), 6));
    assert!(!metadata.has_in_history(Some(5), 1));
}

#[test]
fn files_are_sorted_by_content() {
    let action: RewriteFilesAction = ReplaceFilesAction::new()
        .add_data_files(vec![
            file(DataContentType::Data, "d1"),
            position_delete_file("p1"),
            file(DataContentType::Data, "d2"),
            equality_delete("e1"),
        ])
        .add_data_files(vec![file(DataContentType::Data, "d3")])
        .delete_files(vec![
            equality_delete("e2"),
            file(DataContentType::Data, "d4"),
        ]);
    let paths = |files: &Vec<DataFile>| -> Vec<String> {
        files.iter().map(|f| f.file_path.clone()).collect()
    };
    assert_eq!(paths(&action.added_data_files), vec!["d1", "d2", "d3"]);
    assert_eq!(paths(&action.added_delete_files), vec!["p1", "e1"]);
    assert_eq!(paths(&action.removed_data_files), vec!["d4"]);
    assert_eq!(paths(&action.removed_delete_files), vec!["e2"]);
}

fn properties(pairs: &[(&str, &str)]) -> Properties {
    let mut properties = Properties::new();
    for (key, value) in pairs {
        properties.insert(key.to_string(), value.to_string());
    }
    properties
}

#[test]
fn merge_settings_come_from_the_snapshot_properties() {
    let mut action: OverwriteFilesAction = ReplaceFilesAction::default();
    assert_eq!(action.target_size_bytes, 8 * 1024 * 1024);
    assert_eq!(action.min_count_to_merge, 100);
    assert!(!action.merge_enabled);

    action.set_snapshot_properties(properties(&[
        (MANIFEST_TARGET_SIZE_BYTES, "1024"),
        (MANIFEST_MIN_MERGE_COUNT, "+7"),
        (MANIFEST_MERGE_ENABLED, "true"),
    ]));
    assert_eq!(action.target_size_bytes, 1024);
    assert_eq!(action.min_count_to_merge, 7);
    assert!(action.merge_enabled);
    assert_eq!(
        action
            .snapshot_properties
            .get(&MANIFEST_TARGET_SIZE_BYTES.to_string()),
        Some(&"1024".to_string())
    );

    // What is no number, or too large, or no truth value, leaves the default.
    action.set_snapshot_properties(properties(&[
        (MANIFEST_TARGET_SIZE_BYTES, "4294967296"),
        (MANIFEST_MIN_MERGE_COUNT, "many"),
        (MANIFEST_MERGE_ENABLED, "True"),
    ]));
    assert_eq!(action.target_size_bytes, 8 * 1024 * 1024);
    assert_eq!(action.min_count_to_merge, 100);
    assert!(!action.merge_enabled);
}

#[test]
fn commit_steps_follow_the_settings() {
    let action: RewriteFilesAction = ReplaceFilesAction::new();
    assert_eq!(
        action.commit_steps(),
        vec![CommitStep::Commit {
            operation: Operation::Replace,
            process: ManifestProcess::Default,
        }]
    );

    let mut action: OverwriteFilesAction = ReplaceFilesAction::new()
        .set_check_file_existence(true)
        .validate_from_snapshot_id(PARENT_SNAPSHOT_ID);
    action.set_snapshot_properties(properties(&[
        (MANIFEST_TARGET_SIZE_BYTES, "1024"),
        (MANIFEST_MERGE_ENABLED, "true"),
    ]));
    assert_eq!(
        action.commit_steps(),
        vec![
            CommitStep::ValidateDataFileChanges,
            CommitStep::ValidateNoNewDeletes {
                starting_snapshot_id: PARENT_SNAPSHOT_ID,
            },
            CommitStep::Commit {
                operation: Operation::Overwrite,
                process: ManifestProcess::Merge {
                    target_size_bytes: 1024,
                    min_count_to_merge: 100,
                },
            },
        ]
    );
}

#[test]
fn producer_is_set_up_as_the_action_says() {
    let uuid = Uuid::from_u128(5);
    let mut action: RewriteFilesAction = ReplaceFilesAction::new()
        .add_data_files(vec![file(DataContentType::Data, "new")])
        .delete_files(vec![file(DataContentType::Data, "old")])
        .set_key_metadata(vec![1, 2, 3])
        .set_snapshot_id(77)
        .set_enable_delete_filter_manager(true)
        .set_target_branch("audit".to_string())
        .set_new_data_file_sequence_number(9);
    action.set_commit_uuid(uuid);
    let producer = action.snapshot_producer();
    assert_eq!(producer.commit_uuid, uuid);
    assert_eq!(producer.key_metadata, &Some(vec![1, 2, 3]));
    assert_eq!(producer.snapshot_id, Some(77));
    assert_eq!(producer.new_data_file_sequence_number, Some(9));
    assert_eq!(producer.target_branch, Some("audit".to_string()));
    assert!(producer.delete_filter_manager_enabled);
    assert_eq!(producer.added_data_files.len(), 1);
    assert!(producer.removed_data_file_paths.contains("old"));
    assert!(!producer.removed_data_file_paths.contains("new"));
}

#[test]
fn commit_uuid_is_fresh_where_none_was_set() {
    let action: RewriteFilesAction = ReplaceFilesAction::new();
    let first = action.snapshot_producer().commit_uuid;
    let second = action.snapshot_producer().commit_uuid;
    assert_eq!(first.get_version_num(), 7);
    assert_eq!(second.get_version_num(), 7);
    assert_ne!(first, second);
    let given = Uuid::from_u128(11);
    assert_eq!(action.snapshot_producer_under(given).commit_uuid, given);
}

#[test]
fn delete_manifests_are_picked_in_their_order() {
    let picked = delete_manifests(vec![
        manifest_file("d2.avro", ManifestContentType::Deletes, 1),
        manifest_file("m1.avro", ManifestContentType::Data, 1),
        manifest_file("d1.avro", ManifestContentType::Deletes, 1),
    ]);
    let paths: Vec<&str> = picked.iter().map(|m| m.manifest_path.as_str()).collect();
    assert_eq!(paths, vec!["d2.avro", "d1.avro"]);
    assert!(delete_manifests(vec![manifest_file("m1.avro", ManifestContentType::Data, 1)]).is_empty());
}
