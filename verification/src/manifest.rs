//! Data files, manifest entries, manifests and the writers that fill them.

use vstd::prelude::*;

verus! {

/// The operation that a snapshot records.
#[derive(Debug, Clone, Copy, PartialEq, Eq, Structural)]
pub enum Operation {
    /// Files were added only.
    Append,
    /// Files were added and removed without changing table data.
    Replace,
    /// Files were added and removed in a logical overwrite.
    Overwrite,
    /// Files were removed only.
    Delete,
}

/// Whether a manifest lists data files or delete files.
#[derive(Debug, Clone, Copy, PartialEq, Eq, Structural)]
pub enum ManifestContentType {
    Data,
    Deletes,
}

/// What a file holds.
#[derive(Debug, Clone, Copy, PartialEq, Eq, Structural)]
pub enum DataContentType {
    Data,
    PositionDeletes,
    EqualityDeletes,
}

/// The format of a file.
#[derive(Debug, Clone, Copy, PartialEq, Eq, Structural)]
pub enum DataFileFormat {
    Avro,
    Orc,
    Parquet,
    Puffin,
}

/// How a manifest entry relates its file to the snapshot that wrote the entry.
#[derive(Debug, Clone, Copy, PartialEq, Eq, Structural)]
pub enum ManifestStatus {
    Existing,
    Added,
    Deleted,
}

/// A data file or a delete file, as a manifest entry describes it.
///
/// Partition values and column bounds are in their single-value binary form;
/// column metrics are pairs of a field id and a value.
#[derive(Debug, Clone)]
pub struct DataFile {
    pub content: DataContentType,
    pub file_path: String,
    pub file_format: DataFileFormat,
    pub partition: Vec<Option<Vec<u8>>>,
    pub partition_spec_id: i32,
    pub record_count: u64,
    pub file_size_in_bytes: u64,
    pub column_sizes: Vec<(i32, u64)>,
    pub value_counts: Vec<(i32, u64)>,
    pub null_value_counts: Vec<(i32, u64)>,
    pub nan_value_counts: Vec<(i32, u64)>,
    pub lower_bounds: Vec<(i32, Vec<u8>)>,
    pub upper_bounds: Vec<(i32, Vec<u8>)>,
    pub key_metadata: Option<Vec<u8>>,
    pub split_offsets: Option<Vec<i64>>,
    pub equality_ids: Option<Vec<i32>>,
    pub sort_order_id: Option<i32>,
    pub first_row_id: Option<i64>,
    pub referenced_data_file: Option<String>,
    pub content_offset: Option<i64>,
    pub content_size_in_bytes: Option<i64>,
}

impl DataFile {
    /// What the file holds.
    pub fn content_type(&self) -> (content: DataContentType)
        ensures
            content == self.content,
    {
        self.content
    }

    /// Where the file is.
    pub fn file_path(&self) -> (path: &str)
        ensures
            path@ == self.file_path@,
    {
        self.file_path.as_str()
    }
}

/// One file in a manifest, with the snapshot and the sequence numbers that it
/// belongs to.
#[derive(Debug, Clone)]
pub struct ManifestEntry {
    pub status: ManifestStatus,
    pub snapshot_id: Option<i64>,
    pub sequence_number: Option<i64>,
    pub file_sequence_number: Option<i64>,
    pub data_file: DataFile,
}

impl ManifestEntry {
    /// Whether the entry's file is part of the table.
    pub open spec fn alive(self) -> bool {
        self.status != ManifestStatus::Deleted
    }

    /// Whether the entry's file is part of the table.
    pub fn is_alive(&self) -> (alive: bool)
        ensures
            alive == self.alive(),
            alive == (self.status == ManifestStatus::Added || self.status
                == ManifestStatus::Existing),
    {
        match self.status {
            ManifestStatus::Deleted => false,
            _ => true,
        }
    }

    /// What the entry's file holds.
    pub fn content_type(&self) -> (content: DataContentType)
        ensures
            content == self.data_file.content,
    {
        self.data_file.content
    }

    /// The entry as a later manifest carries it forward: the same file under the
    /// same snapshot and sequence numbers, marked as existing.
    pub open spec fn carried(self) -> ManifestEntry {
        ManifestEntry { status: ManifestStatus::Existing, ..self }
    }

    /// The entry as a later manifest records the removal of its file: the same file
    /// under the same snapshot and sequence numbers, marked as deleted.
    pub open spec fn deleted(self) -> ManifestEntry {
        ManifestEntry { status: ManifestStatus::Deleted, ..self }
    }

    /// Whether the entry tells its snapshot and both its sequence numbers.
    pub open spec fn numbered(self) -> bool {
        &&& self.snapshot_id is Some
        &&& self.sequence_number is Some
        &&& self.file_sequence_number is Some
    }

    /// Whether the entry tells its snapshot and both its sequence numbers.
    pub fn is_numbered(&self) -> (numbered: bool)
        ensures
            numbered == self.numbered(),
            numbered == (self.snapshot_id is Some && self.sequence_number is Some
                && self.file_sequence_number is Some),
    {
        self.snapshot_id.is_some() && self.sequence_number.is_some()
            && self.file_sequence_number.is_some()
    }
}

/// The bounds of one partition field over the files of a manifest.
#[derive(Debug)]
pub struct FieldSummary {
    pub contains_null: bool,
    pub contains_nan: Option<bool>,
    pub lower_bound: Option<Vec<u8>>,
    pub upper_bound: Option<Vec<u8>>,
}

/// The contents of a `FieldSummary`.
pub struct FieldSummaryView {
    pub contains_null: bool,
    pub contains_nan: Option<bool>,
    pub lower_bound: Option<Seq<u8>>,
    pub upper_bound: Option<Seq<u8>>,
}

/// The contents of optional bytes.
pub open spec fn bytes_view(bytes: Option<Vec<u8>>) -> Option<Seq<u8>> {
    match bytes {
        Some(b) => Some(b@),
        None => None,
    }
}

/// Copies optional bytes.
pub fn clone_bytes(bytes: &Option<Vec<u8>>) -> (copy: Option<Vec<u8>>)
    ensures
        bytes_view(copy) == bytes_view(*bytes),
{
    match bytes {
        Some(b) => {
            let copy = b.clone();
            assert(copy@ =~= b@);
            Some(copy)
        },
        None => None,
    }
}

impl View for FieldSummary {
    type V = FieldSummaryView;

    open spec fn view(&self) -> FieldSummaryView {
        FieldSummaryView {
            contains_null: self.contains_null,
            contains_nan: self.contains_nan,
            lower_bound: bytes_view(self.lower_bound),
            upper_bound: bytes_view(self.upper_bound),
        }
    }
}

impl Clone for FieldSummary {
    fn clone(&self) -> (copy: Self)
        ensures
            copy@ == self@,
    {
        FieldSummary {
            contains_null: self.contains_null,
            contains_nan: self.contains_nan,
            lower_bound: clone_bytes(&self.lower_bound),
            upper_bound: clone_bytes(&self.upper_bound),
        }
    }
}

/// The contents of the optional partition summaries.
pub open spec fn summaries_view(partitions: Option<Vec<FieldSummary>>) -> Option<
    Seq<FieldSummaryView>,
> {
    match partitions {
        Some(p) => Some(p@.map_values(|s: FieldSummary| s@)),
        None => None,
    }
}

fn clone_summaries(partitions: &Option<Vec<FieldSummary>>) -> (copy: Option<Vec<FieldSummary>>)
    ensures
        summaries_view(copy) == summaries_view(*partitions),
{
    match partitions {
        Some(p) => {
            let mut copy: Vec<FieldSummary> = Vec::new();
            let mut i: usize = 0;
            while i < p.len()
                invariant
                    i <= p.len(),
                    copy@.len() == i,
                    forall|j: int| 0 <= j < i ==> (#[trigger] copy@[j])@ == p@[j]@,
                decreases p.len() - i,
            {
                copy.push(p[i].clone());
                i = i + 1;
            }
            assert(copy@.map_values(|s: FieldSummary| s@) =~= p@.map_values(
                |s: FieldSummary| s@,
            ));
            Some(copy)
        },
        None => None,
    }
}

/// A manifest, as a manifest list describes it.
///
/// An unknown file count (`None`) stands for "assumed to be non-zero".
#[derive(Debug)]
pub struct ManifestFile {
    pub manifest_path: String,
    pub manifest_length: i64,
    pub partition_spec_id: i32,
    pub content: ManifestContentType,
    pub sequence_number: i64,
    pub min_sequence_number: i64,
    pub added_snapshot_id: i64,
    pub added_files_count: Option<u32>,
    pub existing_files_count: Option<u32>,
    pub deleted_files_count: Option<u32>,
    pub added_rows_count: Option<u64>,
    pub existing_rows_count: Option<u64>,
    pub deleted_rows_count: Option<u64>,
    pub partitions: Option<Vec<FieldSummary>>,
    pub key_metadata: Option<Vec<u8>>,
    pub first_row_id: Option<u64>,
}

/// The contents of a `ManifestFile`.
pub struct ManifestFileView {
    pub manifest_path: Seq<char>,
    pub manifest_length: i64,
    pub partition_spec_id: i32,
    pub content: ManifestContentType,
    pub sequence_number: i64,
    pub min_sequence_number: i64,
    pub added_snapshot_id: i64,
    pub added_files_count: Option<u32>,
    pub existing_files_count: Option<u32>,
    pub deleted_files_count: Option<u32>,
    pub added_rows_count: Option<u64>,
    pub existing_rows_count: Option<u64>,
    pub deleted_rows_count: Option<u64>,
    pub partitions: Option<Seq<FieldSummaryView>>,
    pub key_metadata: Option<Seq<u8>>,
    pub first_row_id: Option<u64>,
}

impl View for ManifestFile {
    type V = ManifestFileView;

    open spec fn view(&self) -> ManifestFileView {
        ManifestFileView {
            manifest_path: self.manifest_path@,
            manifest_length: self.manifest_length,
            partition_spec_id: self.partition_spec_id,
            content: self.content,
            sequence_number: self.sequence_number,
            min_sequence_number: self.min_sequence_number,
            added_snapshot_id: self.added_snapshot_id,
            added_files_count: self.added_files_count,
            existing_files_count: self.existing_files_count,
            deleted_files_count: self.deleted_files_count,
            added_rows_count: self.added_rows_count,
            existing_rows_count: self.existing_rows_count,
            deleted_rows_count: self.deleted_rows_count,
            partitions: summaries_view(self.partitions),
            key_metadata: bytes_view(self.key_metadata),
            first_row_id: self.first_row_id,
        }
    }
}

impl Clone for ManifestFile {
    fn clone(&self) -> (copy: Self)
        ensures
            copy@ == self@,
    {
        ManifestFile {
            manifest_path: self.manifest_path.clone(),
            manifest_length: self.manifest_length,
            partition_spec_id: self.partition_spec_id,
            content: self.content,
            sequence_number: self.sequence_number,
            min_sequence_number: self.min_sequence_number,
            added_snapshot_id: self.added_snapshot_id,
            added_files_count: self.added_files_count,
            existing_files_count: self.existing_files_count,
            deleted_files_count: self.deleted_files_count,
            added_rows_count: self.added_rows_count,
            existing_rows_count: self.existing_rows_count,
            deleted_rows_count: self.deleted_rows_count,
            partitions: clone_summaries(&self.partitions),
            key_metadata: clone_bytes(&self.key_metadata),
            first_row_id: self.first_row_id,
        }
    }
}

impl ManifestFileView {
    /// Whether the manifest may list added files: an unknown count counts as some.
    pub open spec fn may_have_added_files(self) -> bool {
        self.added_files_count != Some(0u32)
    }

    /// Whether the manifest may list deleted files: an unknown count counts as some.
    pub open spec fn may_have_deleted_files(self) -> bool {
        self.deleted_files_count != Some(0u32)
    }

    /// The number of added and existing files, where both counts are known.
    pub open spec fn active_files(self) -> Option<nat> {
        match (self.added_files_count, self.existing_files_count) {
            (Some(added), Some(existing)) => Some((added + existing) as nat),
            _ => None,
        }
    }
}

impl ManifestFile {
    /// Whether the manifest may list added files: an unknown count counts as some.
    pub fn has_added_files(&self) -> (has: bool)
        ensures
            has == self@.may_have_added_files(),
            has == (self.added_files_count != Some(0u32)),
    {
        match self.added_files_count {
            Some(count) => count > 0,
            None => true,
        }
    }

    /// Whether the manifest may list deleted files: an unknown count counts as some.
    pub fn has_deleted_files(&self) -> (has: bool)
        ensures
            has == self@.may_have_deleted_files(),
            has == (self.deleted_files_count != Some(0u32)),
    {
        match self.deleted_files_count {
            Some(count) => count > 0,
            None => true,
        }
    }
}

/// The contents of a list of manifests.
pub open spec fn manifests_view(manifests: Seq<ManifestFile>) -> Seq<ManifestFileView> {
    manifests.map_values(|m: ManifestFile| m@)
}

/// The contents of a list that grew by one manifest.
pub proof fn lemma_manifests_view_push(manifests: Seq<ManifestFile>, manifest: ManifestFile)
    ensures
        manifests_view(manifests.push(manifest)) == manifests_view(manifests).push(manifest@),
{
    assert(manifests_view(manifests.push(manifest)) =~= manifests_view(manifests).push(manifest@));
}

/// Copies a list of manifests.
pub fn clone_manifests(manifests: &Vec<ManifestFile>) -> (copy: Vec<ManifestFile>)
    ensures
        manifests_view(copy@) == manifests_view(manifests@),
{
    let mut copy: Vec<ManifestFile> = Vec::new();
    let mut i: usize = 0;
    while i < manifests.len()
        invariant
            i <= manifests.len(),
            copy@.len() == i,
            forall|j: int| 0 <= j < i ==> (#[trigger] copy@[j])@ == manifests@[j]@,
        decreases manifests.len() - i,
    {
        copy.push(manifests[i].clone());
        i = i + 1;
    }
    assert(manifests_view(copy@) =~= manifests_view(manifests@));
    copy
}

/// A manifest in the making: what it will hold once it is written.
#[derive(Debug)]
pub struct ManifestWriter {
    pub content: ManifestContentType,
    pub partition_spec_id: i32,
    pub entries: Vec<ManifestEntry>,
}

/// The contents of a `ManifestWriter`.
pub struct ManifestWriterView {
    pub content: ManifestContentType,
    pub partition_spec_id: i32,
    pub entries: Seq<ManifestEntry>,
}

impl View for ManifestWriter {
    type V = ManifestWriterView;

    open spec fn view(&self) -> ManifestWriterView {
        ManifestWriterView {
            content: self.content,
            partition_spec_id: self.partition_spec_id,
            entries: self.entries@,
        }
    }
}

impl ManifestWriter {
    /// A writer without entries.
    pub fn new(content: ManifestContentType, partition_spec_id: i32) -> (writer: Self)
        ensures
            writer.content == content,
            writer.partition_spec_id == partition_spec_id,
            writer.entries@ == Seq::<ManifestEntry>::empty(),
    {
        ManifestWriter { content, partition_spec_id, entries: Vec::new() }
    }

    /// Carries an entry of an earlier manifest forward, marked as existing.
    pub fn add_existing_entry(&mut self, entry: ManifestEntry)
        ensures
            final(self).content == old(self).content,
            final(self).partition_spec_id == old(self).partition_spec_id,
            final(self).entries@ == old(self).entries@.push(entry.carried()),
            final(self).entries@ == old(self).entries@.push(
                (ManifestEntry { status: ManifestStatus::Existing, ..entry }),
            ),
    {
        self.entries.push(ManifestEntry { status: ManifestStatus::Existing, ..entry });
    }
}

} // verus!
