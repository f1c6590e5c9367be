//! Replacing one set of files with another.

use std::marker::PhantomData;

use uuid::Uuid;
use vstd::prelude::*;

use crate::manifest::{
    DataContentType, DataFile, ManifestEntry, ManifestFile, ManifestFileView, ManifestStatus,
    ManifestWriter, ManifestWriterView, Operation,
};
use crate::properties::Properties;
use crate::snapshot::SnapshotProducer;
use crate::table::{
    MANIFEST_MERGE_ENABLED, MANIFEST_MERGE_ENABLED_DEFAULT, MANIFEST_MIN_MERGE_COUNT,
    MANIFEST_MIN_MERGE_COUNT_DEFAULT, MANIFEST_TARGET_SIZE_BYTES,
    MANIFEST_TARGET_SIZE_BYTES_DEFAULT,
};
use crate::{replace_laws, text};
use crate::text::{parse_bool, parse_unsigned};

verus! {

/// Seals `ReplaceFilesMode`: only the modes of this module have it.
trait Mode {

}

impl Mode for Rewrite {

}

impl Mode for Overwrite {

}

/// Which snapshot `Operation` a file replacement records.
///
/// Rewriting files and overwriting files differ only in this value. No other type can
/// stand for the mode.
#[allow(private_bounds)]
pub trait ReplaceFilesMode: Mode + Send + Sync + 'static {
    const OPERATION: Operation;

    /// The operation, as contracts speak of it.
    spec fn recorded() -> Operation;

    /// The two are the same.
    proof fn lemma_recorded()
        ensures
            Self::OPERATION == Self::recorded(),
    ;
}

/// Files were added and removed without changing table data (compaction,
/// changing file format, relocating files).
pub struct Rewrite;

/// Files were added and removed in a logical overwrite.
pub struct Overwrite;

impl ReplaceFilesMode for Rewrite {
    const OPERATION: Operation = Operation::Replace;

    open spec fn recorded() -> Operation {
        Operation::Replace
    }

    proof fn lemma_recorded() {
    }
}

impl ReplaceFilesMode for Overwrite {
    const OPERATION: Operation = Operation::Overwrite;

    open spec fn recorded() -> Operation {
        Operation::Overwrite
    }

    proof fn lemma_recorded() {
    }
}

/// The snapshot operation of a replacement of files, for either mode.
pub struct ReplaceFilesOperation<M: ReplaceFilesMode>(pub PhantomData<M>);

/// A manifest of the current snapshot with the entries that were loaded from it.
pub struct CurrentManifest {
    pub file: ManifestFile,
    pub entries: Vec<ManifestEntry>,
}

/// What the new snapshot has in place of a manifest of the current one.
pub enum ExistingManifest {
    /// The manifest as it is.
    Kept(ManifestFile),
    /// A manifest that is still to be written.
    Rewritten(ManifestWriter),
}

/// The contents of an `ExistingManifest`.
pub enum ExistingManifestView {
    Kept(ManifestFileView),
    Rewritten(ManifestWriterView),
}

impl View for ExistingManifest {
    type V = ExistingManifestView;

    open spec fn view(&self) -> ExistingManifestView {
        match self {
            ExistingManifest::Kept(file) => ExistingManifestView::Kept(file@),
            ExistingManifest::Rewritten(writer) => ExistingManifestView::Rewritten(writer@),
        }
    }
}

/// The contents of a list of manifests.
pub open spec fn existing_view(manifests: Seq<ExistingManifest>) -> Seq<ExistingManifestView> {
    manifests.map_values(|m: ExistingManifest| m@)
}

/// The entries that record the removal of files, for the entries of one manifest.
pub open spec fn deletions(producer: SnapshotProducer, entries: Seq<ManifestEntry>) -> Seq<
    ManifestEntry,
> {
    entries.filter(|e: ManifestEntry| producer.removes(e)).map_values(
        |e: ManifestEntry| e.deleted(),
    )
}

/// The entries that record the removal of files, over all manifests.
pub open spec fn all_deletions(
    producer: SnapshotProducer,
    manifests: Seq<CurrentManifest>,
) -> Seq<ManifestEntry>
    decreases manifests.len(),
{
    if manifests.len() == 0 {
        Seq::empty()
    } else {
        all_deletions(producer, manifests.drop_last()) + deletions(
            producer,
            manifests.last().entries@,
        )
    }
}

/// Whether every entry that is to be removed tells its snapshot and its sequence
/// numbers.
pub open spec fn removed_are_numbered(
    producer: SnapshotProducer,
    entries: Seq<ManifestEntry>,
) -> bool {
    forall|i: int|
        0 <= i < entries.len() && producer.removes(#[trigger] entries[i]) ==> entries[i].numbered()
}

/// Whether one of the entries has the path of a removed file.
pub open spec fn touches(producer: SnapshotProducer, entries: Seq<ManifestEntry>) -> bool {
    exists|i: int| 0 <= i < entries.len() && producer.names(#[trigger] entries[i])
}

/// Whether an entry outlives the removal of files.
pub open spec fn survives(producer: SnapshotProducer, entry: ManifestEntry) -> bool {
    entry.alive() && !producer.names(entry)
}

/// The entries that outlive the removal of files, carried forward.
pub open spec fn survivors(producer: SnapshotProducer, entries: Seq<ManifestEntry>) -> Seq<
    ManifestEntry,
> {
    entries.filter(|e: ManifestEntry| survives(producer, e)).map_values(
        |e: ManifestEntry| e.carried(),
    )
}

/// What the new snapshot has in place of a manifest: the manifest itself where it
/// lists no removed file; else one with the survivors, of the same content type and
/// partition spec; and nothing where there are none.
pub open spec fn existing_of(
    producer: SnapshotProducer,
    manifest: CurrentManifest,
) -> Option<ExistingManifestView> {
    let kept = survivors(producer, manifest.entries@);
    if !touches(producer, manifest.entries@) {
        Some(ExistingManifestView::Kept(manifest.file@))
    } else if kept.len() > 0 {
        Some(
            ExistingManifestView::Rewritten(
                ManifestWriterView {
                    content: manifest.file.content,
                    partition_spec_id: manifest.file.partition_spec_id,
                    entries: kept,
                },
            ),
        )
    } else {
        None
    }
}

/// What the new snapshot has in place of the manifests of the current one.
pub open spec fn all_existing(
    producer: SnapshotProducer,
    manifests: Seq<CurrentManifest>,
) -> Seq<ExistingManifestView>
    decreases manifests.len(),
{
    if manifests.len() == 0 {
        Seq::empty()
    } else {
        let earlier = all_existing(producer, manifests.drop_last());
        match existing_of(producer, manifests.last()) {
            Some(manifest) => earlier.push(manifest),
            None => earlier,
        }
    }
}

/// Picks the entries whose files are removed, and marks them as deleted.
fn mark_deleted(producer: &SnapshotProducer<'_>, entries: Vec<ManifestEntry>) -> (marked: Vec<
    ManifestEntry,
>)
    requires
        producer.wf(),
        removed_are_numbered(*producer, entries@),
    ensures
        marked@ == deletions(*producer, entries@),
{
    let mut marked: Vec<ManifestEntry> = Vec::new();
    reveal(Seq::filter);
    for entry in it: entries
        invariant
            it.seq() == entries@,
            producer.wf(),
            removed_are_numbered(*producer, entries@),
            marked@ == deletions(*producer, entries@.take(it.index())),
    {
        proof {
            let shorter = entries@.take(it.index());
            let longer = entries@.take(it.index() + 1);
            assert(longer.drop_last() =~= shorter);
            assert(longer.last() == entry);
            reveal(Seq::filter);
            if producer.removes(entry) {
                assert(deletions(*producer, longer) =~= deletions(*producer, shorter).push(
                    entry.deleted(),
                ));
            }
        }
        if producer.is_removed(&entry) {
            marked.push(
                ManifestEntry {
                    status: ManifestStatus::Deleted,
                    snapshot_id: Some(entry.snapshot_id.unwrap()),
                    sequence_number: Some(entry.sequence_number.unwrap()),
                    file_sequence_number: Some(entry.file_sequence_number.unwrap()),
                    data_file: entry.data_file,
                },
            );
        }
    }
    assert(entries@.take(entries@.len() as int) =~= entries@);
    marked
}

/// Decides what the new snapshot has in place of a manifest.
fn carry_forward(producer: &SnapshotProducer<'_>, manifest: CurrentManifest) -> (existing: Option<
    ExistingManifest,
>)
    requires
        producer.wf(),
    ensures
        match existing {
            Some(e) => existing_of(*producer, manifest) == Some(e@),
            None => existing_of(*producer, manifest) is None,
        },
{
    let mut touched = false;
    let mut i: usize = 0;
    while i < manifest.entries.len()
        invariant
            i <= manifest.entries@.len(),
            producer.wf(),
            touched == touches(*producer, manifest.entries@.take(i as int)),
        decreases manifest.entries.len() - i,
    {
        let named = producer.is_named(&manifest.entries[i]);
        proof {
            let shorter = manifest.entries@.take(i as int);
            let longer = manifest.entries@.take(i + 1);
            assert(longer[i as int] == manifest.entries@[i as int]);
            assert(forall|j: int| 0 <= j < i ==> #[trigger] shorter[j] == longer[j]);
            if touches(*producer, longer) {
                let j = choose|j: int| 0 <= j < longer.len() && producer.names(#[trigger] longer[j]);
                assert(j < i ==> producer.names(shorter[j]));
            }
            if touches(*producer, shorter) {
                let j = choose|j: int|
                    0 <= j < shorter.len() && producer.names(#[trigger] shorter[j]);
                assert(producer.names(longer[j]));
            }
        }
        if named {
            touched = true;
        }
        i = i + 1;
    }
    assert(manifest.entries@.take(i as int) =~= manifest.entries@);
    if !touched {
        return Some(ExistingManifest::Kept(manifest.file));
    }
    let mut writer = ManifestWriter::new(manifest.file.content, manifest.file.partition_spec_id);
    let entries = manifest.entries;
    reveal(Seq::filter);
    for entry in it: entries
        invariant
            it.seq() == entries@,
            producer.wf(),
            writer.content == manifest.file.content,
            writer.partition_spec_id == manifest.file.partition_spec_id,
            writer.entries@ == survivors(*producer, entries@.take(it.index())),
    {
        proof {
            let shorter = entries@.take(it.index());
            let longer = entries@.take(it.index() + 1);
            assert(longer.drop_last() =~= shorter);
            assert(longer.last() == entry);
            reveal(Seq::filter);
            if survives(*producer, entry) {
                assert(survivors(*producer, longer) =~= survivors(*producer, shorter).push(
                    entry.carried(),
                ));
            }
        }
        if entry.is_alive() && !producer.is_named(&entry) {
            writer.add_existing_entry(entry);
        }
    }
    assert(entries@.take(entries@.len() as int) =~= entries@);
    if writer.entries.len() > 0 {
        Some(ExistingManifest::Rewritten(writer))
    } else {
        None
    }
}

impl<M: ReplaceFilesMode> ReplaceFilesOperation<M> {
    /// The operation of this mode.
    pub fn new() -> (operation: Self)
        ensures
            operation == ReplaceFilesOperation::<M>(PhantomData),
    {
        ReplaceFilesOperation(PhantomData)
    }

    /// The operation that the snapshot records.
    pub fn operation(&self) -> (operation: Operation)
        ensures
            operation == M::recorded(),
    {
        proof {
            M::lemma_recorded();
        }
        M::OPERATION
    }

    /// The entries that the snapshot marks as deleted: those of the removed files, in
    /// the manifests of the branch's current snapshot. Where the branch has no
    /// snapshot, there are no manifests.
    pub fn delete_entries(
        &self,
        producer: &SnapshotProducer<'_>,
        manifests: Vec<CurrentManifest>,
    ) -> (entries: Vec<ManifestEntry>)
        requires
            producer.wf(),
            forall|i: int|
                0 <= i < manifests@.len() ==> removed_are_numbered(
                    *producer,
                    (#[trigger] manifests@[i]).entries@,
                ),
        ensures
            entries@ == all_deletions(*producer, manifests@),
    {
        let mut deleted_entries: Vec<ManifestEntry> = Vec::new();
        for manifest in it: manifests
            invariant
                it.seq() == manifests@,
                producer.wf(),
                forall|i: int|
                    0 <= i < manifests@.len() ==> removed_are_numbered(
                        *producer,
                        (#[trigger] manifests@[i]).entries@,
                    ),
                deleted_entries@ == all_deletions(*producer, manifests@.take(it.index())),
        {
            proof {
                let shorter = manifests@.take(it.index());
                let longer = manifests@.take(it.index() + 1);
                assert(longer.drop_last() =~= shorter);
                assert(longer.last() == manifest);
                assert(manifests@[it.index()] == manifest);
            }
            let mut marked = mark_deleted(producer, manifest.entries);
            deleted_entries.append(&mut marked);
        }
        assert(manifests@.take(manifests@.len() as int) =~= manifests@);
        deleted_entries
    }

    /// What the snapshot has in place of the manifests of the branch's current
    /// snapshot. Where the branch has none, there are no manifests.
    ///
    /// A manifest that lists a removed file is rewritten without it. Survivors are
    /// carried forward as existing: they keep their snapshot and their sequence
    /// numbers.
    pub fn existing_manifest(
        &self,
        producer: &SnapshotProducer<'_>,
        manifests: Vec<CurrentManifest>,
    ) -> (existing: Vec<ExistingManifest>)
        requires
            producer.wf(),
        ensures
            existing_view(existing@) == all_existing(*producer, manifests@),
            forall|i: int, k: int|
                #![trigger manifests@[i].entries@[k]]
                {
                    &&& 0 <= i < manifests@.len()
                    &&& 0 <= k < manifests@[i].entries@.len()
                    &&& manifests@[i].entries@[k].status != ManifestStatus::Deleted
                    &&& forall|x: int|
                        0 <= x < producer.removed_data_files@.len() ==> (
                        #[trigger] producer.removed_data_files@[x]).file_path@
                            != manifests@[i].entries@[k].data_file.file_path@
                    &&& forall|x: int|
                        0 <= x < producer.removed_delete_files@.len() ==> (
                        #[trigger] producer.removed_delete_files@[x]).file_path@
                            != manifests@[i].entries@[k].data_file.file_path@
                } ==> exists|j: int|
                    0 <= j < existing@.len() && match #[trigger] existing@[j] {
                        ExistingManifest::Kept(file) => file@ == manifests@[i].file@,
                        ExistingManifest::Rewritten(writer) => writer.entries@.contains(
                            (ManifestEntry {
                                status: ManifestStatus::Existing,
                                ..manifests@[i].entries@[k]
                            }),
                        ),
                    },
    {
        let mut existing: Vec<ExistingManifest> = Vec::new();
        assert(existing_view(existing@) =~= Seq::<ExistingManifestView>::empty());
        for manifest in it: manifests
            invariant
                it.seq() == manifests@,
                producer.wf(),
                existing_view(existing@) == all_existing(*producer, manifests@.take(it.index())),
        {
            let ghost before = existing@;
            proof {
                let shorter = manifests@.take(it.index());
                let longer = manifests@.take(it.index() + 1);
                assert(longer.drop_last() =~= shorter);
                assert(longer.last() == manifest);
            }
            if let Some(e) = carry_forward(producer, manifest) {
                existing.push(e);
                assert(existing_view(existing@) =~= existing_view(before).push(e@));
            }
        }
        assert(manifests@.take(manifests@.len() as int) =~= manifests@);
        proof {
            assert forall|i: int, k: int|
                #![trigger manifests@[i].entries@[k]]
                {
                    &&& 0 <= i < manifests@.len()
                    &&& 0 <= k < manifests@[i].entries@.len()
                    &&& manifests@[i].entries@[k].status != ManifestStatus::Deleted
                    &&& forall|x: int|
                        0 <= x < producer.removed_data_files@.len() ==> (
                        #[trigger] producer.removed_data_files@[x]).file_path@
                            != manifests@[i].entries@[k].data_file.file_path@
                    &&& forall|x: int|
                        0 <= x < producer.removed_delete_files@.len() ==> (
                        #[trigger] producer.removed_delete_files@[x]).file_path@
                            != manifests@[i].entries@[k].data_file.file_path@
                } implies exists|j: int|
                0 <= j < existing@.len() && match #[trigger] existing@[j] {
                    ExistingManifest::Kept(file) => file@ == manifests@[i].file@,
                    ExistingManifest::Rewritten(writer) => writer.entries@.contains(
                        ManifestEntry {
                            status: ManifestStatus::Existing,
                            ..manifests@[i].entries@[k]
                        },
                    ),
                } by {
                replace_laws::law_live_files_without_removed_paths_stay(
                    *producer,
                    manifests@,
                    i,
                    k,
                );
                let views = all_existing(*producer, manifests@);
                let entry = manifests@[i].entries@[k];
                let j = choose|j: int|
                    0 <= j < views.len() && match #[trigger] views[j] {
                        ExistingManifestView::Kept(kept) => kept == manifests@[i].file@,
                        ExistingManifestView::Rewritten(w) => {
                            &&& w.content == manifests@[i].file.content
                            &&& w.partition_spec_id == manifests@[i].file.partition_spec_id
                            &&& w.entries.contains(
                                ManifestEntry { status: ManifestStatus::Existing, ..entry },
                            )
                        },
                    };
                assert(existing_view(existing@)[j] == existing@[j]@);
            }
        }
        existing
    }
}

/// Transaction action that replaces one set of files with another.
pub struct ReplaceFilesAction<M: ReplaceFilesMode> {
    pub target_size_bytes: u32,
    pub min_count_to_merge: u32,
    pub merge_enabled: bool,
    pub commit_uuid: Option<Uuid>,
    pub key_metadata: Option<Vec<u8>>,
    pub snapshot_properties: Properties,
    pub added_data_files: Vec<DataFile>,
    pub added_delete_files: Vec<DataFile>,
    pub removed_data_files: Vec<DataFile>,
    pub removed_delete_files: Vec<DataFile>,
    pub snapshot_id: Option<i64>,
    pub new_data_file_sequence_number: Option<i64>,
    pub target_branch: Option<String>,
    pub enable_delete_filter_manager: bool,
    pub check_file_existence: bool,
    pub validate_from_snapshot_id: Option<i64>,
    pub mode: PhantomData<M>,
}

/// Rewrites files without changing table data: compaction and friends.
pub type RewriteFilesAction = ReplaceFilesAction<Rewrite>;

/// Rewrites files as a logical overwrite.
pub type OverwriteFilesAction = ReplaceFilesAction<Overwrite>;

/// Those of the files that hold data.
pub open spec fn data_files_of(files: Seq<DataFile>) -> Seq<DataFile> {
    files.filter(|f: DataFile| f.content == DataContentType::Data)
}

/// Those of the files that hold deletes, by position or by equality.
pub open spec fn delete_files_of(files: Seq<DataFile>) -> Seq<DataFile> {
    files.filter(|f: DataFile| f.content != DataContentType::Data)
}

/// Sorts files by what they hold, behind those that were sorted before.
fn sort_files(files: Vec<DataFile>, data_files: &mut Vec<DataFile>, delete_files: &mut Vec<DataFile>)
    ensures
        final(data_files)@ == old(data_files)@ + data_files_of(files@),
        final(delete_files)@ == old(delete_files)@ + delete_files_of(files@),
{
    reveal(Seq::filter);
    for file in it: files
        invariant
            it.seq() == files@,
            data_files@ == old(data_files)@ + data_files_of(files@.take(it.index())),
            delete_files@ == old(delete_files)@ + delete_files_of(files@.take(it.index())),
    {
        proof {
            let shorter = files@.take(it.index());
            let longer = files@.take(it.index() + 1);
            assert(longer.drop_last() =~= shorter);
            assert(longer.last() == file);
            reveal(Seq::filter);
        }
        match file.content_type() {
            DataContentType::Data => data_files.push(file),
            DataContentType::PositionDeletes
            | DataContentType::EqualityDeletes => delete_files.push(file),
        }
    }
    assert(files@.take(files@.len() as int) =~= files@);
}

/// The number that a property sets: the default where it is not set, or is not a
/// number of 32 bits.
pub open spec fn number_setting(
    properties: Map<Seq<char>, Seq<char>>,
    name: Seq<char>,
    default: u32,
) -> nat {
    if properties.contains_key(name) {
        match text::unsigned_value(properties[name], u32::MAX as nat) {
            Some(n) => n,
            None => default as nat,
        }
    } else {
        default as nat
    }
}

/// The truth value that a property sets: the default where it is not set, or is not a
/// truth value.
pub open spec fn bool_setting(
    properties: Map<Seq<char>, Seq<char>>,
    name: Seq<char>,
    default: bool,
) -> bool {
    if properties.contains_key(name) {
        match text::bool_value(properties[name]) {
            Some(b) => b,
            None => default,
        }
    } else {
        default
    }
}

fn read_number(properties: &Properties, name: &str, default: u32) -> (value: u32)
    ensures
        value == number_setting(properties@, name@, default),
{
    match properties.get(&name.to_string()) {
        Some(text) => match parse_unsigned(text.as_str(), u32::MAX as u64) {
            Some(n) => n as u32,
            None => default,
        },
        None => default,
    }
}

fn read_bool(properties: &Properties, name: &str, default: bool) -> (value: bool)
    ensures
        value == bool_setting(properties@, name@, default),
{
    match properties.get(&name.to_string()) {
        Some(text) => match parse_bool(text) {
            Some(b) => b,
            None => default,
        },
        None => default,
    }
}

/// How the producer of a snapshot treats the manifests that it writes.
#[derive(Debug, Clone, Copy, PartialEq, Eq, Structural)]
pub enum ManifestProcess {
    /// Manifests stay as they are.
    Default,
    /// Small manifests are merged.
    Merge { target_size_bytes: u32, min_count_to_merge: u32 },
}

/// One step of a commit. The first step that fails ends the commit.
#[derive(Debug, Clone, Copy, PartialEq, Eq, Structural)]
pub enum CommitStep {
    /// Check the added and removed data files against those of the table.
    ValidateDataFileChanges,
    /// Check that no delete for a removed data file was committed since a snapshot.
    ValidateNoNewDeletes { starting_snapshot_id: i64 },
    /// Produce the snapshot.
    Commit { operation: Operation, process: ManifestProcess },
}

impl<M: ReplaceFilesMode> ReplaceFilesAction<M> {
    /// Whether nothing was set on the action.
    pub open spec fn is_default(self) -> bool {
        &&& self.target_size_bytes == MANIFEST_TARGET_SIZE_BYTES_DEFAULT
        &&& self.min_count_to_merge == MANIFEST_MIN_MERGE_COUNT_DEFAULT
        &&& self.merge_enabled == MANIFEST_MERGE_ENABLED_DEFAULT
        &&& self.commit_uuid is None
        &&& self.key_metadata is None
        &&& self.snapshot_properties@ == Map::<Seq<char>, Seq<char>>::empty()
        &&& self.added_data_files@ == Seq::<DataFile>::empty()
        &&& self.added_delete_files@ == Seq::<DataFile>::empty()
        &&& self.removed_data_files@ == Seq::<DataFile>::empty()
        &&& self.removed_delete_files@ == Seq::<DataFile>::empty()
        &&& self.snapshot_id is None
        &&& self.new_data_file_sequence_number is None
        &&& self.target_branch is None
        &&& !self.enable_delete_filter_manager
        &&& !self.check_file_existence
        &&& self.validate_from_snapshot_id is None
    }

    /// Creates an action with default settings.
    pub fn new() -> (action: Self)
        ensures
            action.is_default(),
    {
        ReplaceFilesAction {
            target_size_bytes: MANIFEST_TARGET_SIZE_BYTES_DEFAULT,
            min_count_to_merge: MANIFEST_MIN_MERGE_COUNT_DEFAULT,
            merge_enabled: MANIFEST_MERGE_ENABLED_DEFAULT,
            commit_uuid: None,
            key_metadata: None,
            snapshot_properties: Properties::new(),
            added_data_files: Vec::new(),
            added_delete_files: Vec::new(),
            removed_data_files: Vec::new(),
            removed_delete_files: Vec::new(),
            snapshot_id: None,
            new_data_file_sequence_number: None,
            target_branch: None,
            enable_delete_filter_manager: false,
            check_file_existence: false,
            validate_from_snapshot_id: None,
            mode: PhantomData,
        }
    }

    /// Add data files to the snapshot.
    pub fn add_data_files(self, data_files: Vec<DataFile>) -> (action: Self)
        ensures
            action == (ReplaceFilesAction {
                added_data_files: action.added_data_files,
                added_delete_files: action.added_delete_files,
                ..self
            }),
            action.added_data_files@ == self.added_data_files@ + data_files_of(data_files@),
            action.added_delete_files@ == self.added_delete_files@ + delete_files_of(data_files@),
    {
        let mut action = self;
        sort_files(data_files, &mut action.added_data_files, &mut action.added_delete_files);
        action
    }

    /// Add remove files to the snapshot.
    pub fn delete_files(self, remove_data_files: Vec<DataFile>) -> (action: Self)
        ensures
            action == (ReplaceFilesAction {
                removed_data_files: action.removed_data_files,
                removed_delete_files: action.removed_delete_files,
                ..self
            }),
            action.removed_data_files@ == self.removed_data_files@ + data_files_of(
                remove_data_files@,
            ),
            action.removed_delete_files@ == self.removed_delete_files@ + delete_files_of(
                remove_data_files@,
            ),
    {
        let mut action = self;
        sort_files(
            remove_data_files,
            &mut action.removed_data_files,
            &mut action.removed_delete_files,
        );
        action
    }

    /// Set snapshot properties, and the settings for merging manifests that stand
    /// among them.
    pub fn set_snapshot_properties(&mut self, properties: Properties) -> (action: &mut Self)
        ensures
            *action == (ReplaceFilesAction {
                target_size_bytes: action.target_size_bytes,
                min_count_to_merge: action.min_count_to_merge,
                merge_enabled: bool_setting(
                    properties@,
                    MANIFEST_MERGE_ENABLED@,
                    MANIFEST_MERGE_ENABLED_DEFAULT,
                ),
                snapshot_properties: properties,
                ..*old(self)
            }),
            action.target_size_bytes == number_setting(
                properties@,
                MANIFEST_TARGET_SIZE_BYTES@,
                MANIFEST_TARGET_SIZE_BYTES_DEFAULT,
            ),
            action.min_count_to_merge == number_setting(
                properties@,
                MANIFEST_MIN_MERGE_COUNT@,
                MANIFEST_MIN_MERGE_COUNT_DEFAULT,
            ),
            *final(self) == *final(action),
    {
        let target_size_bytes = read_number(
            &properties,
            MANIFEST_TARGET_SIZE_BYTES,
            MANIFEST_TARGET_SIZE_BYTES_DEFAULT,
        );
        let min_count_to_merge = read_number(
            &properties,
            MANIFEST_MIN_MERGE_COUNT,
            MANIFEST_MIN_MERGE_COUNT_DEFAULT,
        );
        let merge_enabled = read_bool(
            &properties,
            MANIFEST_MERGE_ENABLED,
            MANIFEST_MERGE_ENABLED_DEFAULT,
        );
        self.target_size_bytes = target_size_bytes;
        self.min_count_to_merge = min_count_to_merge;
        self.merge_enabled = merge_enabled;
        self.snapshot_properties = properties;
        self
    }

    /// Set commit UUID for the snapshot.
    pub fn set_commit_uuid(&mut self, commit_uuid: Uuid) -> (action: &mut Self)
        ensures
            *action == (ReplaceFilesAction { commit_uuid: Some(commit_uuid), ..*old(self) }),
            *final(self) == *final(action),
    {
        self.commit_uuid = Some(commit_uuid);
        self
    }

    /// Set key metadata for manifest files.
    pub fn set_key_metadata(self, key_metadata: Vec<u8>) -> (action: Self)
        ensures
            action == (ReplaceFilesAction { key_metadata: Some(key_metadata), ..self }),
    {
        ReplaceFilesAction { key_metadata: Some(key_metadata), ..self }
    }

    /// Set snapshot id.
    pub fn set_snapshot_id(self, snapshot_id: i64) -> (action: Self)
        ensures
            action == (ReplaceFilesAction { snapshot_id: Some(snapshot_id), ..self }),
    {
        ReplaceFilesAction { snapshot_id: Some(snapshot_id), ..self }
    }

    /// Enable delete filter manager for this snapshot.
    /// By default, delete filter manager is disabled.
    pub fn set_enable_delete_filter_manager(self, enable_delete_filter_manager: bool) -> (action:
        Self)
        ensures
            action == (ReplaceFilesAction { enable_delete_filter_manager, ..self }),
    {
        ReplaceFilesAction { enable_delete_filter_manager, ..self }
    }

    /// Set the target branch for this action.
    pub fn set_target_branch(self, target_branch: String) -> (action: Self)
        ensures
            action == (ReplaceFilesAction { target_branch: Some(target_branch), ..self }),
    {
        ReplaceFilesAction { target_branch: Some(target_branch), ..self }
    }

    /// Give new data files this sequence number: that of the snapshot at the start of a
    /// compaction, instead of that of the new snapshot. This avoids commit conflicts
    /// with updates that add newer equality deletes at a higher sequence number.
    pub fn set_new_data_file_sequence_number(self, seq: i64) -> (action: Self)
        ensures
            action == (ReplaceFilesAction { new_data_file_sequence_number: Some(seq), ..self }),
    {
        ReplaceFilesAction { new_data_file_sequence_number: Some(seq), ..self }
    }

    /// Check the added and removed data files against those of the table on commit.
    pub fn set_check_file_existence(self, check: bool) -> (action: Self)
        ensures
            action == (ReplaceFilesAction { check_file_existence: check, ..self }),
    {
        ReplaceFilesAction { check_file_existence: check, ..self }
    }

    /// Validate that no delete file for a removed data file was committed after
    /// `snapshot_id`, which should be the snapshot this operation read.
    ///
    /// An operation that rewrites data files materializes the deletes that applied at
    /// the snapshot it read. If a concurrent writer adds deletes for one of the data
    /// files being removed, those deletes are never materialized, and removing the data
    /// file would bring the rows that they deleted back. Setting this makes the commit
    /// fail instead, so the operation can be retried against the current snapshot.
    pub fn validate_from_snapshot_id(self, snapshot_id: i64) -> (action: Self)
        ensures
            action == (ReplaceFilesAction { validate_from_snapshot_id: Some(snapshot_id), ..self }),
    {
        ReplaceFilesAction { validate_from_snapshot_id: Some(snapshot_id), ..self }
    }

    /// Whether a producer is set up as the action says.
    pub open spec fn sets_up(self, producer: SnapshotProducer) -> bool {
        &&& producer.wf()
        &&& self.commit_uuid matches Some(uuid) ==> producer.commit_uuid == uuid
        &&& *producer.key_metadata == self.key_metadata
        &&& producer.snapshot_id == self.snapshot_id
        &&& *producer.snapshot_properties == self.snapshot_properties
        &&& *producer.added_data_files == self.added_data_files
        &&& *producer.added_delete_files == self.added_delete_files
        &&& *producer.removed_data_files == self.removed_data_files
        &&& *producer.removed_delete_files == self.removed_delete_files
        &&& producer.new_data_file_sequence_number == self.new_data_file_sequence_number
        &&& producer.target_branch == self.target_branch
        &&& producer.delete_filter_manager_enabled == self.enable_delete_filter_manager
    }

    /// The producer of the snapshot, under a commit UUID that serves where none was set.
    pub fn snapshot_producer_under<'a>(&'a self, fresh: Uuid) -> (producer: SnapshotProducer<'a>)
        ensures
            self.sets_up(producer),
            self.commit_uuid is None ==> producer.commit_uuid == fresh,
    {
        let commit_uuid = match self.commit_uuid {
            Some(uuid) => uuid,
            None => fresh,
        };
        let mut producer = SnapshotProducer::new(
            commit_uuid,
            &self.key_metadata,
            self.snapshot_id,
            &self.snapshot_properties,
            &self.added_data_files,
            &self.added_delete_files,
            &self.removed_data_files,
            &self.removed_delete_files,
        );
        if let Some(seq) = self.new_data_file_sequence_number {
            producer.set_new_data_file_sequence_number(seq);
        }
        if let Some(branch) = &self.target_branch {
            producer.set_target_branch(branch.clone());
        }
        if self.enable_delete_filter_manager {
            producer.enable_delete_filter_manager();
        }
        producer
    }

    /// The producer of the snapshot, under the commit UUID that was set, else under a
    /// new one.
    pub fn snapshot_producer<'a>(&'a self) -> (producer: SnapshotProducer<'a>)
        ensures
            self.sets_up(producer),
    {
        match self.commit_uuid {
            Some(uuid) => self.snapshot_producer_under(uuid),
            None => self.snapshot_producer_under(Uuid::now_v7()),
        }
    }

    /// How the producer treats the manifests that it writes.
    pub open spec fn process(self) -> ManifestProcess {
        if self.merge_enabled {
            ManifestProcess::Merge {
                target_size_bytes: self.target_size_bytes,
                min_count_to_merge: self.min_count_to_merge,
            }
        } else {
            ManifestProcess::Default
        }
    }

    /// The steps of the commit: the checks that were asked for, then the snapshot.
    pub open spec fn steps(self) -> Seq<CommitStep> {
        let existence = if self.check_file_existence {
            seq![CommitStep::ValidateDataFileChanges]
        } else {
            Seq::empty()
        };
        let deletes = match self.validate_from_snapshot_id {
            Some(starting_snapshot_id) => seq![
                CommitStep::ValidateNoNewDeletes { starting_snapshot_id },
            ],
            None => Seq::empty(),
        };
        existence + deletes + seq![
            CommitStep::Commit { operation: M::recorded(), process: self.process() },
        ]
    }

    /// The steps of the commit, in their order.
    pub fn commit_steps(&self) -> (steps: Vec<CommitStep>)
        ensures
            steps@ == self.steps(),
            self.validate_from_snapshot_id matches Some(id) ==> exists|i: int|
                0 <= i < steps@.len() - 1 && #[trigger] steps@[i]
                    == (CommitStep::ValidateNoNewDeletes { starting_snapshot_id: id }),
            self.check_file_existence ==> exists|i: int|
                0 <= i < steps@.len() - 1 && (#[trigger] steps@[i]) is ValidateDataFileChanges,
            steps@.len() > 0 && steps@.last() is Commit,
            steps@.last()->operation == M::recorded(),
    {
        proof {
            replace_laws::law_commits_make_the_checks_that_were_asked_for(*self, 0);
            if let Some(id) = self.validate_from_snapshot_id {
                replace_laws::law_commits_make_the_checks_that_were_asked_for(*self, id);
            }
        }
        let mut steps: Vec<CommitStep> = Vec::new();
        if self.check_file_existence {
            steps.push(CommitStep::ValidateDataFileChanges);
        }
        if let Some(starting_snapshot_id) = self.validate_from_snapshot_id {
            steps.push(CommitStep::ValidateNoNewDeletes { starting_snapshot_id });
        }
        let process = if self.merge_enabled {
            ManifestProcess::Merge {
                target_size_bytes: self.target_size_bytes,
                min_count_to_merge: self.min_count_to_merge,
            }
        } else {
            ManifestProcess::Default
        };
        let operation = ReplaceFilesOperation::<M>::new().operation();
        steps.push(CommitStep::Commit { operation, process });
        assert(steps@ =~= self.steps());
        assert(self.check_file_existence ==> steps@[0] is ValidateDataFileChanges);
        steps
    }
}

impl<M: ReplaceFilesMode> Default for ReplaceFilesAction<M> {
    fn default() -> (action: Self)
        ensures
            action.is_default(),
    {
        Self::new()
    }
}

} // verus!
