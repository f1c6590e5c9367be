//! What a commit hands to the producer of the new snapshot, and the check that no
//! concurrent deletes get lost.

use uuid::Uuid;
use vstd::hash_set::StringHashSet;
use vstd::prelude::*;
use vstd::string::*;

use crate::error::{Error, ErrorKind};
use crate::manifest::{
    DataContentType, DataFile, ManifestContentType, ManifestEntry, ManifestFile, ManifestStatus,
};
use crate::properties::Properties;
use crate::table::TableMetadata;
use crate::text::signed_decimal_text;
use crate::{replace_laws, table, text, value_laws};

verus! {

/// Whether one of the files has this path.
pub open spec fn has_file(files: Seq<DataFile>, path: Seq<char>) -> bool {
    exists|i: int| 0 <= i < files.len() && (#[trigger] files[i]).file_path@ == path
}

/// Collects the paths of files.
fn file_paths(files: &Vec<DataFile>) -> (set: StringHashSet)
    ensures
        forall|path: Seq<char>| #[trigger] set@.contains(path) == has_file(files@, path),
{
    let mut set = StringHashSet::new();
    let mut i: usize = 0;
    while i < files.len()
        invariant
            i <= files@.len(),
            forall|path: Seq<char>| #[trigger]
                set@.contains(path) == has_file(files@.take(i as int), path),
        decreases files.len() - i,
    {
        let ghost before = set@;
        set.insert(files[i].file_path.clone());
        proof {
            let shorter = files@.take(i as int);
            let longer = files@.take(i + 1);
            assert forall|path: Seq<char>| #[trigger]
                set@.contains(path) == has_file(longer, path) by {
                if has_file(shorter, path) {
                    let j = choose|j: int|
                        0 <= j < shorter.len() && (#[trigger] shorter[j]).file_path@ == path;
                    assert(longer[j].file_path@ == path);
                }
                if has_file(longer, path) {
                    let j = choose|j: int|
                        0 <= j < longer.len() && (#[trigger] longer[j]).file_path@ == path;
                    if j < i {
                        assert(shorter[j].file_path@ == path);
                    }
                }
                assert(longer[i as int] == files@[i as int]);
            }
        }
        i = i + 1;
    }
    assert(files@.take(i as int) =~= files@);
    set
}

/// What a commit hands to the producer of the new snapshot.
pub struct SnapshotProducer<'a> {
    pub commit_uuid: Uuid,
    pub key_metadata: &'a Option<Vec<u8>>,
    pub snapshot_id: Option<i64>,
    pub snapshot_properties: &'a Properties,
    pub added_data_files: &'a Vec<DataFile>,
    pub added_delete_files: &'a Vec<DataFile>,
    pub removed_data_files: &'a Vec<DataFile>,
    pub removed_delete_files: &'a Vec<DataFile>,
    pub removed_data_file_paths: StringHashSet,
    pub removed_delete_file_paths: StringHashSet,
    pub new_data_file_sequence_number: Option<i64>,
    pub target_branch: Option<String>,
    pub delete_filter_manager_enabled: bool,
}

impl<'a> SnapshotProducer<'a> {
    /// Whether the paths of the removed files are those of the removed files.
    pub open spec fn wf(&self) -> bool {
        &&& forall|path: Seq<char>| #[trigger]
            self.removed_data_file_paths@.contains(path) == has_file(
                self.removed_data_files@,
                path,
            )
        &&& forall|path: Seq<char>| #[trigger]
            self.removed_delete_file_paths@.contains(path) == has_file(
                self.removed_delete_files@,
                path,
            )
    }

    /// A producer for the main branch that gives added files the sequence number of
    /// the new snapshot.
    pub fn new(
        commit_uuid: Uuid,
        key_metadata: &'a Option<Vec<u8>>,
        snapshot_id: Option<i64>,
        snapshot_properties: &'a Properties,
        added_data_files: &'a Vec<DataFile>,
        added_delete_files: &'a Vec<DataFile>,
        removed_data_files: &'a Vec<DataFile>,
        removed_delete_files: &'a Vec<DataFile>,
    ) -> (producer: Self)
        ensures
            producer.wf(),
            producer.commit_uuid == commit_uuid,
            producer.key_metadata == key_metadata,
            producer.snapshot_id == snapshot_id,
            producer.snapshot_properties == snapshot_properties,
            producer.added_data_files == added_data_files,
            producer.added_delete_files == added_delete_files,
            producer.removed_data_files == removed_data_files,
            producer.removed_delete_files == removed_delete_files,
            producer.new_data_file_sequence_number is None,
            producer.target_branch is None,
            !producer.delete_filter_manager_enabled,
    {
        SnapshotProducer {
            commit_uuid,
            key_metadata,
            snapshot_id,
            snapshot_properties,
            added_data_files,
            added_delete_files,
            removed_data_files,
            removed_delete_files,
            removed_data_file_paths: file_paths(removed_data_files),
            removed_delete_file_paths: file_paths(removed_delete_files),
            new_data_file_sequence_number: None,
            target_branch: None,
            delete_filter_manager_enabled: false,
        }
    }

    /// Gives added data files this sequence number.
    pub fn set_new_data_file_sequence_number(&mut self, sequence_number: i64)
        ensures
            *final(self) == (SnapshotProducer {
                new_data_file_sequence_number: Some(sequence_number),
                ..*old(self)
            }),
    {
        self.new_data_file_sequence_number = Some(sequence_number);
    }

    /// Adds the snapshot to this branch.
    pub fn set_target_branch(&mut self, target_branch: String)
        ensures
            *final(self) == (SnapshotProducer {
                target_branch: Some(target_branch),
                ..*old(self)
            }),
    {
        self.target_branch = Some(target_branch);
    }

    /// Drops delete files that apply to no data file any more.
    pub fn enable_delete_filter_manager(&mut self)
        ensures
            *final(self) == (SnapshotProducer {
                delete_filter_manager_enabled: true,
                ..*old(self)
            }),
    {
        self.delete_filter_manager_enabled = true;
    }

    /// Whether an entry's file is among those that the snapshot removes. Data files and
    /// delete files are looked for apart.
    pub open spec fn removes(&self, entry: ManifestEntry) -> bool {
        let path = entry.data_file.file_path@;
        match entry.data_file.content {
            DataContentType::Data => has_file(self.removed_data_files@, path),
            DataContentType::PositionDeletes | DataContentType::EqualityDeletes => has_file(
                self.removed_delete_files@,
                path,
            ),
        }
    }

    /// Whether an entry's path is that of any file that the snapshot removes.
    pub open spec fn names(&self, entry: ManifestEntry) -> bool {
        let path = entry.data_file.file_path@;
        has_file(self.removed_data_files@, path) || has_file(self.removed_delete_files@, path)
    }

    /// Whether an entry's file is among those that the snapshot removes.
    pub fn is_removed(&self, entry: &ManifestEntry) -> (removed: bool)
        requires
            self.wf(),
        ensures
            removed == self.removes(*entry),
            removed ==> exists|i: int|
                0 <= i < self.removed_data_files@.len() + self.removed_delete_files@.len() && (
                #[trigger] (self.removed_data_files@
                    + self.removed_delete_files@)[i]).file_path@ == entry.data_file.file_path@,
            !removed && entry.data_file.content == DataContentType::Data ==> forall|i: int|
                0 <= i < self.removed_data_files@.len() ==> (
                #[trigger] self.removed_data_files@[i]).file_path@
                    != entry.data_file.file_path@,
            !removed && entry.data_file.content != DataContentType::Data ==> forall|i: int|
                0 <= i < self.removed_delete_files@.len() ==> (
                #[trigger] self.removed_delete_files@[i]).file_path@
                    != entry.data_file.file_path@,
    {
        proof {
            let path = entry.data_file.file_path@;
            let both = self.removed_data_files@ + self.removed_delete_files@;
            if has_file(self.removed_data_files@, path) {
                let i = choose|i: int|
                    0 <= i < self.removed_data_files@.len() && (
                    #[trigger] self.removed_data_files@[i]).file_path@ == path;
                assert(both[i].file_path@ == path);
            }
            if has_file(self.removed_delete_files@, path) {
                let i = choose|i: int|
                    0 <= i < self.removed_delete_files@.len() && (
                    #[trigger] self.removed_delete_files@[i]).file_path@ == path;
                assert(both[self.removed_data_files@.len() + i].file_path@ == path);
            }
        }
        let path = entry.data_file.file_path.as_str();
        match entry.content_type() {
            DataContentType::Data => self.removed_data_file_paths.contains(path),
            DataContentType::PositionDeletes
            | DataContentType::EqualityDeletes => self.removed_delete_file_paths.contains(path),
        }
    }

    /// Whether an entry's path is that of any file that the snapshot removes.
    pub fn is_named(&self, entry: &ManifestEntry) -> (named: bool)
        requires
            self.wf(),
        ensures
            named == self.names(*entry),
            named <==> (exists|i: int|
                0 <= i < self.removed_data_files@.len() && (
                #[trigger] self.removed_data_files@[i]).file_path@
                    == entry.data_file.file_path@) || (exists|i: int|
                0 <= i < self.removed_delete_files@.len() && (
                #[trigger] self.removed_delete_files@[i]).file_path@
                    == entry.data_file.file_path@),
    {
        let path = entry.data_file.file_path.as_str();
        self.removed_data_file_paths.contains(path) || self.removed_delete_file_paths.contains(path)
    }
}

/// The field id of the column of a position delete file that names the data file.
pub const FIELD_ID_POSITIONAL_DELETE_FILE_PATH: i32 = 2147483546;

/// The bound of a column.
pub open spec fn bound_of(bounds: Seq<(i32, Vec<u8>)>, field_id: i32) -> Option<Seq<u8>>
    decreases bounds.len(),
{
    if bounds.len() == 0 {
        None
    } else if bounds[0].0 == field_id {
        Some(bounds[0].1@)
    } else {
        bound_of(bounds.skip(1), field_id)
    }
}

/// The bytes of the one path that the path column of a delete file holds, as far as
/// its bounds show it: they are there, and they are the same.
pub open spec fn only_path(delete_file: DataFile) -> Option<Seq<u8>> {
    let lower = bound_of(delete_file.lower_bounds@, FIELD_ID_POSITIONAL_DELETE_FILE_PATH);
    let upper = bound_of(delete_file.upper_bounds@, FIELD_ID_POSITIONAL_DELETE_FILE_PATH);
    if lower is Some && lower == upper {
        lower
    } else {
        None
    }
}

/// Whether a position delete file names the one data file that it applies to.
pub open spec fn identifies_target(delete_file: DataFile) -> bool {
    delete_file.referenced_data_file is Some || only_path(delete_file) is Some
}

/// Whether a position delete file names this data file as the one that it applies to.
pub open spec fn targets(delete_file: DataFile, path: Seq<char>) -> bool {
    match delete_file.referenced_data_file {
        Some(target) => target@ == path,
        None => only_path(delete_file) == Some(vstd::utf8::encode_utf8(path)),
    }
}

/// The first of the files that a position delete file names as its target.
pub open spec fn first_target(delete_file: DataFile, files: Seq<DataFile>) -> Option<Seq<char>>
    decreases files.len(),
{
    if files.len() == 0 {
        None
    } else if targets(delete_file, files[0].file_path@) {
        Some(files[0].file_path@)
    } else {
        first_target(delete_file, files.skip(1))
    }
}

fn find_bound(bounds: &Vec<(i32, Vec<u8>)>, field_id: i32) -> (bound: Option<&Vec<u8>>)
    ensures
        match bound {
            Some(b) => bound_of(bounds@, field_id) == Some(b@),
            None => bound_of(bounds@, field_id) is None,
        },
{
    let mut i: usize = 0;
    assert(bounds@.skip(0) =~= bounds@);
    while i < bounds.len()
        invariant
            i <= bounds@.len(),
            bound_of(bounds@, field_id) == bound_of(bounds@.skip(i as int), field_id),
        decreases bounds.len() - i,
    {
        assert(bounds@.skip(i as int).skip(1) =~= bounds@.skip(i + 1));
        if bounds[i].0 == field_id {
            return Some(&bounds[i].1);
        }
        i = i + 1;
    }
    None
}

fn same_bytes(a: &[u8], b: &[u8]) -> (same: bool)
    ensures
        same == (a@ == b@),
{
    if a.len() != b.len() {
        return false;
    }
    let mut i: usize = 0;
    while i < a.len()
        invariant
            i <= a@.len(),
            a@.len() == b@.len(),
            forall|j: int| 0 <= j < i ==> a@[j] == b@[j],
        decreases a.len() - i,
    {
        if a[i] != b[i] {
            return false;
        }
        i = i + 1;
    }
    assert(a@ =~= b@);
    true
}

fn find_only_path(delete_file: &DataFile) -> (path: Option<&Vec<u8>>)
    ensures
        match path {
            Some(p) => only_path(*delete_file) == Some(p@),
            None => only_path(*delete_file) is None,
        },
{
    match find_bound(&delete_file.lower_bounds, FIELD_ID_POSITIONAL_DELETE_FILE_PATH) {
        Some(lower) => {
            match find_bound(&delete_file.upper_bounds, FIELD_ID_POSITIONAL_DELETE_FILE_PATH) {
                Some(upper) => {
                    if same_bytes(lower.as_slice(), upper.as_slice()) {
                        Some(lower)
                    } else {
                        None
                    }
                },
                None => None,
            }
        },
        None => None,
    }
}

/// Those of the manifests that list delete files, in their order: the ones whose entries
/// tell what was deleted.
pub fn delete_manifests(manifests: Vec<ManifestFile>) -> (deletes: Vec<ManifestFile>)
    ensures
        deletes@ == manifests@.filter(
            |m: ManifestFile| m.content == ManifestContentType::Deletes,
        ),
        forall|i: int|
            0 <= i < manifests@.len() && (#[trigger] manifests@[i]).content
                == ManifestContentType::Deletes ==> deletes@.contains(manifests@[i]),
        forall|i: int|
            0 <= i < deletes@.len() ==> (#[trigger] deletes@[i]).content
                == ManifestContentType::Deletes,
{
    broadcast use vstd::seq_lib::group_filter_ensures;

    let ghost is_deletes = |m: ManifestFile| m.content == ManifestContentType::Deletes;
    let mut deletes: Vec<ManifestFile> = Vec::new();
    reveal(Seq::filter);
    for manifest in it: manifests
        invariant
            it.seq() == manifests@,
            is_deletes == (|m: ManifestFile| m.content == ManifestContentType::Deletes),
            deletes@ == manifests@.take(it.index()).filter(is_deletes),
    {
        proof {
            let longer = manifests@.take(it.index() + 1);
            assert(longer.drop_last() =~= manifests@.take(it.index()));
            assert(longer.last() == manifest);
            reveal(Seq::filter);
        }
        match manifest.content {
            ManifestContentType::Deletes => deletes.push(manifest),
            ManifestContentType::Data => {},
        }
    }
    assert(manifests@.take(manifests@.len() as int) =~= manifests@);
    deletes
}

/// Whether an entry was added after the given sequence number. One that does not
/// tell its sequence number counts as added.
pub open spec fn added_after(entry: ManifestEntry, sequence_number: i64) -> bool {
    &&& entry.alive()
    &&& entry.sequence_number matches Some(n) ==> n > sequence_number
}

/// Why an entry stands in the way of removing files that were read at a sequence
/// number: it is a position delete that was added since, and that applies to one of
/// the files, or cannot be shown to leave them alone.
///
/// An equality delete stands in nobody's way: it applies by sequence number, and the
/// files that replace the removed ones keep theirs.
pub open spec fn conflict(
    entry: ManifestEntry,
    removed: Seq<DataFile>,
    sequence_number: i64,
) -> Option<Seq<char>> {
    let delete_path = entry.data_file.file_path@;
    if entry.data_file.content != DataContentType::PositionDeletes || !added_after(
        entry,
        sequence_number,
    ) {
        None
    } else if identifies_target(entry.data_file) {
        match first_target(entry.data_file, removed) {
            Some(path) => Some(
                "Cannot commit: delete file "@ + delete_path
                    + " was added concurrently for removed data file "@ + path,
            ),
            None => None,
        }
    } else if removed.len() > 0 {
        Some(
            "Cannot commit: delete file "@ + delete_path
                + " was added concurrently and does not identify the data file it applies to"@,
        )
    } else {
        None
    }
}

/// The first conflict among entries.
pub open spec fn first_conflict(
    entries: Seq<ManifestEntry>,
    removed: Seq<DataFile>,
    sequence_number: i64,
) -> Option<Seq<char>>
    decreases entries.len(),
{
    if entries.len() == 0 {
        None
    } else {
        match conflict(entries[0], removed, sequence_number) {
            Some(message) => Some(message),
            None => first_conflict(entries.skip(1), removed, sequence_number),
        }
    }
}

/// Why it cannot be checked what was deleted since a snapshot.
pub open spec fn uncheckable(
    metadata: TableMetadata,
    head: Option<i64>,
    starting_snapshot_id: i64,
    new_data_file_sequence_number: Option<i64>,
) -> Option<Seq<char>> {
    let starting = table::snapshot_of(metadata.snapshots@, Some(starting_snapshot_id));
    if !table::is_in_history(metadata.snapshots@, head, starting_snapshot_id) {
        Some(
            "Cannot validate deletes: snapshot "@ + text::signed_decimal(
                starting_snapshot_id as int,
            ) + " is not an ancestor of the current snapshot"@,
        )
    } else if head != Some(starting_snapshot_id) && new_data_file_sequence_number != Some(
        starting.unwrap().sequence_number,
    ) {
        Some(
            "Cannot validate deletes: new data files must keep the sequence number "@
                + text::signed_decimal(starting.unwrap().sequence_number as int)
                + " of snapshot "@ + text::signed_decimal(starting_snapshot_id as int),
        )
    } else {
        None
    }
}

impl<'a> SnapshotProducer<'a> {
    /// The sequence number after which deletes are conflicts, for an operation that
    /// read the given snapshot; none where no snapshot was added to the branch since.
    ///
    /// `head` is the snapshot that the target branch is at.
    pub fn check_deletes_after(
        &self,
        metadata: &TableMetadata,
        head: Option<i64>,
        starting_snapshot_id: i64,
    ) -> (result: Result<Option<i64>, Error>)
        ensures
            ({
                let starting = table::snapshot_of(metadata.snapshots@, Some(starting_snapshot_id));
                let problem = uncheckable(
                    *metadata,
                    head,
                    starting_snapshot_id,
                    self.new_data_file_sequence_number,
                );
                match result {
                    Err(error) => problem matches Some(message) && error.says(message),
                    Ok(None) => problem is None && head == Some(starting_snapshot_id),
                    Ok(Some(n)) => {
                        &&& problem is None
                        &&& head != Some(starting_snapshot_id)
                        &&& starting is Some
                        &&& n == starting.unwrap().sequence_number
                    },
                }
            }),
            result matches Ok(Some(n)) ==> self.new_data_file_sequence_number == Some(n),
            result == Ok::<Option<i64>, Error>(None) ==> head == Some(starting_snapshot_id),
            result is Ok ==> exists|k: int|
                0 <= k < metadata.snapshots@.len() && (
                #[trigger] metadata.snapshots@[k]).snapshot_id == starting_snapshot_id,
    {
        proof {
            let snapshots = metadata.snapshots@;
            if table::is_in_history(snapshots, head, starting_snapshot_id) {
                table::lemma_history_is_known(snapshots, head, starting_snapshot_id);
                value_laws::law_snapshots_are_found_by_id(snapshots, starting_snapshot_id);
            }
        }
        let id_text = signed_decimal_text(starting_snapshot_id);
        if !metadata.has_in_history(head, starting_snapshot_id) {
            let mut message = "Cannot validate deletes: snapshot ".to_string();
            message.append(id_text.as_str());
            message.append(" is not an ancestor of the current snapshot");
            return Err(Error::new(ErrorKind::DataInvalid, message));
        }
        if let Some(head_id) = head {
            if head_id == starting_snapshot_id {
                return Ok(None);
            }
        }
        proof {
            table::lemma_history_is_known(metadata.snapshots@, head, starting_snapshot_id);
        }
        let starting = metadata.snapshot_by_id(starting_snapshot_id).unwrap();
        let kept = match self.new_data_file_sequence_number {
            Some(n) => n == starting.sequence_number,
            None => false,
        };
        if kept {
            Ok(Some(starting.sequence_number))
        } else {
            let mut message =
                "Cannot validate deletes: new data files must keep the sequence number ".to_string();
            message.append(signed_decimal_text(starting.sequence_number).as_str());
            message.append(" of snapshot ");
            message.append(id_text.as_str());
            Err(Error::new(ErrorKind::DataInvalid, message))
        }
    }

    /// The first removed data file that a position delete file names as its target.
    fn find_target(&self, delete_file: &DataFile) -> (target: Option<&String>)
        ensures
            match target {
                Some(path) => first_target(*delete_file, self.removed_data_files@) == Some(path@),
                None => first_target(*delete_file, self.removed_data_files@) is None,
            },
    {
        let files = self.removed_data_files;
        let only = find_only_path(delete_file);
        let mut i: usize = 0;
        assert(files@.skip(0) =~= files@);
        while i < files.len()
            invariant
                files == self.removed_data_files,
                i <= files@.len(),
                match only {
                    Some(p) => only_path(*delete_file) == Some(p@),
                    None => only_path(*delete_file) is None,
                },
                first_target(*delete_file, files@) == first_target(
                    *delete_file,
                    files@.skip(i as int),
                ),
            decreases files.len() - i,
        {
            assert(files@.skip(i as int).skip(1) =~= files@.skip(i + 1));
            let path = &files[i].file_path;
            let hit = match &delete_file.referenced_data_file {
                Some(target) => *target == *path,
                None => match only {
                    Some(bytes) => same_bytes(bytes.as_slice(), path.as_str().as_bytes()),
                    None => false,
                },
            };
            if hit {
                return Some(path);
            }
            i = i + 1;
        }
        None
    }

    /// Checks that none of the entries is a delete that was added after the given
    /// sequence number and may apply to a removed data file.
    pub fn reject_new_deletes(&self, entries: &Vec<ManifestEntry>, sequence_number: i64) -> (result:
        Result<(), Error>)
        ensures
            match result {
                Ok(_) => first_conflict(entries@, self.removed_data_files@, sequence_number) is None,
                Err(error) => first_conflict(
                    entries@,
                    self.removed_data_files@,
                    sequence_number,
                ) matches Some(message) && error.says(message),
            },
            forall|i: int, j: int|
                #![trigger entries@[i], self.removed_data_files@[j]]
                {
                    &&& 0 <= i < entries@.len()
                    &&& 0 <= j < self.removed_data_files@.len()
                    &&& entries@[i].data_file.content == DataContentType::PositionDeletes
                    &&& entries@[i].status == ManifestStatus::Added || entries@[i].status
                        == ManifestStatus::Existing
                    &&& entries@[i].sequence_number is None || entries@[i].sequence_number.unwrap()
                        > sequence_number
                    &&& entries@[i].data_file.referenced_data_file is Some
                    &&& entries@[i].data_file.referenced_data_file.unwrap()@
                        == self.removed_data_files@[j].file_path@
                } ==> result is Err,
    {
        proof {
            assert forall|i: int, j: int|
                #![trigger entries@[i], self.removed_data_files@[j]]
                {
                    &&& 0 <= i < entries@.len()
                    &&& 0 <= j < self.removed_data_files@.len()
                    &&& entries@[i].data_file.content == DataContentType::PositionDeletes
                    &&& entries@[i].status == ManifestStatus::Added || entries@[i].status
                        == ManifestStatus::Existing
                    &&& entries@[i].sequence_number is None || entries@[i].sequence_number.unwrap()
                        > sequence_number
                    &&& entries@[i].data_file.referenced_data_file is Some
                    &&& entries@[i].data_file.referenced_data_file.unwrap()@
                        == self.removed_data_files@[j].file_path@
                } implies first_conflict(
                entries@,
                self.removed_data_files@,
                sequence_number,
            ) is Some by {
                replace_laws::law_later_deletes_are_refused(
                    entries@,
                    self.removed_data_files@,
                    sequence_number,
                    i,
                    j,
                );
            }
        }
        let mut i: usize = 0;
        assert(entries@.skip(0) =~= entries@);
        while i < entries.len()
            invariant
                i <= entries@.len(),
                first_conflict(entries@, self.removed_data_files@, sequence_number)
                    == first_conflict(
                    entries@.skip(i as int),
                    self.removed_data_files@,
                    sequence_number,
                ),
            decreases entries.len() - i,
        {
            assert(entries@.skip(i as int).skip(1) =~= entries@.skip(i + 1));
            let entry = &entries[i];
            let file = &entry.data_file;
            let is_new = entry.is_alive() && match entry.sequence_number {
                Some(n) => n > sequence_number,
                None => true,
            };
            let is_position_delete = match file.content {
                DataContentType::PositionDeletes => true,
                _ => false,
            };
            if is_new && is_position_delete {
                let identified = file.referenced_data_file.is_some() || find_only_path(
                    file,
                ).is_some();
                if identified {
                    if let Some(path) = self.find_target(file) {
                        let mut message = "Cannot commit: delete file ".to_string();
                        message.append(file.file_path.as_str());
                        message.append(" was added concurrently for removed data file ");
                        message.append(path.as_str());
                        return Err(Error::new(ErrorKind::DataInvalid, message));
                    }
                } else if self.removed_data_files.len() > 0 {
                    let mut message = "Cannot commit: delete file ".to_string();
                    message.append(file.file_path.as_str());
                    message.append(
                        " was added concurrently and does not identify the data file it applies to",
                    );
                    return Err(Error::new(ErrorKind::DataInvalid, message));
                }
            }
            i = i + 1;
        }
        Ok(())
    }

    /// Validates that no delete file that may apply to a removed data file was
    /// committed after the snapshot that the operation read.
    ///
    /// An operation that rewrites data files materializes the deletes that applied at
    /// the snapshot it read. Deletes that a concurrent writer added for one of the
    /// files being removed are not among them: removing the file would bring the rows
    /// that they deleted back.
    ///
    /// `head` is the snapshot that the target branch is at, and `delete_entries` holds
    /// the entries of its delete manifests.
    pub fn validate_no_new_deletes_for_data_files(
        &self,
        metadata: &TableMetadata,
        head: Option<i64>,
        delete_entries: &Vec<ManifestEntry>,
        starting_snapshot_id: i64,
    ) -> (result: Result<(), Error>)
        ensures
            ({
                let starting = table::snapshot_of(metadata.snapshots@, Some(starting_snapshot_id));
                let problem = match uncheckable(
                    *metadata,
                    head,
                    starting_snapshot_id,
                    self.new_data_file_sequence_number,
                ) {
                    Some(message) => Some(message),
                    None => if head == Some(starting_snapshot_id) {
                        None
                    } else {
                        first_conflict(
                            delete_entries@,
                            self.removed_data_files@,
                            starting.unwrap().sequence_number,
                        )
                    },
                };
                match result {
                    Ok(_) => problem is None,
                    Err(error) => problem matches Some(message) && error.says(message),
                }
            }),
            result is Ok && head != Some(starting_snapshot_id) ==> {
                &&& self.new_data_file_sequence_number is Some
                &&& forall|i: int, j: int|
                    #![trigger delete_entries@[i], self.removed_data_files@[j]]
                    {
                        &&& 0 <= i < delete_entries@.len()
                        &&& 0 <= j < self.removed_data_files@.len()
                        &&& delete_entries@[i].data_file.content
                            == DataContentType::PositionDeletes
                        &&& delete_entries@[i].status == ManifestStatus::Added
                            || delete_entries@[i].status == ManifestStatus::Existing
                        &&& delete_entries@[i].data_file.referenced_data_file is Some
                        &&& delete_entries@[i].data_file.referenced_data_file.unwrap()@
                            == self.removed_data_files@[j].file_path@
                    } ==> (delete_entries@[i].sequence_number matches Some(n) && n
                        <= self.new_data_file_sequence_number.unwrap())
            },
    {
        match self.check_deletes_after(metadata, head, starting_snapshot_id) {
            Err(error) => Err(error),
            Ok(None) => Ok(()),
            Ok(Some(sequence_number)) => self.reject_new_deletes(delete_entries, sequence_number),
        }
    }
}

} // verus!
