//! What holds of replacing files as a whole.

use vstd::prelude::*;

use crate::manifest::{
    DataContentType, DataFile, ManifestEntry, ManifestStatus, ManifestWriterView, Operation,
};
use crate::replace_files::{
    CommitStep, CurrentManifest, ExistingManifestView, ManifestProcess, Overwrite,
    ReplaceFilesAction, ReplaceFilesMode, Rewrite,
};
use crate::snapshot::SnapshotProducer;
use crate::table::TableMetadata;
use crate::{replace_files, snapshot, table, text, value_laws};

verus! {

/// Whether one of the manifests lists an entry.
pub open spec fn lists(manifests: Seq<CurrentManifest>, entry: ManifestEntry) -> bool {
    exists|i: int| 0 <= i < manifests.len() && (#[trigger] manifests[i]).entries@.contains(entry)
}

/// Only removed files are marked as deleted: a delete file that is not removed stays
/// live, whatever else is removed.
pub proof fn law_only_removed_files_are_marked(
    producer: SnapshotProducer,
    manifests: Seq<CurrentManifest>,
)
    ensures
        forall|marked: ManifestEntry| #[trigger]
            replace_files::all_deletions(producer, manifests).contains(marked) ==> {
                &&& marked.status == ManifestStatus::Deleted
                &&& producer.removes(marked)
                &&& exists|entry: ManifestEntry| #[trigger]
                    lists(manifests, entry) && marked == entry.deleted()
            },
    decreases manifests.len(),
{
    let all = replace_files::all_deletions(producer, manifests);
    if manifests.len() > 0 {
        let shorter = manifests.drop_last();
        let earlier = replace_files::all_deletions(producer, shorter);
        let entries = manifests.last().entries@;
        let removed = entries.filter(|e: ManifestEntry| producer.removes(e));
        law_only_removed_files_are_marked(producer, shorter);
        assert forall|marked: ManifestEntry| #[trigger] all.contains(marked) implies {
            &&& marked.status == ManifestStatus::Deleted
            &&& producer.removes(marked)
            &&& exists|entry: ManifestEntry| #[trigger]
                lists(manifests, entry) && marked == entry.deleted()
        } by {
            let k = choose|k: int| 0 <= k < all.len() && all[k] == marked;
            if k < earlier.len() {
                assert(earlier.contains(marked)) by {
                    assert(earlier[k] == marked);
                }
                let entry = choose|entry: ManifestEntry| #[trigger]
                    lists(shorter, entry) && marked == entry.deleted();
                let i = choose|i: int|
                    0 <= i < shorter.len() && (#[trigger] shorter[i]).entries@.contains(entry);
                assert(manifests[i].entries@.contains(entry));
                assert(lists(manifests, entry));
            } else {
                let entry = removed[k - earlier.len()];
                assert(marked == entry.deleted());
                entries.lemma_filter_contains_rev(|e: ManifestEntry| producer.removes(e), entry);
                entries.lemma_filter_pred(
                    |e: ManifestEntry| producer.removes(e),
                    k - earlier.len(),
                );
                assert(manifests[manifests.len() - 1].entries@.contains(entry));
                assert(lists(manifests, entry));
            }
        }
    }
}

/// Every removed file that a manifest lists is marked as deleted.
pub proof fn law_every_removed_file_is_marked(
    producer: SnapshotProducer,
    manifests: Seq<CurrentManifest>,
    entry: ManifestEntry,
)
    requires
        lists(manifests, entry),
        producer.removes(entry),
    ensures
        replace_files::all_deletions(producer, manifests).contains(entry.deleted()),
    decreases manifests.len(),
{
    let all = replace_files::all_deletions(producer, manifests);
    let shorter = manifests.drop_last();
    let earlier = replace_files::all_deletions(producer, shorter);
    let i = choose|i: int|
        0 <= i < manifests.len() && (#[trigger] manifests[i]).entries@.contains(entry);
    if i < shorter.len() {
        assert(shorter[i].entries@.contains(entry));
        law_every_removed_file_is_marked(producer, shorter, entry);
        let k = choose|k: int| 0 <= k < earlier.len() && earlier[k] == entry.deleted();
        assert(all[k] == entry.deleted());
    } else {
        let entries = manifests.last().entries@;
        let j = choose|j: int| 0 <= j < entries.len() && entries[j] == entry;
        let removed = entries.filter(|e: ManifestEntry| producer.removes(e));
        entries.lemma_filter_contains(|e: ManifestEntry| producer.removes(e), j);
        let k = choose|k: int| 0 <= k < removed.len() && removed[k] == entry;
        let marked = replace_files::deletions(producer, entries);
        assert(marked[k] == entry.deleted());
        assert(all[earlier.len() + k] == entry.deleted());
    }
}

/// A manifest that is rewritten keeps its content type and its partition spec, and
/// carries its survivors forward as existing: with the same file, under the same
/// snapshot and sequence numbers.
pub proof fn law_survivors_are_carried_intact(
    producer: SnapshotProducer,
    manifest: CurrentManifest,
    writer: ManifestWriterView,
)
    requires
        replace_files::existing_of(producer, manifest) == Some(
            ExistingManifestView::Rewritten(writer),
        ),
    ensures
        writer.content == manifest.file.content,
        writer.partition_spec_id == manifest.file.partition_spec_id,
        writer.entries.len() > 0,
        forall|k: int|
            0 <= k < writer.entries.len() ==> {
                &&& (#[trigger] writer.entries[k]).status == ManifestStatus::Existing
                &&& exists|entry: ManifestEntry| #[trigger]
                    manifest.entries@.contains(entry) && entry.alive() && {
                        &&& writer.entries[k].snapshot_id == entry.snapshot_id
                        &&& writer.entries[k].sequence_number == entry.sequence_number
                        &&& writer.entries[k].file_sequence_number == entry.file_sequence_number
                        &&& writer.entries[k].data_file == entry.data_file
                    }
            },
{
    let entries = manifest.entries@;
    let survives = |e: ManifestEntry| replace_files::survives(producer, e);
    assert forall|k: int| 0 <= k < writer.entries.len() implies {
        &&& (#[trigger] writer.entries[k]).status == ManifestStatus::Existing
        &&& exists|entry: ManifestEntry| #[trigger]
            entries.contains(entry) && entry.alive() && {
                &&& writer.entries[k].snapshot_id == entry.snapshot_id
                &&& writer.entries[k].sequence_number == entry.sequence_number
                &&& writer.entries[k].file_sequence_number == entry.file_sequence_number
                &&& writer.entries[k].data_file == entry.data_file
            }
    } by {
        let entry = entries.filter(survives)[k];
        assert(writer.entries[k] == entry.carried());
        entries.lemma_filter_contains_rev(survives, entry);
        entries.lemma_filter_pred(survives, k);
        assert(entries.contains(entry));
    }
}

/// Whether what stands in place of a manifest still lists a live entry of it.
pub open spec fn still_lists(
    manifest: CurrentManifest,
    existing: Option<ExistingManifestView>,
    entry: ManifestEntry,
) -> bool {
    match existing {
        Some(ExistingManifestView::Kept(_)) => manifest.entries@.contains(entry),
        Some(ExistingManifestView::Rewritten(writer)) => writer.entries.contains(entry.carried()),
        None => false,
    }
}

/// Exactly the live files that are not removed stay in the table: what stands in place
/// of a manifest lists a live entry of it if and only if the entry's path is not that
/// of a removed file.
pub proof fn law_live_files_stay_unless_removed(
    producer: SnapshotProducer,
    manifest: CurrentManifest,
    entry: ManifestEntry,
)
    requires
        manifest.entries@.contains(entry),
        entry.alive(),
    ensures
        still_lists(manifest, replace_files::existing_of(producer, manifest), entry)
            <==> !producer.names(entry),
{
    let entries = manifest.entries@;
    let survives = |e: ManifestEntry| replace_files::survives(producer, e);
    let kept = replace_files::survivors(producer, entries);
    let i = choose|i: int| 0 <= i < entries.len() && entries[i] == entry;
    if producer.names(entry) {
        assert(replace_files::touches(producer, entries)) by {
            assert(producer.names(entries[i]));
        }
        if kept.contains(entry.carried()) {
            let k = choose|k: int| 0 <= k < kept.len() && kept[k] == entry.carried();
            entries.lemma_filter_pred(survives, k);
            assert(entries.filter(survives)[k].data_file == entry.data_file);
        }
    } else if replace_files::touches(producer, entries) {
        entries.lemma_filter_contains(survives, i);
        let k = choose|k: int|
            0 <= k < entries.filter(survives).len() && entries.filter(survives)[k] == entry;
        assert(kept[k] == entry.carried());
    }
}

/// A file that is marked as deleted does not stay: no entry is both marked and carried
/// forward.
pub proof fn law_marked_files_do_not_stay(producer: SnapshotProducer, entry: ManifestEntry)
    requires
        producer.removes(entry),
    ensures
        producer.names(entry),
        !replace_files::survives(producer, entry),
{
}

/// No live file gets lost: where no removed delete file has the path of a listed data
/// file, nor the other way round, every live entry is carried forward or marked as
/// deleted.
pub proof fn law_no_live_file_is_lost(
    producer: SnapshotProducer,
    manifests: Seq<CurrentManifest>,
    i: int,
    entry: ManifestEntry,
)
    requires
        0 <= i < manifests.len(),
        manifests[i].entries@.contains(entry),
        entry.alive(),
        producer.names(entry) ==> producer.removes(entry),
    ensures
        still_lists(manifests[i], replace_files::existing_of(producer, manifests[i]), entry)
            || replace_files::all_deletions(producer, manifests).contains(entry.deleted()),
{
    law_live_files_stay_unless_removed(producer, manifests[i], entry);
    if producer.removes(entry) {
        assert(lists(manifests, entry));
        law_every_removed_file_is_marked(producer, manifests, entry);
    }
}

/// A manifest that lists no removed file is kept as it is, in its place among the
/// others.
pub proof fn law_untouched_manifests_are_kept(
    producer: SnapshotProducer,
    manifests: Seq<CurrentManifest>,
)
    requires
        forall|i: int|
            0 <= i < manifests.len() ==> !replace_files::touches(
                producer,
                (#[trigger] manifests[i]).entries@,
            ),
    ensures
        replace_files::all_existing(producer, manifests) == manifests.map_values(
            |m: CurrentManifest| ExistingManifestView::Kept(m.file@),
        ),
        replace_files::all_deletions(producer, manifests).len() == 0,
    decreases manifests.len(),
{
    let kept = |m: CurrentManifest| ExistingManifestView::Kept(m.file@);
    if manifests.len() > 0 {
        let shorter = manifests.drop_last();
        let last = manifests.last();
        assert forall|i: int| 0 <= i < shorter.len() implies !replace_files::touches(
            producer,
            (#[trigger] shorter[i]).entries@,
        ) by {
            assert(shorter[i] == manifests[i]);
        }
        law_untouched_manifests_are_kept(producer, shorter);
        assert(manifests[manifests.len() - 1] == last);
        assert(manifests.map_values(kept) =~= shorter.map_values(kept).push(kept(last)));
        let removed = last.entries@.filter(|e: ManifestEntry| producer.removes(e));
        if removed.len() > 0 {
            last.entries@.lemma_filter_pred(|e: ManifestEntry| producer.removes(e), 0);
            last.entries@.lemma_filter_contains_rev(
                |e: ManifestEntry| producer.removes(e),
                removed[0],
            );
            let j = choose|j: int|
                0 <= j < last.entries@.len() && last.entries@[j] == removed[0];
            assert(producer.names(last.entries@[j]));
        }
    } else {
        assert(manifests.map_values(kept) =~= Seq::<ExistingManifestView>::empty());
    }
}

/// What was handed to an action stands in it once, by what it holds: data files apart
/// from delete files, each in the order in which they were handed over.
pub proof fn law_files_are_sorted_by_content(files: Seq<DataFile>)
    ensures
        replace_files::data_files_of(files).to_multiset().add(
            replace_files::delete_files_of(files).to_multiset(),
        ) == files.to_multiset(),
        forall|i: int|
            0 <= i < replace_files::data_files_of(files).len() ==> (
            #[trigger] replace_files::data_files_of(files)[i]).content == DataContentType::Data,
        forall|i: int|
            0 <= i < replace_files::delete_files_of(files).len() ==> (
            #[trigger] replace_files::delete_files_of(files)[i]).content != DataContentType::Data,
    decreases files.len(),
{
    broadcast use vstd::seq_lib::group_to_multiset_ensures;

    reveal(Seq::filter);
    let is_data = |f: DataFile| f.content == DataContentType::Data;
    let is_delete = |f: DataFile| f.content != DataContentType::Data;
    if files.len() > 0 {
        let shorter = files.drop_last();
        law_files_are_sorted_by_content(shorter);
        assert(files =~= shorter.push(files.last()));
    }
    assert(replace_files::data_files_of(files).to_multiset().add(
        replace_files::delete_files_of(files).to_multiset(),
    ) =~= files.to_multiset());
    assert forall|i: int| 0 <= i < replace_files::data_files_of(files).len() implies (
    #[trigger] replace_files::data_files_of(files)[i]).content == DataContentType::Data by {
        files.lemma_filter_pred(is_data, i);
    }
    assert forall|i: int| 0 <= i < replace_files::delete_files_of(files).len() implies (
    #[trigger] replace_files::delete_files_of(files)[i]).content != DataContentType::Data by {
        files.lemma_filter_pred(is_delete, i);
    }
}

/// Whether an entry is a position delete that was added after a sequence number, and
/// that applies to one of the files, or is not known to leave them alone.
pub open spec fn endangers(
    entry: ManifestEntry,
    removed: Seq<DataFile>,
    sequence_number: i64,
) -> bool {
    &&& entry.data_file.content == DataContentType::PositionDeletes
    &&& snapshot::added_after(entry, sequence_number)
    &&& exists|i: int|
        0 <= i < removed.len() && (snapshot::targets(
            entry.data_file,
            (#[trigger] removed[i]).file_path@,
        ) || !snapshot::identifies_target(entry.data_file))
}

proof fn lemma_first_target(delete_file: DataFile, files: Seq<DataFile>)
    ensures
        snapshot::first_target(delete_file, files) is Some <==> exists|i: int|
            0 <= i < files.len() && snapshot::targets(
                delete_file,
                (#[trigger] files[i]).file_path@,
            ),
    decreases files.len(),
{
    if files.len() > 0 {
        let rest = files.skip(1);
        lemma_first_target(delete_file, rest);
        if exists|i: int|
            0 <= i < files.len() && snapshot::targets(
                delete_file,
                (#[trigger] files[i]).file_path@,
            ) {
            let i = choose|i: int|
                0 <= i < files.len() && snapshot::targets(
                    delete_file,
                    (#[trigger] files[i]).file_path@,
                );
            if i > 0 {
                assert(rest[i - 1] == files[i]);
            }
        }
        if exists|i: int|
            0 <= i < rest.len() && snapshot::targets(
                delete_file,
                (#[trigger] rest[i]).file_path@,
            ) {
            let i = choose|i: int|
                0 <= i < rest.len() && snapshot::targets(
                    delete_file,
                    (#[trigger] rest[i]).file_path@,
                );
            assert(files[i + 1] == rest[i]);
        }
    }
}

/// No new delete slips through, and none is blamed wrongly: there is a conflict if and
/// only if one of the entries is a position delete that was added since, and that
/// names a removed file or names none.
pub proof fn law_new_deletes_are_conflicts(
    entries: Seq<ManifestEntry>,
    removed: Seq<DataFile>,
    sequence_number: i64,
)
    ensures
        snapshot::first_conflict(entries, removed, sequence_number) is Some <==> exists|i: int|
            0 <= i < entries.len() && endangers(#[trigger] entries[i], removed, sequence_number),
    decreases entries.len(),
{
    if entries.len() > 0 {
        let rest = entries.skip(1);
        let first = entries[0];
        law_new_deletes_are_conflicts(rest, removed, sequence_number);
        lemma_first_target(first.data_file, removed);
        assert(snapshot::conflict(first, removed, sequence_number) is Some <==> endangers(
            first,
            removed,
            sequence_number,
        )) by {
            if removed.len() > 0 && !snapshot::identifies_target(first.data_file) {
                assert(snapshot::targets(first.data_file, removed[0].file_path@)
                    || !snapshot::identifies_target(first.data_file));
            }
        }
        if exists|i: int|
            0 <= i < entries.len() && endangers(#[trigger] entries[i], removed, sequence_number) {
            let i = choose|i: int|
                0 <= i < entries.len() && endangers(
                    #[trigger] entries[i],
                    removed,
                    sequence_number,
                );
            if i > 0 {
                assert(rest[i - 1] == entries[i]);
            }
        }
        if exists|i: int|
            0 <= i < rest.len() && endangers(#[trigger] rest[i], removed, sequence_number) {
            let i = choose|i: int|
                0 <= i < rest.len() && endangers(#[trigger] rest[i], removed, sequence_number);
            assert(entries[i + 1] == rest[i]);
        }
    }
}

/// Equality deletes never stand in the way, and neither do deletes of any kind where
/// no data file is removed.
pub proof fn law_equality_deletes_are_no_conflicts(
    entries: Seq<ManifestEntry>,
    removed: Seq<DataFile>,
    sequence_number: i64,
)
    requires
        removed.len() == 0 || forall|i: int|
            0 <= i < entries.len() ==> (#[trigger] entries[i]).data_file.content
                == DataContentType::EqualityDeletes,
    ensures
        snapshot::first_conflict(entries, removed, sequence_number) is None,
{
    law_new_deletes_are_conflicts(entries, removed, sequence_number);
}

/// Files are looked for by their path: an entry is removed where a removed file of its
/// kind, data or deletes, has its path, and it is named where any removed file has.
pub proof fn law_files_are_removed_by_path(producer: SnapshotProducer, entry: ManifestEntry)
    ensures
        producer.removes(entry) <==> {
            ||| entry.data_file.content == DataContentType::Data && exists|i: int|
                0 <= i < producer.removed_data_files@.len() && (
                #[trigger] producer.removed_data_files@[i]).file_path@
                    == entry.data_file.file_path@
            ||| entry.data_file.content != DataContentType::Data && exists|i: int|
                0 <= i < producer.removed_delete_files@.len() && (
                #[trigger] producer.removed_delete_files@[i]).file_path@
                    == entry.data_file.file_path@
        },
        producer.names(entry) <==> {
            ||| exists|i: int|
                0 <= i < producer.removed_data_files@.len() && (
                #[trigger] producer.removed_data_files@[i]).file_path@
                    == entry.data_file.file_path@
            ||| exists|i: int|
                0 <= i < producer.removed_delete_files@.len() && (
                #[trigger] producer.removed_delete_files@[i]).file_path@
                    == entry.data_file.file_path@
        },
{
}

/// Where manifests are handled one after the other, each is handled as if it stood
/// alone: what two lists come to, one behind the other, is what the first comes to and
/// then what the second comes to.
pub proof fn law_manifests_are_handled_one_by_one(
    producer: SnapshotProducer,
    a: Seq<CurrentManifest>,
    b: Seq<CurrentManifest>,
)
    ensures
        replace_files::all_existing(producer, a + b) == replace_files::all_existing(producer, a)
            + replace_files::all_existing(producer, b),
        replace_files::all_deletions(producer, a + b) == replace_files::all_deletions(producer, a)
            + replace_files::all_deletions(producer, b),
    decreases b.len(),
{
    if b.len() == 0 {
        assert(a + b =~= a);
    } else {
        law_manifests_are_handled_one_by_one(producer, a, b.drop_last());
        assert((a + b).drop_last() =~= a + b.drop_last());
        assert((a + b).last() == b.last());
    }
    assert(replace_files::all_existing(producer, a + b) =~= replace_files::all_existing(producer, a)
        + replace_files::all_existing(producer, b));
    assert(replace_files::all_deletions(producer, a + b) =~= replace_files::all_deletions(
        producer,
        a,
    ) + replace_files::all_deletions(producer, b));
}

proof fn lemma_one_manifest(producer: SnapshotProducer, manifest: CurrentManifest)
    ensures
        replace_files::all_existing(producer, seq![manifest]) == (match replace_files::existing_of(
            producer,
            manifest,
        ) {
            Some(e) => seq![e],
            None => Seq::empty(),
        }),
        replace_files::all_deletions(producer, seq![manifest]) == replace_files::deletions(
            producer,
            manifest.entries@,
        ),
{
    let one = seq![manifest];
    assert(one.drop_last() =~= Seq::<CurrentManifest>::empty());
    reveal_with_fuel(replace_files::all_existing, 2);
    reveal_with_fuel(replace_files::all_deletions, 2);
    assert(replace_files::all_deletions(producer, one) =~= replace_files::deletions(
        producer,
        manifest.entries@,
    ));
    assert(replace_files::all_existing(producer, one) =~= (match replace_files::existing_of(
        producer,
        manifest,
    ) {
        Some(e) => seq![e],
        None => Seq::empty(),
    }));
}

/// Entries are marked one by one, in their order: for a manifest with one entry more
/// there is one deletion more where a removed file of the entry's kind has its path,
/// and none more where no such file has.
pub proof fn law_deletions_are_marked_entry_by_entry(
    producer: SnapshotProducer,
    manifest: CurrentManifest,
    longer: CurrentManifest,
    entry: ManifestEntry,
)
    requires
        longer.entries@ == manifest.entries@.push(entry),
    ensures
        ({
            let path = entry.data_file.file_path@;
            let before = replace_files::all_deletions(producer, seq![manifest]);
            let after = replace_files::all_deletions(producer, seq![longer]);
            let marked = ManifestEntry { status: ManifestStatus::Deleted, ..entry };
            &&& entry.data_file.content == DataContentType::Data && !is_path_of_none(
                producer.removed_data_files@,
                path,
            ) ==> after == before.push(marked)
            &&& entry.data_file.content == DataContentType::Data && is_path_of_none(
                producer.removed_data_files@,
                path,
            ) ==> after == before
            &&& entry.data_file.content != DataContentType::Data && !is_path_of_none(
                producer.removed_delete_files@,
                path,
            ) ==> after == before.push(marked)
            &&& entry.data_file.content != DataContentType::Data && is_path_of_none(
                producer.removed_delete_files@,
                path,
            ) ==> after == before
            &&& manifest.entries@.len() == 0 ==> before.len() == 0
        }),
{
    lemma_one_manifest(producer, manifest);
    lemma_one_manifest(producer, longer);
    reveal(Seq::filter);
    let entries = manifest.entries@;
    assert(longer.entries@.drop_last() =~= entries);
    law_files_are_removed_by_path(producer, entry);
    if producer.removes(entry) {
        assert(replace_files::deletions(producer, longer.entries@) =~= replace_files::deletions(
            producer,
            entries,
        ).push(entry.deleted()));
    }
}

/// Whether a path is that of no file.
pub open spec fn is_path_of_none(files: Seq<DataFile>, path: Seq<char>) -> bool {
    forall|i: int| 0 <= i < files.len() ==> (#[trigger] files[i]).file_path@ != path
}

/// A manifest that lists no removed file is kept as it is, wherever it stands, whatever
/// it lists and whatever is removed: it is enough that no entry has the path of a
/// removed data file or of a removed delete file.
pub proof fn law_manifests_without_removed_paths_are_kept(
    producer: SnapshotProducer,
    manifests: Seq<CurrentManifest>,
    i: int,
)
    requires
        0 <= i < manifests.len(),
        forall|k: int|
            #![trigger manifests[i].entries@[k]]
            0 <= k < manifests[i].entries@.len() ==> is_path_of_none(
                producer.removed_data_files@,
                manifests[i].entries@[k].data_file.file_path@,
            ) && is_path_of_none(
                producer.removed_delete_files@,
                manifests[i].entries@[k].data_file.file_path@,
            ),
    ensures
        replace_files::all_existing(producer, manifests) == replace_files::all_existing(
            producer,
            manifests.take(i),
        ).push(ExistingManifestView::Kept(manifests[i].file@)) + replace_files::all_existing(
            producer,
            manifests.skip(i + 1),
        ),
        replace_files::all_deletions(producer, seq![manifests[i]]).len() == 0,
{
    let m = manifests[i];
    assert forall|k: int| 0 <= k < m.entries@.len() implies !producer.names(
        #[trigger] m.entries@[k],
    ) by {
        assert(manifests[i].entries@[k] == m.entries@[k]);
        law_files_are_removed_by_path(producer, m.entries@[k]);
    }
    assert(!replace_files::touches(producer, m.entries@));
    lemma_around(producer, manifests, i);
    assert(seq![m].map_values(|m: CurrentManifest| ExistingManifestView::Kept(m.file@)) =~= seq![
        ExistingManifestView::Kept(m.file@),
    ]);
    law_untouched_manifests_are_kept(producer, seq![m]);
    assert(replace_files::all_existing(producer, manifests.take(i)) + seq![
        ExistingManifestView::Kept(m.file@),
    ] =~= replace_files::all_existing(producer, manifests.take(i)).push(
        ExistingManifestView::Kept(m.file@),
    ));
}

proof fn lemma_around(producer: SnapshotProducer, manifests: Seq<CurrentManifest>, i: int)
    requires
        0 <= i < manifests.len(),
    ensures
        replace_files::all_existing(producer, manifests) == replace_files::all_existing(
            producer,
            manifests.take(i),
        ) + replace_files::all_existing(producer, seq![manifests[i]])
            + replace_files::all_existing(producer, manifests.skip(i + 1)),
{
    let front = manifests.take(i) + seq![manifests[i]];
    assert(manifests =~= front + manifests.skip(i + 1));
    law_manifests_are_handled_one_by_one(producer, front, manifests.skip(i + 1));
    law_manifests_are_handled_one_by_one(producer, manifests.take(i), seq![manifests[i]]);
}

/// Survivors are carried forward one by one, in their order. Of a manifest that lists a
/// file with the path of a removed one, the entries that stay are those that are not
/// marked as deleted and whose path is that of no removed data file and of no removed
/// delete file; each stays as existing, with its own file, snapshot and sequence
/// numbers. One entry more at the end makes one survivor more, or none.
pub proof fn law_survivors_are_carried_entry_by_entry(
    producer: SnapshotProducer,
    manifest: CurrentManifest,
    longer: CurrentManifest,
    entry: ManifestEntry,
    k: int,
)
    requires
        longer.file == manifest.file,
        longer.entries@ == manifest.entries@.push(entry),
        0 <= k < manifest.entries@.len(),
        !is_path_of_none(
            producer.removed_data_files@,
            manifest.entries@[k].data_file.file_path@,
        ) || !is_path_of_none(
            producer.removed_delete_files@,
            manifest.entries@[k].data_file.file_path@,
        ),
    ensures
        ({
            let path = entry.data_file.file_path@;
            let stays = (entry.status == ManifestStatus::Added || entry.status
                == ManifestStatus::Existing) && is_path_of_none(
                producer.removed_data_files@,
                path,
            ) && is_path_of_none(producer.removed_delete_files@, path);
            let carried = ManifestEntry { status: ManifestStatus::Existing, ..entry };
            let before = replace_files::all_existing(producer, seq![manifest]);
            let after = replace_files::all_existing(producer, seq![longer]);
            &&& !stays ==> after == before
            &&& stays && before.len() == 0 ==> after == seq![
                ExistingManifestView::Rewritten(
                    ManifestWriterView {
                        content: manifest.file.content,
                        partition_spec_id: manifest.file.partition_spec_id,
                        entries: seq![carried],
                    },
                ),
            ]
            &&& stays && before.len() > 0 ==> before.len() == 1 && match before[0] {
                ExistingManifestView::Rewritten(w) => {
                    &&& w.content == manifest.file.content
                    &&& w.partition_spec_id == manifest.file.partition_spec_id
                    &&& after == seq![
                        ExistingManifestView::Rewritten(
                            ManifestWriterView { entries: w.entries.push(carried), ..w },
                        ),
                    ]
                },
                ExistingManifestView::Kept(_) => false,
            }
        }),
{
    let entries = manifest.entries@;
    lemma_one_manifest(producer, manifest);
    lemma_one_manifest(producer, longer);
    law_files_are_removed_by_path(producer, entries[k]);
    law_files_are_removed_by_path(producer, entry);
    assert(producer.names(entries[k]));
    assert(replace_files::touches(producer, entries));
    assert(longer.entries@[k] == entries[k]);
    assert(replace_files::touches(producer, longer.entries@));
    reveal(Seq::filter);
    assert(longer.entries@.drop_last() =~= entries);
    let kept = replace_files::survivors(producer, entries);
    if replace_files::survives(producer, entry) {
        assert(replace_files::survivors(producer, longer.entries@) =~= kept.push(entry.carried()));
        if kept.len() == 0 {
            assert(kept.push(entry.carried()) =~= seq![entry.carried()]);
        }
    }
}

/// A live file whose path is that of no removed file stays listed, wherever its manifest
/// stands: either its manifest is kept as it is, or a manifest with the same content
/// type and partition spec carries the entry forward.
pub proof fn law_live_files_without_removed_paths_stay(
    producer: SnapshotProducer,
    manifests: Seq<CurrentManifest>,
    i: int,
    k: int,
)
    requires
        0 <= i < manifests.len(),
        0 <= k < manifests[i].entries@.len(),
        manifests[i].entries@[k].status != ManifestStatus::Deleted,
        is_path_of_none(
            producer.removed_data_files@,
            manifests[i].entries@[k].data_file.file_path@,
        ),
        is_path_of_none(
            producer.removed_delete_files@,
            manifests[i].entries@[k].data_file.file_path@,
        ),
    ensures
        ({
            let file = manifests[i].file;
            let entry = manifests[i].entries@[k];
            let existing = replace_files::all_existing(producer, manifests);
            exists|j: int|
                0 <= j < existing.len() && match #[trigger] existing[j] {
                    ExistingManifestView::Kept(kept) => kept == file@,
                    ExistingManifestView::Rewritten(w) => {
                        &&& w.content == file.content
                        &&& w.partition_spec_id == file.partition_spec_id
                        &&& w.entries.contains(
                            ManifestEntry { status: ManifestStatus::Existing, ..entry },
                        )
                    },
                }
        }),
{
    let m = manifests[i];
    let entry = m.entries@[k];
    law_files_are_removed_by_path(producer, entry);
    assert(m.entries@.contains(entry));
    law_live_files_stay_unless_removed(producer, m, entry);
    lemma_one_manifest(producer, m);
    lemma_around(producer, manifests, i);
    let front = replace_files::all_existing(producer, manifests.take(i));
    let existing = replace_files::all_existing(producer, manifests);
    let mine = replace_files::existing_of(producer, m).unwrap();
    assert(existing[front.len() as int] == mine);
}

/// A removed file is listed no more: no manifest that is rewritten carries an entry with
/// the path of a removed data file or of a removed delete file, and no manifest that
/// lists one is kept.
pub proof fn law_removed_paths_are_gone(
    producer: SnapshotProducer,
    manifest: CurrentManifest,
    k: int,
)
    requires
        0 <= k < manifest.entries@.len(),
        !is_path_of_none(
            producer.removed_data_files@,
            manifest.entries@[k].data_file.file_path@,
        ) || !is_path_of_none(
            producer.removed_delete_files@,
            manifest.entries@[k].data_file.file_path@,
        ),
    ensures
        ({
            let existing = replace_files::all_existing(producer, seq![manifest]);
            &&& existing.len() <= 1
            &&& existing.len() == 1 ==> match existing[0] {
                ExistingManifestView::Rewritten(w) => forall|j: int|
                    0 <= j < w.entries.len() ==> is_path_of_none(
                        producer.removed_data_files@,
                        (#[trigger] w.entries[j]).data_file.file_path@,
                    ) && is_path_of_none(
                        producer.removed_delete_files@,
                        w.entries[j].data_file.file_path@,
                    ) && w.entries[j].data_file.file_path@
                        != manifest.entries@[k].data_file.file_path@,
                ExistingManifestView::Kept(_) => false,
            }
        }),
{
    let entries = manifest.entries@;
    lemma_one_manifest(producer, manifest);
    law_files_are_removed_by_path(producer, entries[k]);
    assert(producer.names(entries[k]));
    assert(replace_files::touches(producer, entries));
    let kept = replace_files::survivors(producer, entries);
    let survives = |e: ManifestEntry| replace_files::survives(producer, e);
    assert forall|j: int| 0 <= j < kept.len() implies is_path_of_none(
        producer.removed_data_files@,
        (#[trigger] kept[j]).data_file.file_path@,
    ) && is_path_of_none(producer.removed_delete_files@, kept[j].data_file.file_path@)
        && kept[j].data_file.file_path@ != entries[k].data_file.file_path@ by {
        entries.lemma_filter_pred(survives, j);
        let e = entries.filter(survives)[j];
        assert(kept[j].data_file == e.data_file);
        law_files_are_removed_by_path(producer, e);
    }
}

/// The checks that were asked for are made, each once and before the snapshot is
/// produced, whatever else is set; those that were not asked for are not made. The last
/// step, and only that one, produces the snapshot, with the operation of the mode and
/// the merge settings of the action.
pub proof fn law_commits_make_the_checks_that_were_asked_for<M: ReplaceFilesMode>(
    action: ReplaceFilesAction<M>,
    id: i64,
)
    ensures
        ({
            let steps = action.steps();
            let n = steps.len() - 1;
            &&& n >= 0
            &&& steps[n] is Commit
            &&& steps[n]->operation == M::recorded()
            &&& action.merge_enabled ==> steps[n]->process == (ManifestProcess::Merge {
                target_size_bytes: action.target_size_bytes,
                min_count_to_merge: action.min_count_to_merge,
            })
            &&& !action.merge_enabled ==> steps[n]->process == ManifestProcess::Default
            &&& forall|i: int| 0 <= i < n ==> !((#[trigger] steps[i]) is Commit)
            &&& steps.no_duplicates()
            &&& (exists|i: int| 0 <= i < n && (#[trigger] steps[i]) is ValidateDataFileChanges)
                <==> action.check_file_existence
            &&& (exists|i: int|
                0 <= i < n && #[trigger] steps[i] == (CommitStep::ValidateNoNewDeletes {
                    starting_snapshot_id: id,
                })) <==> action.validate_from_snapshot_id == Some(id)
            &&& action.check_file_existence ==> steps[0] is ValidateDataFileChanges
        }),
{
    let steps = action.steps();
    let n = steps.len() - 1;
    let first = if action.check_file_existence {
        1int
    } else {
        0int
    };
    if action.check_file_existence {
        assert(steps[0] == CommitStep::ValidateDataFileChanges);
    }
    if let Some(starting_snapshot_id) = action.validate_from_snapshot_id {
        assert(steps[first] == (CommitStep::ValidateNoNewDeletes { starting_snapshot_id }));
        assert(n == first + 1);
    } else {
        assert(n == first);
    }
    assert(steps[n] is Commit);
}

/// Rewriting records a replacement, and overwriting records an overwrite.
pub proof fn law_modes_record_their_operations()
    ensures
        Rewrite::recorded() == Operation::Replace,
        Overwrite::recorded() == Operation::Overwrite,
{
}

/// The producer is handed what was set on the action, all of it and nothing else.
pub proof fn law_producers_are_handed_the_settings<M: ReplaceFilesMode>(
    action: ReplaceFilesAction<M>,
    producer: SnapshotProducer,
    path: Seq<char>,
)
    requires
        action.sets_up(producer),
    ensures
        action.commit_uuid is Some ==> producer.commit_uuid == action.commit_uuid.unwrap(),
        *producer.key_metadata == action.key_metadata,
        producer.snapshot_id == action.snapshot_id,
        *producer.snapshot_properties == action.snapshot_properties,
        *producer.added_data_files == action.added_data_files,
        *producer.added_delete_files == action.added_delete_files,
        *producer.removed_data_files == action.removed_data_files,
        *producer.removed_delete_files == action.removed_delete_files,
        producer.new_data_file_sequence_number == action.new_data_file_sequence_number,
        producer.target_branch == action.target_branch,
        producer.delete_filter_manager_enabled == action.enable_delete_filter_manager,
        producer.removed_data_file_paths@.contains(path) <==> !is_path_of_none(
            action.removed_data_files@,
            path,
        ),
        producer.removed_delete_file_paths@.contains(path) <==> !is_path_of_none(
            action.removed_delete_files@,
            path,
        ),
{
}

/// A new action has nothing set: no files, no checks, no merging, the usual sizes.
pub proof fn law_new_actions_have_nothing_set<M: ReplaceFilesMode>(action: ReplaceFilesAction<M>)
    requires
        action.is_default(),
    ensures
        action.target_size_bytes == 8 * 1024 * 1024,
        action.min_count_to_merge == 100,
        !action.merge_enabled,
        action.commit_uuid is None,
        action.key_metadata is None,
        action.snapshot_properties@.dom() == Set::<Seq<char>>::empty(),
        action.added_data_files@.len() == 0,
        action.added_delete_files@.len() == 0,
        action.removed_data_files@.len() == 0,
        action.removed_delete_files@.len() == 0,
        action.snapshot_id is None,
        action.new_data_file_sequence_number is None,
        action.target_branch is None,
        !action.enable_delete_filter_manager,
        !action.check_file_existence,
        action.validate_from_snapshot_id is None,
{
    assert(action.snapshot_properties@.dom() =~= Set::<Seq<char>>::empty());
}

/// A numeric setting is the number that the property says in decimal, with or without a
/// plus sign, as far as it fits in 32 bits; else it is the default.
pub proof fn law_numeric_settings_are_read(
    properties: Map<Seq<char>, Seq<char>>,
    name: Seq<char>,
    default: u32,
    n: nat,
    i: int,
)
    ensures
        !properties.contains_key(name) ==> replace_files::number_setting(
            properties,
            name,
            default,
        ) == default,
        properties.contains_key(name) && (properties[name] == text::decimal(n) || properties[name]
            == seq!['+'] + text::decimal(n)) ==> replace_files::number_setting(
            properties,
            name,
            default,
        ) == (if n <= u32::MAX {
            n
        } else {
            default as nat
        }),
        properties.contains_key(name) && 0 <= i < properties[name].len() && !('0'
            <= properties[name][i] <= '9') && !(i == 0 && properties[name][0] == '+')
            ==> replace_files::number_setting(properties, name, default) == default,
        properties.contains_key(name) && properties[name].len() == 0
            ==> replace_files::number_setting(properties, name, default) == default,
        properties.contains_key(name) && text::unsigned_value(
            properties[name],
            u32::MAX as nat,
        ) == Some(n) ==> replace_files::number_setting(properties, name, default) == n,
{
    value_laws::law_written_numbers_are_read_back(n, u32::MAX as nat);
    if properties.contains_key(name) {
        let t = properties[name];
        if t.len() == 0 || (0 <= i < t.len() && !('0' <= t[i] <= '9') && !(i == 0 && t[0] == '+')) {
            value_laws::law_only_digits_make_a_number(t, u32::MAX as nat, i);
        }
    }
}

/// A truth setting is the truth value that the property says; else it is the default.
pub proof fn law_truth_settings_are_read(
    properties: Map<Seq<char>, Seq<char>>,
    name: Seq<char>,
    default: bool,
)
    ensures
        ({
            let setting = replace_files::bool_setting(properties, name, default);
            &&& !properties.contains_key(name) ==> setting == default
            &&& properties.contains_key(name) && properties[name] == "true"@ ==> setting
            &&& properties.contains_key(name) && properties[name] == "false"@ ==> !setting
            &&& properties.contains_key(name) && properties[name] != "true"@ && properties[name]
                != "false"@ ==> setting == default
        }),
{
    if properties.contains_key(name) {
        value_laws::law_truth_values_are_read(properties[name]);
    }
}

/// Files are sorted as they come: one more file at the end is one more data file, or one
/// more delete file, by position or by equality.
pub proof fn law_files_are_sorted_one_by_one(files: Seq<DataFile>, file: DataFile)
    ensures
        replace_files::data_files_of(Seq::empty()).len() == 0,
        replace_files::delete_files_of(Seq::empty()).len() == 0,
        file.content == DataContentType::Data ==> replace_files::data_files_of(files.push(file))
            == replace_files::data_files_of(files).push(file) && replace_files::delete_files_of(
            files.push(file),
        ) == replace_files::delete_files_of(files),
        file.content == DataContentType::PositionDeletes || file.content
            == DataContentType::EqualityDeletes ==> replace_files::delete_files_of(files.push(file))
            == replace_files::delete_files_of(files).push(file) && replace_files::data_files_of(
            files.push(file),
        ) == replace_files::data_files_of(files),
{
    reveal(Seq::filter);
    assert(files.push(file).drop_last() =~= files);
}

/// The bytes under a field id: those of the first pair that has it.
pub open spec fn is_bound(bounds: Seq<(i32, Vec<u8>)>, i: int) -> bool {
    &&& 0 <= i < bounds.len()
    &&& bounds[i].0 == 2147483546
    &&& forall|j: int| 0 <= j < i ==> (#[trigger] bounds[j]).0 != 2147483546
}

proof fn lemma_bound_of(bounds: Seq<(i32, Vec<u8>)>)
    ensures
        ({
            let bound = snapshot::bound_of(bounds, 2147483546);
            &&& bound is Some <==> exists|i: int| #[trigger] is_bound(bounds, i)
            &&& forall|i: int| #[trigger] is_bound(bounds, i) ==> bound == Some(bounds[i].1@)
        }),
    decreases bounds.len(),
{
    if bounds.len() > 0 {
        let rest = bounds.skip(1);
        lemma_bound_of(rest);
        if bounds[0].0 == 2147483546 {
            assert(is_bound(bounds, 0));
            assert forall|i: int| #[trigger] is_bound(bounds, i) implies i == 0 by {
                if i > 0 {
                    assert(bounds[0].0 != 2147483546);
                }
            }
        } else {
            assert forall|i: int| #[trigger] is_bound(bounds, i) implies i > 0 && is_bound(
                rest,
                i - 1,
            ) && bounds[i] == rest[i - 1] by {
                assert forall|j: int| 0 <= j < i - 1 implies (#[trigger] rest[j]).0
                    != 2147483546 by {
                    assert(rest[j] == bounds[j + 1]);
                }
            }
            assert forall|i: int| #[trigger] is_bound(rest, i) implies is_bound(bounds, i + 1) by {
                assert forall|j: int| 0 <= j < i + 1 implies (#[trigger] bounds[j]).0
                    != 2147483546 by {
                    if j > 0 {
                        assert(rest[j - 1] == bounds[j]);
                    }
                }
            }
            if snapshot::bound_of(bounds, 2147483546) is Some {
                let i = choose|i: int| #[trigger] is_bound(rest, i);
                assert(is_bound(bounds, i + 1));
            }
        }
    }
}

/// A position delete file names its data file where it records it; where it records
/// none, it names the one file whose path is both the lower and the upper bound of its
/// path column. Where it does neither, it names none.
pub proof fn law_delete_files_name_their_target(delete_file: DataFile, path: Seq<char>)
    ensures
        delete_file.referenced_data_file matches Some(target) ==> snapshot::identifies_target(
            delete_file,
        ) && (snapshot::targets(delete_file, path) <==> target@ == path),
        delete_file.referenced_data_file is None ==> {
            &&& snapshot::targets(delete_file, path) <==> exists|i: int, j: int|
                {
                    &&& #[trigger] is_bound(delete_file.lower_bounds@, i)
                    &&& #[trigger] is_bound(delete_file.upper_bounds@, j)
                    &&& delete_file.lower_bounds@[i].1@ == delete_file.upper_bounds@[j].1@
                    &&& delete_file.lower_bounds@[i].1@ == vstd::utf8::encode_utf8(path)
                }
            &&& snapshot::identifies_target(delete_file) <==> exists|i: int, j: int|
                {
                    &&& #[trigger] is_bound(delete_file.lower_bounds@, i)
                    &&& #[trigger] is_bound(delete_file.upper_bounds@, j)
                    &&& delete_file.lower_bounds@[i].1@ == delete_file.upper_bounds@[j].1@
                }
        },
{
    value_laws::law_names_and_defaults();
    let lower = delete_file.lower_bounds@;
    let upper = delete_file.upper_bounds@;
    lemma_bound_of(lower);
    lemma_bound_of(upper);
    if snapshot::only_path(delete_file) is Some {
        let i = choose|i: int| #[trigger] is_bound(lower, i);
        let j = choose|j: int| #[trigger] is_bound(upper, j);
        assert(is_bound(lower, i) && is_bound(upper, j));
        assert(lower[i].1@ == upper[j].1@);
    }
}

/// Whether an entry is a position delete that is part of the table, whether its own
/// snapshot added it or it was carried forward, and that has a sequence number above the
/// given one, or none.
pub open spec fn is_later_position_delete(entry: ManifestEntry, sequence_number: i64) -> bool {
    &&& entry.data_file.content == DataContentType::PositionDeletes
    &&& entry.status == ManifestStatus::Added || entry.status == ManifestStatus::Existing
    &&& entry.sequence_number is None || entry.sequence_number.unwrap() > sequence_number
}

/// A position delete that was committed since and names a removed data file is refused,
/// whether its entry is marked as added or as existing: by recording the file, or by
/// the bounds of its path column. One that names no file is refused wherever a data
/// file is removed.
pub proof fn law_later_deletes_are_refused(
    entries: Seq<ManifestEntry>,
    removed: Seq<DataFile>,
    sequence_number: i64,
    i: int,
    j: int,
)
    requires
        0 <= i < entries.len(),
        0 <= j < removed.len(),
        is_later_position_delete(entries[i], sequence_number),
        match entries[i].data_file.referenced_data_file {
            Some(target) => target@ == removed[j].file_path@,
            None => forall|x: int, y: int| #[trigger]
                is_bound(entries[i].data_file.lower_bounds@, x) && #[trigger] is_bound(
                    entries[i].data_file.upper_bounds@,
                    y,
                ) && entries[i].data_file.lower_bounds@[x].1@
                    == entries[i].data_file.upper_bounds@[y].1@
                    ==> entries[i].data_file.lower_bounds@[x].1@ == vstd::utf8::encode_utf8(
                    removed[j].file_path@,
                ),
        },
    ensures
        snapshot::first_conflict(entries, removed, sequence_number) is Some,
{
    let file = entries[i].data_file;
    law_new_deletes_are_conflicts(entries, removed, sequence_number);
    law_delete_files_name_their_target(file, removed[j].file_path@);
    assert(snapshot::targets(file, removed[j].file_path@) || !snapshot::identifies_target(file));
    assert(endangers(entries[i], removed, sequence_number));
}

/// Nothing else is refused: where every entry is no position delete, or was removed
/// again, or has a sequence number that is not above the given one, or records a file
/// that is not removed, or is shown by its bounds to apply to one such file, there is no
/// conflict.
pub proof fn law_other_entries_are_no_conflicts(
    entries: Seq<ManifestEntry>,
    removed: Seq<DataFile>,
    sequence_number: i64,
)
    requires
        forall|i: int|
            #![trigger entries[i]]
            0 <= i < entries.len() ==> {
                ||| entries[i].data_file.content != DataContentType::PositionDeletes
                ||| entries[i].status == ManifestStatus::Deleted
                ||| entries[i].sequence_number matches Some(n) && n <= sequence_number
                ||| entries[i].data_file.referenced_data_file matches Some(target)
                    && is_path_of_none(removed, target@)
                ||| entries[i].data_file.referenced_data_file is None && exists|x: int, y: int|
                    {
                        &&& #[trigger] is_bound(entries[i].data_file.lower_bounds@, x)
                        &&& #[trigger] is_bound(entries[i].data_file.upper_bounds@, y)
                        &&& entries[i].data_file.lower_bounds@[x].1@
                            == entries[i].data_file.upper_bounds@[y].1@
                        &&& forall|j: int|
                            0 <= j < removed.len() ==> vstd::utf8::encode_utf8(
                                (#[trigger] removed[j]).file_path@,
                            ) != entries[i].data_file.lower_bounds@[x].1@
                    }
                ||| removed.len() == 0
            },
    ensures
        snapshot::first_conflict(entries, removed, sequence_number) is None,
{
    law_new_deletes_are_conflicts(entries, removed, sequence_number);
    assert forall|i: int| 0 <= i < entries.len() implies !endangers(
        #[trigger] entries[i],
        removed,
        sequence_number,
    ) by {
        let file = entries[i].data_file;
        if endangers(entries[i], removed, sequence_number) {
            let j = choose|j: int|
                0 <= j < removed.len() && (snapshot::targets(
                    file,
                    (#[trigger] removed[j]).file_path@,
                ) || !snapshot::identifies_target(file));
            law_delete_files_name_their_target(file, removed[j].file_path@);
            lemma_bound_of(file.lower_bounds@);
            lemma_bound_of(file.upper_bounds@);
        }
    }
}

/// The first conflict is the one that is told, by the path of the delete file and, where
/// it names one, the path of the first removed data file that it names.
pub proof fn law_conflicts_are_told_by_path(
    entries: Seq<ManifestEntry>,
    removed: Seq<DataFile>,
    sequence_number: i64,
    i: int,
    j: int,
)
    requires
        0 <= i < entries.len(),
        snapshot::first_conflict(entries.take(i), removed, sequence_number) is None,
        is_later_position_delete(entries[i], sequence_number),
        0 <= j < removed.len(),
    ensures
        snapshot::targets(entries[i].data_file, removed[j].file_path@) && (forall|k: int|
            0 <= k < j ==> !snapshot::targets(
                entries[i].data_file,
                (#[trigger] removed[k]).file_path@,
            )) ==> snapshot::first_conflict(entries, removed, sequence_number) == Some(
            "Cannot commit: delete file "@ + entries[i].data_file.file_path@
                + " was added concurrently for removed data file "@ + removed[j].file_path@,
        ),
        !snapshot::identifies_target(entries[i].data_file) ==> snapshot::first_conflict(
            entries,
            removed,
            sequence_number,
        ) == Some(
            "Cannot commit: delete file "@ + entries[i].data_file.file_path@
                + " was added concurrently and does not identify the data file it applies to"@,
        ),
{
    let entry = entries[i];
    lemma_conflict_after(entries, removed, sequence_number, i);
    assert(entries.skip(i)[0] == entry);
    law_delete_files_name_their_target(entry.data_file, removed[j].file_path@);
    if snapshot::targets(entry.data_file, removed[j].file_path@) && (forall|k: int|
        0 <= k < j ==> !snapshot::targets(
            entry.data_file,
            (#[trigger] removed[k]).file_path@,
        )) {
        lemma_first_target_at(entry.data_file, removed, j);
        lemma_bound_of(entry.data_file.lower_bounds@);
    }
}

proof fn lemma_first_target_at(delete_file: DataFile, files: Seq<DataFile>, j: int)
    requires
        0 <= j < files.len(),
        snapshot::targets(delete_file, files[j].file_path@),
        forall|k: int|
            0 <= k < j ==> !snapshot::targets(delete_file, (#[trigger] files[k]).file_path@),
    ensures
        snapshot::first_target(delete_file, files) == Some(files[j].file_path@),
    decreases j,
{
    if j > 0 {
        let rest = files.skip(1);
        assert(rest[j - 1] == files[j]);
        assert forall|k: int| 0 <= k < j - 1 implies !snapshot::targets(
            delete_file,
            (#[trigger] rest[k]).file_path@,
        ) by {
            assert(rest[k] == files[k + 1]);
        }
        assert(!snapshot::targets(delete_file, files[0].file_path@));
        lemma_first_target_at(delete_file, rest, j - 1);
    }
}

proof fn lemma_conflict_after(
    entries: Seq<ManifestEntry>,
    removed: Seq<DataFile>,
    sequence_number: i64,
    i: int,
)
    requires
        0 <= i < entries.len(),
        snapshot::first_conflict(entries.take(i), removed, sequence_number) is None,
    ensures
        snapshot::first_conflict(entries, removed, sequence_number) == snapshot::first_conflict(
            entries.skip(i),
            removed,
            sequence_number,
        ),
    decreases i,
{
    if i == 0 {
        assert(entries.skip(0) =~= entries);
    } else {
        let front = entries.take(i);
        assert(front[0] == entries[0]);
        assert(front.skip(1) =~= entries.skip(1).take(i - 1));
        assert(entries.skip(1).skip(i - 1) =~= entries.skip(i));
        lemma_conflict_after(entries.skip(1), removed, sequence_number, i - 1);
    }
}

/// It cannot be checked what was deleted since a snapshot that is not in the history of
/// the branch; nor, once the branch has moved on, where new data files do not keep that
/// snapshot's sequence number. In every other case it can.
pub proof fn law_checks_need_history_and_sequence_number(
    metadata: TableMetadata,
    head: Option<i64>,
    id: i64,
    kept: Option<i64>,
)
    ensures
        ({
            let problem = snapshot::uncheckable(metadata, head, id, kept);
            let found = table::snapshot_of(metadata.snapshots@, Some(id));
            let known = table::is_in_history(metadata.snapshots@, head, id);
            &&& !known ==> problem == Some(
                "Cannot validate deletes: snapshot "@ + text::signed_decimal(id as int)
                    + " is not an ancestor of the current snapshot"@,
            )
            &&& known ==> found is Some && found.unwrap().snapshot_id == id
            &&& known && head == Some(id) ==> problem is None
            &&& known && head != Some(id) && kept == Some(found.unwrap().sequence_number)
                ==> problem is None
            &&& known && head != Some(id) && kept != Some(found.unwrap().sequence_number)
                ==> problem == Some(
                "Cannot validate deletes: new data files must keep the sequence number "@
                    + text::signed_decimal(found.unwrap().sequence_number as int)
                    + " of snapshot "@ + text::signed_decimal(id as int),
            )
        }),
{
    if table::is_in_history(metadata.snapshots@, head, id) {
        table::lemma_history_is_known(metadata.snapshots@, head, id);
    }
}

/// Whether an entry stays: it is not marked as deleted, and its path is that of no
/// removed file.
pub open spec fn is_left(producer: SnapshotProducer, entry: ManifestEntry) -> bool {
    &&& entry.status != ManifestStatus::Deleted
    &&& is_path_of_none(producer.removed_data_files@, entry.data_file.file_path@)
    &&& is_path_of_none(producer.removed_delete_files@, entry.data_file.file_path@)
}

/// In place of a manifest that lists a removed file there is one with exactly the entries
/// that stay, in their order and each once, as existing; and there is none where no
/// entry stays.
pub proof fn law_rewritten_manifests_list_what_is_left(
    producer: SnapshotProducer,
    manifest: CurrentManifest,
    k: int,
)
    requires
        0 <= k < manifest.entries@.len(),
        !is_path_of_none(
            producer.removed_data_files@,
            manifest.entries@[k].data_file.file_path@,
        ) || !is_path_of_none(
            producer.removed_delete_files@,
            manifest.entries@[k].data_file.file_path@,
        ),
    ensures
        ({
            let left = manifest.entries@.filter(|e: ManifestEntry| is_left(producer, e));
            let existing = replace_files::all_existing(producer, seq![manifest]);
            &&& left.len() == 0 ==> existing.len() == 0
            &&& left.len() > 0 ==> existing == seq![
                ExistingManifestView::Rewritten(
                    ManifestWriterView {
                        content: manifest.file.content,
                        partition_spec_id: manifest.file.partition_spec_id,
                        entries: left.map_values(
                            |e: ManifestEntry|
                                ManifestEntry { status: ManifestStatus::Existing, ..e },
                        ),
                    },
                ),
            ]
        }),
{
    let entries = manifest.entries@;
    lemma_one_manifest(producer, manifest);
    law_files_are_removed_by_path(producer, entries[k]);
    assert(producer.names(entries[k]));
    assert(replace_files::touches(producer, entries));
    let stays = |e: ManifestEntry| is_left(producer, e);
    let survives = |e: ManifestEntry| replace_files::survives(producer, e);
    assert forall|e: ManifestEntry| #[trigger] stays(e) == survives(e) by {
        law_files_are_removed_by_path(producer, e);
    }
    assert(stays =~= survives);
    assert(entries.filter(stays).map_values(
        |e: ManifestEntry| ManifestEntry { status: ManifestStatus::Existing, ..e },
    ) =~= replace_files::survivors(producer, entries));
}

/// Only removed files need to tell their snapshot and their sequence numbers.
pub proof fn law_only_removed_files_need_numbers(
    producer: SnapshotProducer,
    entries: Seq<ManifestEntry>,
)
    requires
        forall|i: int|
            #![trigger entries[i]]
            0 <= i < entries.len() ==> {
                ||| is_path_of_none(
                    producer.removed_data_files@,
                    entries[i].data_file.file_path@,
                ) && is_path_of_none(
                    producer.removed_delete_files@,
                    entries[i].data_file.file_path@,
                )
                ||| entries[i].snapshot_id is Some && entries[i].sequence_number is Some
                    && entries[i].file_sequence_number is Some
            },
    ensures
        replace_files::removed_are_numbered(producer, entries),
{
    assert forall|i: int| 0 <= i < entries.len() && producer.removes(
        #[trigger] entries[i],
    ) implies entries[i].numbered() by {
        law_files_are_removed_by_path(producer, entries[i]);
    }
}

} // verus!
