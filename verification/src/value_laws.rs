//! What holds of texts, settings, manifests and histories, in terms of what they hold.

use vstd::prelude::*;

use crate::error::{Error, ErrorKind};
use crate::manifest::{
    FieldSummary, ManifestEntry, ManifestFile, ManifestStatus, ManifestWriter,
};
use crate::rewrite_manifests::{
    CREATED_MANIFESTS_COUNT, KEPT_MANIFESTS_COUNT, PROCESSED_ENTRY_COUNT, REPLACED_MANIFESTS_COUNT,
};
use crate::snapshot::FIELD_ID_POSITIONAL_DELETE_FILE_PATH;
use crate::table::{
    Snapshot, MANIFEST_MERGE_ENABLED, MANIFEST_MERGE_ENABLED_DEFAULT, MANIFEST_MIN_MERGE_COUNT,
    MANIFEST_MIN_MERGE_COUNT_DEFAULT, MANIFEST_TARGET_SIZE_BYTES,
    MANIFEST_TARGET_SIZE_BYTES_DEFAULT,
};
use crate::{manifest, table, text};

verus! {

/// Numbers are written in decimal: one digit for each power of ten, the highest first,
/// and a minus sign before a negative one.
pub proof fn law_numbers_are_written_in_decimal(n: nat, digit: nat, c: char)
    requires
        digit < 10,
        c as int == 48 + digit,
    ensures
        text::decimal(digit) == seq![c],
        n > 0 ==> text::decimal(10 * n + digit) == text::decimal(n).push(c),
        text::signed_decimal(n as int) == text::decimal(n),
        n > 0 ==> text::signed_decimal(-(n as int)) == seq!['-'] + text::decimal(n),
{
    assert(text::digit_char(digit) == c);
    if n > 0 {
        assert((10 * n + digit) / 10 == n);
        assert((10 * n + digit) % 10 == digit);
    }
}

proof fn lemma_decimal_is_read_back(n: nat)
    ensures
        text::digits_value(text::decimal(n)) == Some(n),
        text::decimal(n).len() > 0,
        text::is_digit(text::decimal(n)[0]),
    decreases n,
{
    if n >= 10 {
        lemma_decimal_is_read_back(n / 10);
        let high = text::decimal(n / 10);
        assert(text::decimal(n) == high.push(text::digit_char(n % 10)));
        assert(high.push(text::digit_char(n % 10)).drop_last() =~= high);
    }
}

proof fn lemma_leading_zero(s: Seq<char>)
    requires
        s.len() > 0,
    ensures
        text::digits_value(seq!['0'] + s) == text::digits_value(s),
    decreases s.len(),
{
    let longer = seq!['0'] + s;
    assert(longer.last() == s.last());
    assert(longer.drop_last() =~= seq!['0'] + s.drop_last());
    if s.len() > 1 {
        lemma_leading_zero(s.drop_last());
    } else {
        assert(longer.drop_last() =~= seq!['0']);
        reveal_with_fuel(text::digits_value, 2);
    }
}

/// Numbers are read as they are written: in decimal, with or without a plus sign, with
/// or without leading zeros, and only up to the limit.
pub proof fn law_written_numbers_are_read_back(n: nat, max: nat)
    ensures
        text::unsigned_value(text::decimal(n), max) == (if n <= max {
            Some(n)
        } else {
            None
        }),
        text::unsigned_value(seq!['+'] + text::decimal(n), max) == (if n <= max {
            Some(n)
        } else {
            None
        }),
{
    lemma_decimal_is_read_back(n);
    assert((seq!['+'] + text::decimal(n)).skip(1) =~= text::decimal(n));
}

/// Leading zeros do not change a number.
pub proof fn law_leading_zeros_do_not_count(s: Seq<char>, max: nat)
    requires
        s.len() > 0,
        s[0] != '+',
    ensures
        text::unsigned_value(seq!['0'] + s, max) == text::unsigned_value(s, max),
{
    lemma_leading_zero(s);
}

proof fn lemma_not_digits(s: Seq<char>, i: int)
    requires
        0 <= i < s.len(),
        !('0' <= s[i] <= '9'),
    ensures
        text::digits_value(s) is None,
    decreases s.len(),
{
    if i < s.len() - 1 {
        lemma_not_digits(s.drop_last(), i);
    }
}

/// Nothing but digits makes a number, save one plus sign in front of them.
pub proof fn law_only_digits_make_a_number(s: Seq<char>, max: nat, i: int)
    requires
        s.len() == 0 || s == seq!['+'] || (0 <= i < s.len() && !('0' <= s[i] <= '9') && !(i == 0
            && s[0] == '+')),
    ensures
        text::unsigned_value(s, max) is None,
{
    if s.len() > 0 && s != seq!['+'] {
        if s[0] == '+' {
            assert(s.skip(1)[i - 1] == s[i]);
            lemma_not_digits(s.skip(1), i - 1);
        } else {
            lemma_not_digits(s, i);
        }
    } else if s == seq!['+'] {
        assert(s.skip(1) =~= Seq::<char>::empty());
    }
}

/// A truth value is written `true` or `false`, and nothing else is one.
pub proof fn law_truth_values_are_read(s: Seq<char>)
    ensures
        text::bool_value(s) == Some(true) <==> s == "true"@,
        text::bool_value(s) == Some(false) <==> s == "false"@,
        text::bool_value(s) is None <==> s != "true"@ && s != "false"@,
{
    reveal_strlit("true");
    reveal_strlit("false");
    assert("true"@.len() != "false"@.len());
}

proof fn lemma_bytes_first_difference(a: Seq<u8>, b: Seq<u8>)
    ensures
        text::bytes_before(a, b) <==> exists|i: int|
            #![trigger a.take(i)]
            {
                &&& 0 <= i <= a.len() && i < b.len()
                &&& a.take(i) == b.take(i)
                &&& i == a.len() || a[i] < b[i]
            },
    decreases a.len(),
{
    let differ = |a: Seq<u8>, b: Seq<u8>, i: int|
        {
            &&& 0 <= i <= a.len() && i < b.len()
            &&& a.take(i) == b.take(i)
            &&& i == a.len() || a[i] < b[i]
        };
    if b.len() > 0 {
        assert(a.take(0) =~= b.take(0));
        if a.len() == 0 {
            assert(differ(a, b, 0));
        } else if a[0] != b[0] {
            assert forall|i: int| #![trigger a.take(i)] differ(a, b, i) implies i == 0 by {
                if i > 0 {
                    assert(a.take(i)[0] == b.take(i)[0]);
                }
            }
            if a[0] < b[0] {
                assert(differ(a, b, 0));
            }
        } else {
            let x = a.skip(1);
            let y = b.skip(1);
            lemma_bytes_first_difference(x, y);
            if text::bytes_before(x, y) {
                let i = choose|i: int|
                    #![trigger x.take(i)]
                    {
                        &&& 0 <= i <= x.len() && i < y.len()
                        &&& x.take(i) == y.take(i)
                        &&& i == x.len() || x[i] < y[i]
                    };
                assert(a.take(i + 1) =~= seq![a[0]] + x.take(i));
                assert(b.take(i + 1) =~= seq![b[0]] + y.take(i));
                assert(differ(a, b, i + 1));
            }
            assert forall|i: int| #![trigger a.take(i)] differ(a, b, i) implies text::bytes_before(
                x,
                y,
            ) by {
                assert(i > 0);
                assert(x.take(i - 1) =~= a.take(i).skip(1));
                assert(y.take(i - 1) =~= b.take(i).skip(1));
            }
        }
    }
}

/// Texts are ordered by the first byte in which they differ, and a text comes before
/// every longer one that begins with it.
pub proof fn law_texts_are_ordered_by_their_first_difference(a: Seq<char>, b: Seq<char>)
    ensures
        ({
            let x = vstd::utf8::encode_utf8(a);
            let y = vstd::utf8::encode_utf8(b);
            text::text_before(a, b) <==> exists|i: int|
                #![trigger x.take(i)]
                {
                    &&& 0 <= i <= x.len() && i < y.len()
                    &&& x.take(i) == y.take(i)
                    &&& i == x.len() || x[i] < y[i]
                }
        }),
{
    lemma_bytes_first_difference(vstd::utf8::encode_utf8(a), vstd::utf8::encode_utf8(b));
}

/// An error says a message if and only if it is an error on invalid data with that
/// message.
pub proof fn law_errors_say_their_message(error: Error, message: Seq<char>)
    ensures
        error.says(message) <==> error.kind == ErrorKind::DataInvalid && error.message@ == message,
{
}

/// The names under which settings and counts are found, and the settings that hold where
/// none is found.
pub proof fn law_names_and_defaults()
    ensures
        MANIFEST_TARGET_SIZE_BYTES@ == "commit.manifest.target-size-bytes"@,
        MANIFEST_MIN_MERGE_COUNT@ == "commit.manifest.min-count-to-merge"@,
        MANIFEST_MERGE_ENABLED@ == "commit.manifest-merge.enabled"@,
        MANIFEST_TARGET_SIZE_BYTES_DEFAULT == 8 * 1024 * 1024,
        MANIFEST_MIN_MERGE_COUNT_DEFAULT == 100,
        !MANIFEST_MERGE_ENABLED_DEFAULT,
        KEPT_MANIFESTS_COUNT@ == "manifests-kept"@,
        CREATED_MANIFESTS_COUNT@ == "manifests-created"@,
        REPLACED_MANIFESTS_COUNT@ == "manifests-replaced"@,
        PROCESSED_ENTRY_COUNT@ == "entries-processed"@,
        FIELD_ID_POSITIONAL_DELETE_FILE_PATH == 2147483546,
{
}

/// An entry's file is part of the table unless the entry records its removal, whether
/// the entry's own snapshot added it or it was carried forward.
pub proof fn law_entries_are_alive_unless_deleted(entry: ManifestEntry)
    ensures
        entry.alive() <==> entry.status == ManifestStatus::Added || entry.status
            == ManifestStatus::Existing,
        !entry.alive() <==> entry.status == ManifestStatus::Deleted,
{
}

/// Carrying an entry forward, or recording the removal of its file, changes its status
/// and nothing else.
pub proof fn law_entries_change_in_status_only(entry: ManifestEntry)
    ensures
        entry.carried().status == ManifestStatus::Existing,
        entry.carried().snapshot_id == entry.snapshot_id,
        entry.carried().sequence_number == entry.sequence_number,
        entry.carried().file_sequence_number == entry.file_sequence_number,
        entry.carried().data_file == entry.data_file,
        entry.deleted().status == ManifestStatus::Deleted,
        entry.deleted().snapshot_id == entry.snapshot_id,
        entry.deleted().sequence_number == entry.sequence_number,
        entry.deleted().file_sequence_number == entry.file_sequence_number,
        entry.deleted().data_file == entry.data_file,
        entry.numbered() <==> entry.snapshot_id is Some && entry.sequence_number is Some
            && entry.file_sequence_number is Some,
{
}

/// Copies are complete: two manifests with the same contents agree in every field, byte
/// for byte.
pub proof fn law_manifests_are_known_by_their_fields(a: ManifestFile, b: ManifestFile)
    ensures
        a@ == b@ ==> {
            &&& a.manifest_path@ == b.manifest_path@
            &&& a.manifest_length == b.manifest_length
            &&& a.partition_spec_id == b.partition_spec_id
            &&& a.content == b.content
            &&& a.sequence_number == b.sequence_number
            &&& a.min_sequence_number == b.min_sequence_number
            &&& a.added_snapshot_id == b.added_snapshot_id
            &&& a.added_files_count == b.added_files_count
            &&& a.existing_files_count == b.existing_files_count
            &&& a.deleted_files_count == b.deleted_files_count
            &&& a.added_rows_count == b.added_rows_count
            &&& a.existing_rows_count == b.existing_rows_count
            &&& a.deleted_rows_count == b.deleted_rows_count
            &&& a.partitions is Some == b.partitions is Some
            &&& a.partitions is Some ==> a.partitions.unwrap()@.len()
                == b.partitions.unwrap()@.len()
            &&& a.partitions is Some ==> forall|i: int|
                0 <= i < a.partitions.unwrap()@.len() ==> (#[trigger] a.partitions.unwrap()@[i])@
                    == b.partitions.unwrap()@[i]@
            &&& a.key_metadata is Some == b.key_metadata is Some
            &&& a.key_metadata is Some ==> a.key_metadata.unwrap()@ == b.key_metadata.unwrap()@
            &&& a.first_row_id == b.first_row_id
        },
{
    if a@ == b@ {
        let x = a@;
        let y = b@;
        assert(x.manifest_path == y.manifest_path && x.content == y.content);
        assert(x.manifest_length == y.manifest_length);
        assert(x.partition_spec_id == y.partition_spec_id);
        assert(x.sequence_number == y.sequence_number);
        assert(x.min_sequence_number == y.min_sequence_number);
        assert(x.added_snapshot_id == y.added_snapshot_id);
        assert(x.added_files_count == y.added_files_count);
        assert(x.existing_files_count == y.existing_files_count);
        assert(x.deleted_files_count == y.deleted_files_count);
        assert(x.added_rows_count == y.added_rows_count);
        assert(x.existing_rows_count == y.existing_rows_count);
        assert(x.deleted_rows_count == y.deleted_rows_count);
        assert(x.partitions == y.partitions);
        assert(x.key_metadata == y.key_metadata);
        assert(x.first_row_id == y.first_row_id);
        if a.partitions is Some {
            let p = a.partitions.unwrap()@;
            let q = b.partitions.unwrap()@;
            let view = |s: FieldSummary| s@;
            assert(p.map_values(view) == q.map_values(view));
            assert(p.map_values(view).len() == p.len());
            assert(q.map_values(view).len() == q.len());
            assert forall|i: int| 0 <= i < p.len() implies (#[trigger] p[i])@ == q[i]@ by {
                assert(p.map_values(view)[i] == p[i]@);
                assert(q.map_values(view)[i] == q[i]@);
            }
        }
    }
}

/// Two partition summaries with the same contents agree in every field, byte for byte.
pub proof fn law_summaries_are_known_by_their_fields(a: FieldSummary, b: FieldSummary)
    ensures
        a@ == b@ ==> {
            &&& a.contains_null == b.contains_null
            &&& a.contains_nan == b.contains_nan
            &&& a.lower_bound is Some == b.lower_bound is Some
            &&& a.lower_bound is Some ==> a.lower_bound.unwrap()@ == b.lower_bound.unwrap()@
            &&& a.upper_bound is Some == b.upper_bound is Some
            &&& a.upper_bound is Some ==> a.upper_bound.unwrap()@ == b.upper_bound.unwrap()@
        },
{
    if a@ == b@ {
        let x = a@;
        let y = b@;
        assert(x.contains_null == y.contains_null && x.contains_nan == y.contains_nan);
        assert(x.lower_bound == y.lower_bound && x.upper_bound == y.upper_bound);
    }
}

/// Two writers with the same contents agree in every field.
pub proof fn law_writers_are_known_by_their_fields(a: ManifestWriter, b: ManifestWriter)
    ensures
        a@.content == a.content,
        a@.partition_spec_id == a.partition_spec_id,
        a@.entries == a.entries@,
        a@ == b@ ==> a.content == b.content && a.partition_spec_id == b.partition_spec_id
            && a.entries@ == b.entries@,
{
}

/// A list of manifests is known manifest by manifest.
pub proof fn law_lists_are_known_by_their_manifests(manifests: Seq<ManifestFile>, i: int)
    requires
        0 <= i < manifests.len(),
    ensures
        manifest::manifests_view(manifests).len() == manifests.len(),
        manifest::manifests_view(manifests)[i] == manifests[i]@,
{
}

/// A manifest may list added or deleted files unless it is known to list none, and the
/// files it lists as active are the added and the existing ones, where both are known.
pub proof fn law_unknown_counts_are_no_zeros(m: ManifestFile)
    ensures
        m@.may_have_added_files() <==> m.added_files_count is None
            || m.added_files_count.unwrap() > 0,
        m@.may_have_deleted_files() <==> m.deleted_files_count is None
            || m.deleted_files_count.unwrap() > 0,
        m@.active_files() is Some <==> m.added_files_count is Some
            && m.existing_files_count is Some,
        m@.active_files() matches Some(n) ==> n == m.added_files_count.unwrap()
            + m.existing_files_count.unwrap(),
{
}

/// A snapshot is found by its id: the first in the list that has it.
pub proof fn law_snapshots_are_found_by_id(snapshots: Seq<Snapshot>, id: i64)
    ensures
        table::snapshot_of(snapshots, None) is None,
        table::snapshot_of(snapshots, Some(id)) is None <==> forall|i: int|
            0 <= i < snapshots.len() ==> (#[trigger] snapshots[i]).snapshot_id != id,
        table::snapshot_of(snapshots, Some(id)) matches Some(s) ==> exists|i: int|
            {
                &&& 0 <= i < snapshots.len()
                &&& #[trigger] snapshots[i] == s
                &&& s.snapshot_id == id
                &&& forall|j: int| 0 <= j < i ==> (#[trigger] snapshots[j]).snapshot_id != id
            },
    decreases snapshots.len(),
{
    if snapshots.len() > 0 {
        let rest = snapshots.skip(1);
        law_snapshots_are_found_by_id(rest, id);
        if snapshots[0].snapshot_id != id {
            assert forall|i: int| 0 <= i < rest.len() implies #[trigger] rest[i] == snapshots[i
                + 1] by {}
            if let Some(s) = table::snapshot_of(snapshots, Some(id)) {
                let i = choose|i: int|
                    {
                        &&& 0 <= i < rest.len()
                        &&& #[trigger] rest[i] == s
                        &&& s.snapshot_id == id
                        &&& forall|j: int| 0 <= j < i ==> (#[trigger] rest[j]).snapshot_id != id
                    };
                assert forall|j: int| 0 <= j < i + 1 implies (
                #[trigger] snapshots[j]).snapshot_id != id by {
                    if j > 0 {
                        assert(rest[j - 1] == snapshots[j]);
                    }
                }
                assert(snapshots[i + 1] == s);
            } else {
                assert forall|i: int| 0 <= i < snapshots.len() implies (
                #[trigger] snapshots[i]).snapshot_id != id by {
                    if i > 0 {
                        assert(rest[i - 1] == snapshots[i]);
                    }
                }
            }
        } else {
            assert(snapshots[0] == table::snapshot_of(snapshots, Some(id)).unwrap());
        }
    }
}

proof fn lemma_ancestors_of_parent(snapshots: Seq<Snapshot>, child: Snapshot, from: i64, n: nat)
    requires
        table::snapshot_of(snapshots, Some(from)) == Some(child),
    ensures
        table::ancestor(snapshots, Some(from), n + 1) == table::ancestor(
            snapshots,
            child.parent_snapshot_id,
            n,
        ),
    decreases n,
{
    if n > 0 {
        lemma_ancestors_of_parent(snapshots, child, from, (n - 1) as nat);
    } else {
        reveal_with_fuel(table::ancestor, 2);
    }
}

/// A history goes from a snapshot to its parent: a snapshot is in the history of another
/// if and only if it is that one, or is in the history of its parent. A snapshot that
/// the table does not know has no history.
pub proof fn law_histories_go_from_child_to_parent(snapshots: Seq<Snapshot>, from: i64, id: i64)
    ensures
        !table::is_in_history(snapshots, None, id),
        table::is_in_history(snapshots, Some(from), id) <==> (match table::snapshot_of(
            snapshots,
            Some(from),
        ) {
            Some(child) => child.snapshot_id == id || table::is_in_history(
                snapshots,
                child.parent_snapshot_id,
                id,
            ),
            None => false,
        }),
{
    lemma_no_history(snapshots, None, id);
    match table::snapshot_of(snapshots, Some(from)) {
        None => {
            lemma_no_history(snapshots, Some(from), id);
        },
        Some(child) => {
            if child.snapshot_id == id {
                assert(table::has_id(table::ancestor(snapshots, Some(from), 0), id));
            }
            if table::is_in_history(snapshots, Some(from), id) {
                let n = choose|n: nat|
                    table::has_id(#[trigger] table::ancestor(snapshots, Some(from), n), id);
                if n > 0 {
                    let m = (n - 1) as nat;
                    lemma_ancestors_of_parent(snapshots, child, from, m);
                    assert(table::has_id(
                        table::ancestor(snapshots, child.parent_snapshot_id, m),
                        id,
                    ));
                }
            }
            if table::is_in_history(snapshots, child.parent_snapshot_id, id) {
                let n = choose|n: nat|
                    table::has_id(
                        #[trigger] table::ancestor(snapshots, child.parent_snapshot_id, n),
                        id,
                    );
                lemma_ancestors_of_parent(snapshots, child, from, n);
                assert(table::has_id(table::ancestor(snapshots, Some(from), n + 1), id));
            }
        },
    }
}

proof fn lemma_no_history(snapshots: Seq<Snapshot>, from: Option<i64>, id: i64)
    requires
        table::snapshot_of(snapshots, from) is None,
    ensures
        !table::is_in_history(snapshots, from, id),
{
    assert forall|n: nat| (#[trigger] table::ancestor(snapshots, from, n)) is None by {
        lemma_no_ancestor(snapshots, from, n);
    }
}

proof fn lemma_no_ancestor(snapshots: Seq<Snapshot>, from: Option<i64>, n: nat)
    requires
        table::snapshot_of(snapshots, from) is None,
    ensures
        table::ancestor(snapshots, from, n) is None,
    decreases n,
{
    if n > 0 {
        lemma_no_ancestor(snapshots, from, (n - 1) as nat);
    }
}

} // verus!
