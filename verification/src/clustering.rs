//! Regrouping the live entries of manifests by a cluster key.

use std::collections::VecDeque;
use vstd::multiset::Multiset;
use vstd::prelude::*;

use crate::manifest::{
    DataFile, ManifestContentType, ManifestEntry, ManifestFile, ManifestStatus, ManifestWriter,
};
use crate::text::is_text_before;

verus! {

/// What an open writer is found by: its cluster key and its partition spec.
pub type WriterId = (Seq<char>, i32);

/// A writer that is filled for one cluster key.
#[derive(Debug)]
pub struct ClusterWriter {
    pub key: String,
    pub writer: ManifestWriter,
}

impl ClusterWriter {
    /// The cluster key and the partition spec that the writer is filled for.
    pub open spec fn id(self) -> WriterId {
        (self.key@, self.writer.partition_spec_id)
    }

    /// A writer that a pass may hold: it lists data files, and at least one, all of
    /// them carried forward.
    pub open spec fn wf(self) -> bool {
        &&& self.writer.content == ManifestContentType::Data
        &&& self.writer.entries@.len() > 0
        &&& forall|j: int|
            0 <= j < self.writer.entries@.len() ==> (#[trigger] self.writer.entries@[j]).status
                == ManifestStatus::Existing
    }
}

/// The order in which writers are kept: by cluster key, then by partition spec.
pub open spec fn id_before(a: WriterId, b: WriterId) -> bool {
    crate::text::text_before(a.0, b.0) || (a.0 == b.0 && a.1 < b.1)
}

proof fn lemma_id_before(a: WriterId, b: WriterId, c: WriterId)
    ensures
        !id_before(a, a),
        id_before(a, b) ==> a != b && !id_before(b, a),
        a == b || id_before(a, b) || id_before(b, a),
        id_before(a, b) && id_before(b, c) ==> id_before(a, c),
{
    crate::text::lemma_text_before_total(a.0, a.0);
    crate::text::lemma_text_before_total(a.0, b.0);
    if crate::text::text_before(a.0, b.0) && crate::text::text_before(b.0, c.0) {
        crate::text::lemma_text_before_transitive(a.0, b.0, c.0);
    }
}

/// Whether a list of writers is strictly ordered by `id_before`.
pub open spec fn ordered(writers: Seq<ClusterWriter>) -> bool {
    forall|i: int, j: int|
        0 <= i < j < writers.len() ==> id_before(
            (#[trigger] writers[i]).id(),
            (#[trigger] writers[j]).id(),
        )
}

/// All the entries that a list of writers holds.
pub open spec fn held(writers: Seq<ClusterWriter>) -> Multiset<ManifestEntry>
    decreases writers.len(),
{
    if writers.len() == 0 {
        Multiset::empty()
    } else {
        held(writers.drop_last()).add(writers.last().writer.entries@.to_multiset())
    }
}

proof fn lemma_held_concat(a: Seq<ClusterWriter>, b: Seq<ClusterWriter>)
    ensures
        held(a + b) == held(a).add(held(b)),
    decreases b.len(),
{
    if b.len() == 0 {
        assert(a + b =~= a);
        assert(held(a).add(held(b)) =~= held(a));
    } else {
        lemma_held_concat(a, b.drop_last());
        assert((a + b).drop_last() =~= a + b.drop_last());
        assert((a + b).last() == b.last());
        assert(held(a + b) =~= held(a).add(held(b)));
    }
}

proof fn lemma_held_single(w: ClusterWriter)
    ensures
        held(seq![w]) == w.writer.entries@.to_multiset(),
{
    assert(seq![w].drop_last() =~= Seq::<ClusterWriter>::empty());
    assert(seq![w].last() == w);
    reveal_with_fuel(held, 2);
    assert(held(seq![w]) =~= w.writer.entries@.to_multiset());
}

/// What a list holds is what surrounds a position and what stands at it.
proof fn lemma_held_around(s: Seq<ClusterWriter>, i: int)
    requires
        0 <= i < s.len(),
    ensures
        held(s) == held(s.take(i)).add(s[i].writer.entries@.to_multiset()).add(
            held(s.skip(i + 1)),
        ),
{
    assert(s =~= s.take(i) + seq![s[i]] + s.skip(i + 1));
    lemma_held_concat(s.take(i) + seq![s[i]], s.skip(i + 1));
    lemma_held_concat(s.take(i), seq![s[i]]);
    lemma_held_single(s[i]);
}

/// The writers of a list, by what they are found by.
pub open spec fn writer_map(writers: Seq<ClusterWriter>) -> Map<WriterId, Seq<ManifestEntry>> {
    Map::new(
        |id: WriterId| exists|i: int| 0 <= i < writers.len() && (#[trigger] writers[i]).id() == id,
        |id: WriterId| writers[position(writers, id)].writer.entries@,
    )
}

/// Where a list holds the writer of an id.
pub open spec fn position(writers: Seq<ClusterWriter>, id: WriterId) -> int {
    choose|i: int| 0 <= i < writers.len() && (#[trigger] writers[i]).id() == id
}

proof fn lemma_position(writers: Seq<ClusterWriter>, i: int)
    requires
        ordered(writers),
        0 <= i < writers.len(),
    ensures
        position(writers, writers[i].id()) == i,
{
    let id = writers[i].id();
    let p = position(writers, id);
    assert(0 <= p < writers.len() && writers[p].id() == id);
    lemma_id_before(id, id, id);
}

proof fn lemma_writer_map(writers: Seq<ClusterWriter>)
    requires
        ordered(writers),
    ensures
        forall|i: int|
            0 <= i < writers.len() ==> {
                &&& writer_map(writers).contains_key((#[trigger] writers[i]).id())
                &&& writer_map(writers)[writers[i].id()] == writers[i].writer.entries@
            },
{
    assert forall|i: int| 0 <= i < writers.len() implies {
        &&& writer_map(writers).contains_key((#[trigger] writers[i]).id())
        &&& writer_map(writers)[writers[i].id()] == writers[i].writer.entries@
    } by {
        lemma_position(writers, i);
    }
}

/// The entries that a pass has open for an id: none where no writer is open.
pub open spec fn entries_for(
    writers: Map<WriterId, Seq<ManifestEntry>>,
    id: WriterId,
) -> Seq<ManifestEntry> {
    if writers.contains_key(id) {
        writers[id]
    } else {
        Seq::empty()
    }
}

/// The open writers after one more entry was carried forward for an id.
pub open spec fn with_entry(
    writers: Map<WriterId, Seq<ManifestEntry>>,
    id: WriterId,
    entry: ManifestEntry,
) -> Map<WriterId, Seq<ManifestEntry>> {
    writers.insert(id, entries_for(writers, id).push(entry.carried()))
}

/// One writer of an ordered list takes one more entry.
proof fn lemma_update(
    before: Seq<ClusterWriter>,
    after: Seq<ClusterWriter>,
    i: int,
    entry: ManifestEntry,
)
    requires
        ordered(before),
        0 <= i < before.len(),
        after == before.update(i, after[i]),
        after[i].id() == before[i].id(),
        after[i].writer.entries@ == before[i].writer.entries@.push(entry.carried()),
    ensures
        ordered(after),
        writer_map(after) == with_entry(writer_map(before), before[i].id(), entry),
        held(after) == held(before).insert(entry.carried()),
{
    broadcast use vstd::seq_lib::group_to_multiset_ensures;

    let id = before[i].id();
    assert(ordered(after)) by {
        assert forall|a: int, b: int| 0 <= a < b < after.len() implies id_before(
            (#[trigger] after[a]).id(),
            (#[trigger] after[b]).id(),
        ) by {
            assert(after[a].id() == before[a].id());
            assert(after[b].id() == before[b].id());
        }
    }
    lemma_writer_map(before);
    lemma_writer_map(after);
    assert(writer_map(after) =~= with_entry(writer_map(before), id, entry)) by {
        assert forall|other: WriterId| #[trigger]
            writer_map(after).contains_key(other) == writer_map(before).contains_key(other) by {
            if writer_map(before).contains_key(other) {
                let j = position(before, other);
                assert(after[j].id() == before[j].id());
            }
            if writer_map(after).contains_key(other) {
                let j = position(after, other);
                assert(after[j].id() == before[j].id());
            }
        }
        assert forall|other: WriterId| #[trigger]
            writer_map(after).contains_key(other) && other != id implies writer_map(after)[other]
            == writer_map(before)[other] by {
            let j = position(after, other);
            assert(after[j].id() == before[j].id());
            assert(after[j] == before[j]);
        }
        assert(writer_map(after)[after[i].id()] == after[i].writer.entries@);
    }
    lemma_held_around(before, i);
    lemma_held_around(after, i);
    assert(after.take(i) =~= before.take(i));
    assert(after.skip(i + 1) =~= before.skip(i + 1));
    assert(held(after) =~= held(before).insert(entry.carried()));
}

/// A writer is put at its place in an ordered list.
proof fn lemma_insert_ordered(before: Seq<ClusterWriter>, i: int, new: ClusterWriter)
    requires
        ordered(before),
        0 <= i <= before.len(),
        forall|j: int| 0 <= j < i ==> id_before((#[trigger] before[j]).id(), new.id()),
        forall|j: int| i <= j < before.len() ==> !id_before((#[trigger] before[j]).id(), new.id()),
        i < before.len() ==> before[i].id() != new.id(),
    ensures
        ordered(before.insert(i, new)),
        !writer_map(before).contains_key(new.id()),
{
    let after = before.insert(i, new);
    let id = new.id();
    assert forall|j: int| i <= j < before.len() implies id_before(id, (#[trigger] before[j]).id()) by {
        lemma_id_before(id, before[i].id(), before[j].id());
    }
    assert forall|a: int, b: int| 0 <= a < b < after.len() implies id_before(
        (#[trigger] after[a]).id(),
        (#[trigger] after[b]).id(),
    ) by {
        if a < i {
            assert(after[a] == before[a]);
        } else if a > i {
            assert(after[a] == before[a - 1]);
        }
        if b < i {
            assert(after[b] == before[b]);
        } else if b > i {
            assert(after[b] == before[b - 1]);
        }
    }
    if writer_map(before).contains_key(id) {
        let j = position(before, id);
        lemma_id_before(before[j].id(), id, id);
    }
}

/// A writer with one entry joins an ordered list.
proof fn lemma_insert(before: Seq<ClusterWriter>, i: int, new: ClusterWriter, entry: ManifestEntry)
    requires
        ordered(before),
        ordered(before.insert(i, new)),
        0 <= i <= before.len(),
        !writer_map(before).contains_key(new.id()),
        new.writer.entries@ == Seq::<ManifestEntry>::empty().push(entry.carried()),
    ensures
        writer_map(before.insert(i, new)) == with_entry(writer_map(before), new.id(), entry),
        held(before.insert(i, new)) == held(before).insert(entry.carried()),
{
    let after = before.insert(i, new);
    let id = new.id();
    assert(writer_map(after) =~= with_entry(writer_map(before), id, entry)) by {
        lemma_writer_map(before);
        lemma_writer_map(after);
        assert(after[i] == new);
        assert forall|other: WriterId| other != id implies #[trigger]
            writer_map(after).contains_key(other) == writer_map(before).contains_key(other) && (
        writer_map(before).contains_key(other) ==> writer_map(after)[other] == writer_map(
            before,
        )[other]) by {
            if writer_map(before).contains_key(other) {
                let j = position(before, other);
                if j < i {
                    assert(after[j] == before[j]);
                } else {
                    assert(after[j + 1] == before[j]);
                }
            }
            if writer_map(after).contains_key(other) {
                let j = position(after, other);
                if j < i {
                    assert(after[j] == before[j]);
                } else {
                    assert(after[j] == before[j - 1]);
                }
            }
        }
    }
    assert(held(after) =~= held(before).insert(entry.carried())) by {
        broadcast use vstd::seq_lib::group_to_multiset_ensures;

        lemma_held_around(after, i);
        assert(after.take(i) =~= before.take(i));
        assert(after.skip(i + 1) =~= before.skip(i));
        assert(before =~= before.take(i) + before.skip(i));
        lemma_held_concat(before.take(i), before.skip(i));
        assert(new.writer.entries@.to_multiset() =~= Multiset::singleton(entry.carried()));
    }
}

/// A writer leaves an ordered list.
proof fn lemma_remove(before: Seq<ClusterWriter>, i: int)
    requires
        ordered(before),
        0 <= i < before.len(),
    ensures
        ordered(before.remove(i)),
        writer_map(before.remove(i)) == writer_map(before).remove(before[i].id()),
        held(before) == held(before.remove(i)).add(before[i].writer.entries@.to_multiset()),
{
    let after = before.remove(i);
    let id = before[i].id();
    assert forall|j: int| 0 <= j < after.len() implies #[trigger] after[j] == before[if j < i {
        j
    } else {
        j + 1
    }] by {}
    assert(ordered(after));
    lemma_writer_map(before);
    lemma_writer_map(after);
    assert forall|j: int| 0 <= j < before.len() && j != i implies (#[trigger] before[j]).id()
        != id by {
        lemma_id_before(id, before[j].id(), id);
        lemma_id_before(before[j].id(), id, id);
    }
    assert(writer_map(after) =~= writer_map(before).remove(id)) by {
        assert forall|other: WriterId| other != id implies #[trigger]
            writer_map(after).contains_key(other) == writer_map(before).contains_key(other) && (
        writer_map(before).contains_key(other) ==> writer_map(after)[other] == writer_map(
            before,
        )[other]) by {
            if writer_map(before).contains_key(other) {
                let j = position(before, other);
                let k = if j < i {
                    j
                } else {
                    j - 1
                };
                assert(after[k] == before[j]);
            }
            if writer_map(after).contains_key(other) {
                let j = position(after, other);
                let k = if j < i {
                    j
                } else {
                    j + 1
                };
                assert(after[j] == before[k]);
            }
        }
        if writer_map(after).contains_key(id) {
            let j = position(after, id);
            assert(after[j].id() == id);
        }
    }
    lemma_held_around(before, i);
    assert(after =~= before.take(i) + before.skip(i + 1));
    lemma_held_concat(before.take(i), before.skip(i + 1));
    assert(held(before) =~= held(after).add(before[i].writer.entries@.to_multiset()));
}

/// What a pass has done so far.
pub struct ClusteringPassView {
    /// The size at which a writer is sealed.
    pub target_manifest_size_bytes: u64,
    /// The writers that are open, each with the entries it holds.
    pub writers: Map<WriterId, Seq<ManifestEntry>>,
    /// The number of entries that were routed.
    pub entry_count: nat,
    /// The entries that were routed, as they were carried forward.
    pub routed: Multiset<ManifestEntry>,
    /// Those of the routed entries whose writer was sealed.
    pub sealed: Multiset<ManifestEntry>,
}

/// What a pass has done that has routed nothing yet.
pub open spec fn initial_pass(target_manifest_size_bytes: u64) -> ClusteringPassView {
    ClusteringPassView {
        target_manifest_size_bytes,
        writers: Map::empty(),
        entry_count: 0,
        routed: Multiset::empty(),
        sealed: Multiset::empty(),
    }
}

/// Whether a pass in this state ends with these writers still open: they are ordered,
/// they are the open ones, and with those that were sealed they hold what was routed.
pub open spec fn ends_with(state: ClusteringPassView, rest: Seq<ClusterWriter>) -> bool {
    &&& ordered(rest)
    &&& writer_map(rest) == state.writers
    &&& held(rest).add(state.sealed) == state.routed
}

/// A pass over the live entries of manifests, which collects them in one open
/// writer for each cluster key and partition spec. A writer that reaches the
/// target size is sealed and leaves the pass.
pub struct ClusteringPass {
    target_manifest_size_bytes: u64,
    open: Vec<ClusterWriter>,
    entry_count: usize,
    routed: Ghost<Multiset<ManifestEntry>>,
    sealed: Ghost<Multiset<ManifestEntry>>,
}

impl View for ClusteringPass {
    type V = ClusteringPassView;

    closed spec fn view(&self) -> ClusteringPassView {
        ClusteringPassView {
            target_manifest_size_bytes: self.target_manifest_size_bytes,
            writers: writer_map(self.open@),
            entry_count: self.entry_count as nat,
            routed: self.routed@,
            sealed: self.sealed@,
        }
    }
}

impl ClusteringPass {
    /// What holds of every pass: its writers are ordered and carry data files
    /// forward, every entry that was routed is in exactly one writer, open or
    /// sealed, and was counted once.
    pub closed spec fn wf(&self) -> bool {
        &&& ordered(self.open@)
        &&& forall|i: int| 0 <= i < self.open@.len() ==> (#[trigger] self.open@[i]).wf()
        &&& held(self.open@).add(self.sealed@) == self.routed@
        &&& self.routed@.len() == self.entry_count
    }

    /// The writer in a slot.
    pub closed spec fn slot(&self, slot: usize) -> ClusterWriter {
        self.open@[slot as int]
    }

    /// The number of slots, one for each open writer.
    pub closed spec fn slots(&self) -> nat {
        self.open@.len()
    }

    /// A pass that has routed nothing yet.
    pub fn new(target_manifest_size_bytes: u64) -> (pass: Self)
        ensures
            pass.wf(),
            pass@ == initial_pass(target_manifest_size_bytes),
            pass@.target_manifest_size_bytes == target_manifest_size_bytes,
            pass@.entry_count == 0,
            forall|id: WriterId| !#[trigger] pass@.writers.contains_key(id),
    {
        let pass = ClusteringPass {
            target_manifest_size_bytes,
            open: Vec::new(),
            entry_count: 0,
            routed: Ghost(Multiset::empty()),
            sealed: Ghost(Multiset::empty()),
        };
        assert(writer_map(pass.open@) =~= Map::<WriterId, Seq<ManifestEntry>>::empty());
        assert(held(pass.open@).add(pass.sealed@) =~= pass.routed@);
        pass
    }

    /// The number of entries that were routed.
    pub fn entry_count(&self) -> (count: usize)
        ensures
            count == self@.entry_count,
    {
        self.entry_count
    }

    /// The first slot whose writer does not come before the given id.
    fn lower_bound(&self, key: &String, partition_spec_id: i32) -> (slot: usize)
        requires
            self.wf(),
        ensures
            slot <= self.open@.len(),
            forall|j: int|
                0 <= j < slot ==> id_before(
                    (#[trigger] self.open@[j]).id(),
                    (key@, partition_spec_id),
                ),
            forall|j: int|
                slot <= j < self.open@.len() ==> !id_before(
                    (#[trigger] self.open@[j]).id(),
                    (key@, partition_spec_id),
                ),
    {
        let ghost id: WriterId = (key@, partition_spec_id);
        let mut low: usize = 0;
        let mut high: usize = self.open.len();
        while low < high
            invariant
                ordered(self.open@),
                low <= high <= self.open@.len(),
                id == (key@, partition_spec_id),
                forall|j: int| 0 <= j < low ==> id_before((#[trigger] self.open@[j]).id(), id),
                forall|j: int|
                    high <= j < self.open@.len() ==> !id_before((#[trigger] self.open@[j]).id(), id),
            decreases high - low,
        {
            let middle: usize = low + (high - low) / 2;
            let candidate = &self.open[middle];
            let before = is_text_before(candidate.key.as_str(), key.as_str()) || (candidate.key
                == *key && candidate.writer.partition_spec_id < partition_spec_id);
            proof {
                assert forall|j: int| 0 <= j <= middle && before implies id_before(
                    (#[trigger] self.open@[j]).id(),
                    id,
                ) by {
                    lemma_id_before(self.open@[j].id(), candidate.id(), id);
                }
                assert forall|j: int| middle <= j < self.open@.len() && !before implies !id_before(
                    (#[trigger] self.open@[j]).id(),
                    id,
                ) by {
                    lemma_id_before(candidate.id(), self.open@[j].id(), id);
                }
            }
            if before {
                low = middle + 1;
            } else {
                high = middle;
            }
        }
        low
    }

    /// Carries an entry forward in the writer of a cluster key and a partition
    /// spec, which is opened where there is none. Returns the writer's slot.
    pub fn add_entry(
        &mut self,
        key: String,
        partition_spec_id: i32,
        entry: ManifestEntry,
    ) -> (slot: usize)
        requires
            old(self).wf(),
            old(self)@.entry_count < usize::MAX,
        ensures
            final(self).wf(),
            slot < final(self).slots(),
            final(self).slot(slot).id() == (key@, partition_spec_id),
            final(self).slot(slot).wf(),
            final(self).slot(slot).writer.entries@ == final(self)@.writers[(
                key@,
                partition_spec_id,
            )],
            final(self)@ == (ClusteringPassView {
                writers: with_entry(old(self)@.writers, (key@, partition_spec_id), entry),
                entry_count: old(self)@.entry_count + 1,
                routed: old(self)@.routed.insert(entry.carried()),
                ..old(self)@
            }),
    {
        let ghost id: WriterId = (key@, partition_spec_id);
        let ghost before = self.open@;
        let slot = self.lower_bound(&key, partition_spec_id);
        let present = slot < self.open.len() && self.open[slot].key == key
            && self.open[slot].writer.partition_spec_id == partition_spec_id;
        if present {
            self.open[slot].writer.add_existing_entry(entry);
        } else {
            let mut writer = ManifestWriter::new(ManifestContentType::Data, partition_spec_id);
            writer.add_existing_entry(entry);
            self.open.insert(slot, ClusterWriter { key, writer });
        }
        self.entry_count = self.entry_count + 1;
        proof {
            if present {
                lemma_update(before, self.open@, slot as int, entry);
            } else {
                let new = self.open@[slot as int];
                lemma_insert_ordered(before, slot as int, new);
                lemma_insert(before, slot as int, new, entry);
            }
            lemma_writer_map(self.open@);
            self.routed@ = self.routed@.insert(entry.carried());
            assert(held(self.open@).add(self.sealed@) =~= self.routed@);
        }
        slot
    }
}

impl ClusteringPass {
    /// The writer in a slot.
    pub fn writer(&self, slot: usize) -> (writer: &ManifestWriter)
        requires
            slot < self.slots(),
        ensures
            *writer == self.slot(slot).writer,
    {
        &self.open[slot].writer
    }

    /// Seals the writer in a slot where its size has reached the target: it leaves
    /// the pass, and the next entry for its id opens a new one.
    pub fn roll_over(&mut self, slot: usize, size: u64) -> (sealed: Option<ClusterWriter>)
        requires
            old(self).wf(),
            slot < old(self).slots(),
        ensures
            final(self).wf(),
            match sealed {
                Some(w) => {
                    &&& size >= old(self)@.target_manifest_size_bytes
                    &&& w == old(self).slot(slot)
                    &&& w.wf()
                    &&& w.writer.entries@ == old(self)@.writers[w.id()]
                    &&& final(self)@ == (ClusteringPassView {
                        writers: old(self)@.writers.remove(w.id()),
                        sealed: old(self)@.sealed.add(w.writer.entries@.to_multiset()),
                        ..old(self)@
                    })
                },
                None => size < old(self)@.target_manifest_size_bytes && *final(self) == *old(self),
            },
    {
        if size >= self.target_manifest_size_bytes {
            let ghost before = self.open@;
            proof {
                lemma_remove(before, slot as int);
                lemma_writer_map(before);
            }
            let w = self.open.remove(slot);
            proof {
                self.sealed@ = self.sealed@.add(w.writer.entries@.to_multiset());
                assert(held(self.open@).add(self.sealed@) =~= self.routed@);
            }
            Some(w)
        } else {
            None
        }
    }

    /// Ends the pass: seals the writers that are still open, in the order of their
    /// cluster keys and then of their partition specs.
    pub fn finish(self) -> (rest: Vec<ClusterWriter>)
        requires
            self.wf(),
        ensures
            ends_with(self@, rest@),
            forall|i: int| 0 <= i < rest@.len() ==> (#[trigger] rest@[i]).wf(),
            forall|i: int|
                0 <= i < rest@.len() ==> (#[trigger] rest@[i]).writer.content
                    == ManifestContentType::Data && rest@[i].writer.entries@.len() > 0,
            self@.routed.len() == self@.entry_count,
    {
        self.open
    }
}

/// A rule that gives each data file its cluster key. Any closure from a data file
/// to a string is one.
pub trait ClusterBy: Send + Sync {
    /// Whether the rule can be applied to a file.
    spec fn accepts(&self, file: &DataFile) -> bool;

    /// Whether the rule may give a file this key.
    spec fn gives(&self, file: &DataFile, key: String) -> bool;

    /// Applies the rule.
    fn cluster_key(&self, file: &DataFile) -> (key: String)
        requires
            self.accepts(file),
        ensures
            self.gives(file, key),
    ;
}

impl<F> ClusterBy for F where F: Fn(&DataFile) -> String + Send + Sync {
    open spec fn accepts(&self, file: &DataFile) -> bool {
        call_requires(*self, (file,))
    }

    open spec fn gives(&self, file: &DataFile, key: String) -> bool {
        call_ensures(*self, (file,), key)
    }

    fn cluster_key(&self, file: &DataFile) -> (key: String) {
        self(file)
    }
}

/// Function that maps a data file to a cluster key for grouping entries into
/// manifests.
pub type ClusterByFunc = Box<dyn ClusterBy>;

/// A manifest that was loaded, with the entries that are still to be routed.
pub struct LoadedManifest {
    pub partition_spec_id: i32,
    pub pending: VecDeque<ManifestEntry>,
}

impl LoadedManifest {
    /// The entries of a manifest, none of them routed yet.
    pub fn new(manifest_file: &ManifestFile, entries: Vec<ManifestEntry>) -> (loaded: Self)
        ensures
            loaded.partition_spec_id == manifest_file.partition_spec_id,
            loaded.pending@ == entries@,
    {
        let mut pending: VecDeque<ManifestEntry> = VecDeque::new();
        for entry in it: entries
            invariant
                it.seq() == entries@,
                pending@ == entries@.take(it.index()),
        {
            pending.push_back(entry);
        }
        LoadedManifest { partition_spec_id: manifest_file.partition_spec_id, pending }
    }
}

/// The entries whose files are part of the table.
pub open spec fn live(entries: Seq<ManifestEntry>) -> Seq<ManifestEntry> {
    entries.filter(|e: ManifestEntry| e.alive())
}

/// Entries as later manifests carry them forward.
pub open spec fn carried(entries: Seq<ManifestEntry>) -> Seq<ManifestEntry> {
    entries.map_values(|e: ManifestEntry| e.carried())
}

/// The open writers after entries were carried forward in turn, each for its key.
pub open spec fn filled(
    writers: Map<WriterId, Seq<ManifestEntry>>,
    partition_spec_id: i32,
    entries: Seq<ManifestEntry>,
    keys: Seq<String>,
) -> Map<WriterId, Seq<ManifestEntry>>
    decreases entries.len(),
{
    if entries.len() == 0 {
        writers
    } else {
        with_entry(
            filled(writers, partition_spec_id, entries.drop_last(), keys.drop_last()),
            (keys.last()@, partition_spec_id),
            entries.last(),
        )
    }
}

/// Whether measuring the writer of an id, filled with the given entries, may have
/// had this outcome.
pub open spec fn measured<S, E>(
    measure: S,
    id: WriterId,
    entries: Seq<ManifestEntry>,
    outcome: Result<u64, E>,
) -> bool where S: Fn(&ManifestWriter) -> Result<u64, E> {
    exists|w: ManifestWriter|
        {
            &&& w.content == ManifestContentType::Data
            &&& w.partition_spec_id == id.1
            &&& w.entries@ == entries
            &&& #[trigger] call_ensures(measure, (&w,), outcome)
        }
}

/// What routing live entries in turn was told: the key of each, and the outcome of
/// measuring its writer once it held the entry.
pub open spec fn told<S, E>(
    cluster_func: &ClusterByFunc,
    measure: S,
    writers: Map<WriterId, Seq<ManifestEntry>>,
    partition_spec_id: i32,
    entries: Seq<ManifestEntry>,
    keys: Seq<String>,
    outcomes: Seq<Result<u64, E>>,
) -> bool where S: Fn(&ManifestWriter) -> Result<u64, E> {
    &&& keys.len() == entries.len()
    &&& outcomes.len() == entries.len()
    &&& forall|i: int|
        0 <= i < entries.len() ==> cluster_func.gives(
            &(#[trigger] entries[i]).data_file,
            keys[i],
        )
    &&& forall|i: int|
        #![trigger outcomes[i]]
        0 <= i < entries.len() ==> measured(
            measure,
            (keys[i]@, partition_spec_id),
            filled(writers, partition_spec_id, entries.take(i + 1), keys.take(i + 1))[(
                keys[i]@,
                partition_spec_id,
            )],
            outcomes[i],
        )
}

proof fn lemma_told_push<S, E>(
    cluster_func: &ClusterByFunc,
    measure: S,
    writers: Map<WriterId, Seq<ManifestEntry>>,
    partition_spec_id: i32,
    entries: Seq<ManifestEntry>,
    keys: Seq<String>,
    outcomes: Seq<Result<u64, E>>,
    entry: ManifestEntry,
    key: String,
    outcome: Result<u64, E>,
) where S: Fn(&ManifestWriter) -> Result<u64, E>
    requires
        told(cluster_func, measure, writers, partition_spec_id, entries, keys, outcomes),
        cluster_func.gives(&entry.data_file, key),
        measured(
            measure,
            (key@, partition_spec_id),
            with_entry(
                filled(writers, partition_spec_id, entries, keys),
                (key@, partition_spec_id),
                entry,
            )[(key@, partition_spec_id)],
            outcome,
        ),
    ensures
        told(
            cluster_func,
            measure,
            writers,
            partition_spec_id,
            entries.push(entry),
            keys.push(key),
            outcomes.push(outcome),
        ),
        filled(writers, partition_spec_id, entries.push(entry), keys.push(key)) == with_entry(
            filled(writers, partition_spec_id, entries, keys),
            (key@, partition_spec_id),
            entry,
        ),
{
    let es = entries.push(entry);
    let ks = keys.push(key);
    let os = outcomes.push(outcome);
    assert(es.drop_last() =~= entries);
    assert(ks.drop_last() =~= keys);
    assert forall|i: int| 0 <= i < es.len() implies cluster_func.gives(
        &(#[trigger] es[i]).data_file,
        ks[i],
    ) by {
        if i < entries.len() {
            assert(es[i] == entries[i]);
        }
    }
    assert forall|i: int| #![trigger os[i]] 0 <= i < es.len() implies measured(
        measure,
        (ks[i]@, partition_spec_id),
        filled(writers, partition_spec_id, es.take(i + 1), ks.take(i + 1))[(
            ks[i]@,
            partition_spec_id,
        )],
        os[i],
    ) by {
        if i < entries.len() {
            assert(es.take(i + 1) =~= entries.take(i + 1));
            assert(ks.take(i + 1) =~= keys.take(i + 1));
            assert(os[i] == outcomes[i]);
        } else {
            assert(es.take(i + 1) =~= es);
            assert(ks.take(i + 1) =~= ks);
        }
    }
}

proof fn lemma_live_by_status(entries: Seq<ManifestEntry>)
    ensures
        live(entries) == entries.filter(
            |e: ManifestEntry| e.status != ManifestStatus::Deleted,
        ),
{
    assert((|e: ManifestEntry| e.status != ManifestStatus::Deleted) =~= (|e: ManifestEntry|
        e.alive()));
}

proof fn lemma_live_step(entries: Seq<ManifestEntry>, n: int)
    requires
        0 <= n < entries.len(),
    ensures
        live(entries.take(n + 1)) == if entries[n].alive() {
            live(entries.take(n)).push(entries[n])
        } else {
            live(entries.take(n))
        },
        live(entries.take(n)).len() <= n,
{
    reveal(Seq::filter);
    assert(entries.take(n + 1).drop_last() =~= entries.take(n));
    entries.take(n).lemma_filter_len(|e: ManifestEntry| e.alive());
}

proof fn lemma_carried_push(entries: Seq<ManifestEntry>, entry: ManifestEntry)
    ensures
        carried(entries.push(entry)).to_multiset() == carried(entries).to_multiset().insert(
            entry.carried(),
        ),
{
    broadcast use vstd::seq_lib::group_to_multiset_ensures;

    assert(carried(entries.push(entry)) =~= carried(entries).push(entry.carried()));
}

/// Whether every writer was measured, and found to be below the target.
pub open spec fn all_below<E>(outcomes: Seq<Result<u64, E>>, target: u64) -> bool {
    forall|i: int|
        0 <= i < outcomes.len() ==> ((#[trigger] outcomes[i]) matches Ok(size) && size < target)
}

/// How routing the entries `consumed`, of a manifest of which `rest` is left, takes
/// a pass from `before` to `after` with a given result, for what it was told.
pub open spec fn routes<E>(
    before: ClusteringPassView,
    after: ClusteringPassView,
    partition_spec_id: i32,
    consumed: Seq<ManifestEntry>,
    rest: Seq<ManifestEntry>,
    keys: Seq<String>,
    outcomes: Seq<Result<u64, E>>,
    result: Result<Option<ClusterWriter>, E>,
) -> bool {
    let entries = live(consumed);
    let target = before.target_manifest_size_bytes;
    let writers = filled(before.writers, partition_spec_id, entries, keys);
    let added = ClusteringPassView {
        writers,
        entry_count: before.entry_count + entries.len(),
        routed: before.routed.add(carried(entries).to_multiset()),
        ..before
    };
    match result {
        // Every entry was routed, and no writer reached the target.
        Ok(None) => {
            &&& rest.len() == 0
            &&& all_below(outcomes, target)
            &&& after == added
        },
        // The writer of the last entry was the first to reach the target.
        Ok(Some(w)) => {
            &&& consumed.len() > 0 && consumed.last().alive() && entries.len() > 0
            &&& all_below(outcomes.drop_last(), target)
            &&& outcomes.last() matches Ok(size) && size >= target
            &&& w.wf()
            &&& w.id() == (keys.last()@, partition_spec_id)
            &&& w.writer.entries@ == writers[w.id()]
            &&& after == (ClusteringPassView {
                writers: writers.remove(w.id()),
                sealed: before.sealed.add(w.writer.entries@.to_multiset()),
                ..added
            })
        },
        // Measuring the writer of the last entry failed.
        Err(error) => {
            &&& consumed.len() > 0 && consumed.last().alive() && entries.len() > 0
            &&& all_below(outcomes.drop_last(), target)
            &&& outcomes.last() == Err::<u64, E>(error)
            &&& after == added
        },
    }
}

impl ClusteringPass {
    /// Routes the entries that are left of a manifest, in turn, until a writer
    /// reaches the target size and is sealed, or measuring one fails, or none is
    /// left. Entries of deleted files are passed over.
    ///
    /// `measure` estimates the size of a writer that has just taken an entry.
    pub fn route_until_sealed<S, E>(
        &mut self,
        manifest: &mut LoadedManifest,
        cluster_func: &ClusterByFunc,
        measure: &S,
    ) -> (result: Result<Option<ClusterWriter>, E>) where S: Fn(&ManifestWriter) -> Result<u64, E>
        requires
            old(self).wf(),
            old(self)@.entry_count + old(manifest).pending@.len() <= usize::MAX,
            forall|k: int|
                0 <= k < old(manifest).pending@.len() && (
                #[trigger] old(manifest).pending@[k]).alive() ==> cluster_func.accepts(
                    &old(manifest).pending@[k].data_file,
                ),
            forall|w: &ManifestWriter| #[trigger] call_requires(*measure, (w,)),
        ensures
            final(self).wf(),
            final(manifest).partition_spec_id == old(manifest).partition_spec_id,
            final(manifest).pending@.len() <= old(manifest).pending@.len(),
            result matches Ok(None) ==> final(manifest).pending@.len() == 0,
            final(manifest).pending@.len() > 0 ==> final(manifest).pending@.len() < old(
                manifest,
            ).pending@.len() && !(result matches Ok(None)),
            final(self)@.target_manifest_size_bytes == old(self)@.target_manifest_size_bytes,
            final(self)@.entry_count == old(self)@.entry_count + old(manifest).pending@.take(
                old(manifest).pending@.len() - final(manifest).pending@.len(),
            ).filter(|e: ManifestEntry| e.status != ManifestStatus::Deleted).len(),
            result matches Ok(Some(w)) ==> w.writer.content == ManifestContentType::Data
                && w.writer.partition_spec_id == old(manifest).partition_spec_id
                && w.writer.entries@.len() > 0,
            ({
                let n = old(manifest).pending@.len() - final(manifest).pending@.len();
                let consumed = old(manifest).pending@.take(n);
                &&& final(manifest).pending@ == old(manifest).pending@.skip(n)
                &&& exists|keys: Seq<String>, outcomes: Seq<Result<u64, E>>|
                    {
                        &&& #[trigger] told(
                            cluster_func,
                            *measure,
                            old(self)@.writers,
                            old(manifest).partition_spec_id,
                            live(consumed),
                            keys,
                            outcomes,
                        )
                        &&& routes(
                            old(self)@,
                            final(self)@,
                            old(manifest).partition_spec_id,
                            consumed,
                            final(manifest).pending@,
                            keys,
                            outcomes,
                            result,
                        )
                    }
            }),
    {
        let ghost before = self@;
        let ghost all = manifest.pending@;
        let ghost target = self@.target_manifest_size_bytes;
        let partition_spec_id = manifest.partition_spec_id;
        let ghost mut n: int = 0;
        let ghost mut keys: Seq<String> = Seq::empty();
        let ghost mut outcomes: Seq<Result<u64, E>> = Seq::empty();
        proof {
            broadcast use vstd::seq_lib::group_to_multiset_ensures;

            reveal(Seq::filter);
            assert(live(all.take(0)) =~= Seq::<ManifestEntry>::empty());
            assert(carried(live(all.take(0))) =~= Seq::<ManifestEntry>::empty());
            assert(before.routed.add(carried(live(all.take(0))).to_multiset()) =~= before.routed);
            assert(all.skip(0) =~= all);
        }
        loop
            invariant
                self.wf(),
                before == old(self)@,
                all == old(manifest).pending@,
                target == before.target_manifest_size_bytes,
                partition_spec_id == old(manifest).partition_spec_id,
                manifest.partition_spec_id == partition_spec_id,
                before.entry_count + all.len() <= usize::MAX,
                forall|k: int|
                    0 <= k < all.len() && (#[trigger] all[k]).alive() ==> cluster_func.accepts(
                        &all[k].data_file,
                    ),
                forall|w: &ManifestWriter| #[trigger] call_requires(*measure, (w,)),
                0 <= n <= all.len(),
                manifest.pending@ == all.skip(n),
                told(
                    cluster_func,
                    *measure,
                    before.writers,
                    partition_spec_id,
                    live(all.take(n)),
                    keys,
                    outcomes,
                ),
                all_below(outcomes, target),
                self@ == (ClusteringPassView {
                    writers: filled(before.writers, partition_spec_id, live(all.take(n)), keys),
                    entry_count: before.entry_count + live(all.take(n)).len(),
                    routed: before.routed.add(carried(live(all.take(n))).to_multiset()),
                    ..before
                }),
            decreases manifest.pending@.len(),
        {
            let entry = match manifest.pending.pop_front() {
                Some(entry) => entry,
                None => {
                    proof {
                        lemma_live_by_status(all.take(n));
                    }
                    return Ok(None);
                },
            };
            let ghost entries = live(all.take(n));
            proof {
                lemma_live_by_status(all.take(n + 1));
                lemma_live_step(all, n);
                assert(entry == all[n]);
                assert(manifest.pending@ =~= all.skip(n + 1));
                n = n + 1;
            }
            if !entry.is_alive() {
                continue;
            }
            let key = cluster_func.cluster_key(&entry.data_file);
            let ghost id: WriterId = (key@, partition_spec_id);
            let slot = self.add_entry(key, partition_spec_id, entry);
            let writer = self.writer(slot);
            let outcome = measure(writer);
            proof {
                assert(call_ensures(*measure, (writer,), outcome));
                lemma_told_push(
                    cluster_func,
                    *measure,
                    before.writers,
                    partition_spec_id,
                    entries,
                    keys,
                    outcomes,
                    entry,
                    key,
                    outcome,
                );
                lemma_carried_push(entries, entry);
                assert(before.routed.add(carried(entries).to_multiset()).insert(entry.carried())
                    =~= before.routed.add(carried(entries.push(entry)).to_multiset()));
                assert(outcomes.push(outcome).drop_last() =~= outcomes);
                keys = keys.push(key);
                outcomes = outcomes.push(outcome);
                assert(all.take(n).last() == entry);
            }
            match outcome {
                Err(error) => {
                    return Err(error);
                },
                Ok(size) => {
                    let sealed = self.roll_over(slot, size);
                    if sealed.is_some() {
                        return Ok(sealed);
                    }
                },
            }
        }
    }
}

/// Whether every open writer holds only files that the rule may give the writer's
/// cluster key.
pub open spec fn clustered(
    cluster_func: &ClusterByFunc,
    writers: Map<WriterId, Seq<ManifestEntry>>,
) -> bool {
    forall|id: WriterId, j: int|
        #![trigger writers[id][j]]
        writers.contains_key(id) && 0 <= j < writers[id].len() ==> has_key(
            cluster_func,
            writers[id][j],
            id.0,
        )
}

/// Whether the rule may give an entry's file this key.
pub open spec fn has_key(
    cluster_func: &ClusterByFunc,
    entry: ManifestEntry,
    key: Seq<char>,
) -> bool {
    exists|k: String| k@ == key && #[trigger] cluster_func.gives(&entry.data_file, k)
}

proof fn lemma_filled_is_clustered<S, E>(
    cluster_func: &ClusterByFunc,
    measure: S,
    writers: Map<WriterId, Seq<ManifestEntry>>,
    partition_spec_id: i32,
    entries: Seq<ManifestEntry>,
    keys: Seq<String>,
    outcomes: Seq<Result<u64, E>>,
) where S: Fn(&ManifestWriter) -> Result<u64, E>
    requires
        clustered(cluster_func, writers),
        told(cluster_func, measure, writers, partition_spec_id, entries, keys, outcomes),
    ensures
        clustered(cluster_func, filled(writers, partition_spec_id, entries, keys)),
    decreases entries.len(),
{
    if entries.len() > 0 {
        let n = entries.len() - 1;
        let es = entries.drop_last();
        let ks = keys.drop_last();
        let os = outcomes.drop_last();
        assert(told(cluster_func, measure, writers, partition_spec_id, es, ks, os)) by {
            assert forall|i: int| 0 <= i < es.len() implies cluster_func.gives(
                &(#[trigger] es[i]).data_file,
                ks[i],
            ) by {
                assert(es[i] == entries[i]);
            }
            assert forall|i: int| #![trigger os[i]] 0 <= i < es.len() implies measured(
                measure,
                (ks[i]@, partition_spec_id),
                filled(writers, partition_spec_id, es.take(i + 1), ks.take(i + 1))[(
                    ks[i]@,
                    partition_spec_id,
                )],
                os[i],
            ) by {
                assert(os[i] == outcomes[i]);
                assert(es.take(i + 1) =~= entries.take(i + 1));
                assert(ks.take(i + 1) =~= keys.take(i + 1));
            }
        }
        lemma_filled_is_clustered(
            cluster_func,
            measure,
            writers,
            partition_spec_id,
            es,
            ks,
            os,
        );
        let earlier = filled(writers, partition_spec_id, es, ks);
        let id: WriterId = (keys.last()@, partition_spec_id);
        let now = with_entry(earlier, id, entries.last());
        assert forall|other: WriterId, j: int|
            #![trigger now[other][j]]
            now.contains_key(other) && 0 <= j < now[other].len() implies has_key(
            cluster_func,
            now[other][j],
            other.0,
        ) by {
            if other == id && j == entries_for(earlier, id).len() {
                assert(cluster_func.gives(&entries[n].data_file, keys[n]));
                assert(now[other][j].data_file == entries[n].data_file);
            } else {
                assert(now[other][j] == earlier[other][j]);
            }
        }
    }
}

/// Routing keeps files apart by their cluster key: where each open writer holds
/// files of its own key only, so it does after any number of entries were routed, and
/// so does a writer that is sealed.
pub proof fn law_files_are_grouped_by_key<S, E>(
    cluster_func: &ClusterByFunc,
    measure: S,
    before: ClusteringPassView,
    after: ClusteringPassView,
    partition_spec_id: i32,
    consumed: Seq<ManifestEntry>,
    rest: Seq<ManifestEntry>,
    keys: Seq<String>,
    outcomes: Seq<Result<u64, E>>,
    result: Result<Option<ClusterWriter>, E>,
) where S: Fn(&ManifestWriter) -> Result<u64, E>
    requires
        clustered(cluster_func, before.writers),
        told(
            cluster_func,
            measure,
            before.writers,
            partition_spec_id,
            live(consumed),
            keys,
            outcomes,
        ),
        routes(before, after, partition_spec_id, consumed, rest, keys, outcomes, result),
    ensures
        clustered(cluster_func, after.writers),
        result matches Ok(Some(w)) ==> forall|j: int|
            0 <= j < w.writer.entries@.len() ==> has_key(
                cluster_func,
                #[trigger] w.writer.entries@[j],
                w.key@,
            ),
{
    let entries = live(consumed);
    lemma_filled_is_clustered(
        cluster_func,
        measure,
        before.writers,
        partition_spec_id,
        entries,
        keys,
        outcomes,
    );
    let writers = filled(before.writers, partition_spec_id, entries, keys);
    if let Ok(Some(w)) = result {
        assert(writers.contains_key(w.id()));
        assert forall|j: int| 0 <= j < w.writer.entries@.len() implies has_key(
            cluster_func,
            #[trigger] w.writer.entries@[j],
            w.key@,
        ) by {
            assert(writers[w.id()][j] == w.writer.entries@[j]);
        }
        assert forall|id: WriterId, j: int|
            #![trigger after.writers[id][j]]
            after.writers.contains_key(id) && 0 <= j < after.writers[id].len() implies has_key(
            cluster_func,
            after.writers[id][j],
            id.0,
        ) by {
            assert(after.writers[id][j] == writers[id][j]);
        }
    }
}

/// Whether a pass may go from one state to another by routing the given entries, with
/// the given result.
pub open spec fn may_route<E>(
    before: ClusteringPassView,
    after: ClusteringPassView,
    consumed: Seq<ManifestEntry>,
    result: Result<Option<ClusterWriter>, E>,
) -> bool {
    exists|
        partition_spec_id: i32,
        rest: Seq<ManifestEntry>,
        keys: Seq<String>,
        outcomes: Seq<Result<u64, E>>,
    | #[trigger]
        routes(before, after, partition_spec_id, consumed, rest, keys, outcomes, result)
}

/// The writers that were sealed, in turn.
pub open spec fn sealed_of<E>(results: Seq<Result<Option<ClusterWriter>, E>>) -> Seq<ClusterWriter>
    decreases results.len(),
{
    if results.len() == 0 {
        Seq::empty()
    } else {
        let earlier = sealed_of(results.drop_last());
        match results.last() {
            Ok(Some(w)) => earlier.push(w),
            _ => earlier,
        }
    }
}

proof fn lemma_run<E>(
    states: Seq<ClusteringPassView>,
    consumed: Seq<Seq<ManifestEntry>>,
    results: Seq<Result<Option<ClusterWriter>, E>>,
)
    requires
        states.len() == consumed.len() + 1,
        results.len() == consumed.len(),
        forall|i: int|
            #![trigger consumed[i]]
            0 <= i < consumed.len() ==> may_route(
                states[i],
                states[i + 1],
                consumed[i],
                results[i],
            ),
    ensures
        states.last().routed == states.first().routed.add(
            carried(live(consumed.flatten())).to_multiset(),
        ),
        states.last().sealed == states.first().sealed.add(held(sealed_of(results))),
        states.last().entry_count == states.first().entry_count + live(consumed.flatten()).len(),
    decreases consumed.len(),
{
    broadcast use vstd::seq_lib::group_to_multiset_ensures;

    let alive = |e: ManifestEntry| e.alive();
    if consumed.len() == 0 {
        reveal(Seq::filter);
        assert(consumed.flatten() =~= Seq::<ManifestEntry>::empty());
        assert(live(consumed.flatten()) =~= Seq::<ManifestEntry>::empty());
        assert(carried(live(consumed.flatten())) =~= Seq::<ManifestEntry>::empty());
        assert(states.last().routed =~= states.first().routed.add(
            carried(live(consumed.flatten())).to_multiset(),
        ));
        assert(states.last().sealed =~= states.first().sealed.add(held(sealed_of(results))));
    } else {
        let n = consumed.len() - 1;
        let earlier = consumed.drop_last();
        let last = consumed.last();
        assert forall|i: int| #![trigger earlier[i]] 0 <= i < earlier.len() implies may_route(
            states.drop_last()[i],
            states.drop_last()[i + 1],
            earlier[i],
            results.drop_last()[i],
        ) by {
            assert(earlier[i] == consumed[i]);
        }
        lemma_run(states.drop_last(), earlier, results.drop_last());
        assert(consumed[n] == last);
        assert(may_route(states[n], states[n + 1], last, results[n]));
        if let Ok(Some(w)) = results[n] {
            let sealed = sealed_of(results.drop_last());
            assert(sealed.push(w).drop_last() =~= sealed);
            assert(states.last().sealed =~= states.first().sealed.add(held(sealed.push(w))));
        }
        consumed.lemma_flatten_and_flatten_alt_are_equivalent();
        earlier.lemma_flatten_and_flatten_alt_are_equivalent();
        assert(consumed.flatten() == earlier.flatten() + last);
        Seq::filter_distributes_over_add(earlier.flatten(), last, alive);
        let a = live(earlier.flatten());
        let b = live(last);
        assert(live(consumed.flatten()) == a + b);
        assert(carried(a + b) =~= carried(a) + carried(b));
        vstd::seq_lib::lemma_multiset_commutative(carried(a), carried(b));
        assert(states.last().routed =~= states.first().routed.add(carried(a + b).to_multiset()));
    }
}

/// No entry is lost or taken twice, however the manifests are cut up and ordered:
/// when a pass has ended, the writers that were sealed on the way and those that were
/// open at the end hold together what the live entries amount to, each once, and each
/// was counted.
pub proof fn law_every_live_entry_is_written_once<E>(
    states: Seq<ClusteringPassView>,
    consumed: Seq<Seq<ManifestEntry>>,
    results: Seq<Result<Option<ClusterWriter>, E>>,
    rest: Seq<ClusterWriter>,
)
    requires
        states.len() == consumed.len() + 1,
        results.len() == consumed.len(),
        states.first() == initial_pass(states.first().target_manifest_size_bytes),
        forall|i: int|
            #![trigger consumed[i]]
            0 <= i < consumed.len() ==> may_route(
                states[i],
                states[i + 1],
                consumed[i],
                results[i],
            ),
        held(rest).add(states.last().sealed) == states.last().routed,
    ensures
        held(sealed_of(results) + rest) == carried(live(consumed.flatten())).to_multiset(),
        states.last().entry_count == live(consumed.flatten()).len(),
{
    lemma_run(states, consumed, results);
    lemma_held_concat(sealed_of(results), rest);
    let sealed = held(sealed_of(results));
    let routed = carried(live(consumed.flatten())).to_multiset();
    assert(states.last().sealed =~= sealed);
    assert(states.last().routed =~= routed);
    assert(sealed.add(held(rest)) =~= held(rest).add(sealed));
}

/// One call that routes entries of a manifest: what it consumed, what it left, what it
/// was told and what came of it.
pub struct Routing<E> {
    pub partition_spec_id: i32,
    pub consumed: Seq<ManifestEntry>,
    pub rest: Seq<ManifestEntry>,
    pub keys: Seq<String>,
    pub outcomes: Seq<Result<u64, E>>,
    pub result: Result<Option<ClusterWriter>, E>,
}

/// Whether a routing takes a pass from one state to another.
pub open spec fn is_routing<S, E>(
    cluster_func: &ClusterByFunc,
    measure: S,
    before: ClusteringPassView,
    after: ClusteringPassView,
    routing: Routing<E>,
) -> bool where S: Fn(&ManifestWriter) -> Result<u64, E> {
    &&& told(
        cluster_func,
        measure,
        before.writers,
        routing.partition_spec_id,
        live(routing.consumed),
        routing.keys,
        routing.outcomes,
    )
    &&& routes(
        before,
        after,
        routing.partition_spec_id,
        routing.consumed,
        routing.rest,
        routing.keys,
        routing.outcomes,
        routing.result,
    )
}

/// Whether the routings take a new pass from each state to the next.
pub open spec fn is_pass<S, E>(
    cluster_func: &ClusterByFunc,
    measure: S,
    states: Seq<ClusteringPassView>,
    routings: Seq<Routing<E>>,
) -> bool where S: Fn(&ManifestWriter) -> Result<u64, E> {
    &&& states.len() == routings.len() + 1
    &&& states.first() == initial_pass(states.first().target_manifest_size_bytes)
    &&& forall|i: int|
        #![trigger routings[i]]
        0 <= i < routings.len() ==> is_routing(
            cluster_func,
            measure,
            states[i],
            states[i + 1],
            routings[i],
        )
}

/// What came of the routings, in turn.
pub open spec fn results_of<E>(routings: Seq<Routing<E>>) -> Seq<
    Result<Option<ClusterWriter>, E>,
> {
    routings.map_values(|r: Routing<E>| r.result)
}

/// What the routings consumed, in turn.
pub open spec fn consumed_of<E>(routings: Seq<Routing<E>>) -> Seq<Seq<ManifestEntry>> {
    routings.map_values(|r: Routing<E>| r.consumed)
}

/// The manifests that come of a pass: the writers that were sealed on the way, then
/// those that were open at the end.
pub open spec fn manifests_of<E>(routings: Seq<Routing<E>>, rest: Seq<ClusterWriter>) -> Seq<
    ClusterWriter,
> {
    sealed_of(results_of(routings)) + rest
}

/// Those of the entries that are for an id, as they are carried forward.
pub open spec fn entries_with_id(
    partition_spec_id: i32,
    entries: Seq<ManifestEntry>,
    keys: Seq<String>,
    id: WriterId,
) -> Seq<ManifestEntry>
    decreases entries.len(),
{
    if entries.len() == 0 {
        Seq::empty()
    } else {
        let earlier = entries_with_id(
            partition_spec_id,
            entries.drop_last(),
            keys.drop_last(),
            id,
        );
        if (keys.last()@, partition_spec_id) == id {
            earlier.push(entries.last().carried())
        } else {
            earlier
        }
    }
}

/// What the routings carried forward for an id, in turn.
pub open spec fn routed_to<E>(routings: Seq<Routing<E>>, id: WriterId) -> Seq<ManifestEntry>
    decreases routings.len(),
{
    if routings.len() == 0 {
        Seq::empty()
    } else {
        let last = routings.last();
        routed_to(routings.drop_last(), id) + entries_with_id(
            last.partition_spec_id,
            live(last.consumed),
            last.keys,
            id,
        )
    }
}

/// What the writers of an id hold, one after the other.
pub open spec fn held_for(writers: Seq<ClusterWriter>, id: WriterId) -> Seq<ManifestEntry>
    decreases writers.len(),
{
    if writers.len() == 0 {
        Seq::empty()
    } else {
        let earlier = held_for(writers.drop_last(), id);
        if writers.last().id() == id {
            earlier + writers.last().writer.entries@
        } else {
            earlier
        }
    }
}

proof fn lemma_held_for_concat(a: Seq<ClusterWriter>, b: Seq<ClusterWriter>, id: WriterId)
    ensures
        held_for(a + b, id) == held_for(a, id) + held_for(b, id),
    decreases b.len(),
{
    if b.len() == 0 {
        assert(a + b =~= a);
        assert(held_for(a, id) + held_for(b, id) =~= held_for(a, id));
    } else {
        lemma_held_for_concat(a, b.drop_last(), id);
        assert((a + b).drop_last() =~= a + b.drop_last());
        assert((a + b).last() == b.last());
        assert(held_for(a + b, id) =~= held_for(a, id) + held_for(b, id));
    }
}

/// An ordered list has one writer of an id at most.
proof fn lemma_held_for_ordered(writers: Seq<ClusterWriter>, id: WriterId)
    requires
        ordered(writers),
    ensures
        held_for(writers, id) == entries_for(writer_map(writers), id),
    decreases writers.len(),
{
    if writers.len() == 0 {
        assert(!writer_map(writers).contains_key(id));
    } else {
        let shorter = writers.drop_last();
        let n = writers.len() - 1;
        lemma_held_for_ordered(shorter, id);
        lemma_writer_map(writers);
        lemma_writer_map(shorter);
        assert(writers[n] == writers.last());
        if writer_map(shorter).contains_key(id) {
            let j = position(shorter, id);
            assert(shorter[j] == writers[j]);
            lemma_id_before(writers[j].id(), writers[n].id(), id);
            assert(id_before(writers[j].id(), writers[n].id()));
        } else if writer_map(writers).contains_key(id) {
            let j = position(writers, id);
            if j < n {
                assert(shorter[j].id() == id);
            }
        }
        assert(held_for(writers, id) =~= entries_for(writer_map(writers), id));
    }
}

/// Entries that are routed come behind those that the writer of their id holds.
proof fn lemma_filled_for(
    writers: Map<WriterId, Seq<ManifestEntry>>,
    partition_spec_id: i32,
    entries: Seq<ManifestEntry>,
    keys: Seq<String>,
    id: WriterId,
)
    ensures
        entries_for(filled(writers, partition_spec_id, entries, keys), id) == entries_for(
            writers,
            id,
        ) + entries_with_id(partition_spec_id, entries, keys, id),
    decreases entries.len(),
{
    if entries.len() > 0 {
        lemma_filled_for(
            writers,
            partition_spec_id,
            entries.drop_last(),
            keys.drop_last(),
            id,
        );
    }
    assert(entries_for(filled(writers, partition_spec_id, entries, keys), id) =~= entries_for(
        writers,
        id,
    ) + entries_with_id(partition_spec_id, entries, keys, id));
}

/// What an open writer holds stays in it, in its order, while more is routed: unless
/// the writer of an id is sealed, it holds afterwards what it held before, and then
/// what was routed for the id.
pub proof fn law_open_writers_keep_what_they_hold<S, E>(
    cluster_func: &ClusterByFunc,
    measure: S,
    before: ClusteringPassView,
    after: ClusteringPassView,
    routing: Routing<E>,
    id: WriterId,
) where S: Fn(&ManifestWriter) -> Result<u64, E>
    requires
        is_routing(cluster_func, measure, before, after, routing),
    ensures
        ({
            let now = entries_for(before.writers, id) + entries_with_id(
                routing.partition_spec_id,
                live(routing.consumed),
                routing.keys,
                id,
            );
            match routing.result {
                Ok(Some(w)) if w.id() == id => {
                    &&& w.writer.entries@ == now
                    &&& !after.writers.contains_key(id)
                },
                _ => entries_for(after.writers, id) == now,
            }
        }),
{
    lemma_filled_for(
        before.writers,
        routing.partition_spec_id,
        live(routing.consumed),
        routing.keys,
        id,
    );
}

proof fn lemma_shorter_pass<S, E>(
    cluster_func: &ClusterByFunc,
    measure: S,
    states: Seq<ClusteringPassView>,
    routings: Seq<Routing<E>>,
) where S: Fn(&ManifestWriter) -> Result<u64, E>
    requires
        is_pass(cluster_func, measure, states, routings),
        routings.len() > 0,
    ensures
        is_pass(cluster_func, measure, states.drop_last(), routings.drop_last()),
        is_routing(
            cluster_func,
            measure,
            states.drop_last().last(),
            states.last(),
            routings.last(),
        ),
        results_of(routings).drop_last() == results_of(routings.drop_last()),
        results_of(routings).last() == routings.last().result,
{
    let n = routings.len() - 1;
    let fewer = routings.drop_last();
    assert forall|i: int| #![trigger fewer[i]] 0 <= i < fewer.len() implies is_routing(
        cluster_func,
        measure,
        states.drop_last()[i],
        states.drop_last()[i + 1],
        fewer[i],
    ) by {
        assert(fewer[i] == routings[i]);
    }
    assert(routings[n] == routings.last());
    assert(results_of(routings).drop_last() =~= results_of(fewer));
}

proof fn lemma_pass_holds<S, E>(
    cluster_func: &ClusterByFunc,
    measure: S,
    states: Seq<ClusteringPassView>,
    routings: Seq<Routing<E>>,
    id: WriterId,
) where S: Fn(&ManifestWriter) -> Result<u64, E>
    requires
        is_pass(cluster_func, measure, states, routings),
    ensures
        held_for(sealed_of(results_of(routings)), id) + entries_for(states.last().writers, id)
            == routed_to(routings, id),
    decreases routings.len(),
{
    let sealed = sealed_of(results_of(routings));
    if routings.len() > 0 {
        let last = routings.last();
        let fewer = routings.drop_last();
        let earlier = sealed_of(results_of(fewer));
        lemma_shorter_pass(cluster_func, measure, states, routings);
        lemma_pass_holds(cluster_func, measure, states.drop_last(), fewer, id);
        law_open_writers_keep_what_they_hold(
            cluster_func,
            measure,
            states.drop_last().last(),
            states.last(),
            last,
            id,
        );
        if let Ok(Some(w)) = last.result {
            assert(earlier.push(w).drop_last() =~= earlier);
        }
    }
    assert(held_for(sealed, id) + entries_for(states.last().writers, id) =~= routed_to(
        routings,
        id,
    ));
}

/// Each cluster key and partition spec gets what was routed for it, and nothing else:
/// when a pass has ended, its manifests of an id hold, one after the other, the live
/// entries for that id in the order in which they were routed, each once.
pub proof fn law_manifests_hold_what_was_routed<S, E>(
    cluster_func: &ClusterByFunc,
    measure: S,
    states: Seq<ClusteringPassView>,
    routings: Seq<Routing<E>>,
    rest: Seq<ClusterWriter>,
    id: WriterId,
) where S: Fn(&ManifestWriter) -> Result<u64, E>
    requires
        is_pass(cluster_func, measure, states, routings),
        ends_with(states.last(), rest),
    ensures
        held_for(manifests_of(routings, rest), id) == routed_to(routings, id),
{
    lemma_pass_holds(cluster_func, measure, states, routings, id);
    lemma_held_for_concat(sealed_of(results_of(routings)), rest, id);
    lemma_held_for_ordered(rest, id);
}

proof fn lemma_with_id_contains(
    partition_spec_id: i32,
    entries: Seq<ManifestEntry>,
    keys: Seq<String>,
    k: int,
)
    requires
        keys.len() == entries.len(),
        0 <= k < entries.len(),
    ensures
        entries_with_id(partition_spec_id, entries, keys, (keys[k]@, partition_spec_id)).contains(
            entries[k].carried(),
        ),
    decreases entries.len(),
{
    let id = (keys[k]@, partition_spec_id);
    let earlier = entries_with_id(partition_spec_id, entries.drop_last(), keys.drop_last(), id);
    let all = entries_with_id(partition_spec_id, entries, keys, id);
    if k == entries.len() - 1 {
        assert(all[earlier.len() as int] == entries[k].carried());
    } else {
        lemma_with_id_contains(partition_spec_id, entries.drop_last(), keys.drop_last(), k);
        let j = choose|j: int| 0 <= j < earlier.len() && earlier[j] == entries[k].carried();
        assert(all[j] == entries[k].carried());
    }
}

proof fn lemma_routed_to_contains<E>(routings: Seq<Routing<E>>, i: int, k: int)
    requires
        0 <= i < routings.len(),
        routings[i].keys.len() == live(routings[i].consumed).len(),
        0 <= k < live(routings[i].consumed).len(),
    ensures
        routed_to(routings, (routings[i].keys[k]@, routings[i].partition_spec_id)).contains(
            live(routings[i].consumed)[k].carried(),
        ),
    decreases routings.len(),
{
    let id = (routings[i].keys[k]@, routings[i].partition_spec_id);
    let entry = live(routings[i].consumed)[k].carried();
    let last = routings.last();
    let earlier = routed_to(routings.drop_last(), id);
    let now = entries_with_id(last.partition_spec_id, live(last.consumed), last.keys, id);
    let all = routed_to(routings, id);
    if i == routings.len() - 1 {
        lemma_with_id_contains(last.partition_spec_id, live(last.consumed), last.keys, k);
        let j = choose|j: int| 0 <= j < now.len() && now[j] == entry;
        assert(all[earlier.len() + j] == entry);
    } else {
        lemma_routed_to_contains(routings.drop_last(), i, k);
        let j = choose|j: int| 0 <= j < earlier.len() && earlier[j] == entry;
        assert(all[j] == entry);
    }
}

/// Files with the same cluster key are collected in the same writer: where a pass seals
/// none on its way, every live entry that was routed is, when the pass has ended, in
/// the writer of its key and its manifest's partition spec, and there is only one.
pub proof fn law_files_of_one_key_share_a_writer<S, E>(
    cluster_func: &ClusterByFunc,
    measure: S,
    states: Seq<ClusteringPassView>,
    routings: Seq<Routing<E>>,
    rest: Seq<ClusterWriter>,
    i: int,
    k: int,
) where S: Fn(&ManifestWriter) -> Result<u64, E>
    requires
        is_pass(cluster_func, measure, states, routings),
        ends_with(states.last(), rest),
        forall|j: int|
            0 <= j < routings.len() ==> !((#[trigger] routings[j]).result matches Ok(Some(_))),
        0 <= i < routings.len(),
        0 <= k < live(routings[i].consumed).len(),
    ensures
        ({
            let entry = live(routings[i].consumed)[k];
            let key = routings[i].keys[k];
            let id = (key@, routings[i].partition_spec_id);
            let p = position(rest, id);
            &&& cluster_func.gives(&entry.data_file, key)
            &&& 0 <= p < rest.len() && rest[p].id() == id
            &&& rest[p].writer.entries@.contains(entry.carried())
            &&& forall|j: int|
                0 <= j < rest.len() && (#[trigger] rest[j]).id() == id ==> j == p
        }),
{
    let entry = live(routings[i].consumed)[k];
    let id = (routings[i].keys[k]@, routings[i].partition_spec_id);
    assert(is_routing(cluster_func, measure, states[i], states[i + 1], routings[i]));
    lemma_pass_holds(cluster_func, measure, states, routings, id);
    lemma_none_sealed(routings);
    lemma_routed_to_contains(routings, i, k);
    let open = entries_for(writer_map(rest), id);
    assert(open =~= routed_to(routings, id));
    assert(writer_map(rest).contains_key(id));
    let p = position(rest, id);
    assert(0 <= p < rest.len() && rest[p].id() == id);
    lemma_writer_map(rest);
    assert forall|j: int| 0 <= j < rest.len() && (#[trigger] rest[j]).id() == id implies j == p by {
        lemma_position(rest, j);
    }
}

proof fn lemma_none_sealed<E>(routings: Seq<Routing<E>>)
    requires
        forall|j: int|
            0 <= j < routings.len() ==> !((#[trigger] routings[j]).result matches Ok(Some(_))),
    ensures
        sealed_of(results_of(routings)) == Seq::<ClusterWriter>::empty(),
    decreases routings.len(),
{
    if routings.len() > 0 {
        let fewer = routings.drop_last();
        assert forall|j: int| 0 <= j < fewer.len() implies !(
        (#[trigger] fewer[j]).result matches Ok(Some(_))) by {
            assert(fewer[j] == routings[j]);
        }
        lemma_none_sealed(fewer);
        assert(results_of(routings).drop_last() =~= results_of(fewer));
        assert(routings[routings.len() - 1] == routings.last());
    }
}

/// Whether a routing carried an entry forward for an id.
pub open spec fn carried_by<E>(
    routing: Routing<E>,
    id: WriterId,
    entry: ManifestEntry,
) -> bool {
    &&& routing.partition_spec_id == id.1
    &&& exists|k: int|
        {
            &&& 0 <= k < live(routing.consumed).len()
            &&& (#[trigger] live(routing.consumed)[k]).carried() == entry
            &&& routing.keys[k]@ == id.0
        }
}

proof fn lemma_with_id_source(
    partition_spec_id: i32,
    entries: Seq<ManifestEntry>,
    keys: Seq<String>,
    id: WriterId,
    j: int,
) -> (k: int)
    requires
        keys.len() == entries.len(),
        0 <= j < entries_with_id(partition_spec_id, entries, keys, id).len(),
    ensures
        partition_spec_id == id.1,
        0 <= k < entries.len(),
        entries[k].carried() == entries_with_id(partition_spec_id, entries, keys, id)[j],
        keys[k]@ == id.0,
    decreases entries.len(),
{
    let earlier = entries_with_id(partition_spec_id, entries.drop_last(), keys.drop_last(), id);
    if j < earlier.len() {
        lemma_with_id_source(partition_spec_id, entries.drop_last(), keys.drop_last(), id, j)
    } else {
        entries.len() - 1
    }
}

proof fn lemma_routed_to_source<E>(routings: Seq<Routing<E>>, id: WriterId, j: int) -> (i: int)
    requires
        forall|i: int|
            0 <= i < routings.len() ==> (#[trigger] routings[i]).keys.len() == live(
                routings[i].consumed,
            ).len(),
        0 <= j < routed_to(routings, id).len(),
    ensures
        0 <= i < routings.len(),
        carried_by(routings[i], id, routed_to(routings, id)[j]),
    decreases routings.len(),
{
    let fewer = routings.drop_last();
    let last = routings.last();
    let earlier = routed_to(fewer, id);
    let n = routings.len() - 1;
    assert(routings[n] == last);
    if j < earlier.len() {
        assert forall|i: int| 0 <= i < fewer.len() implies (#[trigger] fewer[i]).keys.len() == live(
            fewer[i].consumed,
        ).len() by {
            assert(fewer[i] == routings[i]);
        }
        lemma_routed_to_source(fewer, id, j)
    } else {
        let k = lemma_with_id_source(
            last.partition_spec_id,
            live(last.consumed),
            last.keys,
            id,
            j - earlier.len(),
        );
        assert(live(routings[n].consumed)[k].carried() == routed_to(routings, id)[j]);
        n
    }
}

proof fn lemma_held_for_contains(writers: Seq<ClusterWriter>, n: int, k: int)
    requires
        0 <= n < writers.len(),
        0 <= k < writers[n].writer.entries@.len(),
    ensures
        held_for(writers, writers[n].id()).contains(writers[n].writer.entries@[k]),
    decreases writers.len(),
{
    let id = writers[n].id();
    let entry = writers[n].writer.entries@[k];
    let earlier = held_for(writers.drop_last(), id);
    let all = held_for(writers, id);
    if n == writers.len() - 1 {
        assert(all[earlier.len() + k] == entry);
    } else {
        lemma_held_for_contains(writers.drop_last(), n, k);
        let j = choose|j: int| 0 <= j < earlier.len() && earlier[j] == entry;
        assert(all[j] == entry);
    }
}

/// Manifests of different partition specs are never mixed: every entry in a manifest
/// that comes of a pass was carried forward from a manifest of the same partition spec,
/// under the key that the manifest was filled for.
pub proof fn law_partition_specs_are_kept_apart<S, E>(
    cluster_func: &ClusterByFunc,
    measure: S,
    states: Seq<ClusteringPassView>,
    routings: Seq<Routing<E>>,
    rest: Seq<ClusterWriter>,
    n: int,
    k: int,
) where S: Fn(&ManifestWriter) -> Result<u64, E>
    requires
        is_pass(cluster_func, measure, states, routings),
        ends_with(states.last(), rest),
        0 <= n < manifests_of(routings, rest).len(),
        0 <= k < manifests_of(routings, rest)[n].writer.entries@.len(),
    ensures
        exists|i: int|
            0 <= i < routings.len() && carried_by(
                #[trigger] routings[i],
                manifests_of(routings, rest)[n].id(),
                manifests_of(routings, rest)[n].writer.entries@[k],
            ),
{
    let written = manifests_of(routings, rest);
    let id = written[n].id();
    let entry = written[n].writer.entries@[k];
    law_manifests_hold_what_was_routed(cluster_func, measure, states, routings, rest, id);
    lemma_held_for_contains(written, n, k);
    let all = routed_to(routings, id);
    let j = choose|j: int| 0 <= j < all.len() && all[j] == entry;
    assert forall|i: int| 0 <= i < routings.len() implies (#[trigger] routings[i]).keys.len()
        == live(routings[i].consumed).len() by {
        assert(is_routing(cluster_func, measure, states[i], states[i + 1], routings[i]));
    }
    let i = lemma_routed_to_source(routings, id, j);
    assert(carried_by(routings[i], id, entry));
}

/// Whether measuring a writer failed in one of the routings.
pub open spec fn failed<E>(routings: Seq<Routing<E>>) -> bool {
    exists|i: int| 0 <= i < routings.len() && (#[trigger] routings[i]).result is Err
}

/// Whether a writer of an id that held these entries was measured and not found to have
/// reached the target. Measuring it succeeded, unless failures are allowed for.
pub open spec fn was_below<S, E>(
    measure: S,
    target: u64,
    id: WriterId,
    entries: Seq<ManifestEntry>,
    failures: bool,
) -> bool where S: Fn(&ManifestWriter) -> Result<u64, E> {
    exists|outcome: Result<u64, E>|
        {
            &&& #[trigger] measured(measure, id, entries, outcome)
            &&& match outcome {
                Ok(size) => size < target,
                Err(_) => failures,
            }
        }
}

/// Whether a writer of an id that held these entries was measured and found to have
/// reached the target.
pub open spec fn reached<S, E>(
    measure: S,
    target: u64,
    id: WriterId,
    entries: Seq<ManifestEntry>,
) -> bool where S: Fn(&ManifestWriter) -> Result<u64, E> {
    exists|size: u64|
        size >= target && #[trigger] measured(measure, id, entries, Ok::<u64, E>(size))
}

/// Whether a writer was below the target with each of its first `n` entries.
pub open spec fn below_up_to<S, E>(
    measure: S,
    target: u64,
    id: WriterId,
    entries: Seq<ManifestEntry>,
    n: int,
    failures: bool,
) -> bool where S: Fn(&ManifestWriter) -> Result<u64, E> {
    forall|k: int|
        1 <= k <= n ==> was_below::<S, E>(
            measure,
            target,
            id,
            #[trigger] entries.take(k),
            failures,
        )
}

/// Whether a writer reached the target with its last entry, and not before.
pub open spec fn sealed_in_time<S, E>(
    measure: S,
    target: u64,
    writer: ClusterWriter,
    failures: bool,
) -> bool where S: Fn(&ManifestWriter) -> Result<u64, E> {
    let entries = writer.writer.entries@;
    &&& entries.len() > 0
    &&& below_up_to::<S, E>(measure, target, writer.id(), entries, entries.len() - 1, failures)
    &&& reached::<S, E>(measure, target, writer.id(), entries)
}

/// Whether every open writer has been below the target from its first entry on.
pub open spec fn all_open_below<S, E>(
    measure: S,
    target: u64,
    writers: Map<WriterId, Seq<ManifestEntry>>,
    failures: bool,
) -> bool where S: Fn(&ManifestWriter) -> Result<u64, E> {
    forall|id: WriterId| #[trigger]
        writers.contains_key(id) ==> below_up_to::<S, E>(
            measure,
            target,
            id,
            writers[id],
            writers[id].len() as int,
            failures,
        )
}

/// One more entry leaves what its writer held before below the target.
proof fn lemma_with_entry_below<S, E>(
    measure: S,
    target: u64,
    writers: Map<WriterId, Seq<ManifestEntry>>,
    id: WriterId,
    entry: ManifestEntry,
    failures: bool,
) where S: Fn(&ManifestWriter) -> Result<u64, E>
    requires
        all_open_below::<S, E>(measure, target, writers, failures),
    ensures
        ({
            let now = with_entry(writers, id, entry);
            &&& below_up_to::<S, E>(measure, target, id, now[id], now[id].len() - 1, failures)
            &&& was_below::<S, E>(measure, target, id, now[id], failures) ==> all_open_below::<
                S,
                E,
            >(measure, target, now, failures)
            &&& all_open_below::<S, E>(measure, target, now.remove(id), failures)
        }),
{
    let now = with_entry(writers, id, entry);
    let held = entries_for(writers, id);
    assert forall|k: int| 1 <= k <= now[id].len() - 1 implies was_below::<S, E>(
        measure,
        target,
        id,
        #[trigger] now[id].take(k),
        failures,
    ) by {
        assert(now[id].take(k) =~= held.take(k));
        assert(writers.contains_key(id));
    }
    if was_below::<S, E>(measure, target, id, now[id], failures) {
        assert(now[id].take(now[id].len() as int) =~= now[id]);
        assert forall|other: WriterId| #[trigger] now.contains_key(other) implies below_up_to::<
            S,
            E,
        >(measure, target, other, now[other], now[other].len() as int, failures) by {
            if other == id {
                assert forall|k: int| 1 <= k <= now[id].len() implies was_below::<S, E>(
                    measure,
                    target,
                    id,
                    #[trigger] now[id].take(k),
                    failures,
                ) by {}
            } else {
                assert(writers.contains_key(other));
            }
        }
    }
    assert forall|other: WriterId| #[trigger] now.remove(id).contains_key(other) implies below_up_to::<
        S,
        E,
    >(
        measure,
        target,
        other,
        now.remove(id)[other],
        now.remove(id)[other].len() as int,
        failures,
    ) by {
        assert(writers.contains_key(other));
    }
}

/// Routing entries whose writers stay below the target keeps all writers below it.
proof fn lemma_filled_below<S, E>(
    cluster_func: &ClusterByFunc,
    measure: S,
    target: u64,
    writers: Map<WriterId, Seq<ManifestEntry>>,
    partition_spec_id: i32,
    entries: Seq<ManifestEntry>,
    keys: Seq<String>,
    outcomes: Seq<Result<u64, E>>,
    n: int,
    failures: bool,
) where S: Fn(&ManifestWriter) -> Result<u64, E>
    requires
        all_open_below::<S, E>(measure, target, writers, failures),
        told(cluster_func, measure, writers, partition_spec_id, entries, keys, outcomes),
        0 <= n <= entries.len(),
        forall|i: int|
            0 <= i < n ==> match #[trigger] outcomes[i] {
                Ok(size) => size < target,
                Err(_) => failures,
            },
    ensures
        all_open_below::<S, E>(
            measure,
            target,
            filled(writers, partition_spec_id, entries.take(n), keys.take(n)),
            failures,
        ),
    decreases n,
{
    if n > 0 {
        lemma_filled_below(
            cluster_func,
            measure,
            target,
            writers,
            partition_spec_id,
            entries,
            keys,
            outcomes,
            n - 1,
            failures,
        );
        let es = entries.take(n);
        let ks = keys.take(n);
        let id: WriterId = (keys[n - 1]@, partition_spec_id);
        assert(es.drop_last() =~= entries.take(n - 1));
        assert(ks.drop_last() =~= keys.take(n - 1));
        let earlier = filled(writers, partition_spec_id, entries.take(n - 1), keys.take(n - 1));
        let now = filled(writers, partition_spec_id, es, ks);
        assert(now == with_entry(earlier, id, entries[n - 1]));
        lemma_with_entry_below::<S, E>(measure, target, earlier, id, entries[n - 1], failures);
        let outcome = outcomes[n - 1];
        assert(measured(measure, id, now[id], outcome));
        assert(was_below::<S, E>(measure, target, id, now[id], failures));
    }
}

proof fn lemma_pass_below<S, E>(
    cluster_func: &ClusterByFunc,
    measure: S,
    states: Seq<ClusteringPassView>,
    routings: Seq<Routing<E>>,
    failures: bool,
) where S: Fn(&ManifestWriter) -> Result<u64, E>
    requires
        is_pass(cluster_func, measure, states, routings),
        failed(routings) ==> failures,
    ensures
        states.last().target_manifest_size_bytes == states.first().target_manifest_size_bytes,
        all_open_below::<S, E>(
            measure,
            states.first().target_manifest_size_bytes,
            states.last().writers,
            failures,
        ),
        forall|n: int|
            0 <= n < sealed_of(results_of(routings)).len() ==> sealed_in_time::<S, E>(
                measure,
                states.first().target_manifest_size_bytes,
                #[trigger] sealed_of(results_of(routings))[n],
                failures,
            ),
    decreases routings.len(),
{
    let target = states.first().target_manifest_size_bytes;
    if routings.len() > 0 {
        let last = routings.last();
        let fewer = routings.drop_last();
        let before = states.drop_last().last();
        let entries = live(last.consumed);
        let spec = last.partition_spec_id;
        lemma_shorter_pass(cluster_func, measure, states, routings);
        if failed(fewer) {
            let i = choose|i: int| 0 <= i < fewer.len() && (#[trigger] fewer[i]).result is Err;
            assert(routings[i].result is Err);
        }
        assert(routings[routings.len() - 1] == last);
        lemma_pass_below(cluster_func, measure, states.drop_last(), fewer, failures);
        let n = entries.len() as int;
        assert(entries.take(n) =~= entries);
        assert(last.keys.take(n) =~= last.keys);
        match last.result {
            Ok(Some(w)) => {
                assert forall|i: int| 0 <= i < n - 1 implies match #[trigger] last.outcomes[i] {
                    Ok(size) => size < target,
                    Err(_) => failures,
                } by {
                    assert(last.outcomes.drop_last()[i] == last.outcomes[i]);
                }
                lemma_filled_below(
                    cluster_func,
                    measure,
                    target,
                    before.writers,
                    spec,
                    entries,
                    last.keys,
                    last.outcomes,
                    n - 1,
                    failures,
                );
                let earlier = filled(
                    before.writers,
                    spec,
                    entries.take(n - 1),
                    last.keys.take(n - 1),
                );
                let now = filled(before.writers, spec, entries, last.keys);
                assert(entries.drop_last() =~= entries.take(n - 1));
                assert(last.keys.drop_last() =~= last.keys.take(n - 1));
                lemma_with_entry_below::<S, E>(
                    measure,
                    target,
                    earlier,
                    w.id(),
                    entries.last(),
                    failures,
                );
                assert(measured(measure, w.id(), now[w.id()], last.outcomes[n - 1]));
                assert(sealed_in_time::<S, E>(measure, target, w, failures));
            },
            _ => {
                assert forall|i: int| 0 <= i < n implies match #[trigger] last.outcomes[i] {
                    Ok(size) => size < target,
                    Err(_) => failures,
                } by {
                    if last.result is Err && i < n - 1 {
                        assert(last.outcomes.drop_last()[i] == last.outcomes[i]);
                    }
                }
                lemma_filled_below(
                    cluster_func,
                    measure,
                    target,
                    before.writers,
                    spec,
                    entries,
                    last.keys,
                    last.outcomes,
                    n,
                    failures,
                );
            },
        }
        let sealed = sealed_of(results_of(routings));
        let earlier = sealed_of(results_of(fewer));
        assert forall|n: int| 0 <= n < sealed.len() implies sealed_in_time::<S, E>(
            measure,
            target,
            #[trigger] sealed[n],
            failures,
        ) by {
            if n < earlier.len() {
                assert(sealed[n] == earlier[n]);
            }
        }
    }
}

/// Manifests are rolled over at the target size: when a pass has ended, every manifest
/// that was sealed on the way reached the target with its last entry and not before;
/// every other one has stayed below it, and is the last of its key and partition spec.
/// So there is at most one manifest below the target for each of them.
///
/// Where measuring failed for a writer that was left open, it is not known to be below
/// the target.
pub proof fn law_manifests_roll_over_at_the_target<S, E>(
    cluster_func: &ClusterByFunc,
    measure: S,
    states: Seq<ClusteringPassView>,
    routings: Seq<Routing<E>>,
    rest: Seq<ClusterWriter>,
) where S: Fn(&ManifestWriter) -> Result<u64, E>
    requires
        is_pass(cluster_func, measure, states, routings),
        ends_with(states.last(), rest),
    ensures
        ({
            let target = states.first().target_manifest_size_bytes;
            let sealed = sealed_of(results_of(routings));
            let written = manifests_of(routings, rest);
            &&& forall|n: int|
                0 <= n < sealed.len() ==> sealed_in_time::<S, E>(
                    measure,
                    target,
                    #[trigger] sealed[n],
                    failed(routings),
                )
            &&& forall|n: int|
                0 <= n < rest.len() ==> below_up_to::<S, E>(
                    measure,
                    target,
                    (#[trigger] rest[n]).id(),
                    rest[n].writer.entries@,
                    rest[n].writer.entries@.len() as int,
                    failed(routings),
                )
            &&& forall|m: int, n: int|
                0 <= m < n < written.len() && (#[trigger] written[m]).id() == (
                #[trigger] written[n]).id() ==> sealed_in_time::<S, E>(
                    measure,
                    target,
                    written[m],
                    failed(routings),
                )
        }),
{
    let target = states.first().target_manifest_size_bytes;
    let sealed = sealed_of(results_of(routings));
    let written = manifests_of(routings, rest);
    lemma_pass_below(cluster_func, measure, states, routings, failed(routings));
    lemma_writer_map(rest);
    assert forall|m: int, n: int|
        0 <= m < n < written.len() && (#[trigger] written[m]).id() == (
        #[trigger] written[n]).id() implies sealed_in_time::<S, E>(
        measure,
        target,
        written[m],
        failed(routings),
    ) by {
        if m < sealed.len() {
            assert(written[m] == sealed[m]);
        } else {
            let x = m - sealed.len();
            let y = n - sealed.len();
            assert(written[m] == rest[x] && written[n] == rest[y]);
            lemma_id_before(rest[x].id(), rest[y].id(), rest[x].id());
        }
    }
}

/// Exactly the entries that are not marked as deleted are live, in their order: one
/// entry more at the end is one live entry more, unless it is marked as deleted. They
/// are carried forward one for one, and change in their status only.
pub proof fn law_entries_are_live_unless_deleted(
    entries: Seq<ManifestEntry>,
    entry: ManifestEntry,
    i: int,
)
    ensures
        live(Seq::empty()) == Seq::<ManifestEntry>::empty(),
        entry.status == ManifestStatus::Added || entry.status == ManifestStatus::Existing ==> live(
            entries.push(entry),
        ) == live(entries).push(entry),
        entry.status == ManifestStatus::Deleted ==> live(entries.push(entry)) == live(entries),
        carried(entries).len() == entries.len(),
        0 <= i < entries.len() ==> carried(entries)[i] == (ManifestEntry {
            status: ManifestStatus::Existing,
            ..entries[i]
        }),
{
    reveal(Seq::filter);
    assert(entries.push(entry).drop_last() =~= entries);
}

/// A writer that a pass holds or seals lists data files, at least one, and all of them as
/// existing.
pub proof fn law_writers_list_data_files_as_existing(writer: ClusterWriter)
    requires
        writer.wf(),
    ensures
        writer.writer.content == ManifestContentType::Data,
        writer.writer.entries@.len() > 0,
        forall|j: int|
            0 <= j < writer.writer.entries@.len() ==> (#[trigger] writer.writer.entries@[j]).status
                == ManifestStatus::Existing,
        writer.id().0 == writer.key@,
        writer.id().1 == writer.writer.partition_spec_id,
{
}

/// A pass starts with its target, with no writer open and nothing counted.
pub proof fn law_passes_start_with_nothing(target: u64, id: WriterId)
    ensures
        initial_pass(target).target_manifest_size_bytes == target,
        !initial_pass(target).writers.contains_key(id),
        initial_pass(target).entry_count == 0,
        initial_pass(target).routed == Multiset::<ManifestEntry>::empty(),
        initial_pass(target).sealed == Multiset::<ManifestEntry>::empty(),
{
}

/// Writers come in the order of their cluster keys and, for one key, of their partition
/// specs.
pub proof fn law_writers_are_ordered_by_key_and_spec(
    writers: Seq<ClusterWriter>,
    i: int,
    j: int,
)
    requires
        ordered(writers),
        0 <= i < j < writers.len(),
    ensures
        crate::text::text_before(writers[i].key@, writers[j].key@) || (writers[i].key@
            == writers[j].key@ && writers[i].writer.partition_spec_id
            < writers[j].writer.partition_spec_id),
{
}

proof fn lemma_filled_last(
    writers: Map<WriterId, Seq<ManifestEntry>>,
    partition_spec_id: i32,
    entries: Seq<ManifestEntry>,
    keys: Seq<String>,
)
    requires
        entries.len() > 0,
        keys.len() == entries.len(),
    ensures
        ({
            let now = filled(writers, partition_spec_id, entries, keys)[(
                keys.last()@,
                partition_spec_id,
            )];
            now.len() > 0 && now.last() == entries.last().carried()
        }),
{
}

/// Each live entry gets the key that the rule gives its file, and is followed by a
/// measurement of the writer it went to: one for data files, of the manifest's partition
/// spec, with the entry as its last.
pub proof fn law_keys_and_sizes_are_asked_for_each_entry<S, E>(
    cluster_func: &ClusterByFunc,
    measure: S,
    before: ClusteringPassView,
    after: ClusteringPassView,
    routing: Routing<E>,
    i: int,
) where S: Fn(&ManifestWriter) -> Result<u64, E>
    requires
        is_routing(cluster_func, measure, before, after, routing),
        0 <= i < live(routing.consumed).len(),
    ensures
        routing.keys.len() == live(routing.consumed).len(),
        routing.outcomes.len() == live(routing.consumed).len(),
        cluster_func.gives(&live(routing.consumed)[i].data_file, routing.keys[i]),
        exists|w: ManifestWriter|
            {
                &&& #[trigger] call_ensures(measure, (&w,), routing.outcomes[i])
                &&& w.content == ManifestContentType::Data
                &&& w.partition_spec_id == routing.partition_spec_id
                &&& w.entries@.len() > 0
                &&& w.entries@.last() == (ManifestEntry {
                    status: ManifestStatus::Existing,
                    ..live(routing.consumed)[i]
                })
            },
{
    let entries = live(routing.consumed);
    let es = entries.take(i + 1);
    let ks = routing.keys.take(i + 1);
    let id: WriterId = (routing.keys[i]@, routing.partition_spec_id);
    let outcome = routing.outcomes[i];
    let now = filled(before.writers, routing.partition_spec_id, es, ks)[id];
    assert(measured(measure, id, now, outcome));
    lemma_filled_last(before.writers, routing.partition_spec_id, es, ks);
    assert(es.last() == entries[i]);
    assert(ks.last() == routing.keys[i]);
    let w = choose|w: ManifestWriter|
        {
            &&& w.content == ManifestContentType::Data
            &&& w.partition_spec_id == id.1
            &&& w.entries@ == now
            &&& #[trigger] call_ensures(measure, (&w,), outcome)
        };
    assert(call_ensures(measure, (&w,), routing.outcomes[i]));
}

/// Whether calls are made over the entries of one manifest until none is left to seal:
/// each goes on where the one before left off, and the last seals nothing.
pub open spec fn is_run_over<E>(run: Seq<Routing<E>>, entries: Seq<ManifestEntry>) -> bool {
    &&& run.len() > 0
    &&& run[0].consumed + run[0].rest == entries
    &&& forall|i: int|
        #![trigger run[i]]
        0 < i < run.len() ==> run[i].consumed + run[i].rest == run[i - 1].rest
    &&& run.last().result matches Ok(None)
}

proof fn lemma_run_prefix<E>(run: Seq<Routing<E>>, entries: Seq<ManifestEntry>, n: int)
    requires
        is_run_over(run, entries),
        0 < n <= run.len(),
    ensures
        consumed_of(run.take(n)).flatten() + run[n - 1].rest == entries,
    decreases n,
{
    let now = consumed_of(run.take(n));
    let earlier = consumed_of(run.take(n - 1));
    assert(now.drop_last() =~= earlier);
    assert(now.last() == run[n - 1].consumed);
    now.lemma_flatten_and_flatten_alt_are_equivalent();
    earlier.lemma_flatten_and_flatten_alt_are_equivalent();
    assert(now.flatten() == earlier.flatten() + run[n - 1].consumed);
    if n > 1 {
        lemma_run_prefix(run, entries, n - 1);
        assert(run[n - 1].consumed + run[n - 1].rest == run[n - 2].rest);
    } else {
        assert(earlier =~= Seq::<Seq<ManifestEntry>>::empty());
        assert(earlier.flatten() =~= Seq::<ManifestEntry>::empty());
    }
    assert(now.flatten() + run[n - 1].rest =~= entries);
}

/// Calling until nothing is sealed consumes a manifest whole: no entry is left over and
/// none is taken twice, however often a writer was sealed in between.
pub proof fn law_calling_until_none_consumes_the_manifest<S, E>(
    cluster_func: &ClusterByFunc,
    measure: S,
    before: ClusteringPassView,
    after: ClusteringPassView,
    run: Seq<Routing<E>>,
    entries: Seq<ManifestEntry>,
) where S: Fn(&ManifestWriter) -> Result<u64, E>
    requires
        is_run_over(run, entries),
        is_routing(cluster_func, measure, before, after, run.last()),
    ensures
        run.last().rest.len() == 0,
        consumed_of(run).flatten() == entries,
{
    let n = run.len() as int;
    lemma_run_prefix(run, entries, n);
    assert(run.take(n) =~= run);
    assert(run[n - 1] == run.last());
    assert(consumed_of(run).flatten() =~= entries);
}

/// Whether a pass is made over loaded manifests, one after the other: for each the calls
/// are made until nothing is sealed.
pub open spec fn are_runs_over<E>(
    runs: Seq<Seq<Routing<E>>>,
    loaded: Seq<Seq<ManifestEntry>>,
) -> bool {
    &&& runs.len() == loaded.len()
    &&& forall|m: int| 0 <= m < runs.len() ==> is_run_over(#[trigger] runs[m], loaded[m])
}

/// A pass over loaded manifests consumes all of them, whole and in their order.
pub proof fn law_passes_consume_all_loaded_manifests<S, E>(
    cluster_func: &ClusterByFunc,
    measure: S,
    states: Seq<ClusteringPassView>,
    runs: Seq<Seq<Routing<E>>>,
    loaded: Seq<Seq<ManifestEntry>>,
) where S: Fn(&ManifestWriter) -> Result<u64, E>
    requires
        is_pass(cluster_func, measure, states, runs.flatten()),
        are_runs_over(runs, loaded),
    ensures
        consumed_of(runs.flatten()).flatten() == loaded.flatten(),
    decreases runs.len(),
{
    let all = runs.flatten();
    if runs.len() == 0 {
        assert(all =~= Seq::<Routing<E>>::empty());
        assert(consumed_of(all) =~= Seq::<Seq<ManifestEntry>>::empty());
        assert(loaded =~= Seq::<Seq<ManifestEntry>>::empty());
    } else {
        let fewer = runs.drop_last();
        let run = runs.last();
        let entries = loaded.last();
        let n = runs.len() - 1;
        assert(runs[n] == run);
        runs.lemma_flatten_and_flatten_alt_are_equivalent();
        fewer.lemma_flatten_and_flatten_alt_are_equivalent();
        loaded.lemma_flatten_and_flatten_alt_are_equivalent();
        loaded.drop_last().lemma_flatten_and_flatten_alt_are_equivalent();
        let front = fewer.flatten();
        assert(all == front + run);
        let front_states = states.take(front.len() as int + 1);
        assert forall|i: int| #![trigger front[i]] 0 <= i < front.len() implies is_routing(
            cluster_func,
            measure,
            front_states[i],
            front_states[i + 1],
            front[i],
        ) by {
            assert(all[i] == front[i]);
        }
        assert(is_pass(cluster_func, measure, front_states, front));
        assert forall|m: int| 0 <= m < fewer.len() implies is_run_over(
            #[trigger] fewer[m],
            loaded.drop_last()[m],
        ) by {
            assert(fewer[m] == runs[m]);
        }
        law_passes_consume_all_loaded_manifests(
            cluster_func,
            measure,
            front_states,
            fewer,
            loaded.drop_last(),
        );
        let last = all.len() - 1;
        assert(all[last] == run.last());
        law_calling_until_none_consumes_the_manifest(
            cluster_func,
            measure,
            states[last],
            states[last + 1],
            run,
            entries,
        );
        assert(consumed_of(all) =~= consumed_of(front) + consumed_of(run));
        lemma_flatten_concat(consumed_of(front), consumed_of(run));
    }
}

/// What two lists hold, one behind the other.
pub proof fn lemma_flatten_concat(a: Seq<Seq<ManifestEntry>>, b: Seq<Seq<ManifestEntry>>)
    ensures
        (a + b).flatten() == a.flatten() + b.flatten(),
    decreases b.len(),
{
    if b.len() == 0 {
        assert(a + b =~= a);
        assert(b.flatten() =~= Seq::<ManifestEntry>::empty());
        assert(a.flatten() + b.flatten() =~= a.flatten());
    } else {
        let both = a + b;
        lemma_flatten_concat(a, b.drop_last());
        assert(both.drop_last() =~= a + b.drop_last());
        assert(both.last() == b.last());
        both.lemma_flatten_and_flatten_alt_are_equivalent();
        both.drop_last().lemma_flatten_and_flatten_alt_are_equivalent();
        b.lemma_flatten_and_flatten_alt_are_equivalent();
        b.drop_last().lemma_flatten_and_flatten_alt_are_equivalent();
        assert((a + b).flatten() =~= a.flatten() + b.flatten());
    }
}

} // verus!
