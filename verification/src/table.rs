//! What the transactions read of a table.

use vstd::prelude::*;

use crate::properties::Properties;

verus! {

/// A snapshot of a table.
#[derive(Debug, Clone, Copy)]
pub struct Snapshot {
    pub snapshot_id: i64,
    pub parent_snapshot_id: Option<i64>,
    pub sequence_number: i64,
}

/// What the transactions read of a table's metadata.
#[derive(Debug)]
pub struct TableMetadata {
    /// The ids of the partition specs that the table knows.
    pub partition_spec_ids: Vec<i32>,
    /// The properties of the table.
    pub properties: Properties,
    /// The snapshots of the table.
    pub snapshots: Vec<Snapshot>,
}

impl TableMetadata {
    /// Whether the table knows a partition spec.
    pub fn has_partition_spec(&self, partition_spec_id: i32) -> (has: bool)
        ensures
            has == self.partition_spec_ids@.contains(partition_spec_id),
    {
        let mut i: usize = 0;
        while i < self.partition_spec_ids.len()
            invariant
                i <= self.partition_spec_ids@.len(),
                forall|j: int| 0 <= j < i ==> self.partition_spec_ids@[j] != partition_spec_id,
            decreases self.partition_spec_ids.len() - i,
        {
            if self.partition_spec_ids[i] == partition_spec_id {
                return true;
            }
            i = i + 1;
        }
        false
    }
}

/// The snapshot of an id.
pub open spec fn snapshot_of(snapshots: Seq<Snapshot>, id: Option<i64>) -> Option<Snapshot>
    decreases snapshots.len(),
{
    if snapshots.len() == 0 || id is None {
        None
    } else if snapshots[0].snapshot_id == id.unwrap() {
        Some(snapshots[0])
    } else {
        snapshot_of(snapshots.skip(1), id)
    }
}

/// The snapshot that is reached from another in `n` steps from child to parent.
pub open spec fn ancestor(snapshots: Seq<Snapshot>, from: Option<i64>, n: nat) -> Option<Snapshot>
    decreases n,
{
    if n == 0 {
        snapshot_of(snapshots, from)
    } else {
        match ancestor(snapshots, from, (n - 1) as nat) {
            Some(child) => snapshot_of(snapshots, child.parent_snapshot_id),
            None => None,
        }
    }
}

/// Whether a snapshot has this id.
pub open spec fn has_id(snapshot: Option<Snapshot>, id: i64) -> bool {
    snapshot matches Some(s) && s.snapshot_id == id
}

/// Whether a snapshot is another one, its parent, its parent's parent, and so on.
pub open spec fn is_in_history(snapshots: Seq<Snapshot>, from: Option<i64>, id: i64) -> bool {
    exists|n: nat| has_id(#[trigger] ancestor(snapshots, from, n), id)
}

proof fn lemma_snapshot_of(snapshots: Seq<Snapshot>, id: Option<i64>)
    ensures
        snapshot_of(snapshots, id) matches Some(s) ==> id == Some(s.snapshot_id)
            && snapshots.contains(s),
    decreases snapshots.len(),
{
    if snapshots.len() > 0 && id is Some && snapshots[0].snapshot_id != id.unwrap() {
        lemma_snapshot_of(snapshots.skip(1), id);
        if let Some(s) = snapshot_of(snapshots, id) {
            let i = choose|i: int|
                0 <= i < snapshots.skip(1).len() && snapshots.skip(1)[i] == s;
            assert(snapshots[i + 1] == s);
        }
    }
}

/// A snapshot in a history is one of the table's snapshots.
pub proof fn lemma_history_is_known(snapshots: Seq<Snapshot>, from: Option<i64>, id: i64)
    requires
        is_in_history(snapshots, from, id),
    ensures
        has_id(snapshot_of(snapshots, Some(id)), id),
{
    let n = choose|n: nat| has_id(#[trigger] ancestor(snapshots, from, n), id);
    if n == 0 {
        lemma_snapshot_of(snapshots, from);
    } else {
        let child = ancestor(snapshots, from, (n - 1) as nat).unwrap();
        lemma_snapshot_of(snapshots, child.parent_snapshot_id);
    }
}

/// Histories that meet go on together.
proof fn lemma_ancestors_meet(
    snapshots: Seq<Snapshot>,
    from: Option<i64>,
    i: nat,
    j: nat,
    steps: nat,
)
    requires
        ancestor(snapshots, from, i) == ancestor(snapshots, from, j),
    ensures
        ancestor(snapshots, from, i + steps) == ancestor(snapshots, from, j + steps),
    decreases steps,
{
    if steps > 0 {
        lemma_ancestors_meet(snapshots, from, i, j, (steps - 1) as nat);
    }
}

proof fn lemma_ancestors_exist(snapshots: Seq<Snapshot>, from: Option<i64>, n: nat, i: nat)
    requires
        i <= n,
        ancestor(snapshots, from, n) is Some,
    ensures
        ancestor(snapshots, from, i) is Some,
    decreases n - i,
{
    if i < n {
        lemma_ancestors_exist(snapshots, from, n, i + 1);
    }
}

/// A snapshot that is found in a history is found in fewer steps than there are
/// snapshots.
proof fn lemma_history_is_short(snapshots: Seq<Snapshot>, from: Option<i64>, id: i64, n: nat)
    requires
        has_id(ancestor(snapshots, from, n), id),
    ensures
        exists|m: nat| m < snapshots.len() && has_id(#[trigger] ancestor(snapshots, from, m), id),
    decreases n,
{
    if n < snapshots.len() {
        assert(has_id(ancestor(snapshots, from, n), id));
    } else {
        let ids = Seq::new(
            n + 1,
            |i: int| ancestor(snapshots, from, i as nat).unwrap().snapshot_id,
        );
        let all = snapshots.map_values(|s: Snapshot| s.snapshot_id);
        assert forall|i: int| 0 <= i < ids.len() implies {
            &&& ancestor(snapshots, from, i as nat) == snapshot_of(snapshots, Some(#[trigger] ids[i]))
            &&& all.contains(ids[i])
        } by {
            lemma_ancestors_exist(snapshots, from, n, i as nat);
            let s = ancestor(snapshots, from, i as nat).unwrap();
            if i == 0 {
                lemma_snapshot_of(snapshots, from);
            } else {
                lemma_ancestors_exist(snapshots, from, n, (i - 1) as nat);
                let child = ancestor(snapshots, from, (i - 1) as nat).unwrap();
                lemma_snapshot_of(snapshots, child.parent_snapshot_id);
            }
            let k = choose|k: int| 0 <= k < snapshots.len() && snapshots[k] == s;
            assert(all[k] == ids[i]);
        }
        if ids.no_duplicates() {
            ids.unique_seq_to_set();
            all.lemma_cardinality_of_set();
            assert(ids.to_set().subset_of(all.to_set())) by {
                assert forall|x: i64| #[trigger] ids.to_set().contains(x) implies all.to_set().contains(
                    x,
                ) by {
                    let i = choose|i: int| 0 <= i < ids.len() && ids[i] == x;
                    assert(all.contains(ids[i]));
                }
            }
            vstd::seq_lib::seq_to_set_is_finite(all);
            vstd::set_lib::lemma_len_subset(ids.to_set(), all.to_set());
            assert(false);
        }
        let (i, j) = choose|i: int, j: int|
            0 <= i < ids.len() && 0 <= j < ids.len() && i != j && ids[i] == ids[j];
        let (low, high) = if i < j {
            (i as nat, j as nat)
        } else {
            (j as nat, i as nat)
        };
        let rest = (n - high) as nat;
        assert(ids[low as int] == ids[high as int]);
        lemma_ancestors_meet(snapshots, from, low, high, rest);
        assert(high + rest == n);
        lemma_history_is_short(snapshots, from, id, low + rest);
    }
}

impl TableMetadata {
    /// The snapshot of an id.
    pub fn snapshot_by_id(&self, id: i64) -> (snapshot: Option<Snapshot>)
        ensures
            snapshot == snapshot_of(self.snapshots@, Some(id)),
    {
        let mut i: usize = 0;
        assert(self.snapshots@.skip(0) =~= self.snapshots@);
        while i < self.snapshots.len()
            invariant
                i <= self.snapshots@.len(),
                snapshot_of(self.snapshots@, Some(id)) == snapshot_of(
                    self.snapshots@.skip(i as int),
                    Some(id),
                ),
            decreases self.snapshots.len() - i,
        {
            assert(self.snapshots@.skip(i as int).skip(1) =~= self.snapshots@.skip(i + 1));
            if self.snapshots[i].snapshot_id == id {
                return Some(self.snapshots[i]);
            }
            i = i + 1;
        }
        None
    }

    /// Whether a snapshot is part of the history that leads to another.
    pub fn has_in_history(&self, from: Option<i64>, id: i64) -> (found: bool)
        ensures
            found == is_in_history(self.snapshots@, from, id),
    {
        let mut current = match from {
            Some(head) => self.snapshot_by_id(head),
            None => None,
        };
        let mut steps: usize = 0;
        assert(current == ancestor(self.snapshots@, from, 0));
        while steps < self.snapshots.len()
            invariant
                steps <= self.snapshots@.len(),
                current == ancestor(self.snapshots@, from, steps as nat),
                forall|n: nat| n < steps ==> !has_id(#[trigger] ancestor(self.snapshots@, from, n), id),
            decreases self.snapshots.len() - steps,
        {
            let child = match current {
                Some(child) => child,
                None => {
                    proof {
                        assert forall|n: nat| !has_id(
                            #[trigger] ancestor(self.snapshots@, from, n),
                            id,
                        ) by {
                            if n >= steps && ancestor(self.snapshots@, from, n) is Some {
                                lemma_ancestors_exist(self.snapshots@, from, n, steps as nat);
                            }
                        }
                    }
                    return false;
                },
            };
            if child.snapshot_id == id {
                assert(has_id(ancestor(self.snapshots@, from, steps as nat), id));
                return true;
            }
            current = match child.parent_snapshot_id {
                Some(parent) => self.snapshot_by_id(parent),
                None => None,
            };
            steps = steps + 1;
        }
        proof {
            if is_in_history(self.snapshots@, from, id) {
                let n = choose|n: nat| has_id(#[trigger] ancestor(self.snapshots@, from, n), id);
                lemma_history_is_short(self.snapshots@, from, id, n);
            }
        }
        false
    }
}

/// Property name: the size at which a manifest is sealed.
pub const MANIFEST_TARGET_SIZE_BYTES: &'static str = "commit.manifest.target-size-bytes";

/// The size at which a manifest is sealed where no property says so.
pub const MANIFEST_TARGET_SIZE_BYTES_DEFAULT: u32 = 8388608;

/// Property name: the number of manifests from which on they are merged.
pub const MANIFEST_MIN_MERGE_COUNT: &'static str = "commit.manifest.min-count-to-merge";

/// The number of manifests from which on they are merged where no property says so.
pub const MANIFEST_MIN_MERGE_COUNT_DEFAULT: u32 = 100;

/// Property name: whether manifests are merged.
pub const MANIFEST_MERGE_ENABLED: &'static str = "commit.manifest-merge.enabled";

/// Whether manifests are merged where no property says so.
pub const MANIFEST_MERGE_ENABLED_DEFAULT: bool = false;

} // verus!
