//! Rewriting the manifests of a snapshot without changing its files.

use uuid::Uuid;
use vstd::hash_map::StringHashMap;
use vstd::hash_set::StringHashSet;
use vstd::prelude::*;
use vstd::string::*;

use crate::{clustering, manifest, rewrite_laws, text};
use crate::clustering::{ClusterByFunc, ClusteringPass};
use crate::error::{Error, ErrorKind};
use crate::manifest::{
    clone_bytes, clone_manifests, ManifestContentType, ManifestEntry, ManifestFile,
    ManifestFileView, Operation,
};
use crate::properties::Properties;
use crate::table::{
    TableMetadata, MANIFEST_TARGET_SIZE_BYTES, MANIFEST_TARGET_SIZE_BYTES_DEFAULT,
};
use crate::text::{decimal_text, joined, parse_unsigned, signed_decimal_text};

verus! {

/// The paths of manifests, in turn.
pub open spec fn paths(manifests: Seq<ManifestFile>) -> Seq<Seq<char>> {
    manifests.map_values(|m: ManifestFile| m.manifest_path@)
}

/// Whether one of the manifests has this path.
pub open spec fn has_path(manifests: Seq<ManifestFile>, path: Seq<char>) -> bool {
    exists|i: int| 0 <= i < manifests.len() && (#[trigger] manifests[i]).manifest_path@ == path
}

/// The manifest that a path names in a list: the last one, should there be several.
pub open spec fn named(manifests: Seq<ManifestFile>, path: Seq<char>) -> Option<ManifestFile>
    decreases manifests.len(),
{
    if manifests.len() == 0 {
        None
    } else if manifests.last().manifest_path@ == path {
        Some(manifests.last())
    } else {
        named(manifests.drop_last(), path)
    }
}

/// Where a list holds the manifest that a path names.
pub open spec fn names_at(manifests: Seq<ManifestFile>, path: Seq<char>, i: int) -> bool {
    0 <= i < manifests.len() && named(manifests, path) == Some(manifests[i])
}

/// What a path names is one of the manifests, and has that path.
pub proof fn lemma_named(manifests: Seq<ManifestFile>, path: Seq<char>)
    ensures
        named(manifests, path) is Some == has_path(manifests, path),
        named(manifests, path) matches Some(m) ==> m.manifest_path@ == path && manifests.contains(m),
    decreases manifests.len(),
{
    if manifests.len() > 0 {
        let shorter = manifests.drop_last();
        lemma_named(shorter, path);
        if manifests.last().manifest_path@ == path {
            assert(manifests[manifests.len() - 1].manifest_path@ == path);
        } else {
            if has_path(shorter, path) {
                let i = choose|i: int|
                    0 <= i < shorter.len() && (#[trigger] shorter[i]).manifest_path@ == path;
                assert(manifests[i].manifest_path@ == path);
            }
            if has_path(manifests, path) {
                let i = choose|i: int|
                    0 <= i < manifests.len() && (#[trigger] manifests[i]).manifest_path@ == path;
                assert(shorter[i].manifest_path@ == path);
            }
            if let Some(m) = named(shorter, path) {
                let i = choose|i: int| 0 <= i < shorter.len() && shorter[i] == m;
                assert(manifests[i] == m);
            }
        }
    }
}

/// Indexes manifests by their path.
fn index_by_path(manifests: &Vec<ManifestFile>) -> (index: StringHashMap<usize>)
    ensures
        forall|path: Seq<char>| #[trigger]
            index@.contains_key(path) == has_path(manifests@, path),
        forall|path: Seq<char>| #[trigger]
            index@.contains_key(path) ==> names_at(manifests@, path, index@[path] as int),
{
    let mut index: StringHashMap<usize> = StringHashMap::new();
    let mut i: usize = 0;
    while i < manifests.len()
        invariant
            i <= manifests@.len(),
            forall|path: Seq<char>| #[trigger]
                index@.contains_key(path) == has_path(manifests@.take(i as int), path),
            forall|path: Seq<char>| #[trigger]
                index@.contains_key(path) ==> names_at(
                    manifests@.take(i as int),
                    path,
                    index@[path] as int,
                ),
        decreases manifests.len() - i,
    {
        let ghost before = index@;
        index.insert(manifests[i].manifest_path.clone(), i);
        proof {
            let shorter = manifests@.take(i as int);
            let longer = manifests@.take(i + 1);
            assert(longer.drop_last() =~= shorter);
            assert forall|path: Seq<char>| #[trigger]
                index@.contains_key(path) == has_path(longer, path) && (index@.contains_key(path)
                    ==> names_at(longer, path, index@[path] as int)) by {
                lemma_named(shorter, path);
                lemma_named(longer, path);
                if before.contains_key(path) {
                    assert(names_at(shorter, path, before[path] as int));
                }
            }
        }
        i = i + 1;
    }
    assert(manifests@.take(manifests@.len() as int) =~= manifests@);
    index
}

/// Collects the paths of manifests.
fn path_set(manifests: &Vec<ManifestFile>) -> (set: StringHashSet)
    ensures
        forall|path: Seq<char>| #[trigger]
            set@.contains(path) == has_path(manifests@, path),
        (set@.len() == manifests@.len()) == paths(manifests@).no_duplicates(),
{
    let mut set = StringHashSet::new();
    let mut i: usize = 0;
    assert(paths(manifests@).take(0).to_set() =~= Set::<Seq<char>>::empty());
    while i < manifests.len()
        invariant
            i <= manifests@.len(),
            set@ == paths(manifests@).take(i as int).to_set(),
        decreases manifests.len() - i,
    {
        set.insert(manifests[i].manifest_path.clone());
        proof {
            let shorter = paths(manifests@).take(i as int);
            let longer = paths(manifests@).take(i + 1);
            let path = manifests@[i as int].manifest_path@;
            assert(longer =~= shorter.push(path));
            assert forall|p: Seq<char>| #[trigger]
                longer.to_set().contains(p) == shorter.to_set().insert(path).contains(p) by {
                if shorter.contains(p) {
                    let j = choose|j: int| 0 <= j < shorter.len() && shorter[j] == p;
                    assert(longer[j] == p);
                }
                if longer.contains(p) && p != path {
                    let j = choose|j: int| 0 <= j < longer.len() && longer[j] == p;
                    assert(shorter[j] == p);
                }
                assert(longer[i as int] == path);
            }
            assert(longer.to_set() =~= shorter.to_set().insert(path));
        }
        i = i + 1;
    }
    proof {
        let all = paths(manifests@);
        assert(all.take(all.len() as int) =~= all);
        all.lemma_cardinality_of_set();
        if all.no_duplicates() {
            all.unique_seq_to_set();
        }
        if all.to_set().len() == all.len() {
            all.lemma_no_dup_set_cardinality();
        }
        assert forall|path: Seq<char>| #[trigger]
            set@.contains(path) == has_path(manifests@, path) by {
            if all.contains(path) {
                let j = choose|j: int| 0 <= j < all.len() && all[j] == path;
                assert(manifests@[j].manifest_path@ == path);
            }
            if has_path(manifests@, path) {
                let j = choose|j: int|
                    0 <= j < manifests@.len() && (#[trigger] manifests@[j]).manifest_path@ == path;
                assert(all[j] == path);
            }
        }
    }
    set
}

/// A rule that says which manifests to rewrite. Any closure from a manifest to a
/// truth value is one.
pub trait RewriteIf: Send + Sync {
    /// Whether the rule can be applied to a manifest.
    spec fn accepts(&self, manifest: &ManifestFile) -> bool;

    /// Whether the rule may answer so for a manifest.
    spec fn answers(&self, manifest: &ManifestFile, answer: bool) -> bool;

    /// Applies the rule.
    fn should_rewrite(&self, manifest: &ManifestFile) -> (answer: bool)
        requires
            self.accepts(manifest),
        ensures
            self.answers(manifest, answer),
    ;
}

impl<F> RewriteIf for F where F: Fn(&ManifestFile) -> bool + Send + Sync {
    open spec fn accepts(&self, manifest: &ManifestFile) -> bool {
        call_requires(*self, (manifest,))
    }

    open spec fn answers(&self, manifest: &ManifestFile, answer: bool) -> bool {
        call_ensures(*self, (manifest,), answer)
    }

    fn should_rewrite(&self, manifest: &ManifestFile) -> (answer: bool) {
        self(manifest)
    }
}

/// Predicate function to select which manifests to rewrite.
pub type ManifestPredicate = Box<dyn RewriteIf>;

/// State preserved across retry attempts of a single commit.
///
/// A commit that lost a race is attempted again on the same action. What an earlier
/// attempt wrote is used again as long as every manifest that it consumed is still
/// part of the table.
pub struct RewriteManifestsState {
    /// The manifests that the last clustering pass consumed. Empty before the first.
    pub rewritten_manifests: Vec<ManifestFile>,
    /// The manifests that the last clustering pass wrote.
    pub new_manifests: Vec<ManifestFile>,
    /// The number of entries that the last clustering pass routed.
    pub entry_count: usize,
    /// The identity of the snapshot that the action proposes. It stays the same
    /// across attempts, so that manifests written under it can be used again.
    pub commit_uuid: Option<Uuid>,
    pub proposed_snapshot_id: Option<i64>,
}

impl RewriteManifestsState {
    /// Whether this is the state before the first attempt.
    pub open spec fn is_initial(self) -> bool {
        &&& self.rewritten_manifests@ == Seq::<ManifestFile>::empty()
        &&& self.new_manifests@ == Seq::<ManifestFile>::empty()
        &&& self.entry_count == 0
        &&& self.commit_uuid is None
        &&& self.proposed_snapshot_id is None
    }

    /// The state before the first attempt.
    pub fn new() -> (state: Self)
        ensures
            state.is_initial(),
    {
        RewriteManifestsState {
            rewritten_manifests: Vec::new(),
            new_manifests: Vec::new(),
            entry_count: 0,
            commit_uuid: None,
            proposed_snapshot_id: None,
        }
    }
}

/// Transaction action for rewriting manifest files.
///
/// This action reorganizes manifest files without changing the underlying data
/// files. It can consolidate small manifests or re-cluster entries by partition
/// values or custom keys.
///
/// Manifests with delete content type are never rewritten.
pub struct RewriteManifestsAction {
    pub commit_uuid: Option<Uuid>,
    pub key_metadata: Option<Vec<u8>>,
    pub snapshot_properties: Properties,
    pub snapshot_id: Option<i64>,
    pub target_branch: Option<String>,
    pub cluster_by_func: Option<ClusterByFunc>,
    pub manifest_predicate: Option<ManifestPredicate>,
    pub added_manifests: Vec<ManifestFile>,
    pub deleted_manifests: Vec<ManifestFile>,
    pub state: RewriteManifestsState,
}

impl RewriteManifestsAction {
    /// Whether nothing was set on the action and no commit was attempted.
    pub open spec fn is_default(self) -> bool {
        &&& self.commit_uuid is None
        &&& self.key_metadata is None
        &&& self.snapshot_properties@ == Map::<Seq<char>, Seq<char>>::empty()
        &&& self.snapshot_id is None
        &&& self.target_branch is None
        &&& self.cluster_by_func is None
        &&& self.manifest_predicate is None
        &&& self.added_manifests@ == Seq::<ManifestFile>::empty()
        &&& self.deleted_manifests@ == Seq::<ManifestFile>::empty()
        &&& self.state.is_initial()
    }

    /// Creates a new rewrite manifests action with default settings.
    pub fn new() -> (action: Self)
        ensures
            action.is_default(),
    {
        RewriteManifestsAction {
            commit_uuid: None,
            key_metadata: None,
            snapshot_properties: Properties::new(),
            snapshot_id: None,
            target_branch: None,
            cluster_by_func: None,
            manifest_predicate: None,
            added_manifests: Vec::new(),
            deleted_manifests: Vec::new(),
            state: RewriteManifestsState::new(),
        }
    }

    /// Set a clustering function that determines how data file entries are grouped
    /// into new manifests. Files with the same cluster key will be written to the
    /// same manifest.
    pub fn cluster_by(self, func: ClusterByFunc) -> (action: Self)
        ensures
            action == (RewriteManifestsAction { cluster_by_func: Some(func), ..self }),
    {
        RewriteManifestsAction { cluster_by_func: Some(func), ..self }
    }

    /// Set a predicate to filter which manifests should be rewritten.
    /// Manifests that don't match the predicate will be kept as-is.
    pub fn rewrite_if(self, predicate: ManifestPredicate) -> (action: Self)
        ensures
            action == (RewriteManifestsAction { manifest_predicate: Some(predicate), ..self }),
    {
        RewriteManifestsAction { manifest_predicate: Some(predicate), ..self }
    }

    /// Manually add a manifest to the snapshot. The manifest must not contain
    /// any added or deleted file entries, and its `partition_spec_id` must
    /// reference a partition spec that exists in the table metadata.
    ///
    /// Manifests with unknown (`None`) file counts are rejected, because an unknown
    /// count is assumed to be non-zero.
    pub fn add_manifest(self, manifest: ManifestFile) -> (action: Self)
        ensures
            action == (RewriteManifestsAction { added_manifests: action.added_manifests, ..self }),
            action.added_manifests@ == self.added_manifests@.push(manifest),
    {
        let mut action = self;
        action.added_manifests.push(manifest);
        action
    }

    /// Manually remove a manifest from the snapshot. The manifest must exist
    /// in the current snapshot.
    pub fn delete_manifest(self, manifest: ManifestFile) -> (action: Self)
        ensures
            action == (RewriteManifestsAction {
                deleted_manifests: action.deleted_manifests,
                ..self
            }),
            action.deleted_manifests@ == self.deleted_manifests@.push(manifest),
    {
        let mut action = self;
        action.deleted_manifests.push(manifest);
        action
    }

    /// Set snapshot properties.
    pub fn set_snapshot_properties(self, properties: Properties) -> (action: Self)
        ensures
            action == (RewriteManifestsAction { snapshot_properties: properties, ..self }),
    {
        RewriteManifestsAction { snapshot_properties: properties, ..self }
    }

    /// Set the target branch for this action.
    pub fn set_target_branch(self, target_branch: String) -> (action: Self)
        ensures
            action == (RewriteManifestsAction { target_branch: Some(target_branch), ..self }),
    {
        RewriteManifestsAction { target_branch: Some(target_branch), ..self }
    }

    /// Set commit UUID for the snapshot.
    pub fn set_commit_uuid(self, commit_uuid: Uuid) -> (action: Self)
        ensures
            action == (RewriteManifestsAction { commit_uuid: Some(commit_uuid), ..self }),
    {
        RewriteManifestsAction { commit_uuid: Some(commit_uuid), ..self }
    }

    /// Set key metadata for manifest files.
    pub fn set_key_metadata(self, key_metadata: Vec<u8>) -> (action: Self)
        ensures
            action == (RewriteManifestsAction { key_metadata: Some(key_metadata), ..self }),
    {
        RewriteManifestsAction { key_metadata: Some(key_metadata), ..self }
    }

    /// Set snapshot id.
    pub fn set_snapshot_id(self, snapshot_id: i64) -> (action: Self)
        ensures
            action == (RewriteManifestsAction { snapshot_id: Some(snapshot_id), ..self }),
    {
        RewriteManifestsAction { snapshot_id: Some(snapshot_id), ..self }
    }
}

impl Default for RewriteManifestsAction {
    fn default() -> (action: Self)
        ensures
            action.is_default(),
    {
        Self::new()
    }
}

/// The text of the target size for one commit: the snapshot's own property where it
/// is set, else the table's.
pub open spec fn target_size_text(
    snapshot_properties: Map<Seq<char>, Seq<char>>,
    table_properties: Map<Seq<char>, Seq<char>>,
) -> Option<Seq<char>> {
    if snapshot_properties.contains_key(MANIFEST_TARGET_SIZE_BYTES@) {
        Some(snapshot_properties[MANIFEST_TARGET_SIZE_BYTES@])
    } else if table_properties.contains_key(MANIFEST_TARGET_SIZE_BYTES@) {
        Some(table_properties[MANIFEST_TARGET_SIZE_BYTES@])
    } else {
        None
    }
}

/// The target size that a text sets: the default where there is none, or where it
/// is not a number.
pub open spec fn target_size(text: Option<Seq<char>>) -> nat {
    match text {
        Some(t) => match text::unsigned_value(t, u64::MAX as nat) {
            Some(size) => size,
            None => MANIFEST_TARGET_SIZE_BYTES_DEFAULT as nat,
        },
        None => MANIFEST_TARGET_SIZE_BYTES_DEFAULT as nat,
    }
}

/// Those of the manifests that were chosen.
pub open spec fn chosen_of(manifests: Seq<ManifestFile>, chosen: Seq<bool>) -> Seq<ManifestFile>
    decreases manifests.len(),
{
    if manifests.len() == 0 {
        Seq::empty()
    } else {
        let earlier = chosen_of(manifests.drop_last(), chosen.drop_last());
        if chosen.last() {
            earlier.push(manifests.last())
        } else {
            earlier
        }
    }
}

impl RewriteManifestsAction {
    /// Whether a manifest may be rewritten at all: it lists data files, and it is not
    /// to be removed.
    pub open spec fn rewritable(self, manifest: ManifestFile) -> bool {
        &&& !has_path(self.deleted_manifests@, manifest.manifest_path@)
        &&& manifest.content != ManifestContentType::Deletes
    }

    /// Whether a manifest may be chosen for rewriting, or passed over: it is chosen
    /// where it is rewritable and the predicate, if there is one, says so.
    pub open spec fn may_choose(self, manifest: ManifestFile, chosen: bool) -> bool {
        if !self.rewritable(manifest) {
            !chosen
        } else {
            match self.manifest_predicate {
                Some(predicate) => predicate.answers(&manifest, chosen),
                None => chosen,
            }
        }
    }

    /// Whether a clustering pass over the current snapshot may consume these manifests:
    /// those that are chosen, in their order.
    pub open spec fn may_consume(
        self,
        current_manifests: Seq<ManifestFile>,
        consumed: Seq<ManifestFile>,
    ) -> bool {
        exists|chosen: Seq<bool>|
            {
                &&& chosen.len() == current_manifests.len()
                &&& forall|i: int|
                    0 <= i < chosen.len() ==> self.may_choose(
                        current_manifests[i],
                        #[trigger] chosen[i],
                    )
                &&& manifest::manifests_view(consumed) == manifest::manifests_view(
                    #[trigger] chosen_of(current_manifests, chosen),
                )
            }
    }

    /// Whether the predicate, if there is one, can be applied to every manifest that may
    /// be rewritten.
    pub open spec fn predicate_applies(self, current_manifests: Seq<ManifestFile>) -> bool {
        self.manifest_predicate matches Some(predicate) ==> forall|k: int|
            0 <= k < current_manifests.len() && self.rewritable(#[trigger] current_manifests[k])
                ==> predicate.accepts(&current_manifests[k])
    }

    /// The size at which a manifest that this commit writes is sealed.
    pub fn target_manifest_size_bytes(&self, table_properties: &Properties) -> (size: u64)
        ensures
            size == target_size(target_size_text(self.snapshot_properties@, table_properties@)),
    {
        let name = MANIFEST_TARGET_SIZE_BYTES.to_string();
        let text = match self.snapshot_properties.get(&name) {
            Some(text) => Some(text),
            None => table_properties.get(&name),
        };
        match text {
            Some(text) => match parse_unsigned(text.as_str(), u64::MAX) {
                Some(size) => size,
                None => MANIFEST_TARGET_SIZE_BYTES_DEFAULT as u64,
            },
            None => MANIFEST_TARGET_SIZE_BYTES_DEFAULT as u64,
        }
    }

    /// The manifests of the current snapshot that a clustering pass consumes.
    pub fn manifests_to_rewrite(&self, current_manifests: &Vec<ManifestFile>) -> (consumed: Vec<
        ManifestFile,
    >)
        requires
            self.predicate_applies(current_manifests@),
        ensures
            self.may_consume(current_manifests@, consumed@),
            forall|i: int|
                #![trigger current_manifests@[i]]
                0 <= i < current_manifests@.len() && current_manifests@[i].content
                    == ManifestContentType::Data && (forall|j: int|
                    0 <= j < self.deleted_manifests@.len() ==> (
                    #[trigger] self.deleted_manifests@[j]).manifest_path@
                        != current_manifests@[i].manifest_path@) && self.manifest_predicate is None
                    ==> exists|k: int|
                    0 <= k < consumed@.len() && (#[trigger] consumed@[k])@
                        == current_manifests@[i]@,
    {
        let deleted_paths = path_set(&self.deleted_manifests);
        let mut consumed: Vec<ManifestFile> = Vec::new();
        let ghost mut chosen: Seq<bool> = Seq::empty();
        let mut i: usize = 0;
        while i < current_manifests.len()
            invariant
                i <= current_manifests@.len(),
                self.predicate_applies(current_manifests@),
                forall|path: Seq<char>| #[trigger]
                    deleted_paths@.contains(path) == has_path(self.deleted_manifests@, path),
                chosen.len() == i,
                forall|j: int|
                    0 <= j < i ==> self.may_choose(current_manifests@[j], #[trigger] chosen[j]),
                manifest::manifests_view(consumed@) == manifest::manifests_view(
                    chosen_of(current_manifests@.take(i as int), chosen),
                ),
            decreases current_manifests.len() - i,
        {
            let manifest_file = &current_manifests[i];
            let choose_it = if deleted_paths.contains(manifest_file.manifest_path.as_str()) {
                false
            } else {
                match manifest_file.content {
                    ManifestContentType::Deletes => false,
                    ManifestContentType::Data => match &self.manifest_predicate {
                        Some(predicate) => predicate.should_rewrite(manifest_file),
                        None => true,
                    },
                }
            };
            let ghost before = consumed@;
            if choose_it {
                consumed.push(manifest_file.clone());
            }
            proof {
                let shorter = current_manifests@.take(i as int);
                let longer = current_manifests@.take(i + 1);
                assert(longer.drop_last() =~= shorter);
                assert(chosen.push(choose_it).drop_last() =~= chosen);
                if choose_it {
                    manifest::lemma_manifests_view_push(before, consumed@.last());
                    manifest::lemma_manifests_view_push(
                        chosen_of(shorter, chosen),
                        *manifest_file,
                    );
                    assert(consumed@ =~= before.push(consumed@.last()));
                }
                chosen = chosen.push(choose_it);
            }
            i = i + 1;
        }
        assert(current_manifests@.take(i as int) =~= current_manifests@);
        proof {
            assert forall|i: int|
                #![trigger current_manifests@[i]]
                0 <= i < current_manifests@.len() && current_manifests@[i].content
                    == ManifestContentType::Data && (forall|j: int|
                    0 <= j < self.deleted_manifests@.len() ==> (
                    #[trigger] self.deleted_manifests@[j]).manifest_path@
                        != current_manifests@[i].manifest_path@) && self.manifest_predicate is None
                implies exists|k: int|
                0 <= k < consumed@.len() && (#[trigger] consumed@[k])@ == current_manifests@[i]@ by {
                rewrite_laws::law_every_selected_manifest_is_consumed(
                    *self,
                    current_manifests@,
                    consumed@,
                    i,
                );
            }
        }
        consumed
    }
}

/// The first problem in a list of findings.
pub open spec fn first_problem(findings: Seq<Option<Seq<char>>>) -> Option<Seq<char>>
    decreases findings.len(),
{
    if findings.len() == 0 {
        None
    } else {
        match first_problem(findings.drop_last()) {
            Some(problem) => Some(problem),
            None => findings.last(),
        }
    }
}

/// What is wrong with removing a manifest from the current snapshot.
pub open spec fn deletion_problem(
    current_manifests: Seq<ManifestFile>,
    manifest: ManifestFile,
) -> Option<Seq<char>> {
    match named(current_manifests, manifest.manifest_path@) {
        None => Some(
            "Deleted manifest does not exist in the current snapshot: "@ + manifest.manifest_path@,
        ),
        Some(current) => if current.content == ManifestContentType::Deletes {
            Some(
                "Cannot delete a delete-type manifest via rewrite_manifests: "@
                    + manifest.manifest_path@,
            )
        } else {
            None
        },
    }
}

impl RewriteManifestsAction {
    /// What is wrong with adding a manifest to the current snapshot.
    pub open spec fn addition_problem(
        self,
        current_manifests: Seq<ManifestFile>,
        partition_spec_ids: Seq<i32>,
        manifest: ManifestFile,
    ) -> Option<Seq<char>> {
        let path = manifest.manifest_path@;
        if manifest.content == ManifestContentType::Deletes {
            Some("Cannot add a delete-type manifest via rewrite_manifests: "@ + path)
        } else if !partition_spec_ids.contains(manifest.partition_spec_id) {
            Some(
                "Cannot add manifest with unknown partition spec id "@ + text::signed_decimal(
                    manifest.partition_spec_id as int,
                ) + (": "@ + path),
            )
        } else if has_path(current_manifests, path) && !has_path(self.deleted_manifests@, path) {
            Some("Cannot add manifest that already exists in the current snapshot: "@ + path)
        } else if manifest@.may_have_added_files() {
            Some("Cannot add manifest with added files: "@ + path)
        } else if manifest@.may_have_deleted_files() {
            Some("Cannot add manifest with deleted files: "@ + path)
        } else {
            None
        }
    }

    /// The first thing that is wrong with the manifests to remove and to add.
    pub open spec fn problem(
        self,
        current_manifests: Seq<ManifestFile>,
        partition_spec_ids: Seq<i32>,
    ) -> Option<Seq<char>> {
        let deletions = self.deleted_manifests@.map_values(
            |m: ManifestFile| deletion_problem(current_manifests, m),
        );
        let additions = self.added_manifests@.map_values(
            |m: ManifestFile| self.addition_problem(current_manifests, partition_spec_ids, m),
        );
        if !paths(self.deleted_manifests@).no_duplicates() {
            Some("deleted_manifests contains duplicate manifest paths"@)
        } else if !paths(self.added_manifests@).no_duplicates() {
            Some("added_manifests contains duplicate manifest paths"@)
        } else {
            match first_problem(deletions) {
                Some(problem) => Some(problem),
                None => first_problem(additions),
            }
        }
    }

    /// Checks the manifests to remove against the current snapshot.
    fn check_deletions(
        &self,
        current_manifests: &Vec<ManifestFile>,
        by_path: &StringHashMap<usize>,
    ) -> (result: Result<(), Error>)
        requires
            forall|path: Seq<char>| #[trigger]
                by_path@.contains_key(path) == has_path(current_manifests@, path),
            forall|path: Seq<char>| #[trigger]
                by_path@.contains_key(path) ==> names_at(
                    current_manifests@,
                    path,
                    by_path@[path] as int,
                ),
        ensures
            ({
                let found = first_problem(
                    self.deleted_manifests@.map_values(
                        |m: ManifestFile| deletion_problem(current_manifests@, m),
                    ),
                );
                match result {
                    Ok(_) => found is None,
                    Err(error) => found matches Some(problem) && error.says(problem),
                }
            }),
    {
        let ghost findings = self.deleted_manifests@.map_values(
            |m: ManifestFile| deletion_problem(current_manifests@, m),
        );
        let mut i: usize = 0;
        while i < self.deleted_manifests.len()
            invariant
                i <= self.deleted_manifests@.len(),
                findings == self.deleted_manifests@.map_values(
                    |m: ManifestFile| deletion_problem(current_manifests@, m),
                ),
                first_problem(findings.take(i as int)) is None,
                forall|path: Seq<char>| #[trigger]
                    by_path@.contains_key(path) == has_path(current_manifests@, path),
                forall|path: Seq<char>| #[trigger]
                    by_path@.contains_key(path) ==> names_at(
                        current_manifests@,
                        path,
                        by_path@[path] as int,
                    ),
            decreases self.deleted_manifests.len() - i,
        {
            let path = self.deleted_manifests[i].manifest_path.as_str();
            proof {
                lemma_named(current_manifests@, path@);
                lemma_first_problem(findings, i as int);
            }
            match by_path.get(path) {
                None => {
                    return Err(
                        Error::new(
                            ErrorKind::DataInvalid,
                            joined(
                                "Deleted manifest does not exist in the current snapshot: ",
                                path,
                            ),
                        ),
                    );
                },
                Some(position) => {
                    assert(names_at(current_manifests@, path@, *position as int));
                    match current_manifests[*position].content {
                        ManifestContentType::Deletes => {
                            return Err(
                                Error::new(
                                    ErrorKind::DataInvalid,
                                    joined(
                                        "Cannot delete a delete-type manifest via rewrite_manifests: ",
                                        path,
                                    ),
                                ),
                            );
                        },
                        ManifestContentType::Data => {},
                    }
                },
            }
            i = i + 1;
        }
        assert(findings.take(i as int) =~= findings);
        Ok(())
    }

    /// Checks a manifest to add against the current snapshot.
    fn check_addition(
        &self,
        manifest: &ManifestFile,
        by_path: &StringHashMap<usize>,
        deleted_paths: &StringHashSet,
        table: &TableMetadata,
        Ghost(current_manifests): Ghost<Seq<ManifestFile>>,
    ) -> (result: Result<(), Error>)
        requires
            forall|path: Seq<char>| #[trigger]
                by_path@.contains_key(path) == has_path(current_manifests, path),
            forall|path: Seq<char>| #[trigger]
                deleted_paths@.contains(path) == has_path(self.deleted_manifests@, path),
        ensures
            ({
                let found = self.addition_problem(
                    current_manifests,
                    table.partition_spec_ids@,
                    *manifest,
                );
                match result {
                    Ok(_) => found is None,
                    Err(error) => found matches Some(problem) && error.says(problem),
                }
            }),
    {
        let path = manifest.manifest_path.as_str();
        let is_deletes = match manifest.content {
            ManifestContentType::Deletes => true,
            ManifestContentType::Data => false,
        };
        let message = if is_deletes {
            joined("Cannot add a delete-type manifest via rewrite_manifests: ", path)
        } else if !table.has_partition_spec(manifest.partition_spec_id) {
            let id = signed_decimal_text(manifest.partition_spec_id as i64);
            let with_id = joined(
                "Cannot add manifest with unknown partition spec id ",
                id.as_str(),
            );
            joined(with_id.as_str(), joined(": ", path).as_str())
        } else if by_path.contains_key(path) && !deleted_paths.contains(path) {
            joined("Cannot add manifest that already exists in the current snapshot: ", path)
        } else if manifest.has_added_files() {
            joined("Cannot add manifest with added files: ", path)
        } else if manifest.has_deleted_files() {
            joined("Cannot add manifest with deleted files: ", path)
        } else {
            return Ok(());
        };
        Err(Error::new(ErrorKind::DataInvalid, message))
    }

    /// Checks the manifests to remove and to add against the current snapshot and the
    /// table.
    pub fn validate(&self, current_manifests: &Vec<ManifestFile>, table: &TableMetadata) -> (result:
        Result<(), Error>)
        ensures
            match result {
                Ok(_) => self.problem(current_manifests@, table.partition_spec_ids@) is None,
                Err(error) => self.problem(
                    current_manifests@,
                    table.partition_spec_ids@,
                ) matches Some(problem) && error.says(problem),
            },
            result is Ok <==> rewrite_laws::is_valid(
                *self,
                current_manifests@,
                table.partition_spec_ids@,
            ),
    {
        proof {
            rewrite_laws::law_valid_changes_are_accepted(
                *self,
                current_manifests@,
                table.partition_spec_ids@,
            );
        }
        let by_path = index_by_path(current_manifests);
        let deleted_paths = path_set(&self.deleted_manifests);
        if deleted_paths.len() != self.deleted_manifests.len() {
            return Err(
                Error::new(
                    ErrorKind::DataInvalid,
                    "deleted_manifests contains duplicate manifest paths".to_string(),
                ),
            );
        }
        let added_paths = path_set(&self.added_manifests);
        if added_paths.len() != self.added_manifests.len() {
            return Err(
                Error::new(
                    ErrorKind::DataInvalid,
                    "added_manifests contains duplicate manifest paths".to_string(),
                ),
            );
        }
        match self.check_deletions(current_manifests, &by_path) {
            Ok(_) => {},
            Err(error) => {
                return Err(error);
            },
        }
        let ghost findings = self.added_manifests@.map_values(
            |m: ManifestFile|
                self.addition_problem(current_manifests@, table.partition_spec_ids@, m),
        );
        let mut i: usize = 0;
        while i < self.added_manifests.len()
            invariant
                i <= self.added_manifests@.len(),
                findings == self.added_manifests@.map_values(
                    |m: ManifestFile|
                        self.addition_problem(current_manifests@, table.partition_spec_ids@, m),
                ),
                first_problem(findings.take(i as int)) is None,
                self.problem(current_manifests@, table.partition_spec_ids@) == first_problem(
                    findings,
                ),
                forall|path: Seq<char>| #[trigger]
                    by_path@.contains_key(path) == has_path(current_manifests@, path),
                forall|path: Seq<char>| #[trigger]
                    deleted_paths@.contains(path) == has_path(self.deleted_manifests@, path),
            decreases self.added_manifests.len() - i,
        {
            proof {
                lemma_first_problem(findings, i as int);
            }
            match self.check_addition(
                &self.added_manifests[i],
                &by_path,
                &deleted_paths,
                table,
                Ghost(current_manifests@),
            ) {
                Ok(_) => {},
                Err(error) => {
                    return Err(error);
                },
            }
            i = i + 1;
        }
        assert(findings.take(i as int) =~= findings);
        Ok(())
    }
}

proof fn lemma_first_problem(findings: Seq<Option<Seq<char>>>, i: int)
    requires
        0 <= i < findings.len(),
        first_problem(findings.take(i)) is None,
    ensures
        first_problem(findings.take(i + 1)) == findings[i],
        findings[i] is Some ==> first_problem(findings) == findings[i],
    decreases findings.len() - i,
{
    assert(findings.take(i + 1).drop_last() =~= findings.take(i));
    if findings[i] is Some {
        lemma_first_problem_stays(findings, i + 1);
    }
}

proof fn lemma_first_problem_stays(findings: Seq<Option<Seq<char>>>, i: int)
    requires
        0 <= i <= findings.len(),
        first_problem(findings.take(i)) is Some,
    ensures
        first_problem(findings) == first_problem(findings.take(i)),
    decreases findings.len() - i,
{
    if i < findings.len() {
        assert(findings.take(i + 1).drop_last() =~= findings.take(i));
        lemma_first_problem_stays(findings, i + 1);
    } else {
        assert(findings.take(i) =~= findings);
    }
}

/// The number of added and existing files in a list of manifests, where every one
/// of them knows its counts.
pub open spec fn active_files(manifests: Seq<ManifestFile>) -> Option<nat>
    decreases manifests.len(),
{
    if manifests.len() == 0 {
        Some(0)
    } else {
        match (active_files(manifests.drop_last()), manifests.last()@.active_files()) {
            (Some(total), Some(files)) => Some(total + files),
            _ => None,
        }
    }
}

/// Whether the files of a list can be counted in 64 bits, up to the first manifest
/// that does not know its counts.
pub open spec fn countable(manifests: Seq<ManifestFile>) -> bool {
    forall|i: int|
        0 <= i <= manifests.len() ==> (active_files(#[trigger] manifests.take(i)) matches Some(n)
            ==> n <= u64::MAX)
}

proof fn lemma_active_files_unknown(manifests: Seq<ManifestFile>, i: int)
    requires
        0 <= i <= manifests.len(),
        active_files(manifests.take(i)) is None,
    ensures
        active_files(manifests) is None,
    decreases manifests.len() - i,
{
    if i < manifests.len() {
        assert(manifests.take(i + 1).drop_last() =~= manifests.take(i));
        lemma_active_files_unknown(manifests, i + 1);
    } else {
        assert(manifests.take(i) =~= manifests);
    }
}

/// Count of active (added + existing) files in a list of manifests.
///
/// Returns `None` if any manifest has unknown counts (`None`), since an unknown
/// count is assumed to be non-zero and no reliable total can be computed.
pub fn active_files_count(manifests: &[ManifestFile]) -> (count: Option<u64>)
    requires
        countable(manifests@),
    ensures
        match count {
            Some(total) => active_files(manifests@) == Some(total as nat),
            None => active_files(manifests@) is None,
        },
{
    let mut total: u64 = 0;
    let mut i: usize = 0;
    while i < manifests.len()
        invariant
            i <= manifests@.len(),
            countable(manifests@),
            active_files(manifests@.take(i as int)) == Some(total as nat),
        decreases manifests.len() - i,
    {
        let m = &manifests[i];
        let ghost longer = manifests@.take(i + 1);
        proof {
            assert(longer.drop_last() =~= manifests@.take(i as int));
            if active_files(longer) is None {
                lemma_active_files_unknown(manifests@, i + 1);
            }
        }
        let added: u64 = match m.added_files_count {
            Some(count) => count as u64,
            None => {
                return None;
            },
        };
        let existing: u64 = match m.existing_files_count {
            Some(count) => count as u64,
            None => {
                return None;
            },
        };
        total = total + (added + existing);
        i = i + 1;
    }
    assert(manifests@.take(i as int) =~= manifests@);
    Some(total)
}

/// The number of files in two lists of manifests together, where it is known.
pub open spec fn files_in_both(a: Seq<ManifestFile>, b: Seq<ManifestFile>) -> Option<nat> {
    match (active_files(a), active_files(b)) {
        (Some(x), Some(y)) => Some(x + y),
        _ => None,
    }
}

/// Whether the files of two lists together can be counted in 64 bits.
pub open spec fn countable_together(a: Seq<ManifestFile>, b: Seq<ManifestFile>) -> bool {
    &&& countable(a)
    &&& active_files(a) is Some ==> countable(b)
    &&& files_in_both(a, b) matches Some(n) ==> n <= u64::MAX
}

/// Counts the files in two lists of manifests together.
fn count_in_both(a: &Vec<ManifestFile>, b: &Vec<ManifestFile>) -> (count: Option<u64>)
    requires
        countable_together(a@, b@),
    ensures
        match count {
            Some(total) => files_in_both(a@, b@) == Some(total as nat),
            None => files_in_both(a@, b@) is None,
        },
{
    match active_files_count(a.as_slice()) {
        Some(x) => match active_files_count(b.as_slice()) {
            Some(y) => Some(x + y),
            None => None,
        },
        None => None,
    }
}

/// The snapshot operation of a rewrite of manifests.
///
/// This holds the computed manifest list after the rewrite logic has been applied.
pub struct RewriteManifestsOperation {
    /// Manifests that carry forward to the new snapshot (kept + newly written +
    /// manually added).
    pub result_manifests: Vec<ManifestFile>,
}

/// A manifest without a claim on row ids.
pub open spec fn without_row_ids(manifest: ManifestFileView) -> ManifestFileView {
    ManifestFileView { first_row_id: None, ..manifest }
}

impl RewriteManifestsOperation {
    /// The operation that the snapshot records.
    pub fn operation(&self) -> (operation: Operation)
        ensures
            operation == Operation::Replace,
    {
        Operation::Replace
    }

    /// The entries that the snapshot marks as deleted: none, since a rewrite does not
    /// change data files.
    pub fn delete_entries(&self) -> (entries: Vec<ManifestEntry>)
        ensures
            entries@ == Seq::<ManifestEntry>::empty(),
    {
        Vec::new()
    }

    /// The manifests of the new snapshot: kept ones first, then new ones.
    ///
    /// A rewrite assigns no row ids. A manifest that was kept still claims those it
    /// was assigned when it was first committed, so the claim is dropped from every
    /// manifest: the snapshot has no row range, and no manifest has a part in one.
    pub fn existing_manifest(&self) -> (manifests: Vec<ManifestFile>)
        ensures
            manifest::manifests_view(manifests@) == manifest::manifests_view(
                self.result_manifests@,
            ).map_values(|m: ManifestFileView| without_row_ids(m)),
            manifests@.len() == self.result_manifests@.len(),
            forall|i: int|
                0 <= i < manifests@.len() ==> (#[trigger] manifests@[i])@ == (ManifestFileView {
                    first_row_id: None,
                    ..self.result_manifests@[i]@
                }),
    {
        let mut manifests: Vec<ManifestFile> = Vec::new();
        let mut i: usize = 0;
        while i < self.result_manifests.len()
            invariant
                i <= self.result_manifests@.len(),
                manifests@.len() == i,
                forall|j: int|
                    0 <= j < i ==> (#[trigger] manifests@[j])@ == without_row_ids(
                        self.result_manifests@[j]@,
                    ),
            decreases self.result_manifests.len() - i,
        {
            let mut manifest = self.result_manifests[i].clone();
            manifest.first_row_id = None;
            manifests.push(manifest);
            i = i + 1;
        }
        assert(manifest::manifests_view(manifests@) =~= manifest::manifests_view(
            self.result_manifests@,
        ).map_values(|m: ManifestFileView| without_row_ids(m)));
        manifests
    }

    /// Whether the snapshot assigns row ids. A rewrite repacks existing entries: no
    /// row is added, removed or altered, so it claims no row ids.
    pub fn assigns_row_ids(&self) -> (assigns: bool)
        ensures
            !assigns,
    {
        false
    }
}

/// Snapshot summary: how many manifests were kept.
pub const KEPT_MANIFESTS_COUNT: &'static str = "manifests-kept";

/// Snapshot summary: how many manifests were written or added.
pub const CREATED_MANIFESTS_COUNT: &'static str = "manifests-created";

/// Snapshot summary: how many manifests were rewritten or removed.
pub const REPLACED_MANIFESTS_COUNT: &'static str = "manifests-replaced";

/// Snapshot summary: how many entries were processed during clustering. Always 0
/// for manual add/delete operations.
pub const PROCESSED_ENTRY_COUNT: &'static str = "entries-processed";

/// The snapshot that a commit attempt proposes, as far as it is known at the start.
pub struct ProposedSnapshot {
    pub commit_uuid: Uuid,
    /// The snapshot's id, where it is settled already.
    pub snapshot_id: Option<i64>,
    /// Key metadata for the manifests that are written.
    pub key_metadata: Option<Vec<u8>>,
    /// The branch that the snapshot is added to, where it is not the main branch.
    pub target_branch: Option<String>,
}

/// What a commit attempt does once the current snapshot was loaded.
pub enum RewriteStep {
    /// Route the entries of these manifests through the pass, and write what it
    /// seals.
    Cluster { pass: ClusteringPass, manifests: Vec<ManifestFile> },
    /// Put the new snapshot together from what was settled before.
    Assemble,
}

/// What a commit adds to the table.
pub struct RewriteCommit {
    pub operation: RewriteManifestsOperation,
    pub snapshot_properties: Properties,
}

/// How a commit attempt ends.
pub enum RewriteOutcome {
    /// Nothing was rewritten, added or removed: no snapshot is created.
    Unchanged,
    /// A snapshot is added.
    Commit(RewriteCommit),
}

/// Whether the files of a list can be counted in 64 bits, as `active_files_count` needs
/// it.
pub fn is_countable(manifests: &[ManifestFile]) -> (fits: bool)
    ensures
        fits == countable(manifests@),
{
    let mut total: u64 = 0;
    let mut i: usize = 0;
    while i < manifests.len()
        invariant
            i <= manifests@.len(),
            active_files(manifests@.take(i as int)) == Some(total as nat),
            forall|j: int|
                0 <= j <= i ==> (active_files(#[trigger] manifests@.take(j)) matches Some(n) ==> n
                    <= u64::MAX),
        decreases manifests.len() - i,
    {
        let m = &manifests[i];
        proof {
            assert(manifests@.take(i + 1).drop_last() =~= manifests@.take(i as int));
        }
        match (m.added_files_count, m.existing_files_count) {
            (Some(added), Some(existing)) => {
                match total.checked_add(added as u64 + existing as u64) {
                    Some(sum) => {
                        total = sum;
                    },
                    None => {
                        return false;
                    },
                }
            },
            _ => {
                proof {
                    assert forall|j: int| i < j <= manifests@.len() implies active_files(
                        #[trigger] manifests@.take(j),
                    ) is None by {
                        assert(manifests@.take(j).take(i + 1) =~= manifests@.take(i + 1));
                        lemma_active_files_unknown(manifests@.take(j), i + 1);
                    }
                }
                return true;
            },
        }
        i = i + 1;
    }
    true
}

/// Whether the files of two lists together can be counted in 64 bits.
fn is_countable_together(a: &Vec<ManifestFile>, b: &Vec<ManifestFile>) -> (fits: bool)
    ensures
        fits == countable_together(a@, b@),
{
    if !is_countable(a.as_slice()) {
        return false;
    }
    match active_files_count(a.as_slice()) {
        None => true,
        Some(x) => {
            if !is_countable(b.as_slice()) {
                return false;
            }
            match active_files_count(b.as_slice()) {
                None => true,
                Some(y) => x.checked_add(y).is_some(),
            }
        },
    }
}

impl RewriteManifestsAction {
    /// The commit UUID where it is settled: the caller's, else that of an earlier
    /// attempt.
    pub open spec fn settled_commit_uuid(self) -> Option<Uuid> {
        match self.commit_uuid {
            Some(uuid) => Some(uuid),
            None => self.state.commit_uuid,
        }
    }

    /// The id of the proposed snapshot where it is settled: the caller's, else that of
    /// an earlier attempt.
    pub open spec fn settled_snapshot_id(self) -> Option<i64> {
        match self.snapshot_id {
            Some(id) => Some(id),
            None => self.state.proposed_snapshot_id,
        }
    }

    /// How an attempt that proposes a snapshot changes the action: the commit UUID is
    /// the settled one, and stays settled.
    pub open spec fn begins(self, after: Self, proposed: ProposedSnapshot) -> bool {
        &&& self.settled_commit_uuid() matches Some(uuid) ==> proposed.commit_uuid == uuid
        &&& proposed.snapshot_id == self.settled_snapshot_id()
        &&& manifest::bytes_view(proposed.key_metadata) == manifest::bytes_view(self.key_metadata)
        &&& proposed.target_branch == self.target_branch
        &&& after == (RewriteManifestsAction {
            state: RewriteManifestsState {
                commit_uuid: match self.state.commit_uuid {
                    Some(uuid) => Some(uuid),
                    None => Some(proposed.commit_uuid),
                },
                ..self.state
            },
            ..self
        })
    }

    /// How an attempt whose snapshot has got this id changes the action: the id is
    /// settled where none was.
    pub open spec fn settles(self, after: Self, snapshot_id: i64) -> bool {
        after == (RewriteManifestsAction {
            state: RewriteManifestsState {
                proposed_snapshot_id: match self.state.proposed_snapshot_id {
                    Some(id) => Some(id),
                    None => Some(snapshot_id),
                },
                ..self.state
            },
            ..self
        })
    }

    /// How the outcome of a clustering pass changes the action.
    pub open spec fn remembers(
        self,
        after: Self,
        rewritten_manifests: Vec<ManifestFile>,
        new_manifests: Vec<ManifestFile>,
        entry_count: usize,
    ) -> bool {
        after == (RewriteManifestsAction {
            state: RewriteManifestsState {
                rewritten_manifests,
                new_manifests,
                entry_count,
                ..self.state
            },
            ..self
        })
    }

    /// Begins a commit attempt under a commit UUID that serves only where none was
    /// settled before.
    pub fn begin_commit_under(&mut self, fresh: Uuid) -> (proposed: ProposedSnapshot)
        ensures
            old(self).begins(*final(self), proposed),
            old(self).settled_commit_uuid() is None ==> proposed.commit_uuid == fresh,
            old(self).commit_uuid is None && old(self).state.commit_uuid is None
                ==> proposed.commit_uuid == fresh,
    {
        let commit_uuid = match self.commit_uuid {
            Some(uuid) => uuid,
            None => match self.state.commit_uuid {
                Some(uuid) => uuid,
                None => fresh,
            },
        };
        if self.state.commit_uuid.is_none() {
            self.state.commit_uuid = Some(commit_uuid);
        }
        let snapshot_id = match self.snapshot_id {
            Some(id) => Some(id),
            None => self.state.proposed_snapshot_id,
        };
        let target_branch = match &self.target_branch {
            Some(branch) => Some(branch.clone()),
            None => None,
        };
        ProposedSnapshot {
            commit_uuid,
            snapshot_id,
            key_metadata: clone_bytes(&self.key_metadata),
            target_branch,
        }
    }

    /// Begins a commit attempt: settles the commit UUID, a new one where none was
    /// settled before, and tells what is known of the proposed snapshot.
    pub fn begin_commit(&mut self) -> (proposed: ProposedSnapshot)
        ensures
            old(self).begins(*final(self), proposed),
    {
        let settled = match self.commit_uuid {
            Some(uuid) => Some(uuid),
            None => self.state.commit_uuid,
        };
        let commit_uuid = match settled {
            Some(uuid) => uuid,
            None => Uuid::now_v7(),
        };
        self.begin_commit_under(commit_uuid)
    }

    /// Whether the current snapshot calls for a clustering pass: none was made before,
    /// or a manifest that it consumed is no longer part of the table.
    pub open spec fn needs_clustering(self, current_manifests: Seq<ManifestFile>) -> bool {
        &&& self.cluster_by_func is Some
        &&& self.state.rewritten_manifests@.len() == 0 || exists|i: int|
            0 <= i < self.state.rewritten_manifests@.len() && !has_path(
                current_manifests,
                (#[trigger] self.state.rewritten_manifests@[i]).manifest_path@,
            )
    }

    /// Whether the current snapshot calls for a clustering pass.
    pub fn requires_rewrite(&self, current_manifests: &Vec<ManifestFile>) -> (requires_it: bool)
        ensures
            requires_it == self.needs_clustering(current_manifests@),
            self.cluster_by_func is None ==> !requires_it,
            self.cluster_by_func is Some && !requires_it
                ==> self.state.rewritten_manifests@.len() > 0 && forall|k: int|
                0 <= k < self.state.rewritten_manifests@.len() ==> exists|i: int|
                    0 <= i < current_manifests@.len() && (
                    #[trigger] current_manifests@[i]).manifest_path@ == (
                    #[trigger] self.state.rewritten_manifests@[k]).manifest_path@,
    {
        if self.cluster_by_func.is_none() {
            return false;
        }
        if self.state.rewritten_manifests.len() == 0 {
            return true;
        }
        let current_paths = path_set(current_manifests);
        let mut i: usize = 0;
        while i < self.state.rewritten_manifests.len()
            invariant
                i <= self.state.rewritten_manifests@.len(),
                self.cluster_by_func is Some,
                forall|path: Seq<char>| #[trigger]
                    current_paths@.contains(path) == has_path(current_manifests@, path),
                forall|j: int|
                    0 <= j < i ==> has_path(
                        current_manifests@,
                        (#[trigger] self.state.rewritten_manifests@[j]).manifest_path@,
                    ),
            decreases self.state.rewritten_manifests.len() - i,
        {
            let path = self.state.rewritten_manifests[i].manifest_path.as_str();
            if !current_paths.contains(path) {
                assert(!has_path(
                    current_manifests@,
                    self.state.rewritten_manifests@[i as int].manifest_path@,
                ));
                return true;
            }
            i = i + 1;
        }
        false
    }

    /// Settles the id of the proposed snapshot, for this attempt and those that follow,
    /// where none was settled before.
    pub fn settle_snapshot_id(&mut self, snapshot_id: i64)
        ensures
            old(self).settles(*final(self), snapshot_id),
    {
        if self.state.proposed_snapshot_id.is_none() {
            self.state.proposed_snapshot_id = Some(snapshot_id);
        }
    }

    /// Decides on the next step of a commit attempt, once the current snapshot was
    /// loaded.
    pub fn prepare(&self, current_manifests: &Vec<ManifestFile>, table: &TableMetadata) -> (result:
        Result<RewriteStep, Error>)
        requires
            self.needs_clustering(current_manifests@) ==> self.predicate_applies(
                current_manifests@,
            ),
        ensures
            ({
                let found = self.problem(current_manifests@, table.partition_spec_ids@);
                match result {
                    Err(error) => found matches Some(problem) && error.says(problem),
                    Ok(RewriteStep::Assemble) => {
                        &&& found is None
                        &&& !self.needs_clustering(current_manifests@)
                    },
                    Ok(RewriteStep::Cluster { pass, manifests }) => {
                        &&& found is None
                        &&& self.needs_clustering(current_manifests@)
                        &&& self.may_consume(current_manifests@, manifests@)
                        &&& pass.wf()
                        &&& pass@ == clustering::initial_pass(pass@.target_manifest_size_bytes)
                        &&& pass@.target_manifest_size_bytes == target_size(
                            target_size_text(self.snapshot_properties@, table.properties@),
                        )
                    },
                }
            }),
            result is Ok <==> rewrite_laws::is_valid(
                *self,
                current_manifests@,
                table.partition_spec_ids@,
            ),
            match result {
                Ok(RewriteStep::Cluster { pass, manifests }) => {
                    &&& self.cluster_by_func is Some
                    &&& forall|i: int|
                        #![trigger current_manifests@[i]]
                        0 <= i < current_manifests@.len() && current_manifests@[i].content
                            == ManifestContentType::Data && (forall|j: int|
                            0 <= j < self.deleted_manifests@.len() ==> (
                            #[trigger] self.deleted_manifests@[j]).manifest_path@
                                != current_manifests@[i].manifest_path@)
                            && self.manifest_predicate is None ==> exists|k: int|
                            0 <= k < manifests@.len() && (#[trigger] manifests@[k])@
                                == current_manifests@[i]@
                },
                _ => true,
            },
    {
        match self.validate(current_manifests, table) {
            Ok(_) => {},
            Err(error) => {
                return Err(error);
            },
        }
        if self.requires_rewrite(current_manifests) {
            let pass = ClusteringPass::new(self.target_manifest_size_bytes(&table.properties));
            let manifests = self.manifests_to_rewrite(current_manifests);
            Ok(RewriteStep::Cluster { pass, manifests })
        } else {
            Ok(RewriteStep::Assemble)
        }
    }

    /// Keeps what a clustering pass came to, for this attempt and those that follow.
    pub fn finish_clustering(
        &mut self,
        rewritten_manifests: Vec<ManifestFile>,
        new_manifests: Vec<ManifestFile>,
        entry_count: usize,
    )
        ensures
            old(self).remembers(*final(self), rewritten_manifests, new_manifests, entry_count),
    {
        self.state.rewritten_manifests = rewritten_manifests;
        self.state.new_manifests = new_manifests;
        self.state.entry_count = entry_count;
    }
}

impl RewriteManifestsAction {
    /// The manifests that clustering wrote: none where the action does not cluster.
    pub open spec fn written(self) -> Seq<ManifestFile> {
        if self.cluster_by_func is Some {
            self.state.new_manifests@
        } else {
            Seq::empty()
        }
    }

    /// The manifests that clustering consumed: none where the action does not cluster.
    pub open spec fn rewritten(self) -> Seq<ManifestFile> {
        if self.cluster_by_func is Some {
            self.state.rewritten_manifests@
        } else {
            Seq::empty()
        }
    }

    /// The number of entries that clustering routed.
    pub open spec fn processed(self) -> nat {
        if self.cluster_by_func is Some {
            self.state.entry_count as nat
        } else {
            0
        }
    }

    /// Whether the new snapshot keeps a manifest of the current one: it is neither
    /// removed nor rewritten.
    pub open spec fn keeps(self, manifest: ManifestFile) -> bool {
        &&& !has_path(self.deleted_manifests@, manifest.manifest_path@)
        &&& !has_path(self.rewritten(), manifest.manifest_path@)
    }

    /// The manifests of the current snapshot that the new one keeps, in their order.
    pub open spec fn kept(self, current_manifests: Seq<ManifestFile>) -> Seq<ManifestFile> {
        current_manifests.filter(|m: ManifestFile| self.keeps(m))
    }

    /// Whether nothing was rewritten, added or removed.
    pub open spec fn changes_nothing(self) -> bool {
        &&& self.written().len() == 0
        &&& self.added_manifests@.len() == 0
        &&& self.rewritten().len() == 0
        &&& self.deleted_manifests@.len() == 0
    }

    /// The number of files in the manifests that were written or added, where known.
    pub open spec fn created_files(self) -> Option<nat> {
        files_in_both(self.written(), self.added_manifests@)
    }

    /// The number of files in the manifests that were rewritten or removed, where
    /// known.
    pub open spec fn replaced_files(self) -> Option<nat> {
        files_in_both(self.rewritten(), self.deleted_manifests@)
    }

    /// Whether the files that were created are known to differ in number from those
    /// that were replaced.
    pub open spec fn counts_mismatch(self) -> bool {
        self.created_files() is Some && self.replaced_files() is Some && self.created_files()
            != self.replaced_files()
    }

    /// The properties of the new snapshot: the action's own, then what was counted.
    pub open spec fn summary(self, kept_count: nat) -> Map<Seq<char>, Seq<char>> {
        self.snapshot_properties@.insert(
            CREATED_MANIFESTS_COUNT@,
            text::decimal(self.written().len() + self.added_manifests@.len()),
        ).insert(KEPT_MANIFESTS_COUNT@, text::decimal(kept_count)).insert(
            REPLACED_MANIFESTS_COUNT@,
            text::decimal(self.rewritten().len() + self.deleted_manifests@.len()),
        ).insert(PROCESSED_ENTRY_COUNT@, text::decimal(self.processed()))
    }

    /// Whether the manifests and the files of the commit can be counted.
    pub open spec fn countable(self) -> bool {
        &&& self.written().len() + self.added_manifests@.len() <= usize::MAX
        &&& self.rewritten().len() + self.deleted_manifests@.len() <= usize::MAX
        &&& countable_together(self.written(), self.added_manifests@)
        &&& countable_together(self.rewritten(), self.deleted_manifests@)
    }

    /// How an attempt to assemble the new snapshot ends.
    pub open spec fn assembles(
        self,
        current_manifests: Seq<ManifestFile>,
        result: Result<RewriteOutcome, Error>,
    ) -> bool {
        let kept = self.kept(current_manifests);
        match result {
            Ok(RewriteOutcome::Unchanged) => self.changes_nothing(),
            Err(error) => {
                &&& !self.changes_nothing()
                &&& self.counts_mismatch()
                &&& error.says(
                    "Rewrite manifests file count mismatch: created "@ + text::decimal(
                        self.created_files().unwrap(),
                    ) + " files but replaced "@ + text::decimal(self.replaced_files().unwrap())
                        + " files"@,
                )
            },
            Ok(RewriteOutcome::Commit(commit)) => {
                &&& !self.changes_nothing()
                &&& !self.counts_mismatch()
                &&& manifest::manifests_view(commit.operation.result_manifests@)
                    == manifest::manifests_view(kept) + manifest::manifests_view(self.written())
                    + manifest::manifests_view(self.added_manifests@)
                &&& commit.snapshot_properties@ == self.summary(kept.len())
            },
        }
    }

    /// Whether the manifests and the files of the commit can be counted.
    pub fn is_countable(&self) -> (fits: bool)
        ensures
            fits == self.countable(),
    {
        let none: Vec<ManifestFile> = Vec::new();
        let (written, rewritten) = match &self.cluster_by_func {
            Some(_) => (&self.state.new_manifests, &self.state.rewritten_manifests),
            None => (&none, &none),
        };
        assert(written@ =~= self.written());
        assert(rewritten@ =~= self.rewritten());
        if written.len() > usize::MAX - self.added_manifests.len() {
            return false;
        }
        if rewritten.len() > usize::MAX - self.deleted_manifests.len() {
            return false;
        }
        is_countable_together(written, &self.added_manifests) && is_countable_together(
            rewritten,
            &self.deleted_manifests,
        )
    }

    /// Takes from the current snapshot the manifests that the new one keeps.
    fn keep_manifests(&self, current_manifests: Vec<ManifestFile>) -> (kept: Vec<ManifestFile>)
        ensures
            kept@ == self.kept(current_manifests@),
    {
        let none: Vec<ManifestFile> = Vec::new();
        let rewritten = match &self.cluster_by_func {
            Some(_) => &self.state.rewritten_manifests,
            None => &none,
        };
        assert(rewritten@ =~= self.rewritten());
        let deleted_paths = path_set(&self.deleted_manifests);
        let rewritten_paths = path_set(rewritten);
        let mut kept: Vec<ManifestFile> = Vec::new();
        let ghost keep = |m: ManifestFile| self.keeps(m);
        reveal(Seq::filter);
        for manifest in it: current_manifests
            invariant
                it.seq() == current_manifests@,
                keep == (|m: ManifestFile| self.keeps(m)),
                forall|path: Seq<char>| #[trigger]
                    deleted_paths@.contains(path) == has_path(self.deleted_manifests@, path),
                forall|path: Seq<char>| #[trigger]
                    rewritten_paths@.contains(path) == has_path(self.rewritten(), path),
                kept@ == current_manifests@.take(it.index()).filter(keep),
        {
            proof {
                let shorter = current_manifests@.take(it.index());
                let longer = current_manifests@.take(it.index() + 1);
                assert(longer.drop_last() =~= shorter);
                assert(longer.last() == manifest);
                reveal(Seq::filter);
            }
            let path = manifest.manifest_path.as_str();
            if !deleted_paths.contains(path) && !rewritten_paths.contains(path) {
                kept.push(manifest);
            }
        }
        assert(current_manifests@.take(current_manifests@.len() as int) =~= current_manifests@);
        kept
    }

    /// Puts the new snapshot together: the manifests that are kept from the current
    /// one, then those that clustering wrote, then those that were added.
    pub fn assemble(&self, current_manifests: Vec<ManifestFile>) -> (result: Result<
        RewriteOutcome,
        Error,
    >)
        requires
            self.countable(),
        ensures
            self.assembles(current_manifests@, result),
    {
        let none: Vec<ManifestFile> = Vec::new();
        let (written, rewritten, processed) = match &self.cluster_by_func {
            Some(_) => (
                &self.state.new_manifests,
                &self.state.rewritten_manifests,
                self.state.entry_count,
            ),
            None => (&none, &none, 0),
        };
        assert(written@ =~= self.written());
        assert(rewritten@ =~= self.rewritten());
        let kept = self.keep_manifests(current_manifests);
        if written.len() == 0 && self.added_manifests.len() == 0 && rewritten.len() == 0
            && self.deleted_manifests.len() == 0 {
            return Ok(RewriteOutcome::Unchanged);
        }
        let created_count = count_in_both(written, &self.added_manifests);
        let replaced_count = count_in_both(rewritten, &self.deleted_manifests);
        if let (Some(created), Some(replaced)) = (created_count, replaced_count) {
            if created != replaced {
                let mut message = "Rewrite manifests file count mismatch: created ".to_string();
                message.append(decimal_text(created).as_str());
                message.append(" files but replaced ");
                message.append(decimal_text(replaced).as_str());
                message.append(" files");
                return Err(Error::new(ErrorKind::DataInvalid, message));
            }
        }
        let mut properties = self.snapshot_properties.clone();
        properties.insert(
            CREATED_MANIFESTS_COUNT.to_string(),
            decimal_text((written.len() + self.added_manifests.len()) as u64),
        );
        properties.insert(KEPT_MANIFESTS_COUNT.to_string(), decimal_text(kept.len() as u64));
        properties.insert(
            REPLACED_MANIFESTS_COUNT.to_string(),
            decimal_text((rewritten.len() + self.deleted_manifests.len()) as u64),
        );
        properties.insert(PROCESSED_ENTRY_COUNT.to_string(), decimal_text(processed as u64));
        let ghost kept_seq = kept@;
        let mut result_manifests = kept;
        let mut new_manifests = clone_manifests(written);
        let mut added_manifests = clone_manifests(&self.added_manifests);
        let ghost new_seq = new_manifests@;
        let ghost added_seq = added_manifests@;
        result_manifests.append(&mut new_manifests);
        result_manifests.append(&mut added_manifests);
        assert(manifest::manifests_view(kept_seq + new_seq + added_seq)
            =~= manifest::manifests_view(kept_seq) + manifest::manifests_view(new_seq)
            + manifest::manifests_view(added_seq));
        let operation = RewriteManifestsOperation { result_manifests };
        Ok(
            RewriteOutcome::Commit(
                RewriteCommit { operation, snapshot_properties: properties },
            ),
        )
    }
}

} // verus!
