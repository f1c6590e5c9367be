//! What holds of rewriting manifests as a whole.

use vstd::multiset::Multiset;
use vstd::prelude::*;

use crate::clustering::{ClusterByFunc, ClusterWriter, ClusteringPassView, Routing};
use crate::error::{Error, ErrorKind};
use crate::manifest::{
    ManifestContentType, ManifestEntry, ManifestFile, ManifestFileView, ManifestStatus,
    ManifestWriter,
};
use crate::rewrite_manifests::{
    ProposedSnapshot, RewriteCommit, RewriteManifestsAction, RewriteOutcome,
    CREATED_MANIFESTS_COUNT, KEPT_MANIFESTS_COUNT, PROCESSED_ENTRY_COUNT, REPLACED_MANIFESTS_COUNT,
};
use crate::{clustering, manifest, rewrite_manifests, text, value_laws};

verus! {

/// One of the steps that change an action in the course of its commit attempts.
pub enum AttemptStep {
    /// An attempt began, and proposed a snapshot.
    Begin(ProposedSnapshot),
    /// The proposed snapshot has got its id.
    Settle(i64),
    /// A clustering pass has ended: the manifests it consumed, those it wrote, and the
    /// number of entries it routed.
    Remember(Vec<ManifestFile>, Vec<ManifestFile>, usize),
}

/// Whether a step takes an action from one state to another.
pub open spec fn takes(
    before: RewriteManifestsAction,
    after: RewriteManifestsAction,
    step: AttemptStep,
) -> bool {
    match step {
        AttemptStep::Begin(proposed) => before.begins(after, proposed),
        AttemptStep::Settle(snapshot_id) => before.settles(after, snapshot_id),
        AttemptStep::Remember(rewritten, new, entry_count) => before.remembers(
            after,
            rewritten,
            new,
            entry_count,
        ),
    }
}

/// Whether the steps take the action from each state to the next.
pub open spec fn is_run(actions: Seq<RewriteManifestsAction>, steps: Seq<AttemptStep>) -> bool {
    &&& actions.len() == steps.len() + 1
    &&& forall|k: int|
        #![trigger steps[k]]
        0 <= k < steps.len() ==> takes(actions[k], actions[k + 1], steps[k])
}

proof fn lemma_identity_stays(
    actions: Seq<RewriteManifestsAction>,
    steps: Seq<AttemptStep>,
    i: int,
    j: int,
)
    requires
        is_run(actions, steps),
        0 <= i <= j <= steps.len(),
    ensures
        actions[i].settled_commit_uuid() is Some ==> actions[j].settled_commit_uuid()
            == actions[i].settled_commit_uuid(),
        actions[i].settled_snapshot_id() is Some ==> actions[j].settled_snapshot_id()
            == actions[i].settled_snapshot_id(),
    decreases j - i,
{
    if i < j {
        assert(takes(actions[i], actions[i + 1], steps[i]));
        lemma_identity_stays(actions, steps, i + 1, j);
    }
}

/// The proposed snapshot keeps its identity across attempts: every attempt has the
/// commit UUID of the first, and an id that was once proposed is proposed again.
pub proof fn law_identity_is_stable(
    actions: Seq<RewriteManifestsAction>,
    steps: Seq<AttemptStep>,
    i: int,
    j: int,
)
    requires
        is_run(actions, steps),
        0 <= i < j < steps.len(),
        steps[i] is Begin,
        steps[j] is Begin,
    ensures
        steps[j]->Begin_0.commit_uuid == steps[i]->Begin_0.commit_uuid,
        steps[i]->Begin_0.snapshot_id is Some ==> steps[j]->Begin_0.snapshot_id
            == steps[i]->Begin_0.snapshot_id,
{
    assert(takes(actions[i], actions[i + 1], steps[i]));
    assert(takes(actions[j], actions[j + 1], steps[j]));
    lemma_identity_stays(actions, steps, i + 1, j);
}

/// The id that the first attempt's snapshot has got is proposed by every later
/// attempt.
pub proof fn law_snapshot_id_is_settled_once(
    actions: Seq<RewriteManifestsAction>,
    steps: Seq<AttemptStep>,
    i: int,
    j: int,
)
    requires
        is_run(actions, steps),
        0 <= i < j < steps.len(),
        steps[i] is Settle,
        steps[j] is Begin,
        actions[i].settled_snapshot_id() is None,
    ensures
        steps[j]->Begin_0.snapshot_id == Some(steps[i]->Settle_0),
{
    assert(takes(actions[i], actions[i + 1], steps[i]));
    assert(takes(actions[j], actions[j + 1], steps[j]));
    lemma_identity_stays(actions, steps, i + 1, j);
}

proof fn lemma_chosen_of(manifests: Seq<ManifestFile>, chosen: Seq<bool>, k: int) -> (i: int)
    requires
        chosen.len() == manifests.len(),
        0 <= k < rewrite_manifests::chosen_of(manifests, chosen).len(),
    ensures
        0 <= i < manifests.len(),
        chosen[i],
        rewrite_manifests::chosen_of(manifests, chosen)[k] == manifests[i],
    decreases manifests.len(),
{
    let earlier = rewrite_manifests::chosen_of(manifests.drop_last(), chosen.drop_last());
    if k < earlier.len() {
        lemma_chosen_of(manifests.drop_last(), chosen.drop_last(), k)
    } else {
        manifests.len() - 1
    }
}

/// Where a manifest that a clustering pass consumes stands in the current snapshot.
proof fn lemma_consumed(
    action: RewriteManifestsAction,
    current: Seq<ManifestFile>,
    consumed: Seq<ManifestFile>,
    k: int,
) -> (i: int)
    requires
        action.may_consume(current, consumed),
        0 <= k < consumed.len(),
    ensures
        0 <= i < current.len(),
        consumed[k]@ == current[i]@,
        action.rewritable(current[i]),
        action.may_choose(current[i], true),
{
    let chosen = choose|chosen: Seq<bool>|
        {
            &&& chosen.len() == current.len()
            &&& forall|i: int|
                0 <= i < chosen.len() ==> action.may_choose(current[i], #[trigger] chosen[i])
            &&& manifest::manifests_view(consumed) == manifest::manifests_view(
                #[trigger] rewrite_manifests::chosen_of(current, chosen),
            )
        };
    let all = rewrite_manifests::chosen_of(current, chosen);
    assert(manifest::manifests_view(consumed)[k] == consumed[k]@);
    assert(manifest::manifests_view(consumed).len() == manifest::manifests_view(all).len());
    assert(manifest::manifests_view(all)[k] == all[k]@);
    let i = lemma_chosen_of(current, chosen, k);
    assert(action.may_choose(current[i], chosen[i]));
    i
}

/// Manifests with delete content type are never rewritten, and neither are manifests
/// that are to be removed: a clustering pass consumes only data manifests of the
/// current snapshot that are not.
pub proof fn law_only_data_manifests_are_consumed(
    action: RewriteManifestsAction,
    current: Seq<ManifestFile>,
    consumed: Seq<ManifestFile>,
)
    requires
        action.may_consume(current, consumed),
    ensures
        forall|k: int|
            0 <= k < consumed.len() ==> {
                &&& (#[trigger] consumed[k]).content == ManifestContentType::Data
                &&& !rewrite_manifests::has_path(
                    action.deleted_manifests@,
                    consumed[k].manifest_path@,
                )
                &&& rewrite_manifests::has_path(current, consumed[k].manifest_path@)
            },
{
    assert forall|k: int| 0 <= k < consumed.len() implies {
        &&& (#[trigger] consumed[k]).content == ManifestContentType::Data
        &&& !rewrite_manifests::has_path(action.deleted_manifests@, consumed[k].manifest_path@)
        &&& rewrite_manifests::has_path(current, consumed[k].manifest_path@)
    } by {
        let i = lemma_consumed(action, current, consumed, k);
        assert(consumed[k]@.manifest_path == current[i].manifest_path@);
        assert(consumed[k]@.content == current[i].content);
    }
}

/// A concurrent append costs no second clustering pass: the output of an earlier
/// attempt is used again, and the manifests that were appended are kept.
pub proof fn law_output_is_reused_after_appends(
    action: RewriteManifestsAction,
    current: Seq<ManifestFile>,
    appended: Seq<ManifestFile>,
)
    requires
        action.may_consume(current, action.state.rewritten_manifests@),
        action.state.rewritten_manifests@.len() > 0,
        forall|i: int| 0 <= i < appended.len() ==> action.keeps(#[trigger] appended[i]),
    ensures
        !action.needs_clustering(current + appended),
        action.kept(current + appended) == action.kept(current) + appended,
        action.summary(action.kept(current + appended).len()) == action.summary(
            action.kept(current).len(),
        ).insert(KEPT_MANIFESTS_COUNT@, text::decimal(action.kept(current).len() + appended.len())),
{
    let now = current + appended;
    let rewritten = action.state.rewritten_manifests@;
    assert forall|k: int| 0 <= k < rewritten.len() implies rewrite_manifests::has_path(
        now,
        (#[trigger] rewritten[k]).manifest_path@,
    ) by {
        let i = lemma_consumed(action, current, rewritten, k);
        assert(rewritten[k]@.manifest_path == current[i].manifest_path@);
        assert(now[i].manifest_path@ == rewritten[k].manifest_path@);
    }
    let keep = |m: ManifestFile| action.keeps(m);
    Seq::filter_distributes_over_add(current, appended, keep);
    lemma_filter_all(appended, keep);
    reveal_strlit("manifests-kept");
    reveal_strlit("manifests-replaced");
    reveal_strlit("entries-processed");
    assert(KEPT_MANIFESTS_COUNT@ != REPLACED_MANIFESTS_COUNT@) by {
        assert(KEPT_MANIFESTS_COUNT@.len() != REPLACED_MANIFESTS_COUNT@.len());
    }
    assert(KEPT_MANIFESTS_COUNT@ != PROCESSED_ENTRY_COUNT@) by {
        assert(KEPT_MANIFESTS_COUNT@.len() != PROCESSED_ENTRY_COUNT@.len());
    }
    assert(action.summary(action.kept(now).len()) =~= action.summary(
        action.kept(current).len(),
    ).insert(KEPT_MANIFESTS_COUNT@, text::decimal(action.kept(current).len() + appended.len())));
}

/// Earlier output is used again as long as its input is there: for every fresh list that
/// still has each consumed path, wherever else it differs, no clustering pass is
/// needed. What is kept are the manifests of the fresh list that were neither consumed
/// nor are removed, and only the count of those changes in the snapshot's properties.
/// Where the fresh list is an earlier one with new manifests anywhere among it, those
/// are kept beside the ones that were kept before.
pub proof fn law_output_is_reused_while_inputs_remain(
    action: RewriteManifestsAction,
    earlier: Seq<ManifestFile>,
    fresh: Seq<ManifestFile>,
    new: Seq<ManifestFile>,
)
    requires
        action.state.rewritten_manifests@.len() > 0,
        forall|k: int|
            0 <= k < action.state.rewritten_manifests@.len() ==> rewrite_manifests::has_path(
                fresh,
                (#[trigger] action.state.rewritten_manifests@[k]).manifest_path@,
            ),
    ensures
        !action.needs_clustering(fresh),
        forall|m: ManifestFile| #[trigger]
            action.kept(fresh).contains(m) <==> fresh.contains(m) && action.keeps(m),
        action.summary(action.kept(fresh).len()) == action.summary(
            action.kept(earlier).len(),
        ).insert(KEPT_MANIFESTS_COUNT@, text::decimal(action.kept(fresh).len())),
        fresh.to_multiset() == earlier.to_multiset().add(new.to_multiset()) && (forall|i: int|
            0 <= i < new.len() ==> action.keeps(#[trigger] new[i])) ==> {
            &&& action.kept(fresh).to_multiset() == action.kept(earlier).to_multiset().add(
                new.to_multiset(),
            )
            &&& action.kept(fresh).len() == action.kept(earlier).len() + new.len()
        },
{
    let keep = |m: ManifestFile| action.keeps(m);
    assert forall|m: ManifestFile| #[trigger] action.kept(fresh).contains(m) <==> fresh.contains(m)
        && action.keeps(m) by {
        if fresh.contains(m) {
            law_manifests_are_kept_unless_replaced(action, fresh, m);
        }
        if action.kept(fresh).contains(m) {
            fresh.lemma_filter_contains_rev(keep, m);
        }
    }
    reveal_strlit("manifests-kept");
    reveal_strlit("manifests-replaced");
    reveal_strlit("entries-processed");
    assert(KEPT_MANIFESTS_COUNT@.len() != REPLACED_MANIFESTS_COUNT@.len());
    assert(KEPT_MANIFESTS_COUNT@.len() != PROCESSED_ENTRY_COUNT@.len());
    assert(action.summary(action.kept(fresh).len()) =~= action.summary(
        action.kept(earlier).len(),
    ).insert(KEPT_MANIFESTS_COUNT@, text::decimal(action.kept(fresh).len())));
    if fresh.to_multiset() == earlier.to_multiset().add(new.to_multiset()) && (forall|i: int|
        0 <= i < new.len() ==> action.keeps(#[trigger] new[i])) {
        lemma_filter_to_multiset(fresh, keep);
        lemma_filter_to_multiset(earlier, keep);
        lemma_filter_to_multiset(new, keep);
        lemma_filter_all(new, keep);
        let kept = action.kept(fresh).to_multiset();
        let kept_before = action.kept(earlier).to_multiset();
        assert(kept =~= kept_before.add(new.to_multiset()));
        broadcast use vstd::seq_lib::group_to_multiset_ensures;

        assert(kept.len() == kept_before.len() + new.to_multiset().len());
    }
}

proof fn lemma_filter_to_multiset(
    manifests: Seq<ManifestFile>,
    keep: spec_fn(ManifestFile) -> bool,
)
    ensures
        manifests.filter(keep).to_multiset() == manifests.to_multiset().filter(keep),
    decreases manifests.len(),
{
    broadcast use vstd::seq_lib::group_to_multiset_ensures;

    reveal(Seq::filter);
    if manifests.len() > 0 {
        let shorter = manifests.drop_last();
        lemma_filter_to_multiset(shorter, keep);
        assert(manifests =~= shorter.push(manifests.last()));
    }
    assert(manifests.filter(keep).to_multiset() =~= manifests.to_multiset().filter(keep));
}

proof fn lemma_filter_all(manifests: Seq<ManifestFile>, keep: spec_fn(ManifestFile) -> bool)
    requires
        forall|i: int| 0 <= i < manifests.len() ==> keep(#[trigger] manifests[i]),
    ensures
        manifests.filter(keep) == manifests,
    decreases manifests.len(),
{
    reveal(Seq::filter);
    if manifests.len() > 0 {
        let shorter = manifests.drop_last();
        assert forall|i: int| 0 <= i < shorter.len() implies keep(#[trigger] shorter[i]) by {
            assert(shorter[i] == manifests[i]);
        }
        lemma_filter_all(shorter, keep);
        assert(keep(manifests[manifests.len() - 1]));
        assert(manifests =~= shorter.push(manifests.last()));
    }
}

/// A manifest that was consumed and is no longer part of the table calls for another
/// clustering pass, and that pass does not consume it.
pub proof fn law_a_lost_input_calls_for_clustering(
    action: RewriteManifestsAction,
    current: Seq<ManifestFile>,
    consumed: Seq<ManifestFile>,
    i: int,
)
    requires
        action.cluster_by_func is Some,
        0 <= i < action.state.rewritten_manifests@.len(),
        !rewrite_manifests::has_path(
            current,
            action.state.rewritten_manifests@[i].manifest_path@,
        ),
        action.may_consume(current, consumed),
    ensures
        action.needs_clustering(current),
        !rewrite_manifests::has_path(
            consumed,
            action.state.rewritten_manifests@[i].manifest_path@,
        ),
{
    let path = action.state.rewritten_manifests@[i].manifest_path@;
    law_only_data_manifests_are_consumed(action, current, consumed);
    if rewrite_manifests::has_path(consumed, path) {
        let k = choose|k: int|
            0 <= k < consumed.len() && (#[trigger] consumed[k]).manifest_path@ == path;
        assert(rewrite_manifests::has_path(current, consumed[k].manifest_path@));
    }
}

/// Every manifest of the current snapshot is kept, unless it was rewritten or is
/// removed.
pub proof fn law_manifests_are_kept_unless_replaced(
    action: RewriteManifestsAction,
    current: Seq<ManifestFile>,
    manifest: ManifestFile,
)
    requires
        current.contains(manifest),
    ensures
        action.kept(current).contains(manifest) <==> !rewrite_manifests::has_path(
            action.rewritten(),
            manifest.manifest_path@,
        ) && !rewrite_manifests::has_path(action.deleted_manifests@, manifest.manifest_path@),
{
    let keep = |m: ManifestFile| action.keeps(m);
    let i = choose|i: int| 0 <= i < current.len() && current[i] == manifest;
    if action.keeps(manifest) {
        current.lemma_filter_contains(keep, i);
    }
    if action.kept(current).contains(manifest) {
        let k = choose|k: int|
            0 <= k < action.kept(current).len() && action.kept(current)[k] == manifest;
        current.lemma_filter_pred(keep, k);
    }
}

/// What has to hold of the manifests to remove and to add.
pub open spec fn is_valid(
    action: RewriteManifestsAction,
    current: Seq<ManifestFile>,
    partition_spec_ids: Seq<i32>,
) -> bool {
    let deleted = action.deleted_manifests@;
    let added = action.added_manifests@;
    &&& rewrite_manifests::paths(deleted).no_duplicates()
    &&& rewrite_manifests::paths(added).no_duplicates()
    &&& forall|i: int|
        0 <= i < deleted.len() ==> (rewrite_manifests::named(
            current,
            (#[trigger] deleted[i]).manifest_path@,
        ) matches Some(m) && m.content == ManifestContentType::Data)
    &&& forall|i: int|
        0 <= i < added.len() ==> {
            &&& (#[trigger] added[i]).content == ManifestContentType::Data
            &&& partition_spec_ids.contains(added[i].partition_spec_id)
            &&& rewrite_manifests::has_path(current, added[i].manifest_path@)
                ==> rewrite_manifests::has_path(deleted, added[i].manifest_path@)
            &&& added[i].added_files_count == Some(0u32)
            &&& added[i].deleted_files_count == Some(0u32)
        }
}

proof fn lemma_no_problem(findings: Seq<Option<Seq<char>>>)
    ensures
        rewrite_manifests::first_problem(findings) is None <==> forall|i: int|
            0 <= i < findings.len() ==> (#[trigger] findings[i]) is None,
    decreases findings.len(),
{
    if findings.len() > 0 {
        let shorter = findings.drop_last();
        lemma_no_problem(shorter);
        assert(forall|i: int|
            0 <= i < shorter.len() ==> #[trigger] shorter[i] == findings[i]);
        assert(findings.last() == findings[findings.len() - 1]);
        if forall|i: int| 0 <= i < shorter.len() ==> (#[trigger] shorter[i]) is None {
            assert forall|i: int| 0 <= i < findings.len() - 1 implies (
            #[trigger] findings[i]) is None by {
                assert(shorter[i] is None);
            }
        }
    }
}

/// A commit is refused if and only if one of the rules on the manifests to remove and
/// to add is broken.
pub proof fn law_valid_changes_are_accepted(
    action: RewriteManifestsAction,
    current: Seq<ManifestFile>,
    partition_spec_ids: Seq<i32>,
)
    ensures
        action.problem(current, partition_spec_ids) is None <==> is_valid(
            action,
            current,
            partition_spec_ids,
        ),
{
    let deleted = action.deleted_manifests@;
    let added = action.added_manifests@;
    let deletions = deleted.map_values(
        |m: ManifestFile| rewrite_manifests::deletion_problem(current, m),
    );
    let additions = added.map_values(
        |m: ManifestFile| action.addition_problem(current, partition_spec_ids, m),
    );
    lemma_no_problem(deletions);
    lemma_no_problem(additions);
    assert(forall|i: int|
        0 <= i < deleted.len() ==> #[trigger] deletions[i] == rewrite_manifests::deletion_problem(
            current,
            deleted[i],
        ));
    assert(forall|i: int|
        0 <= i < added.len() ==> #[trigger] additions[i] == action.addition_problem(
            current,
            partition_spec_ids,
            added[i],
        ));
    if action.problem(current, partition_spec_ids) is None {
        assert forall|i: int| 0 <= i < deleted.len() implies (rewrite_manifests::named(
            current,
            (#[trigger] deleted[i]).manifest_path@,
        ) matches Some(m) && m.content == ManifestContentType::Data) by {
            assert(deletions[i] is None);
        }
        assert forall|i: int| 0 <= i < added.len() implies {
            &&& (#[trigger] added[i]).content == ManifestContentType::Data
            &&& partition_spec_ids.contains(added[i].partition_spec_id)
            &&& rewrite_manifests::has_path(current, added[i].manifest_path@)
                ==> rewrite_manifests::has_path(deleted, added[i].manifest_path@)
            &&& added[i].added_files_count == Some(0u32)
            &&& added[i].deleted_files_count == Some(0u32)
        } by {
            assert(additions[i] is None);
        }
    }
    if is_valid(action, current, partition_spec_ids) {
        assert forall|i: int| 0 <= i < deletions.len() implies (
        #[trigger] deletions[i]) is None by {
            assert(deleted[i] == action.deleted_manifests@[i]);
        }
        assert forall|i: int| 0 <= i < additions.len() implies (
        #[trigger] additions[i]) is None by {
            assert(added[i] == action.added_manifests@[i]);
        }
    }
}

/// Whether the manifests that were rewritten are manifests of the current snapshot,
/// each once, and might be rewritten.
pub open spec fn rewrote_from(
    action: RewriteManifestsAction,
    current: Seq<ManifestFile>,
) -> bool {
    &&& rewrite_manifests::paths(action.rewritten()).no_duplicates()
    &&& forall|k: int|
        0 <= k < action.rewritten().len() ==> {
            let m = #[trigger] action.rewritten()[k];
            is_described(current, m) && action.rewritable(m)
        }
}

/// Whether a manifest is described as the current snapshot describes it.
pub open spec fn is_described(current: Seq<ManifestFile>, manifest: ManifestFile) -> bool {
    exists|i: int| 0 <= i < current.len() && (#[trigger] current[i])@ == manifest@
}

proof fn lemma_paths_drop_last(manifests: Seq<ManifestFile>)
    requires
        rewrite_manifests::paths(manifests).no_duplicates(),
        manifests.len() > 0,
    ensures
        rewrite_manifests::paths(manifests.drop_last()) == rewrite_manifests::paths(
            manifests,
        ).drop_last(),
        rewrite_manifests::paths(manifests.drop_last()).no_duplicates(),
{
    let all = rewrite_manifests::paths(manifests);
    let shorter = rewrite_manifests::paths(manifests.drop_last());
    assert(shorter =~= all.drop_last());
    assert forall|x: int, y: int|
        0 <= x < shorter.len() && 0 <= y < shorter.len() && x != y implies shorter[x]
        != shorter[y] by {
        assert(all[x] != all[y]);
    }
}

proof fn lemma_paths_of_chosen(manifests: Seq<ManifestFile>, chosen: Seq<bool>)
    requires
        chosen.len() == manifests.len(),
        rewrite_manifests::paths(manifests).no_duplicates(),
    ensures
        rewrite_manifests::paths(
            rewrite_manifests::chosen_of(manifests, chosen),
        ).no_duplicates(),
    decreases manifests.len(),
{
    if manifests.len() > 0 {
        let shorter = manifests.drop_last();
        let last = manifests.last();
        let all = rewrite_manifests::paths(manifests);
        let earlier = rewrite_manifests::chosen_of(shorter, chosen.drop_last());
        lemma_paths_drop_last(manifests);
        lemma_paths_of_chosen(shorter, chosen.drop_last());
        if chosen.last() {
            let longer = earlier.push(last);
            assert forall|k: int| 0 <= k < earlier.len() implies (
            #[trigger] earlier[k]).manifest_path@ != last.manifest_path@ by {
                let i = lemma_chosen_of(shorter, chosen.drop_last(), k);
                assert(all[i] != all[manifests.len() - 1]);
            }
            assert forall|x: int, y: int|
                0 <= x < longer.len() && 0 <= y < longer.len() && x != y implies
                    rewrite_manifests::paths(longer)[x] != rewrite_manifests::paths(longer)[y] by {
                if x < earlier.len() && y < earlier.len() {
                    assert(rewrite_manifests::paths(earlier)[x] != rewrite_manifests::paths(
                        earlier,
                    )[y]);
                } else if x < earlier.len() {
                    assert(earlier[x].manifest_path@ != last.manifest_path@);
                } else {
                    assert(earlier[y].manifest_path@ != last.manifest_path@);
                }
            }
        }
    }
}

/// What a clustering pass consumes of a snapshot in which every path names one
/// manifest are manifests of that snapshot, each once; and so it is, without a pass,
/// where the action does not cluster.
pub proof fn law_rewritten_manifests_are_of_the_table(
    action: RewriteManifestsAction,
    current: Seq<ManifestFile>,
)
    requires
        rewrite_manifests::paths(current).no_duplicates(),
        action.cluster_by_func is Some ==> action.may_consume(
            current,
            action.state.rewritten_manifests@,
        ),
    ensures
        rewrote_from(action, current),
{
    let rewritten = action.rewritten();
    if action.cluster_by_func is Some {
        let chosen = choose|chosen: Seq<bool>|
            {
                &&& chosen.len() == current.len()
                &&& forall|i: int|
                    0 <= i < chosen.len() ==> action.may_choose(current[i], #[trigger] chosen[i])
                &&& manifest::manifests_view(rewritten) == manifest::manifests_view(
                    #[trigger] rewrite_manifests::chosen_of(current, chosen),
                )
            };
        let all = rewrite_manifests::chosen_of(current, chosen);
        lemma_paths_of_chosen(current, chosen);
        assert(manifest::manifests_view(rewritten).len() == rewritten.len());
        assert(manifest::manifests_view(all).len() == all.len());
        assert forall|k: int| 0 <= k < rewritten.len() implies rewrite_manifests::paths(
            rewritten,
        )[k] == #[trigger] rewrite_manifests::paths(all)[k] by {
            assert(manifest::manifests_view(rewritten)[k] == rewritten[k]@);
            assert(manifest::manifests_view(all)[k] == all[k]@);
            assert(rewritten[k]@.manifest_path == all[k]@.manifest_path);
        }
        assert(rewrite_manifests::paths(rewritten) =~= rewrite_manifests::paths(all));
        assert forall|k: int| 0 <= k < rewritten.len() implies {
            let m = #[trigger] action.rewritten()[k];
            is_described(current, m) && action.rewritable(m)
        } by {
            let i = lemma_consumed(action, current, rewritten, k);
            assert(rewritten[k]@.manifest_path == current[i]@.manifest_path);
            assert(rewritten[k]@.content == current[i]@.content);
        }
    }
}

/// What was rewritten of one snapshot was rewritten of every later one that still
/// describes each of those manifests as before, whatever else it lists.
pub proof fn law_rewritten_manifests_stay_of_the_table(
    action: RewriteManifestsAction,
    earlier: Seq<ManifestFile>,
    fresh: Seq<ManifestFile>,
)
    requires
        rewrote_from(action, earlier),
        forall|k: int|
            0 <= k < action.rewritten().len() ==> is_described(
                fresh,
                #[trigger] action.rewritten()[k],
            ),
    ensures
        rewrote_from(action, fresh),
{
    assert forall|k: int| 0 <= k < action.rewritten().len() implies {
        let m = #[trigger] action.rewritten()[k];
        is_described(fresh, m) && action.rewritable(m)
    } by {
        assert(is_described(earlier, action.rewritten()[k]));
    }
}

/// Delete manifests pass through: of a snapshot in which every path names one
/// manifest, a commit that was not refused keeps all of them.
pub proof fn law_delete_manifests_are_kept(
    action: RewriteManifestsAction,
    current: Seq<ManifestFile>,
    partition_spec_ids: Seq<i32>,
    manifest: ManifestFile,
)
    requires
        rewrite_manifests::paths(current).no_duplicates(),
        action.problem(current, partition_spec_ids) is None,
        rewrote_from(action, current),
        current.contains(manifest),
        manifest.content == ManifestContentType::Deletes,
    ensures
        action.kept(current).contains(manifest),
{
    let path = manifest.manifest_path@;
    let i = choose|i: int| 0 <= i < current.len() && current[i] == manifest;
    law_valid_changes_are_accepted(action, current, partition_spec_ids);
    law_manifests_are_kept_unless_replaced(action, current, manifest);
    assert(rewrite_manifests::paths(current)[i] == path);
    if rewrite_manifests::has_path(action.deleted_manifests@, path) {
        let k = choose|k: int|
            0 <= k < action.deleted_manifests@.len() && (
            #[trigger] action.deleted_manifests@[k]).manifest_path@ == path;
        let m = rewrite_manifests::named(current, action.deleted_manifests@[k].manifest_path@);
        rewrite_manifests::lemma_named(current, path);
        let j = choose|j: int| 0 <= j < current.len() && current[j] == m.unwrap();
        assert(rewrite_manifests::paths(current)[j] == path);
    }
    if rewrite_manifests::has_path(action.rewritten(), path) {
        let k = choose|k: int|
            0 <= k < action.rewritten().len() && (
            #[trigger] action.rewritten()[k]).manifest_path@ == path;
        let m = action.rewritten()[k];
        let j = choose|j: int| 0 <= j < current.len() && (#[trigger] current[j])@ == m@;
        assert(current[j]@.manifest_path == m@.manifest_path);
        assert(rewrite_manifests::paths(current)[j] == path);
        assert(current[j]@.content == m@.content);
    }
}

/// What was counted takes precedence: whatever properties the caller sets, the new
/// snapshot's are the caller's with the four counts in place.
pub proof fn law_counts_take_precedence(
    action: RewriteManifestsAction,
    kept_count: nat,
    name: Seq<char>,
)
    ensures
        ({
            let summary = action.summary(kept_count);
            let own = action.snapshot_properties@;
            let created = action.written().len() + action.added_manifests@.len();
            let replaced = action.rewritten().len() + action.deleted_manifests@.len();
            &&& summary.contains_key(CREATED_MANIFESTS_COUNT@)
            &&& summary[CREATED_MANIFESTS_COUNT@] == text::decimal(created)
            &&& summary.contains_key(KEPT_MANIFESTS_COUNT@)
            &&& summary[KEPT_MANIFESTS_COUNT@] == text::decimal(kept_count)
            &&& summary.contains_key(REPLACED_MANIFESTS_COUNT@)
            &&& summary[REPLACED_MANIFESTS_COUNT@] == text::decimal(replaced)
            &&& summary.contains_key(PROCESSED_ENTRY_COUNT@)
            &&& summary[PROCESSED_ENTRY_COUNT@] == text::decimal(action.processed())
            &&& name != CREATED_MANIFESTS_COUNT@ && name != KEPT_MANIFESTS_COUNT@ && name
                != REPLACED_MANIFESTS_COUNT@ && name != PROCESSED_ENTRY_COUNT@ ==> {
                &&& summary.contains_key(name) == own.contains_key(name)
                &&& own.contains_key(name) ==> summary[name] == own[name]
            }
        }),
{
    reveal_strlit("manifests-kept");
    reveal_strlit("manifests-created");
    reveal_strlit("manifests-replaced");
    reveal_strlit("entries-processed");
    let kept = KEPT_MANIFESTS_COUNT@;
    let created = CREATED_MANIFESTS_COUNT@;
    let replaced = REPLACED_MANIFESTS_COUNT@;
    let processed = PROCESSED_ENTRY_COUNT@;
    assert(kept.len() == 14 && replaced.len() == 18);
    assert(created.len() == 17 && processed.len() == 17);
    assert(created[0] != processed[0]);
}

proof fn lemma_files_concat(a: Seq<ManifestFile>, b: Seq<ManifestFile>)
    ensures
        rewrite_manifests::active_files(a + b) == rewrite_manifests::files_in_both(a, b),
    decreases b.len(),
{
    if b.len() == 0 {
        assert(a + b =~= a);
    } else {
        lemma_files_concat(a, b.drop_last());
        assert((a + b).drop_last() =~= a + b.drop_last());
        assert((a + b).last() == b.last());
    }
}

proof fn lemma_files_of_views(a: Seq<ManifestFile>, b: Seq<ManifestFile>)
    requires
        manifest::manifests_view(a) == manifest::manifests_view(b),
    ensures
        rewrite_manifests::active_files(a) == rewrite_manifests::active_files(b),
    decreases a.len(),
{
    assert(manifest::manifests_view(a).len() == a.len());
    assert(manifest::manifests_view(b).len() == b.len());
    if a.len() > 0 {
        let n = a.len() - 1;
        assert(manifest::manifests_view(a)[n] == a[n]@);
        assert(manifest::manifests_view(b)[n] == b[n]@);
        assert(manifest::manifests_view(a.drop_last()) =~= manifest::manifests_view(a).drop_last());
        assert(manifest::manifests_view(b.drop_last()) =~= manifest::manifests_view(b).drop_last());
        lemma_files_of_views(a.drop_last(), b.drop_last());
    }
}

/// Taking the one manifest of a path out of a list.
proof fn lemma_files_without_one(manifests: Seq<ManifestFile>, i: int)
    requires
        rewrite_manifests::paths(manifests).no_duplicates(),
        rewrite_manifests::active_files(manifests) is Some,
        0 <= i < manifests.len(),
    ensures
        ({
            let other = |m: ManifestFile| m.manifest_path@ != manifests[i].manifest_path@;
            &&& manifests[i]@.active_files() is Some
            &&& rewrite_manifests::active_files(manifests.filter(other)) is Some
            &&& rewrite_manifests::active_files(manifests).unwrap()
                == rewrite_manifests::active_files(manifests.filter(other)).unwrap()
                + manifests[i]@.active_files().unwrap()
        }),
    decreases manifests.len(),
{
    reveal(Seq::filter);
    let all = rewrite_manifests::paths(manifests);
    let other = |m: ManifestFile| m.manifest_path@ != manifests[i].manifest_path@;
    let shorter = manifests.drop_last();
    let last = manifests.last();
    assert(all[manifests.len() - 1] == last.manifest_path@);
    assert(all[i] == manifests[i].manifest_path@);
    if i == manifests.len() - 1 {
        assert forall|j: int| 0 <= j < shorter.len() implies other(#[trigger] shorter[j]) by {
            assert(all[j] == shorter[j].manifest_path@);
        }
        lemma_filter_all(shorter, other);
    } else {
        lemma_paths_drop_last(manifests);
        lemma_files_without_one(shorter, i);
        let rest = shorter.filter(other);
        assert(other(last));
        assert(manifests.filter(other) == rest.push(last));
        assert(rest.push(last).drop_last() =~= rest);
    }
}

/// Taking the manifests of some paths out of a list.
proof fn lemma_files_without(manifests: Seq<ManifestFile>, gone: Seq<ManifestFile>)
    requires
        rewrite_manifests::paths(manifests).no_duplicates(),
        rewrite_manifests::paths(gone).no_duplicates(),
        rewrite_manifests::active_files(manifests) is Some,
        forall|k: int| 0 <= k < gone.len() ==> is_described(manifests, #[trigger] gone[k]),
    ensures
        ({
            let stays = |m: ManifestFile| !rewrite_manifests::has_path(gone, m.manifest_path@);
            &&& rewrite_manifests::paths(manifests.filter(stays)).no_duplicates()
            &&& rewrite_manifests::active_files(manifests)
                == rewrite_manifests::files_in_both(manifests.filter(stays), gone)
        }),
    decreases gone.len(),
{
    let stays = |m: ManifestFile| !rewrite_manifests::has_path(gone, m.manifest_path@);
    if gone.len() == 0 {
        lemma_filter_all(manifests, stays);
    } else {
        let n = gone.len() - 1;
        let fewer = gone.drop_last();
        let last = gone.last();
        let all_gone = rewrite_manifests::paths(gone);
        lemma_paths_drop_last(gone);
        assert forall|k: int| 0 <= k < fewer.len() implies is_described(
            manifests,
            #[trigger] fewer[k],
        ) by {
            assert(fewer[k] == gone[k]);
        }
        lemma_files_without(manifests, fewer);
        let earlier = |m: ManifestFile| !rewrite_manifests::has_path(fewer, m.manifest_path@);
        let rest = manifests.filter(earlier);
        assert(is_described(manifests, gone[n]));
        let i = choose|i: int| 0 <= i < manifests.len() && (#[trigger] manifests[i])@ == last@;
        assert(manifests[i]@.manifest_path == last@.manifest_path);
        assert(earlier(manifests[i])) by {
            if rewrite_manifests::has_path(fewer, last.manifest_path@) {
                let k = choose|k: int|
                    0 <= k < fewer.len() && (#[trigger] fewer[k]).manifest_path@
                        == last.manifest_path@;
                assert(all_gone[k] == all_gone[n]);
            }
        }
        manifests.lemma_filter_contains(earlier, i);
        let j = choose|j: int| 0 <= j < rest.len() && rest[j] == manifests[i];
        lemma_files_without_one(rest, j);
        let other = |m: ManifestFile| m.manifest_path@ != rest[j].manifest_path@;
        lemma_filter_twice(manifests, earlier, other);
        assert forall|m: ManifestFile| #[trigger]
            stays(m) == (earlier(m) && other(m)) by {
            lemma_has_path_drop_last(gone, m.manifest_path@);
        }
        assert(stays =~= (|m: ManifestFile| earlier(m) && other(m)));
        lemma_paths_of_filter(rest, other);
        lemma_files_concat(fewer, seq![last]);
    }
}

proof fn lemma_has_path_drop_last(manifests: Seq<ManifestFile>, path: Seq<char>)
    requires
        manifests.len() > 0,
    ensures
        rewrite_manifests::has_path(manifests, path) <==> rewrite_manifests::has_path(
            manifests.drop_last(),
            path,
        ) || manifests.last().manifest_path@ == path,
{
    let shorter = manifests.drop_last();
    if rewrite_manifests::has_path(manifests, path) {
        let i = choose|i: int|
            0 <= i < manifests.len() && (#[trigger] manifests[i]).manifest_path@ == path;
        if i < shorter.len() {
            assert(shorter[i].manifest_path@ == path);
        }
    }
    if rewrite_manifests::has_path(shorter, path) {
        let i = choose|i: int|
            0 <= i < shorter.len() && (#[trigger] shorter[i]).manifest_path@ == path;
        assert(manifests[i].manifest_path@ == path);
    }
    assert(manifests[manifests.len() - 1] == manifests.last());
}

proof fn lemma_filter_twice(
    manifests: Seq<ManifestFile>,
    p: spec_fn(ManifestFile) -> bool,
    q: spec_fn(ManifestFile) -> bool,
)
    ensures
        manifests.filter(p).filter(q) == manifests.filter(|m: ManifestFile| p(m) && q(m)),
    decreases manifests.len(),
{
    reveal(Seq::filter);
    if manifests.len() > 0 {
        let shorter = manifests.drop_last();
        lemma_filter_twice(shorter, p, q);
        if p(manifests.last()) {
            let rest = shorter.filter(p);
            assert(rest.push(manifests.last()).drop_last() =~= rest);
        }
    }
}

proof fn lemma_paths_of_filter(manifests: Seq<ManifestFile>, p: spec_fn(ManifestFile) -> bool)
    requires
        rewrite_manifests::paths(manifests).no_duplicates(),
    ensures
        rewrite_manifests::paths(manifests.filter(p)).no_duplicates(),
    decreases manifests.len(),
{
    reveal(Seq::filter);
    if manifests.len() > 0 {
        let shorter = manifests.drop_last();
        let last = manifests.last();
        let all = rewrite_manifests::paths(manifests);
        let rest = shorter.filter(p);
        lemma_paths_drop_last(manifests);
        lemma_paths_of_filter(shorter, p);
        if p(last) {
            let longer = rest.push(last);
            assert(manifests.filter(p) == longer);
            assert forall|x: int, y: int|
                0 <= x < longer.len() && 0 <= y < longer.len() && x != y implies
                    rewrite_manifests::paths(longer)[x] != rewrite_manifests::paths(longer)[y] by {
                assert forall|k: int| 0 <= k < rest.len() implies (
                #[trigger] rest[k]).manifest_path@ != last.manifest_path@ by {
                    shorter.lemma_filter_contains_rev(p, rest[k]);
                    let i = choose|i: int| 0 <= i < shorter.len() && shorter[i] == rest[k];
                    assert(all[i] != all[manifests.len() - 1]);
                }
                if x < rest.len() && y < rest.len() {
                    assert(rewrite_manifests::paths(rest)[x] != rewrite_manifests::paths(rest)[y]);
                } else if x < rest.len() {
                    assert(rest[x].manifest_path@ != last.manifest_path@);
                } else {
                    assert(rest[y].manifest_path@ != last.manifest_path@);
                }
            }
        }
    }
}

/// The number of files stays: where every count is known, every path names one
/// manifest, and removed manifests are described as the current snapshot describes
/// them, the new snapshot lists as many files as the current one.
pub proof fn law_file_count_is_preserved(
    action: RewriteManifestsAction,
    current: Seq<ManifestFile>,
    partition_spec_ids: Seq<i32>,
    commit: RewriteCommit,
)
    requires
        rewrite_manifests::paths(current).no_duplicates(),
        action.problem(current, partition_spec_ids) is None,
        rewrote_from(action, current),
        forall|k: int|
            0 <= k < action.deleted_manifests@.len() ==> is_described(
                current,
                #[trigger] action.deleted_manifests@[k],
            ),
        rewrite_manifests::active_files(current) is Some,
        action.created_files() is Some,
        action.assembles(current, Ok::<RewriteOutcome, Error>(RewriteOutcome::Commit(commit))),
    ensures
        rewrite_manifests::active_files(commit.operation.result_manifests@)
            == rewrite_manifests::active_files(current),
{
    let rewritten = action.rewritten();
    let deleted = action.deleted_manifests@;
    let gone = rewritten + deleted;
    law_valid_changes_are_accepted(action, current, partition_spec_ids);
    assert(rewrite_manifests::paths(gone).no_duplicates()) by {
        assert forall|x: int, y: int|
            0 <= x < gone.len() && 0 <= y < gone.len() && x != y implies
                rewrite_manifests::paths(gone)[x] != rewrite_manifests::paths(gone)[y] by {
            lemma_gone_apart(rewritten, deleted, action, x, y);
        }
    }
    assert forall|k: int| 0 <= k < gone.len() implies is_described(current, #[trigger] gone[k]) by {
        if k < rewritten.len() {
            assert(gone[k] == action.rewritten()[k]);
        } else {
            assert(gone[k] == action.deleted_manifests@[k - rewritten.len()]);
        }
    }
    lemma_files_without(current, gone);
    let stays = |m: ManifestFile| !rewrite_manifests::has_path(gone, m.manifest_path@);
    let keep = |m: ManifestFile| action.keeps(m);
    assert forall|m: ManifestFile| #[trigger] stays(m) == keep(m) by {
        lemma_has_path_concat(rewritten, deleted, m.manifest_path@);
    }
    assert(stays =~= keep);
    let kept = action.kept(current);
    let written = action.written();
    let added = action.added_manifests@;
    lemma_files_concat(rewritten, deleted);
    lemma_files_concat(written, added);
    lemma_files_concat(kept, written + added);
    let result = commit.operation.result_manifests@;
    assert(manifest::manifests_view(kept + (written + added)) =~= manifest::manifests_view(kept)
        + manifest::manifests_view(written) + manifest::manifests_view(added));
    lemma_files_of_views(result, kept + (written + added));
}

proof fn lemma_has_path_concat(a: Seq<ManifestFile>, b: Seq<ManifestFile>, path: Seq<char>)
    ensures
        rewrite_manifests::has_path(a + b, path) <==> rewrite_manifests::has_path(a, path)
            || rewrite_manifests::has_path(b, path),
{
    let both = a + b;
    if rewrite_manifests::has_path(both, path) {
        let i = choose|i: int|
            0 <= i < both.len() && (#[trigger] both[i]).manifest_path@ == path;
        if i < a.len() {
            assert(a[i].manifest_path@ == path);
        } else {
            assert(b[i - a.len()].manifest_path@ == path);
        }
    }
    if rewrite_manifests::has_path(a, path) {
        let i = choose|i: int| 0 <= i < a.len() && (#[trigger] a[i]).manifest_path@ == path;
        assert(both[i].manifest_path@ == path);
    }
    if rewrite_manifests::has_path(b, path) {
        let i = choose|i: int| 0 <= i < b.len() && (#[trigger] b[i]).manifest_path@ == path;
        assert(both[a.len() + i].manifest_path@ == path);
    }
}

/// Manifests that were rewritten and manifests that are removed have paths of their
/// own.
proof fn lemma_gone_apart(
    rewritten: Seq<ManifestFile>,
    deleted: Seq<ManifestFile>,
    action: RewriteManifestsAction,
    x: int,
    y: int,
)
    requires
        deleted == action.deleted_manifests@,
        rewrite_manifests::paths(rewritten).no_duplicates(),
        rewrite_manifests::paths(deleted).no_duplicates(),
        forall|k: int|
            0 <= k < rewritten.len() ==> action.rewritable(#[trigger] rewritten[k]),
        0 <= x < rewritten.len() + deleted.len(),
        0 <= y < rewritten.len() + deleted.len(),
        x != y,
    ensures
        rewrite_manifests::paths(rewritten + deleted)[x] != rewrite_manifests::paths(
            rewritten + deleted,
        )[y],
{
    let n = rewritten.len();
    if x < n && y < n {
        assert(rewrite_manifests::paths(rewritten)[x] != rewrite_manifests::paths(rewritten)[y]);
    } else if x >= n && y >= n {
        assert(rewrite_manifests::paths(deleted)[x - n] != rewrite_manifests::paths(deleted)[y - n]);
    } else {
        let (r, d) = if x < n {
            (x, y - n)
        } else {
            (y, x - n)
        };
        assert(action.rewritable(rewritten[r]));
        if rewritten[r].manifest_path@ == deleted[d].manifest_path@ {
            assert(rewrite_manifests::has_path(deleted, rewritten[r].manifest_path@));
        }
    }
}

/// The entries that manifests list, one manifest after the other, where `contents` tells
/// what is stored under a path.
pub open spec fn listed_in(
    contents: spec_fn(Seq<char>) -> Seq<ManifestEntry>,
    manifests: Seq<ManifestFile>,
) -> Seq<ManifestEntry>
    decreases manifests.len(),
{
    if manifests.len() == 0 {
        Seq::empty()
    } else {
        listed_in(contents, manifests.drop_last()) + contents(manifests.last().manifest_path@)
    }
}

/// The live entries that manifests list, as they are carried forward.
pub open spec fn live_in(
    contents: spec_fn(Seq<char>) -> Seq<ManifestEntry>,
    manifests: Seq<ManifestFile>,
) -> Multiset<ManifestEntry> {
    clustering::carried(clustering::live(listed_in(contents, manifests))).to_multiset()
}

proof fn lemma_live_concat(a: Seq<ManifestEntry>, b: Seq<ManifestEntry>)
    ensures
        clustering::carried(clustering::live(a + b)).to_multiset() == clustering::carried(
            clustering::live(a),
        ).to_multiset().add(clustering::carried(clustering::live(b)).to_multiset()),
{
    let x = clustering::live(a);
    let y = clustering::live(b);
    Seq::filter_distributes_over_add(a, b, |e: ManifestEntry| e.alive());
    assert(clustering::carried(x + y) =~= clustering::carried(x) + clustering::carried(y));
    vstd::seq_lib::lemma_multiset_commutative(clustering::carried(x), clustering::carried(y));
}

/// A list falls into the manifests that meet a condition and those that do not.
proof fn lemma_live_in_parts(
    contents: spec_fn(Seq<char>) -> Seq<ManifestEntry>,
    manifests: Seq<ManifestFile>,
    p: spec_fn(ManifestFile) -> bool,
)
    ensures
        live_in(contents, manifests) == live_in(contents, manifests.filter(p)).add(
            live_in(contents, manifests.filter(|m: ManifestFile| !p(m))),
        ),
    decreases manifests.len(),
{
    broadcast use vstd::seq_lib::group_to_multiset_ensures;

    reveal(Seq::filter);
    let q = |m: ManifestFile| !p(m);
    let with = manifests.filter(p);
    let without = manifests.filter(q);
    if manifests.len() > 0 {
        let shorter = manifests.drop_last();
        let last = manifests.last();
        let entries = contents(last.manifest_path@);
        lemma_live_in_parts(contents, shorter, p);
        lemma_live_concat(listed_in(contents, shorter), entries);
        let grown = if p(last) {
            shorter.filter(p)
        } else {
            shorter.filter(q)
        };
        assert(grown.push(last).drop_last() =~= grown);
        lemma_live_concat(listed_in(contents, grown), entries);
    } else {
        assert(clustering::live(listed_in(contents, manifests)) =~= Seq::<ManifestEntry>::empty());
        assert(clustering::carried(Seq::<ManifestEntry>::empty()) =~= Seq::<
            ManifestEntry,
        >::empty());
    }
    assert(live_in(contents, manifests) =~= live_in(contents, with).add(
        live_in(contents, without),
    ));
}

/// Entries in another order are carried forward as the same ones.
proof fn lemma_carried_multiset(a: Seq<ManifestEntry>, b: Seq<ManifestEntry>)
    requires
        a.to_multiset() == b.to_multiset(),
    ensures
        clustering::carried(a).to_multiset() == clustering::carried(b).to_multiset(),
    decreases a.len(),
{
    broadcast use vstd::seq_lib::group_to_multiset_ensures;

    assert(a.to_multiset().len() == a.len() && b.to_multiset().len() == b.len());
    if a.len() == 0 {
        assert(clustering::carried(a) =~= clustering::carried(b));
    } else {
        let n = a.len() - 1;
        let x = a[n];
        assert(a.to_multiset().contains(x)) by {
            assert(a.contains(x));
        }
        assert(b.contains(x));
        let j = choose|j: int| 0 <= j < b.len() && b[j] == x;
        lemma_carried_multiset(a.remove(n), b.remove(j));
        let ca = clustering::carried(a);
        let cb = clustering::carried(b);
        assert(clustering::carried(a.remove(n)) =~= ca.remove(n));
        assert(clustering::carried(b.remove(j)) =~= cb.remove(j));
        assert(ca.to_multiset().contains(x.carried())) by {
            assert(ca[n] == x.carried());
            assert(ca.contains(x.carried()));
        }
        assert(cb.to_multiset().contains(x.carried())) by {
            assert(cb[j] == x.carried());
            assert(cb.contains(x.carried()));
        }
        assert(ca.to_multiset() =~= ca.remove(n).to_multiset().insert(x.carried()));
        assert(cb.to_multiset() =~= cb.remove(j).to_multiset().insert(x.carried()));
    }
}

/// Entries in another order have the same live ones among them.
proof fn lemma_live_multiset(a: Seq<ManifestEntry>, b: Seq<ManifestEntry>)
    requires
        a.to_multiset() == b.to_multiset(),
    ensures
        clustering::carried(clustering::live(a)).to_multiset() == clustering::carried(
            clustering::live(b),
        ).to_multiset(),
{
    lemma_live_to_multiset(a);
    lemma_live_to_multiset(b);
    lemma_carried_multiset(clustering::live(a), clustering::live(b));
}

proof fn lemma_live_to_multiset(entries: Seq<ManifestEntry>)
    ensures
        clustering::live(entries).to_multiset() == entries.to_multiset().filter(
            |e: ManifestEntry| e.alive(),
        ),
    decreases entries.len(),
{
    broadcast use vstd::seq_lib::group_to_multiset_ensures;

    reveal(Seq::filter);
    if entries.len() > 0 {
        let shorter = entries.drop_last();
        lemma_live_to_multiset(shorter);
        assert(entries =~= shorter.push(entries.last()));
    }
    assert(clustering::live(entries).to_multiset() =~= entries.to_multiset().filter(
        |e: ManifestEntry| e.alive(),
    ));
}

proof fn lemma_listed_of_views(
    contents: spec_fn(Seq<char>) -> Seq<ManifestEntry>,
    a: Seq<ManifestFile>,
    b: Seq<ManifestFile>,
)
    requires
        manifest::manifests_view(a) == manifest::manifests_view(b),
    ensures
        listed_in(contents, a) == listed_in(contents, b),
    decreases a.len(),
{
    assert(manifest::manifests_view(a).len() == a.len());
    assert(manifest::manifests_view(b).len() == b.len());
    if a.len() > 0 {
        let n = a.len() - 1;
        assert(manifest::manifests_view(a)[n] == a[n]@);
        assert(manifest::manifests_view(b)[n] == b[n]@);
        assert(a[n]@.manifest_path == b[n]@.manifest_path);
        assert(manifest::manifests_view(a.drop_last()) =~= manifest::manifests_view(a).drop_last());
        assert(manifest::manifests_view(b.drop_last()) =~= manifest::manifests_view(b).drop_last());
        lemma_listed_of_views(contents, a.drop_last(), b.drop_last());
    }
}

/// The one manifest of a path lists what is stored under it.
proof fn lemma_live_of_path(
    contents: spec_fn(Seq<char>) -> Seq<ManifestEntry>,
    manifests: Seq<ManifestFile>,
    path: Seq<char>,
)
    requires
        rewrite_manifests::paths(manifests).no_duplicates(),
        rewrite_manifests::has_path(manifests, path),
    ensures
        listed_in(contents, manifests.filter(|m: ManifestFile| m.manifest_path@ == path))
            == contents(path),
    decreases manifests.len(),
{
    reveal(Seq::filter);
    let p = |m: ManifestFile| m.manifest_path@ == path;
    let shorter = manifests.drop_last();
    let last = manifests.last();
    let all = rewrite_manifests::paths(manifests);
    lemma_paths_drop_last(manifests);
    lemma_has_path_drop_last(manifests, path);
    if last.manifest_path@ == path {
        assert forall|i: int| 0 <= i < shorter.len() implies !p(#[trigger] shorter[i]) by {
            assert(all[i] == shorter[i].manifest_path@);
            assert(all[manifests.len() - 1] == last.manifest_path@);
        }
        lemma_filter_none(shorter, p);
        let one = manifests.filter(p);
        assert(one =~= seq![last]);
        assert(one.drop_last() =~= Seq::<ManifestFile>::empty());
        reveal_with_fuel(listed_in, 2);
        assert(listed_in(contents, one) =~= contents(path));
    } else {
        lemma_live_of_path(contents, shorter, path);
    }
}

/// What manifests list is what the manifests of their paths list, in another order.
proof fn lemma_live_of_paths(
    contents: spec_fn(Seq<char>) -> Seq<ManifestEntry>,
    current: Seq<ManifestFile>,
    manifests: Seq<ManifestFile>,
)
    requires
        rewrite_manifests::paths(current).no_duplicates(),
        rewrite_manifests::paths(manifests).no_duplicates(),
        forall|k: int|
            0 <= k < manifests.len() ==> rewrite_manifests::has_path(
                current,
                (#[trigger] manifests[k]).manifest_path@,
            ),
    ensures
        live_in(contents, manifests) == live_in(
            contents,
            current.filter(
                |m: ManifestFile| rewrite_manifests::has_path(manifests, m.manifest_path@),
            ),
        ),
    decreases manifests.len(),
{
    let p = |m: ManifestFile| rewrite_manifests::has_path(manifests, m.manifest_path@);
    if manifests.len() == 0 {
        assert(forall|i: int| 0 <= i < current.len() ==> !p(#[trigger] current[i]));
        lemma_filter_none(current, p);
        assert(manifests =~= Seq::<ManifestFile>::empty());
    } else {
        let n = manifests.len() - 1;
        let fewer = manifests.drop_last();
        let last = manifests.last();
        let path = last.manifest_path@;
        let all = rewrite_manifests::paths(manifests);
        let earlier = |m: ManifestFile| rewrite_manifests::has_path(fewer, m.manifest_path@);
        let is_last = |m: ManifestFile| m.manifest_path@ == path;
        let others = |m: ManifestFile| !is_last(m);
        lemma_paths_drop_last(manifests);
        assert forall|k: int| 0 <= k < fewer.len() implies rewrite_manifests::has_path(
            current,
            (#[trigger] fewer[k]).manifest_path@,
        ) by {
            assert(fewer[k] == manifests[k]);
        }
        lemma_live_of_paths(contents, current, fewer);
        assert(manifests[n] == last);
        lemma_live_of_path(contents, current, path);
        lemma_live_concat(listed_in(contents, fewer), contents(path));
        lemma_live_in_parts(contents, current.filter(p), is_last);
        lemma_filter_twice(current, p, is_last);
        lemma_filter_twice(current, p, others);
        assert forall|m: ManifestFile| #[trigger] p(m) == (earlier(m) || is_last(m)) by {
            lemma_has_path_drop_last(manifests, m.manifest_path@);
        }
        assert forall|m: ManifestFile| #[trigger] earlier(m) implies !is_last(m) by {
            if is_last(m) {
                let k = choose|k: int|
                    0 <= k < fewer.len() && (#[trigger] fewer[k]).manifest_path@ == path;
                assert(all[k] == all[n]);
            }
        }
        assert((|m: ManifestFile| p(m) && is_last(m)) =~= is_last);
        assert((|m: ManifestFile| p(m) && others(m)) =~= earlier);
        assert(live_in(contents, manifests) =~= live_in(contents, current.filter(p)));
    }
}

/// Whether every manifest that was rewritten is still part of the table, each once, and
/// is not to be removed.
pub open spec fn inputs_remain(
    action: RewriteManifestsAction,
    current: Seq<ManifestFile>,
) -> bool {
    &&& rewrite_manifests::paths(action.rewritten()).no_duplicates()
    &&& forall|k: int|
        0 <= k < action.rewritten().len() ==> {
            let path = (#[trigger] action.rewritten()[k]).manifest_path@;
            &&& rewrite_manifests::has_path(current, path)
            &&& !rewrite_manifests::has_path(action.deleted_manifests@, path)
        }
}

/// The inputs remain wherever a snapshot is put together: in the list that the pass was
/// made over, and in every fresh list for which its output is used again.
pub proof fn law_inputs_remain_on_reuse(
    action: RewriteManifestsAction,
    earlier: Seq<ManifestFile>,
    fresh: Seq<ManifestFile>,
)
    requires
        rewrite_manifests::paths(earlier).no_duplicates(),
        action.cluster_by_func is Some ==> action.may_consume(
            earlier,
            action.state.rewritten_manifests@,
        ),
    ensures
        inputs_remain(action, earlier),
        !action.needs_clustering(fresh) ==> inputs_remain(action, fresh),
{
    let rewritten = action.rewritten();
    law_rewritten_manifests_are_of_the_table(action, earlier);
    if action.cluster_by_func is Some {
        law_only_data_manifests_are_consumed(action, earlier, rewritten);
        assert forall|k: int| 0 <= k < rewritten.len() && !action.needs_clustering(
            fresh,
        ) implies rewrite_manifests::has_path(
            fresh,
            (#[trigger] rewritten[k]).manifest_path@,
        ) by {
            assert(rewritten[k] == action.state.rewritten_manifests@[k]);
        }
    }
}

/// Every manifest is removed, rewritten or kept, and so is what it lists.
proof fn lemma_live_of_current(
    action: RewriteManifestsAction,
    current: Seq<ManifestFile>,
    contents: spec_fn(Seq<char>) -> Seq<ManifestEntry>,
)
    requires
        rewrite_manifests::paths(current).no_duplicates(),
        inputs_remain(action, current),
    ensures
        live_in(contents, current) == live_in(contents, action.rewritten()).add(
            live_in(contents, action.kept(current)),
        ).add(live_in(contents, removed_of(action, current))),
{
    let rewritten = action.rewritten();
    let deleted = action.deleted_manifests@;
    let is_removed = |m: ManifestFile| rewrite_manifests::has_path(deleted, m.manifest_path@);
    let is_rewritten = |m: ManifestFile| rewrite_manifests::has_path(rewritten, m.manifest_path@);
    let stays = |m: ManifestFile| !is_removed(m);
    let others = |m: ManifestFile| !is_rewritten(m);
    let keep = |m: ManifestFile| action.keeps(m);
    lemma_live_of_paths(contents, current, rewritten);
    assert forall|m: ManifestFile| #[trigger] is_rewritten(m) implies stays(m) by {
        let k = choose|k: int|
            0 <= k < rewritten.len() && (#[trigger] rewritten[k]).manifest_path@
                == m.manifest_path@;
        assert(rewritten[k] == action.rewritten()[k]);
    }
    lemma_live_in_parts(contents, current, is_removed);
    lemma_live_in_parts(contents, current.filter(stays), is_rewritten);
    lemma_filter_twice(current, stays, is_rewritten);
    lemma_filter_twice(current, stays, others);
    assert((|m: ManifestFile| stays(m) && is_rewritten(m)) =~= is_rewritten);
    assert((|m: ManifestFile| stays(m) && others(m)) =~= keep);
    assert(live_in(contents, current) =~= live_in(contents, rewritten).add(
        live_in(contents, action.kept(current)),
    ).add(live_in(contents, removed_of(action, current))));
}

/// The manifests of the current snapshot that the caller removes.
pub open spec fn removed_of(
    action: RewriteManifestsAction,
    current: Seq<ManifestFile>,
) -> Seq<ManifestFile> {
    current.filter(
        |m: ManifestFile|
            rewrite_manifests::has_path(action.deleted_manifests@, m.manifest_path@),
    )
}

/// Whether a pass was made over what the rewritten manifests list, in any order, and has
/// ended with these writers still open.
pub open spec fn is_pass_over<S, E>(
    action: RewriteManifestsAction,
    contents: spec_fn(Seq<char>) -> Seq<ManifestEntry>,
    cluster_func: &ClusterByFunc,
    measure: S,
    states: Seq<ClusteringPassView>,
    routings: Seq<Routing<E>>,
    rest: Seq<ClusterWriter>,
) -> bool where S: Fn(&ManifestWriter) -> Result<u64, E> {
    &&& clustering::is_pass(cluster_func, measure, states, routings)
    &&& clustering::ends_with(states.last(), rest)
    &&& clustering::consumed_of(routings).flatten().to_multiset() == listed_in(
        contents,
        action.rewritten(),
    ).to_multiset()
}

/// A pass writes what it consumed.
proof fn lemma_live_of_pass<S, E>(
    action: RewriteManifestsAction,
    contents: spec_fn(Seq<char>) -> Seq<ManifestEntry>,
    cluster_func: &ClusterByFunc,
    measure: S,
    states: Seq<ClusteringPassView>,
    routings: Seq<Routing<E>>,
    rest: Seq<ClusterWriter>,
) where S: Fn(&ManifestWriter) -> Result<u64, E>
    requires
        is_pass_over(action, contents, cluster_func, measure, states, routings, rest),
    ensures
        clustering::held(clustering::manifests_of(routings, rest)) == live_in(
            contents,
            action.rewritten(),
        ),
{
    let consumed = clustering::consumed_of(routings);
    let results = clustering::results_of(routings);
    assert forall|i: int|
        #![trigger consumed[i]]
        0 <= i < consumed.len() implies clustering::may_route(
        states[i],
        states[i + 1],
        consumed[i],
        results[i],
    ) by {
        let r = routings[i];
        assert(clustering::is_routing(cluster_func, measure, states[i], states[i + 1], r));
        assert(clustering::routes(
            states[i],
            states[i + 1],
            r.partition_spec_id,
            consumed[i],
            r.rest,
            r.keys,
            r.outcomes,
            results[i],
        ));
    }
    clustering::law_every_live_entry_is_written_once(states, consumed, results, rest);
    lemma_live_multiset(consumed.flatten(), listed_in(contents, action.rewritten()));
}

/// A rewrite does not change the files of the table: of a snapshot in which every path
/// names one manifest, and that still has the manifests that a clustering pass
/// consumed, the live entries are those in the manifests that the pass wrote, those in
/// the manifests that are kept, and those in the manifests that the caller removes,
/// each once. Where the caller removes none, what was written and what is kept hold
/// them all. The pass may be that of an earlier attempt, made over another list.
pub proof fn law_live_entries_are_preserved<S, E>(
    action: RewriteManifestsAction,
    current: Seq<ManifestFile>,
    contents: spec_fn(Seq<char>) -> Seq<ManifestEntry>,
    cluster_func: &ClusterByFunc,
    measure: S,
    states: Seq<ClusteringPassView>,
    routings: Seq<Routing<E>>,
    rest: Seq<ClusterWriter>,
) where S: Fn(&ManifestWriter) -> Result<u64, E>
    requires
        rewrite_manifests::paths(current).no_duplicates(),
        inputs_remain(action, current),
        is_pass_over(action, contents, cluster_func, measure, states, routings, rest),
    ensures
        ({
            let written = clustering::held(clustering::manifests_of(routings, rest));
            let kept = live_in(contents, action.kept(current));
            let removed = live_in(contents, removed_of(action, current));
            &&& live_in(contents, current) == written.add(kept).add(removed)
            &&& action.deleted_manifests@.len() == 0 ==> live_in(contents, current) == written.add(
                kept,
            )
        }),
{
    let written = clustering::held(clustering::manifests_of(routings, rest));
    let kept = live_in(contents, action.kept(current));
    lemma_live_of_pass(action, contents, cluster_func, measure, states, routings, rest);
    lemma_live_of_current(action, current, contents);
    if action.deleted_manifests@.len() == 0 {
        let is_removed = |m: ManifestFile|
            rewrite_manifests::has_path(action.deleted_manifests@, m.manifest_path@);
        assert(forall|i: int| 0 <= i < current.len() ==> !is_removed(#[trigger] current[i]));
        lemma_filter_none(current, is_removed);
        lemma_live_in_none(contents);
        assert(live_in(contents, current) =~= written.add(kept));
    }
}

proof fn lemma_live_in_none(contents: spec_fn(Seq<char>) -> Seq<ManifestEntry>)
    ensures
        live_in(contents, Seq::empty()) == Multiset::<ManifestEntry>::empty(),
{
    broadcast use vstd::seq_lib::group_to_multiset_ensures;

    reveal(Seq::filter);
    assert(clustering::live(Seq::<ManifestEntry>::empty()) =~= Seq::<ManifestEntry>::empty());
    assert(clustering::carried(Seq::<ManifestEntry>::empty()) =~= Seq::<ManifestEntry>::empty());
    assert(live_in(contents, Seq::empty()) =~= Multiset::<ManifestEntry>::empty());
}

proof fn lemma_live_in_concat(
    contents: spec_fn(Seq<char>) -> Seq<ManifestEntry>,
    a: Seq<ManifestFile>,
    b: Seq<ManifestFile>,
)
    ensures
        live_in(contents, a + b) == live_in(contents, a).add(live_in(contents, b)),
    decreases b.len(),
{
    if b.len() == 0 {
        lemma_live_in_none(contents);
        assert(a + b =~= a);
        assert(b =~= Seq::<ManifestFile>::empty());
    } else {
        let last = contents(b.last().manifest_path@);
        lemma_live_in_concat(contents, a, b.drop_last());
        assert((a + b).drop_last() =~= a + b.drop_last());
        lemma_live_concat(listed_in(contents, a + b.drop_last()), last);
        lemma_live_concat(listed_in(contents, b.drop_last()), last);
    }
    assert(live_in(contents, a + b) =~= live_in(contents, a).add(live_in(contents, b)));
}

/// Whether manifests list what writers held when they were written, one for one.
pub open spec fn are_stored(
    contents: spec_fn(Seq<char>) -> Seq<ManifestEntry>,
    manifests: Seq<ManifestFile>,
    writers: Seq<ClusterWriter>,
) -> bool {
    &&& manifests.len() == writers.len()
    &&& forall|i: int|
        0 <= i < manifests.len() ==> contents((#[trigger] manifests[i]).manifest_path@)
            == writers[i].writer.entries@
}

/// Manifests list together what the writers held.
proof fn lemma_stored(
    contents: spec_fn(Seq<char>) -> Seq<ManifestEntry>,
    manifests: Seq<ManifestFile>,
    writers: Seq<ClusterWriter>,
)
    requires
        are_stored(contents, manifests, writers),
    ensures
        listed_in(contents, manifests).to_multiset() == clustering::held(writers),
    decreases manifests.len(),
{
    broadcast use vstd::seq_lib::group_to_multiset_ensures;

    if manifests.len() > 0 {
        let shorter = manifests.drop_last();
        let fewer = writers.drop_last();
        assert forall|i: int| 0 <= i < shorter.len() implies contents(
            (#[trigger] shorter[i]).manifest_path@,
        ) == fewer[i].writer.entries@ by {
            assert(shorter[i] == manifests[i]);
        }
        lemma_stored(contents, shorter, fewer);
        assert(manifests[manifests.len() - 1] == manifests.last());
        vstd::seq_lib::lemma_multiset_commutative(
            listed_in(contents, shorter),
            contents(manifests.last().manifest_path@),
        );
    }
    assert(listed_in(contents, manifests).to_multiset() =~= clustering::held(writers));
}

/// Entries that were carried forward are live, and are carried forward as they are.
proof fn lemma_carried_again(entries: Seq<ManifestEntry>, origin: Seq<ManifestEntry>)
    requires
        entries.to_multiset() == clustering::carried(origin).to_multiset(),
    ensures
        clustering::carried(clustering::live(entries)) == entries,
{
    broadcast use vstd::seq_lib::group_to_multiset_ensures;

    let all = clustering::carried(origin);
    assert forall|i: int| 0 <= i < entries.len() implies (#[trigger] entries[i]).status
        == ManifestStatus::Existing by {
        assert(entries.contains(entries[i]));
        assert(entries.to_multiset().contains(entries[i]));
        assert(all.contains(entries[i]));
        let k = choose|k: int| 0 <= k < all.len() && all[k] == entries[i];
        assert(all[k] == origin[k].carried());
    }
    lemma_all_live(entries);
    assert(clustering::carried(entries) =~= entries);
}

proof fn lemma_all_live(entries: Seq<ManifestEntry>)
    requires
        forall|i: int| 0 <= i < entries.len() ==> (#[trigger] entries[i]).alive(),
    ensures
        clustering::live(entries) == entries,
    decreases entries.len(),
{
    reveal(Seq::filter);
    if entries.len() > 0 {
        let shorter = entries.drop_last();
        assert forall|i: int| 0 <= i < shorter.len() implies (#[trigger] shorter[i]).alive() by {
            assert(shorter[i] == entries[i]);
        }
        lemma_all_live(shorter);
        assert(entries[entries.len() - 1].alive());
        assert(entries =~= shorter.push(entries.last()));
    }
}

/// A commit changes the files of the table only as the caller asks: the live entries of
/// the new snapshot, with those of the manifests that the caller removes, are those of
/// the current snapshot, with those of the manifests that the caller adds, each once.
///
/// So it is on the first attempt and on every later one, whether a pass was made over
/// the current list or the output of an earlier pass is used again, and without a pass
/// where the action does not cluster. Every path names one manifest, the manifests that
/// a pass consumed are still there, and what it wrote is stored as its writers held it.
pub proof fn law_commit_preserves_live_entries<S, E>(
    action: RewriteManifestsAction,
    current: Seq<ManifestFile>,
    commit: RewriteCommit,
    contents: spec_fn(Seq<char>) -> Seq<ManifestEntry>,
    cluster_func: &ClusterByFunc,
    measure: S,
    states: Seq<ClusteringPassView>,
    routings: Seq<Routing<E>>,
    rest: Seq<ClusterWriter>,
) where S: Fn(&ManifestWriter) -> Result<u64, E>
    requires
        rewrite_manifests::paths(current).no_duplicates(),
        action.assembles(current, Ok::<RewriteOutcome, Error>(RewriteOutcome::Commit(commit))),
        inputs_remain(action, current),
        action.cluster_by_func is Some ==> is_pass_over(
            action,
            contents,
            cluster_func,
            measure,
            states,
            routings,
            rest,
        ) && are_stored(
            contents,
            action.written(),
            clustering::manifests_of(routings, rest),
        ),
    ensures
        live_in(contents, commit.operation.result_manifests@).add(
            live_in(contents, removed_of(action, current)),
        ) == live_in(contents, current).add(live_in(contents, action.added_manifests@)),
{
    let kept = action.kept(current);
    let written = action.written();
    let added = action.added_manifests@;
    let result = commit.operation.result_manifests@;
    if action.cluster_by_func is Some {
        let consumed = clustering::live(listed_in(contents, action.rewritten()));
        lemma_live_of_pass(action, contents, cluster_func, measure, states, routings, rest);
        lemma_stored(contents, written, clustering::manifests_of(routings, rest));
        lemma_carried_again(listed_in(contents, written), consumed);
    } else {
        assert(written =~= action.rewritten());
    }
    assert(live_in(contents, written) == live_in(contents, action.rewritten()));
    lemma_live_of_current(action, current, contents);
    assert(manifest::manifests_view(kept + written + added) =~= manifest::manifests_view(kept)
        + manifest::manifests_view(written) + manifest::manifests_view(added));
    lemma_listed_of_views(contents, result, kept + written + added);
    lemma_live_in_concat(contents, kept + written, added);
    lemma_live_in_concat(contents, kept, written);
    assert(live_in(contents, result).add(live_in(contents, removed_of(action, current)))
        =~= live_in(contents, current).add(live_in(contents, added)));
}

proof fn lemma_filter_none(manifests: Seq<ManifestFile>, p: spec_fn(ManifestFile) -> bool)
    requires
        forall|i: int| 0 <= i < manifests.len() ==> !p(#[trigger] manifests[i]),
    ensures
        manifests.filter(p) == Seq::<ManifestFile>::empty(),
    decreases manifests.len(),
{
    reveal(Seq::filter);
    if manifests.len() > 0 {
        let shorter = manifests.drop_last();
        assert forall|i: int| 0 <= i < shorter.len() implies !p(#[trigger] shorter[i]) by {
            assert(shorter[i] == manifests[i]);
        }
        lemma_filter_none(shorter, p);
        assert(!p(manifests[manifests.len() - 1]));
    }
}

/// Manifests are looked for by their path: one is found where one has that very path,
/// and the last one is meant where several have.
pub proof fn law_manifests_are_found_by_path(manifests: Seq<ManifestFile>, path: Seq<char>)
    ensures
        rewrite_manifests::paths(manifests).len() == manifests.len(),
        forall|i: int|
            0 <= i < manifests.len() ==> #[trigger] rewrite_manifests::paths(manifests)[i]
                == manifests[i].manifest_path@,
        rewrite_manifests::has_path(manifests, path) <==> exists|i: int|
            0 <= i < manifests.len() && (#[trigger] manifests[i]).manifest_path@ == path,
        rewrite_manifests::named(manifests, path) is None <==> forall|i: int|
            0 <= i < manifests.len() ==> (#[trigger] manifests[i]).manifest_path@ != path,
        rewrite_manifests::named(manifests, path) matches Some(m) ==> exists|i: int|
            {
                &&& 0 <= i < manifests.len()
                &&& #[trigger] manifests[i] == m
                &&& m.manifest_path@ == path
                &&& forall|j: int|
                    i < j < manifests.len() ==> (#[trigger] manifests[j]).manifest_path@ != path
            },
    decreases manifests.len(),
{
    rewrite_manifests::lemma_named(manifests, path);
    if manifests.len() > 0 {
        let n = manifests.len() - 1;
        let shorter = manifests.drop_last();
        law_manifests_are_found_by_path(shorter, path);
        if manifests[n].manifest_path@ == path {
            assert(rewrite_manifests::named(manifests, path) == Some(manifests[n]));
        } else if let Some(m) = rewrite_manifests::named(manifests, path) {
            let i = choose|i: int|
                {
                    &&& 0 <= i < shorter.len()
                    &&& #[trigger] shorter[i] == m
                    &&& m.manifest_path@ == path
                    &&& forall|j: int|
                        i < j < shorter.len() ==> (#[trigger] shorter[j]).manifest_path@ != path
                };
            assert forall|j: int| i < j < manifests.len() implies (
            #[trigger] manifests[j]).manifest_path@ != path by {
                if j < n {
                    assert(shorter[j] == manifests[j]);
                }
            }
            assert(manifests[i] == m);
        }
    }
}

/// Whether a path is that of no manifest.
pub open spec fn is_path_of_none(manifests: Seq<ManifestFile>, path: Seq<char>) -> bool {
    forall|i: int| 0 <= i < manifests.len() ==> (#[trigger] manifests[i]).manifest_path@ != path
}

proof fn lemma_path_of_none(manifests: Seq<ManifestFile>, path: Seq<char>)
    ensures
        is_path_of_none(manifests, path) <==> !rewrite_manifests::has_path(manifests, path),
{
    law_manifests_are_found_by_path(manifests, path);
}

/// Where a chosen manifest stands among the chosen ones.
proof fn lemma_chosen_at(manifests: Seq<ManifestFile>, chosen: Seq<bool>, i: int) -> (k: int)
    requires
        chosen.len() == manifests.len(),
        0 <= i < manifests.len(),
        chosen[i],
    ensures
        0 <= k < rewrite_manifests::chosen_of(manifests, chosen).len(),
        rewrite_manifests::chosen_of(manifests, chosen)[k] == manifests[i],
    decreases manifests.len(),
{
    let earlier = rewrite_manifests::chosen_of(manifests.drop_last(), chosen.drop_last());
    if i == manifests.len() - 1 {
        earlier.len() as int
    } else {
        lemma_chosen_at(manifests.drop_last(), chosen.drop_last(), i)
    }
}

proof fn lemma_choice(
    action: RewriteManifestsAction,
    current: Seq<ManifestFile>,
    consumed: Seq<ManifestFile>,
) -> (chosen: Seq<bool>)
    requires
        action.may_consume(current, consumed),
    ensures
        chosen.len() == current.len(),
        forall|i: int|
            0 <= i < chosen.len() ==> action.may_choose(current[i], #[trigger] chosen[i]),
        manifest::manifests_view(consumed) == manifest::manifests_view(
            rewrite_manifests::chosen_of(current, chosen),
        ),
{
    choose|chosen: Seq<bool>|
        {
            &&& chosen.len() == current.len()
            &&& forall|i: int|
                0 <= i < chosen.len() ==> action.may_choose(current[i], #[trigger] chosen[i])
            &&& manifest::manifests_view(consumed) == manifest::manifests_view(
                #[trigger] rewrite_manifests::chosen_of(current, chosen),
            )
        }
}

/// Every data manifest that is not removed is rewritten where the predicate says so, or
/// where there is none: whatever files it lists, and whoever wrote it.
pub proof fn law_every_selected_manifest_is_consumed(
    action: RewriteManifestsAction,
    current: Seq<ManifestFile>,
    consumed: Seq<ManifestFile>,
    i: int,
)
    requires
        action.may_consume(current, consumed),
        0 <= i < current.len(),
        current[i].content == ManifestContentType::Data,
        is_path_of_none(action.deleted_manifests@, current[i].manifest_path@),
        action.manifest_predicate matches Some(predicate) ==> forall|answer: bool| #[trigger]
            predicate.answers(&current[i], answer) ==> answer,
    ensures
        exists|k: int| 0 <= k < consumed.len() && (#[trigger] consumed[k])@ == current[i]@,
{
    let chosen = lemma_choice(action, current, consumed);
    let all = rewrite_manifests::chosen_of(current, chosen);
    lemma_path_of_none(action.deleted_manifests@, current[i].manifest_path@);
    assert(action.may_choose(current[i], chosen[i]));
    let k = lemma_chosen_at(current, chosen, i);
    assert(manifest::manifests_view(consumed).len() == consumed.len());
    assert(manifest::manifests_view(all).len() == all.len());
    assert(manifest::manifests_view(consumed)[k] == consumed[k]@);
    assert(manifest::manifests_view(all)[k] == all[k]@);
    assert(consumed[k]@ == current[i]@);
}

/// A manifest that the predicate refuses is not rewritten, of a snapshot in which every
/// path names one manifest.
pub proof fn law_refused_manifests_are_not_consumed(
    action: RewriteManifestsAction,
    current: Seq<ManifestFile>,
    consumed: Seq<ManifestFile>,
    i: int,
)
    requires
        action.may_consume(current, consumed),
        rewrite_manifests::paths(current).no_duplicates(),
        0 <= i < current.len(),
        action.manifest_predicate matches Some(predicate) && forall|answer: bool| #[trigger]
            predicate.answers(&current[i], answer) ==> !answer,
    ensures
        is_path_of_none(consumed, current[i].manifest_path@),
{
    let all = rewrite_manifests::paths(current);
    assert forall|k: int| 0 <= k < consumed.len() implies (#[trigger] consumed[k]).manifest_path@
        != current[i].manifest_path@ by {
        let j = lemma_consumed(action, current, consumed, k);
        assert(consumed[k]@.manifest_path == current[j]@.manifest_path);
        assert(all[i] == current[i].manifest_path@ && all[j] == current[j].manifest_path@);
    }
}

/// Without a predicate the manifests that are rewritten are all data manifests that are
/// not removed, in their order: one manifest more at the end of the list is one
/// rewritten manifest more where it is such a one, and none more where it is not.
pub proof fn law_manifests_are_chosen_one_by_one(
    action: RewriteManifestsAction,
    current: Seq<ManifestFile>,
    m: ManifestFile,
    consumed: Seq<ManifestFile>,
    more: Seq<ManifestFile>,
)
    requires
        action.manifest_predicate is None,
        action.may_consume(current, consumed),
        action.may_consume(current.push(m), more),
    ensures
        current.len() == 0 ==> consumed.len() == 0,
        m.content == ManifestContentType::Data && is_path_of_none(
            action.deleted_manifests@,
            m.manifest_path@,
        ) ==> manifest::manifests_view(more) == manifest::manifests_view(consumed).push(m@),
        m.content == ManifestContentType::Deletes || !is_path_of_none(
            action.deleted_manifests@,
            m.manifest_path@,
        ) ==> manifest::manifests_view(more) == manifest::manifests_view(consumed),
{
    let longer = current.push(m);
    let a = lemma_choice(action, current, consumed);
    let b = lemma_choice(action, longer, more);
    assert(longer.drop_last() =~= current);
    assert forall|i: int| 0 <= i < current.len() implies #[trigger] a[i] == b[i] by {
        assert(longer[i] == current[i]);
        assert(action.may_choose(current[i], a[i]));
        assert(action.may_choose(longer[i], b[i]));
    }
    assert(b.drop_last() =~= a);
    assert(action.may_choose(longer[current.len() as int], b[current.len() as int]));
    lemma_path_of_none(action.deleted_manifests@, m.manifest_path@);
    let earlier = rewrite_manifests::chosen_of(current, a);
    manifest::lemma_manifests_view_push(earlier, m);
    assert(manifest::manifests_view(consumed).len() == consumed.len());
    assert(current.len() == 0 ==> manifest::manifests_view(earlier).len() == 0);
}

/// The target size is the number in the snapshot's own property where that is set, else
/// the number in the table's, else eight mebibytes; and eight mebibytes where what is set
/// is no number.
pub proof fn law_target_size_is_resolved_in_order(
    own: Map<Seq<char>, Seq<char>>,
    of_table: Map<Seq<char>, Seq<char>>,
    n: nat,
    i: int,
)
    ensures
        ({
            let name = "commit.manifest.target-size-bytes"@;
            let size = rewrite_manifests::target_size(
                rewrite_manifests::target_size_text(own, of_table),
            );
            let fits = if n <= u64::MAX {
                n
            } else {
                8388608
            };
            &&& own.contains_key(name) && own[name] == text::decimal(n) ==> size == fits
            &&& own.contains_key(name) && 0 <= i < own[name].len() && !('0' <= own[name][i] <= '9')
                && !(i == 0 && own[name][0] == '+') ==> size == 8388608
            &&& own.contains_key(name) && own[name].len() == 0 ==> size == 8388608
            &&& !own.contains_key(name) && of_table.contains_key(name) && of_table[name]
                == text::decimal(n) ==> size == fits
            &&& !own.contains_key(name) && of_table.contains_key(name) && 0 <= i
                < of_table[name].len() && !('0' <= of_table[name][i] <= '9') && !(i == 0
                && of_table[name][0] == '+') ==> size == 8388608
            &&& !own.contains_key(name) && !of_table.contains_key(name) ==> size == 8388608
            &&& own.contains_key(name) && text::unsigned_value(own[name], u64::MAX as nat) == Some(
                n,
            ) ==> size == n
            &&& !own.contains_key(name) && of_table.contains_key(name) && text::unsigned_value(
                of_table[name],
                u64::MAX as nat,
            ) == Some(n) ==> size == n
        }),
{
    let name = "commit.manifest.target-size-bytes"@;
    value_laws::law_names_and_defaults();
    value_laws::law_written_numbers_are_read_back(n, u64::MAX as nat);
    if own.contains_key(name) {
        let t = own[name];
        if t.len() == 0 || (0 <= i < t.len() && !('0' <= t[i] <= '9') && !(i == 0 && t[0] == '+')) {
            value_laws::law_only_digits_make_a_number(t, u64::MAX as nat, i);
        }
    } else if of_table.contains_key(name) {
        let t = of_table[name];
        if 0 <= i < t.len() && !('0' <= t[i] <= '9') && !(i == 0 && t[0] == '+') {
            value_laws::law_only_digits_make_a_number(t, u64::MAX as nat, i);
        }
    }
}

/// Whether two of the manifests have one path.
pub open spec fn repeats_a_path(manifests: Seq<ManifestFile>) -> bool {
    exists|i: int, j: int|
        0 <= i < j < manifests.len() && (#[trigger] manifests[i]).manifest_path@ == (
        #[trigger] manifests[j]).manifest_path@
}

proof fn lemma_repeats(manifests: Seq<ManifestFile>)
    ensures
        repeats_a_path(manifests) <==> !rewrite_manifests::paths(manifests).no_duplicates(),
{
    let all = rewrite_manifests::paths(manifests);
    if repeats_a_path(manifests) {
        let (i, j) = choose|i: int, j: int|
            0 <= i < j < manifests.len() && (#[trigger] manifests[i]).manifest_path@ == (
            #[trigger] manifests[j]).manifest_path@;
        assert(all[i] == all[j]);
    }
    if !all.no_duplicates() {
        let (i, j) = choose|i: int, j: int|
            0 <= i < all.len() && 0 <= j < all.len() && i != j && all[i] == all[j];
        assert(manifests[i].manifest_path@ == manifests[j].manifest_path@);
    }
}

proof fn lemma_first_finding(findings: Seq<Option<Seq<char>>>, i: int)
    requires
        0 <= i < findings.len(),
        findings[i] is Some,
        forall|j: int| 0 <= j < i ==> (#[trigger] findings[j]) is None,
    ensures
        rewrite_manifests::first_problem(findings) == findings[i],
    decreases findings.len(),
{
    let shorter = findings.drop_last();
    if i < shorter.len() {
        assert forall|j: int| 0 <= j < i implies (#[trigger] shorter[j]) is None by {
            assert(shorter[j] == findings[j]);
        }
        lemma_first_finding(shorter, i);
    } else {
        lemma_no_problem(shorter);
        assert forall|j: int| 0 <= j < shorter.len() implies (#[trigger] shorter[j]) is None by {
            assert(shorter[j] == findings[j]);
        }
    }
}

/// Whether a manifest to remove breaks no rule.
pub open spec fn may_be_removed(current: Seq<ManifestFile>, m: ManifestFile) -> bool {
    exists|i: int|
        {
            &&& 0 <= i < current.len()
            &&& (#[trigger] current[i]).manifest_path@ == m.manifest_path@
            &&& current[i].content == ManifestContentType::Data
            &&& forall|j: int|
                i < j < current.len() ==> (#[trigger] current[j]).manifest_path@
                    != m.manifest_path@
        }
}

proof fn lemma_may_be_removed(current: Seq<ManifestFile>, m: ManifestFile)
    ensures
        may_be_removed(current, m) <==> rewrite_manifests::deletion_problem(current, m) is None,
{
    let path = m.manifest_path@;
    law_manifests_are_found_by_path(current, path);
    if let Some(found) = rewrite_manifests::named(current, path) {
        let i = choose|i: int|
            {
                &&& 0 <= i < current.len()
                &&& #[trigger] current[i] == found
                &&& found.manifest_path@ == path
                &&& forall|j: int|
                    i < j < current.len() ==> (#[trigger] current[j]).manifest_path@ != path
            };
        assert(current[i].manifest_path@ == path);
    }
}

/// The first rule that is broken is the one that is told. No path may be repeated among
/// the manifests to remove, nor among those to add. Then each manifest to remove, in its
/// turn, has to be part of the snapshot and must not list deletes.
pub proof fn law_broken_removals_are_told(
    action: RewriteManifestsAction,
    current: Seq<ManifestFile>,
    partition_spec_ids: Seq<i32>,
    i: int,
)
    ensures
        ({
            let problem = action.problem(current, partition_spec_ids);
            let deleted = action.deleted_manifests@;
            &&& repeats_a_path(deleted) ==> problem == Some(
                "deleted_manifests contains duplicate manifest paths"@,
            )
            &&& !repeats_a_path(deleted) && repeats_a_path(action.added_manifests@) ==> problem
                == Some("added_manifests contains duplicate manifest paths"@)
            &&& !repeats_a_path(deleted) && !repeats_a_path(action.added_manifests@) && 0 <= i
                < deleted.len() && (forall|j: int|
                0 <= j < i ==> may_be_removed(current, #[trigger] deleted[j])) ==> {
                &&& is_path_of_none(current, deleted[i].manifest_path@) ==> problem == Some(
                    "Deleted manifest does not exist in the current snapshot: "@
                        + deleted[i].manifest_path@,
                )
                &&& !is_path_of_none(current, deleted[i].manifest_path@) && !may_be_removed(
                    current,
                    deleted[i],
                ) ==> problem == Some(
                    "Cannot delete a delete-type manifest via rewrite_manifests: "@
                        + deleted[i].manifest_path@,
                )
            }
        }),
{
    let deleted = action.deleted_manifests@;
    lemma_repeats(deleted);
    lemma_repeats(action.added_manifests@);
    let findings = deleted.map_values(
        |m: ManifestFile| rewrite_manifests::deletion_problem(current, m),
    );
    if !repeats_a_path(deleted) && !repeats_a_path(action.added_manifests@) && 0 <= i
        < deleted.len() && (forall|j: int|
        0 <= j < i ==> may_be_removed(current, #[trigger] deleted[j])) {
        assert forall|j: int| 0 <= j < i implies (#[trigger] findings[j]) is None by {
            lemma_may_be_removed(current, deleted[j]);
            assert(may_be_removed(current, deleted[j]));
        }
        lemma_may_be_removed(current, deleted[i]);
        lemma_path_of_none(current, deleted[i].manifest_path@);
        rewrite_manifests::lemma_named(current, deleted[i].manifest_path@);
        if findings[i] is Some {
            lemma_first_finding(findings, i);
        }
    }
}

/// Whether a manifest to add breaks no rule.
pub open spec fn may_be_added(
    current: Seq<ManifestFile>,
    deleted: Seq<ManifestFile>,
    partition_spec_ids: Seq<i32>,
    m: ManifestFile,
) -> bool {
    &&& m.content == ManifestContentType::Data
    &&& partition_spec_ids.contains(m.partition_spec_id)
    &&& is_path_of_none(current, m.manifest_path@) || !is_path_of_none(deleted, m.manifest_path@)
    &&& m.added_files_count == Some(0u32)
    &&& m.deleted_files_count == Some(0u32)
}

/// Each manifest to add, in its turn and after those to remove, has to list data files,
/// to be of a partition spec that the table knows, to be new to the snapshot unless it is
/// removed from it at the same time, and to be known to list no added and no deleted
/// files. The first rule that the first such manifest breaks is the one that is told.
pub proof fn law_broken_additions_are_told(
    action: RewriteManifestsAction,
    current: Seq<ManifestFile>,
    partition_spec_ids: Seq<i32>,
    i: int,
)
    requires
        !repeats_a_path(action.deleted_manifests@),
        !repeats_a_path(action.added_manifests@),
        forall|j: int|
            0 <= j < action.deleted_manifests@.len() ==> may_be_removed(
                current,
                #[trigger] action.deleted_manifests@[j],
            ),
        0 <= i < action.added_manifests@.len(),
        forall|j: int|
            0 <= j < i ==> may_be_added(
                current,
                action.deleted_manifests@,
                partition_spec_ids,
                #[trigger] action.added_manifests@[j],
            ),
    ensures
        ({
            let problem = action.problem(current, partition_spec_ids);
            let m = action.added_manifests@[i];
            let path = m.manifest_path@;
            let lists_data = m.content == ManifestContentType::Data;
            let of_known_spec = partition_spec_ids.contains(m.partition_spec_id);
            let is_new = is_path_of_none(current, path) || !is_path_of_none(
                action.deleted_manifests@,
                path,
            );
            &&& !lists_data ==> problem == Some(
                "Cannot add a delete-type manifest via rewrite_manifests: "@ + path,
            )
            &&& lists_data && !of_known_spec ==> problem == Some(
                "Cannot add manifest with unknown partition spec id "@ + text::signed_decimal(
                    m.partition_spec_id as int,
                ) + (": "@ + path),
            )
            &&& lists_data && of_known_spec && !is_new ==> problem == Some(
                "Cannot add manifest that already exists in the current snapshot: "@ + path,
            )
            &&& lists_data && of_known_spec && is_new && m.added_files_count != Some(0u32)
                ==> problem == Some("Cannot add manifest with added files: "@ + path)
            &&& lists_data && of_known_spec && is_new && m.added_files_count == Some(0u32)
                && m.deleted_files_count != Some(0u32) ==> problem == Some(
                "Cannot add manifest with deleted files: "@ + path,
            )
            &&& may_be_added(current, action.deleted_manifests@, partition_spec_ids, m) && i
                == action.added_manifests@.len() - 1 ==> problem is None
        }),
{
    let deleted = action.deleted_manifests@;
    let added = action.added_manifests@;
    let deletions = deleted.map_values(
        |m: ManifestFile| rewrite_manifests::deletion_problem(current, m),
    );
    let findings = added.map_values(
        |m: ManifestFile| action.addition_problem(current, partition_spec_ids, m),
    );
    lemma_repeats(deleted);
    lemma_repeats(added);
    assert forall|j: int| 0 <= j < deletions.len() implies (#[trigger] deletions[j]) is None by {
        assert(may_be_removed(current, deleted[j]));
        lemma_may_be_removed(current, deleted[j]);
    }
    lemma_no_problem(deletions);
    assert forall|j: int| 0 <= j < i implies (#[trigger] findings[j]) is None by {
        assert(may_be_added(current, deleted, partition_spec_ids, added[j]));
        lemma_path_of_none(current, added[j].manifest_path@);
        lemma_path_of_none(deleted, added[j].manifest_path@);
    }
    lemma_path_of_none(current, added[i].manifest_path@);
    lemma_path_of_none(deleted, added[i].manifest_path@);
    if findings[i] is Some {
        lemma_first_finding(findings, i);
    } else {
        lemma_no_problem(findings);
    }
}

/// Files are counted manifest by manifest, the added and the existing ones, and cannot be
/// counted where one manifest does not know both its counts.
pub proof fn law_files_are_counted_manifest_by_manifest(
    manifests: Seq<ManifestFile>,
    m: ManifestFile,
    others: Seq<ManifestFile>,
)
    ensures
        ({
            let files = rewrite_manifests::active_files(manifests);
            let more = rewrite_manifests::active_files(manifests.push(m));
            &&& rewrite_manifests::active_files(Seq::empty()) == Some(0nat)
            &&& files is None || m.added_files_count is None || m.existing_files_count is None
                ==> more is None
            &&& files is Some && m.added_files_count is Some && m.existing_files_count is Some
                ==> more == Some(
                (files.unwrap() + m.added_files_count.unwrap()
                    + m.existing_files_count.unwrap()) as nat,
            )
            &&& rewrite_manifests::files_in_both(manifests, others)
                == rewrite_manifests::active_files(manifests + others)
        }),
{
    assert(manifests.push(m).drop_last() =~= manifests);
    lemma_files_concat(manifests, others);
}

/// An attempt proposes the caller's commit UUID and snapshot id, else those of an earlier
/// attempt; with the caller's key metadata and branch. It changes nothing in the action
/// but the commit UUID that is kept for later, and that only where none was kept.
pub proof fn law_attempts_propose_what_is_settled(
    action: RewriteManifestsAction,
    after: RewriteManifestsAction,
    proposed: ProposedSnapshot,
)
    requires
        action.begins(after, proposed),
    ensures
        action.commit_uuid is Some ==> proposed.commit_uuid == action.commit_uuid.unwrap(),
        action.commit_uuid is None && action.state.commit_uuid is Some ==> proposed.commit_uuid
            == action.state.commit_uuid.unwrap(),
        action.snapshot_id is Some ==> proposed.snapshot_id == action.snapshot_id,
        action.snapshot_id is None ==> proposed.snapshot_id == action.state.proposed_snapshot_id,
        proposed.key_metadata is Some == action.key_metadata is Some,
        action.key_metadata is Some ==> proposed.key_metadata.unwrap()@
            == action.key_metadata.unwrap()@,
        proposed.target_branch == action.target_branch,
        action.state.commit_uuid is None ==> after.state.commit_uuid == Some(proposed.commit_uuid),
        action.state.commit_uuid is Some ==> after.state.commit_uuid == action.state.commit_uuid,
        after.state.proposed_snapshot_id == action.state.proposed_snapshot_id,
        after.state.rewritten_manifests == action.state.rewritten_manifests,
        after.state.new_manifests == action.state.new_manifests,
        after.state.entry_count == action.state.entry_count,
        has_same_settings(action, after),
{
    assert(manifest::bytes_view(proposed.key_metadata) == manifest::bytes_view(
        action.key_metadata,
    ));
}

/// Whether two actions agree in what was set on them.
pub open spec fn has_same_settings(a: RewriteManifestsAction, b: RewriteManifestsAction) -> bool {
    &&& a.commit_uuid == b.commit_uuid
    &&& a.key_metadata == b.key_metadata
    &&& a.snapshot_properties == b.snapshot_properties
    &&& a.snapshot_id == b.snapshot_id
    &&& a.target_branch == b.target_branch
    &&& a.cluster_by_func == b.cluster_by_func
    &&& a.manifest_predicate == b.manifest_predicate
    &&& a.added_manifests == b.added_manifests
    &&& a.deleted_manifests == b.deleted_manifests
}

/// The id of the proposed snapshot is kept for later attempts where none was kept, and
/// what a pass came to is kept in place of what an earlier one came to. Neither changes
/// anything else.
pub proof fn law_attempts_keep_what_they_settle(
    action: RewriteManifestsAction,
    settled: RewriteManifestsAction,
    snapshot_id: i64,
    remembered: RewriteManifestsAction,
    rewritten: Vec<ManifestFile>,
    new: Vec<ManifestFile>,
    entry_count: usize,
)
    requires
        action.settles(settled, snapshot_id),
        action.remembers(remembered, rewritten, new, entry_count),
    ensures
        settled.state.proposed_snapshot_id == (if action.state.proposed_snapshot_id is Some {
            action.state.proposed_snapshot_id
        } else {
            Some(snapshot_id)
        }),
        settled.state.commit_uuid == action.state.commit_uuid,
        settled.state.rewritten_manifests == action.state.rewritten_manifests,
        settled.state.new_manifests == action.state.new_manifests,
        settled.state.entry_count == action.state.entry_count,
        has_same_settings(action, settled),
        remembered.state.rewritten_manifests == rewritten,
        remembered.state.new_manifests == new,
        remembered.state.entry_count == entry_count,
        remembered.state.commit_uuid == action.state.commit_uuid,
        remembered.state.proposed_snapshot_id == action.state.proposed_snapshot_id,
        has_same_settings(action, remembered),
{
}

/// A clustering pass is needed if and only if the action clusters and either no pass has
/// consumed anything yet, or a manifest that it consumed is not in the current list.
pub proof fn law_clustering_is_needed_where_inputs_are_lost(
    action: RewriteManifestsAction,
    current: Seq<ManifestFile>,
)
    ensures
        action.needs_clustering(current) <==> {
            &&& action.cluster_by_func is Some
            &&& action.state.rewritten_manifests@.len() == 0 || exists|k: int|
                0 <= k < action.state.rewritten_manifests@.len() && is_path_of_none(
                    current,
                    (#[trigger] action.state.rewritten_manifests@[k]).manifest_path@,
                )
        },
{
    let rewritten = action.state.rewritten_manifests@;
    assert forall|k: int| 0 <= k < rewritten.len() implies is_path_of_none(
        current,
        (#[trigger] rewritten[k]).manifest_path@,
    ) == !rewrite_manifests::has_path(current, rewritten[k].manifest_path@) by {
        lemma_path_of_none(current, rewritten[k].manifest_path@);
    }
}

/// The manifests that a pass wrote or consumed and the entries that it routed count only
/// where the action clusters.
pub open spec fn of_clustering(
    action: RewriteManifestsAction,
    manifests: Seq<ManifestFile>,
) -> Seq<ManifestFile> {
    if action.cluster_by_func is Some {
        manifests
    } else {
        Seq::empty()
    }
}

/// How the new snapshot is put together. There is none where nothing was written, added,
/// rewritten or removed. Else it is refused where the files that were written or added
/// are known to differ in number from those that were rewritten or removed. Else it
/// lists the current manifests that were neither removed nor rewritten, in their order,
/// then those that were written, then those that were added.
pub proof fn law_snapshots_are_put_together(
    action: RewriteManifestsAction,
    current: Seq<ManifestFile>,
    result: Result<RewriteOutcome, Error>,
)
    requires
        action.assembles(current, result),
    ensures
        ({
            let written = of_clustering(action, action.state.new_manifests@);
            let rewritten = of_clustering(action, action.state.rewritten_manifests@);
            let added = action.added_manifests@;
            let deleted = action.deleted_manifests@;
            let created = rewrite_manifests::active_files(written + added);
            let replaced = rewrite_manifests::active_files(rewritten + deleted);
            let idle = written.len() == 0 && added.len() == 0 && rewritten.len() == 0
                && deleted.len() == 0;
            let differ = created is Some && replaced is Some && created.unwrap()
                != replaced.unwrap();
            &&& (result matches Ok(RewriteOutcome::Unchanged)) <==> idle
            &&& result is Err <==> !idle && differ
            &&& result matches Err(error) ==> error.kind == ErrorKind::DataInvalid
                && error.message@ == "Rewrite manifests file count mismatch: created "@
                + text::decimal(created.unwrap()) + " files but replaced "@ + text::decimal(
                replaced.unwrap(),
            ) + " files"@
            &&& result matches Ok(RewriteOutcome::Commit(commit)) ==> {
                manifest::manifests_view(commit.operation.result_manifests@)
                    == manifest::manifests_view(
                    current.filter(
                        |m: ManifestFile|
                            is_path_of_none(deleted, m.manifest_path@) && is_path_of_none(
                                rewritten,
                                m.manifest_path@,
                            ),
                    ),
                ) + manifest::manifests_view(written) + manifest::manifests_view(added)
            }
        }),
{
    let written = of_clustering(action, action.state.new_manifests@);
    let rewritten = of_clustering(action, action.state.rewritten_manifests@);
    assert(written =~= action.written());
    assert(rewritten =~= action.rewritten());
    lemma_files_concat(written, action.added_manifests@);
    lemma_files_concat(rewritten, action.deleted_manifests@);
    let stays = |m: ManifestFile|
        is_path_of_none(action.deleted_manifests@, m.manifest_path@) && is_path_of_none(
            rewritten,
            m.manifest_path@,
        );
    let keep = |m: ManifestFile| action.keeps(m);
    assert forall|m: ManifestFile| #[trigger] stays(m) == keep(m) by {
        lemma_path_of_none(action.deleted_manifests@, m.manifest_path@);
        lemma_path_of_none(rewritten, m.manifest_path@);
    }
    assert(stays =~= keep);
}

/// The new snapshot says of itself how many manifests it created, kept and replaced and
/// how many entries were routed, over whatever the caller says; and everything else that
/// the caller says.
pub proof fn law_snapshots_tell_their_counts(
    action: RewriteManifestsAction,
    current: Seq<ManifestFile>,
    commit: RewriteCommit,
    name: Seq<char>,
)
    requires
        action.assembles(current, Ok::<RewriteOutcome, Error>(RewriteOutcome::Commit(commit))),
    ensures
        ({
            let written = of_clustering(action, action.state.new_manifests@);
            let rewritten = of_clustering(action, action.state.rewritten_manifests@);
            let added = action.added_manifests@;
            let deleted = action.deleted_manifests@;
            let kept = commit.operation.result_manifests@.len() - written.len() - added.len();
            let told = commit.snapshot_properties@;
            let own = action.snapshot_properties@;
            &&& kept >= 0
            &&& told.contains_key("manifests-created"@)
            &&& told["manifests-created"@] == text::decimal(written.len() + added.len())
            &&& told.contains_key("manifests-kept"@)
            &&& told["manifests-kept"@] == text::decimal(kept as nat)
            &&& told.contains_key("manifests-replaced"@)
            &&& told["manifests-replaced"@] == text::decimal(rewritten.len() + deleted.len())
            &&& told.contains_key("entries-processed"@)
            &&& action.cluster_by_func is Some ==> told["entries-processed"@] == text::decimal(
                action.state.entry_count as nat,
            )
            &&& action.cluster_by_func is None ==> told["entries-processed"@] == text::decimal(0)
            &&& name != "manifests-created"@ && name != "manifests-kept"@ && name
                != "manifests-replaced"@ && name != "entries-processed"@ ==> {
                &&& told.contains_key(name) == own.contains_key(name)
                &&& own.contains_key(name) ==> told[name] == own[name]
            }
        }),
{
    let kept = action.kept(current);
    let result = commit.operation.result_manifests@;
    value_laws::law_names_and_defaults();
    law_counts_take_precedence(action, kept.len(), name);
    assert(of_clustering(action, action.state.new_manifests@) =~= action.written());
    assert(of_clustering(action, action.state.rewritten_manifests@) =~= action.rewritten());
    assert(manifest::manifests_view(result).len() == result.len());
    assert(manifest::manifests_view(kept).len() == kept.len());
    assert(manifest::manifests_view(action.written()).len() == action.written().len());
    assert(manifest::manifests_view(action.added_manifests@).len()
        == action.added_manifests@.len());
}

/// A manifest without a claim on row ids is as it was in everything else.
pub proof fn law_only_row_ids_are_dropped(m: ManifestFileView)
    ensures
        rewrite_manifests::without_row_ids(m).first_row_id is None,
        rewrite_manifests::without_row_ids(m) == (ManifestFileView { first_row_id: None, ..m }),
{
}

/// A new action has nothing set and nothing kept.
pub proof fn law_new_actions_have_nothing_set(action: RewriteManifestsAction)
    requires
        action.is_default(),
    ensures
        action.commit_uuid is None,
        action.key_metadata is None,
        action.snapshot_properties@.dom() == Set::<Seq<char>>::empty(),
        action.snapshot_id is None,
        action.target_branch is None,
        action.cluster_by_func is None,
        action.manifest_predicate is None,
        action.added_manifests@.len() == 0,
        action.deleted_manifests@.len() == 0,
        action.state.rewritten_manifests@.len() == 0,
        action.state.new_manifests@.len() == 0,
        action.state.entry_count == 0,
        action.state.commit_uuid is None,
        action.state.proposed_snapshot_id is None,
{
    assert(action.snapshot_properties@.dom() =~= Set::<Seq<char>>::empty());
}

proof fn lemma_flatten_permuted(a: Seq<Seq<ManifestEntry>>, b: Seq<Seq<ManifestEntry>>)
    requires
        a.to_multiset() == b.to_multiset(),
    ensures
        a.flatten().to_multiset() == b.flatten().to_multiset(),
    decreases a.len(),
{
    broadcast use vstd::seq_lib::group_to_multiset_ensures;

    assert(a.to_multiset().len() == a.len() && b.to_multiset().len() == b.len());
    if a.len() == 0 {
        assert(a =~= b);
    } else {
        let n = a.len() - 1;
        let x = a[n];
        assert(a.contains(x));
        assert(a.to_multiset().contains(x));
        assert(b.contains(x));
        let j = choose|j: int| 0 <= j < b.len() && b[j] == x;
        lemma_flatten_permuted(a.remove(n), b.remove(j));
        lemma_flatten_without(a, n);
        lemma_flatten_without(b, j);
    }
}

proof fn lemma_flatten_without(a: Seq<Seq<ManifestEntry>>, j: int)
    requires
        0 <= j < a.len(),
    ensures
        a.flatten().to_multiset() == a.remove(j).flatten().to_multiset().add(a[j].to_multiset()),
{
    let front = a.take(j);
    let back = a.skip(j + 1);
    assert(a =~= front + seq![a[j]] + back);
    assert(a.remove(j) =~= front + back);
    clustering::lemma_flatten_concat(front + seq![a[j]], back);
    clustering::lemma_flatten_concat(front, seq![a[j]]);
    clustering::lemma_flatten_concat(front, back);
    assert(seq![a[j]].flatten() =~= a[j]) by {
        seq![a[j]].lemma_flatten_and_flatten_alt_are_equivalent();
        assert(seq![a[j]].drop_last() =~= Seq::<Seq<ManifestEntry>>::empty());
        reveal_with_fuel(Seq::flatten_alt, 2);
    }
    let x = front.flatten();
    let y = a[j];
    let z = back.flatten();
    vstd::seq_lib::lemma_multiset_commutative(x + y, z);
    vstd::seq_lib::lemma_multiset_commutative(x, y);
    vstd::seq_lib::lemma_multiset_commutative(x, z);
    assert(a.flatten().to_multiset() =~= a.remove(j).flatten().to_multiset().add(y.to_multiset()));
}

proof fn lemma_listed_is_flat(
    contents: spec_fn(Seq<char>) -> Seq<ManifestEntry>,
    manifests: Seq<ManifestFile>,
)
    ensures
        listed_in(contents, manifests) == manifests.map_values(
            |m: ManifestFile| contents(m.manifest_path@),
        ).flatten(),
    decreases manifests.len(),
{
    let load = |m: ManifestFile| contents(m.manifest_path@);
    let all = manifests.map_values(load);
    if manifests.len() == 0 {
        assert(all =~= Seq::<Seq<ManifestEntry>>::empty());
        assert(all.flatten() =~= Seq::<ManifestEntry>::empty());
    } else {
        let shorter = manifests.drop_last();
        lemma_listed_is_flat(contents, shorter);
        assert(all.drop_last() =~= shorter.map_values(load));
        all.lemma_flatten_and_flatten_alt_are_equivalent();
        all.drop_last().lemma_flatten_and_flatten_alt_are_equivalent();
        assert(all.last() == contents(manifests.last().manifest_path@));
    }
}

/// No live file is lost by a rewrite, from the manifests of the table to those of the
/// commit. Where the rewritten manifests are loaded, in any order, and for each the
/// calls are made until nothing is sealed, and what the pass seals and ends with is
/// stored, the live entries of the new snapshot, with those of the manifests that the
/// caller removes, are those of the current snapshot, with those of the manifests that
/// the caller adds.
pub proof fn law_no_live_file_is_lost_by_a_rewrite<S, E>(
    action: RewriteManifestsAction,
    current: Seq<ManifestFile>,
    commit: RewriteCommit,
    contents: spec_fn(Seq<char>) -> Seq<ManifestEntry>,
    cluster_func: &ClusterByFunc,
    measure: S,
    states: Seq<ClusteringPassView>,
    runs: Seq<Seq<Routing<E>>>,
    loaded: Seq<Seq<ManifestEntry>>,
    rest: Seq<ClusterWriter>,
) where S: Fn(&ManifestWriter) -> Result<u64, E>
    requires
        rewrite_manifests::paths(current).no_duplicates(),
        inputs_remain(action, current),
        action.cluster_by_func is Some,
        loaded.to_multiset() == action.state.rewritten_manifests@.map_values(
            |m: ManifestFile| contents(m.manifest_path@),
        ).to_multiset(),
        clustering::is_pass(cluster_func, measure, states, runs.flatten()),
        clustering::are_runs_over(runs, loaded),
        clustering::ends_with(states.last(), rest),
        are_stored(
            contents,
            action.state.new_manifests@,
            clustering::manifests_of(runs.flatten(), rest),
        ),
        action.assembles(current, Ok::<RewriteOutcome, Error>(RewriteOutcome::Commit(commit))),
    ensures
        live_in(contents, commit.operation.result_manifests@).add(
            live_in(contents, removed_of(action, current)),
        ) == live_in(contents, current).add(live_in(contents, action.added_manifests@)),
{
    let routings = runs.flatten();
    clustering::law_passes_consume_all_loaded_manifests(
        cluster_func,
        measure,
        states,
        runs,
        loaded,
    );
    lemma_listed_is_flat(contents, action.rewritten());
    lemma_flatten_permuted(
        loaded,
        action.rewritten().map_values(|m: ManifestFile| contents(m.manifest_path@)),
    );
    law_commit_preserves_live_entries(
        action,
        current,
        commit,
        contents,
        cluster_func,
        measure,
        states,
        routings,
        rest,
    );
}

/// The live entries of a list are counted manifest by manifest and entry by entry: an
/// entry counts, as existing, unless it is marked as deleted.
pub proof fn law_live_entries_are_counted_one_by_one(
    contents: spec_fn(Seq<char>) -> Seq<ManifestEntry>,
    manifests: Seq<ManifestFile>,
    m: ManifestFile,
    entry: ManifestEntry,
)
    ensures
        live_in(contents, Seq::empty()) == Multiset::<ManifestEntry>::empty(),
        contents(m.manifest_path@) == seq![entry] && entry.status != ManifestStatus::Deleted
            ==> live_in(contents, manifests.push(m)) == live_in(contents, manifests).insert(
            ManifestEntry { status: ManifestStatus::Existing, ..entry },
        ),
        contents(m.manifest_path@) == seq![entry] && entry.status == ManifestStatus::Deleted
            ==> live_in(contents, manifests.push(m)) == live_in(contents, manifests),
{
    broadcast use vstd::seq_lib::group_to_multiset_ensures;

    lemma_live_in_none(contents);
    assert(manifests.push(m).drop_last() =~= manifests);
    let before = listed_in(contents, manifests);
    if contents(m.manifest_path@) == seq![entry] {
        assert(before + seq![entry] =~= before.push(entry));
        clustering::law_entries_are_live_unless_deleted(before, entry, 0);
        let live = clustering::live(before);
        if entry.status != ManifestStatus::Deleted {
            assert(clustering::carried(live.push(entry)) =~= clustering::carried(live).push(
                entry.carried(),
            ));
        }
        assert(live_in(contents, manifests.push(m)) =~= clustering::carried(
            clustering::live(before.push(entry)),
        ).to_multiset());
    }
}

proof fn lemma_files_are_bounded(manifests: Seq<ManifestFile>)
    ensures
        rewrite_manifests::active_files(manifests) matches Some(n) ==> n <= manifests.len() * (2
            * u32::MAX),
    decreases manifests.len(),
{
    if manifests.len() > 0 {
        lemma_files_are_bounded(manifests.drop_last());
        let n = manifests.len() as int;
        assert((n - 1) * (2 * u32::MAX) + 2 * u32::MAX == n * (2 * u32::MAX)) by (nonlinear_arith);
    } else {
        assert(0 * (2 * u32::MAX) == 0);
    }
}

/// The files of every list of up to a billion manifests can be counted.
pub proof fn law_long_lists_are_countable(a: Seq<ManifestFile>, b: Seq<ManifestFile>)
    requires
        a.len() <= 1000000000,
        b.len() <= 1000000000,
    ensures
        rewrite_manifests::countable(a),
        rewrite_manifests::countable_together(a, b),
{
    assert forall|s: Seq<ManifestFile>| s.len() <= 1000000000 implies (
    #[trigger] rewrite_manifests::active_files(s) matches Some(n) ==> n <= u64::MAX / 2) by {
        lemma_files_are_bounded(s);
        let n = s.len() as int;
        assert(n * (2 * u32::MAX) <= 1000000000 * (2 * u32::MAX)) by (nonlinear_arith)
            requires
                n <= 1000000000,
        ;
    }
}

/// So can those of every action that neither removes nor adds, and has neither consumed
/// nor written, more manifests than that.
pub proof fn law_ordinary_actions_are_countable(action: RewriteManifestsAction)
    requires
        action.state.new_manifests@.len() <= 1000000000,
        action.state.rewritten_manifests@.len() <= 1000000000,
        action.added_manifests@.len() <= 1000000000,
        action.deleted_manifests@.len() <= 1000000000,
    ensures
        action.countable(),
{
    law_long_lists_are_countable(action.written(), action.added_manifests@);
    law_long_lists_are_countable(action.rewritten(), action.deleted_manifests@);
}

/// Without a predicate there is none to apply.
pub proof fn law_no_predicate_always_applies(
    action: RewriteManifestsAction,
    current: Seq<ManifestFile>,
)
    requires
        action.manifest_predicate is None || forall|m: &ManifestFile| #[trigger]
            action.manifest_predicate.unwrap().accepts(m),
    ensures
        action.predicate_applies(current),
{
}

} // verus!
