//! What restores do to a workspace: the laws that tie manifests, plans and
//! files together.

use vstd::prelude::*;

use crate::apply::{
    a_temporary_file_is_another_file, after_create, after_dir, after_discard, after_load,
    after_mode, after_remove, after_rename, awaited, every_item_has_its_turn, fresh_run, item_path,
    items, played, tallied, tmp_text, CreateOutcome, Fate, OperationView, RunView, StageView,
};
use crate::blob::{addressed, kept, stored, RemoveOutcome};
use crate::checkpoint::{
    all_seen, captured, captures_keep_blobs, elapsed, read_entry, reusable, seen, trustworthy,
    what_is_written_since_is_read_again, with_mode, Found, Sighting,
};
use crate::digest::content_hash;
use crate::integrity::captures_keep_blobs_addressed;
use crate::manifest::{covers, manifest_id, EntryView, ManifestView, Moment, Stat};
use crate::controller::{image_mode, images_taken, PreImage, SessionView};
use crate::refs::{log_of, record_text};
use crate::restore::{empty_plan, planned, to_delete, to_write, write_of, PlanView, WriteView};
use crate::rules::{any_ignore, IgnoreRules};
use crate::scope::content_if;
use crate::store::{
    attach_base, attached, checkpointed, latest_is_missing, latest_of, progress, safety_turn,
    with_pre_edit, StoreView,
};
use crate::text::{lex_lt, sorted, sorted_lists, sorted_of_nothing};

verus! {

/// A regular file.
pub struct FileState {
    pub content: Seq<u8>,
    pub mode: u32,
}

/// The manifest tells the truth about the files: what it records as found is
/// there, with the content of its blob and with its mode, and what it records
/// as absent is not there.
pub open spec fn tells(
    m: ManifestView,
    blobs: Map<Seq<char>, Seq<u8>>,
    files: Map<Seq<char>, FileState>,
) -> bool {
    &&& forall|p: Seq<char>| #[trigger]
        m.entries.contains_key(p) ==> files.contains_key(p) && files[p].mode == m.entries[p].mode
            && blobs.contains_key(m.entries[p].hash) && files[p].content
            == blobs[m.entries[p].hash]
    &&& forall|p: Seq<char>| #[trigger] m.absent.contains(p) ==> !files.contains_key(p)
}

/// What a write leaves at its path.
pub open spec fn outcome_of(w: WriteView, blobs: Map<Seq<char>, Seq<u8>>) -> FileState {
    FileState { content: blobs[w.hash], mode: w.mode }
}

/// The files once the items of a plan have met these fates, one after another.
pub open spec fn carried_out(
    files: Map<Seq<char>, FileState>,
    plan: PlanView,
    blobs: Map<Seq<char>, Seq<u8>>,
    fates: Seq<Fate>,
) -> Map<Seq<char>, FileState>
    decreases fates.len(),
{
    if fates.len() == 0 {
        files
    } else {
        let before = carried_out(files, plan, blobs, fates.drop_last());
        let at = fates.len() - 1;
        match fates.last() {
            Fate::Failed(_) => before,
            _ => if at < plan.writes.len() {
                before.insert(plan.writes[at].path, outcome_of(plan.writes[at], blobs))
            } else {
                before.remove(plan.deletes[at - plan.writes.len()])
            },
        }
    }
}

/// No item failed.
pub open spec fn all_went_well(plan: PlanView, fates: Seq<Fate>) -> bool {
    &&& fates.len() == items(plan)
    &&& forall|i: int| 0 <= i < fates.len() ==> !(#[trigger] fates[i] is Failed)
}

/// Some item of the plan is about `p`.
pub open spec fn touches(plan: PlanView, p: Seq<char>) -> bool {
    exists|i: int| 0 <= i < items(plan) && #[trigger] item_path(plan, i) == p
}

/// What a plan has no item for is as it was, whatever became of the items.
pub proof fn the_rest_is_untouched(
    files: Map<Seq<char>, FileState>,
    plan: PlanView,
    blobs: Map<Seq<char>, Seq<u8>>,
    fates: Seq<Fate>,
    p: Seq<char>,
)
    requires
        fates.len() <= items(plan),
        !touches(plan, p),
    ensures
        carried_out(files, plan, blobs, fates).contains_key(p) == files.contains_key(p),
        files.contains_key(p) ==> carried_out(files, plan, blobs, fates)[p] == files[p],
    decreases fates.len(),
{
    if fates.len() > 0 {
        the_rest_is_untouched(files, plan, blobs, fates.drop_last(), p);
        assert(item_path(plan, fates.len() - 1) != p);
    }
}

/// No two items of the plan are about one path.
pub open spec fn apart(plan: PlanView) -> bool {
    forall|i: int, j: int|
        0 <= i < j < items(plan) ==> #[trigger] item_path(plan, i) != #[trigger] item_path(plan, j)
}

/// An item that did not fail has its path as the plan says, whatever became of
/// the other items.
pub proof fn an_item_leaves_its_mark(
    files: Map<Seq<char>, FileState>,
    plan: PlanView,
    blobs: Map<Seq<char>, Seq<u8>>,
    fates: Seq<Fate>,
    i: int,
)
    requires
        apart(plan),
        fates.len() <= items(plan),
        0 <= i < fates.len(),
    ensures
        ({
            let after = carried_out(files, plan, blobs, fates);
            let p = item_path(plan, i);
            if fates[i] is Failed {
                &&& after.contains_key(p) == files.contains_key(p)
                &&& files.contains_key(p) ==> after[p] == files[p]
            } else if i < plan.writes.len() {
                after.contains_key(p) && after[p] == outcome_of(plan.writes[i], blobs)
            } else {
                !after.contains_key(p)
            }
        }),
    decreases fates.len(),
{
    let front = fates.drop_last();
    let p = item_path(plan, i);
    let last = fates.len() - 1;
    if i < last {
        an_item_leaves_its_mark(files, plan, blobs, front, i);
        assert(item_path(plan, i) != item_path(plan, last));
    } else {
        before_its_turn(files, plan, blobs, front, i);
    }
}

/// An item's path is as it was until the item has its turn.
proof fn before_its_turn(
    files: Map<Seq<char>, FileState>,
    plan: PlanView,
    blobs: Map<Seq<char>, Seq<u8>>,
    fates: Seq<Fate>,
    i: int,
)
    requires
        apart(plan),
        fates.len() <= i < items(plan),
    ensures
        ({
            let after = carried_out(files, plan, blobs, fates);
            let p = item_path(plan, i);
            &&& after.contains_key(p) == files.contains_key(p)
            &&& files.contains_key(p) ==> after[p] == files[p]
        }),
    decreases fates.len(),
{
    if fates.len() > 0 {
        before_its_turn(files, plan, blobs, fates.drop_last(), i);
        assert(item_path(plan, fates.len() - 1) != item_path(plan, i));
    }
}

/// The items of a plan are the paths to write and the paths to delete, each
/// once.
pub proof fn a_plan_has_its_items(
    target: ManifestView,
    current: ManifestView,
    guarded: Set<Seq<char>>,
)
    requires
        target.entries.dom().finite(),
        current.entries.dom().finite(),
    ensures
        apart(planned(target, current, guarded)),
        forall|p: Seq<char>| #[trigger]
            touches(planned(target, current, guarded), p) <==> to_write(
                target,
                current,
                guarded,
                p,
            ) || to_delete(target, current, guarded, p),
        forall|i: int|
            0 <= i < planned(target, current, guarded).writes.len() ==> {
                let w = #[trigger] planned(target, current, guarded).writes[i];
                w == write_of(target, w.path) && to_write(target, current, guarded, w.path)
            },
        forall|i: int|
            0 <= i < planned(target, current, guarded).deletes.len() ==> to_delete(
                target,
                current,
                guarded,
                #[trigger] planned(target, current, guarded).deletes[i],
            ),
{
    let plan = planned(target, current, guarded);
    let w = Set::new(|p: Seq<char>| to_write(target, current, guarded, p));
    let d = Set::new(|p: Seq<char>| to_delete(target, current, guarded, p));
    assert(w.subset_of(target.entries.dom()));
    assert(d.subset_of(current.entries.dom()));
    vstd::set_lib::lemma_set_subset_finite(target.entries.dom(), w);
    vstd::set_lib::lemma_set_subset_finite(current.entries.dom(), d);
    sorted_lists(w);
    sorted_lists(d);
    crate::text::lists_len(sorted(w), w);
    crate::text::lists_len(sorted(d), d);
    let n = plan.writes.len();
    assert forall|i: int| 0 <= i < n implies {
        let a = #[trigger] plan.writes[i];
        a == write_of(target, a.path) && to_write(target, current, guarded, a.path)
    } by {
        assert(sorted(w).contains(sorted(w)[i]));
        assert(w.contains(sorted(w)[i]));
    }
    assert forall|i: int| 0 <= i < plan.deletes.len() implies to_delete(
        target,
        current,
        guarded,
        #[trigger] plan.deletes[i],
    ) by {
        assert(sorted(d).contains(sorted(d)[i]));
        assert(d.contains(sorted(d)[i]));
    }
    assert forall|i: int, j: int| 0 <= i < j < items(plan) implies #[trigger] item_path(plan, i)
        != #[trigger] item_path(plan, j) by {
        if j < n {
            assert(sorted(w)[i] != sorted(w)[j]);
        } else if i >= n {
            assert(sorted(d)[i - n] != sorted(d)[j - n]);
        } else {
            assert(to_write(target, current, guarded, plan.writes[i].path));
            assert(to_delete(target, current, guarded, plan.deletes[j - n]));
        }
    }
    assert forall|p: Seq<char>| #[trigger] touches(plan, p) <==> to_write(
        target,
        current,
        guarded,
        p,
    ) || to_delete(target, current, guarded, p) by {
        if to_write(target, current, guarded, p) {
            assert(w.contains(p));
            let i = sorted(w).index_of(p);
            assert(sorted(w)[i] == p);
            assert(item_path(plan, i) == p);
        } else if to_delete(target, current, guarded, p) {
            assert(d.contains(p));
            let i = sorted(d).index_of(p);
            assert(sorted(d)[i] == p);
            assert(item_path(plan, n + i) == p);
        }
        if touches(plan, p) {
            let i = choose|i: int| 0 <= i < items(plan) && #[trigger] item_path(plan, i) == p;
            if i < n {
                assert(plan.writes[i].path == p);
            } else {
                assert(plan.deletes[i - n] == p);
            }
        }
    }
}

/// What a restore leaves at each path: the target's file where it writes,
/// nothing where it deletes, and what was there everywhere else.
pub proof fn a_restore_does_what_it_planned(
    target: ManifestView,
    current: ManifestView,
    guarded: Set<Seq<char>>,
    blobs: Map<Seq<char>, Seq<u8>>,
    files: Map<Seq<char>, FileState>,
    fates: Seq<Fate>,
    p: Seq<char>,
)
    requires
        target.entries.dom().finite(),
        current.entries.dom().finite(),
        all_went_well(planned(target, current, guarded), fates),
    ensures
        ({
            let after = carried_out(files, planned(target, current, guarded), blobs, fates);
            if to_write(target, current, guarded, p) {
                after.contains_key(p) && after[p] == outcome_of(write_of(target, p), blobs)
            } else if to_delete(target, current, guarded, p) {
                !after.contains_key(p)
            } else {
                &&& after.contains_key(p) == files.contains_key(p)
                &&& files.contains_key(p) ==> after[p] == files[p]
            }
        }),
{
    let plan = planned(target, current, guarded);
    a_plan_has_its_items(target, current, guarded);
    if touches(plan, p) {
        let i = choose|i: int| 0 <= i < items(plan) && #[trigger] item_path(plan, i) == p;
        an_item_leaves_its_mark(files, plan, blobs, fates, i);
        if i < plan.writes.len() {
            assert(plan.writes[i].path == p);
        } else {
            assert(plan.deletes[i - plan.writes.len()] == p);
        }
    } else {
        the_rest_is_untouched(files, plan, blobs, fates, p);
    }
}

/// A protected path is neither written nor removed, whatever becomes of the
/// restore.
pub proof fn protected_paths_are_untouched(
    target: ManifestView,
    current: ManifestView,
    guarded: Set<Seq<char>>,
    blobs: Map<Seq<char>, Seq<u8>>,
    files: Map<Seq<char>, FileState>,
    fates: Seq<Fate>,
    p: Seq<char>,
)
    requires
        target.entries.dom().finite(),
        current.entries.dom().finite(),
        fates.len() <= items(planned(target, current, guarded)),
        guarded.contains(p),
    ensures
        ({
            let after = carried_out(files, planned(target, current, guarded), blobs, fates);
            &&& after.contains_key(p) == files.contains_key(p)
            &&& files.contains_key(p) ==> after[p] == files[p]
        }),
{
    a_plan_has_its_items(target, current, guarded);
    the_rest_is_untouched(files, planned(target, current, guarded), blobs, fates, p);
}

/// A restore deletes only what the target looked for and did not find: a file
/// that the target says nothing of stays, whatever becomes of the restore.
pub proof fn deletion_needs_the_target_to_have_looked(
    target: ManifestView,
    current: ManifestView,
    guarded: Set<Seq<char>>,
    blobs: Map<Seq<char>, Seq<u8>>,
    files: Map<Seq<char>, FileState>,
    fates: Seq<Fate>,
    p: Seq<char>,
)
    requires
        target.entries.dom().finite(),
        current.entries.dom().finite(),
        fates.len() <= items(planned(target, current, guarded)),
        files.contains_key(p),
        !target.absent.contains(p) || target.entries.contains_key(p),
    ensures
        carried_out(files, planned(target, current, guarded), blobs, fates).contains_key(p),
    decreases fates.len(),
{
    let plan = planned(target, current, guarded);
    a_plan_has_its_items(target, current, guarded);
    if fates.len() > 0 {
        deletion_needs_the_target_to_have_looked(
            target,
            current,
            guarded,
            blobs,
            files,
            fates.drop_last(),
            p,
        );
        let at = fates.len() - 1;
        if at >= plan.writes.len() {
            assert(to_delete(target, current, guarded, plan.deletes[at - plan.writes.len()]));
        }
    }
}

/// A rewind brings the target back. Where the present state was captured
/// truly, every unprotected file of the target has its content and its mode
/// again, and every unprotected path that the target recorded as absent, and
/// that the capture looked at, is gone.
pub proof fn a_rewind_brings_the_target_back(
    target: ManifestView,
    current: ManifestView,
    guarded: Set<Seq<char>>,
    blobs: Map<Seq<char>, Seq<u8>>,
    files: Map<Seq<char>, FileState>,
    fates: Seq<Fate>,
    p: Seq<char>,
)
    requires
        target.entries.dom().finite(),
        current.entries.dom().finite(),
        tells(current, blobs, files),
        all_went_well(planned(target, current, guarded), fates),
        !guarded.contains(p),
    ensures
        ({
            let after = carried_out(files, planned(target, current, guarded), blobs, fates);
            &&& target.entries.contains_key(p) ==> after.contains_key(p) && after[p] == outcome_of(
                write_of(target, p),
                blobs,
            )
            &&& target.absent.contains(p) && !target.entries.contains_key(p) && covers(current, p)
                ==> !after.contains_key(p)
        }),
{
    a_restore_does_what_it_planned(target, current, guarded, blobs, files, fates, p);
}

/// A capture and the files it was taken from need no work: the plan from a
/// state to itself is empty.
pub proof fn identical_states_need_no_work(m: ManifestView, guarded: Set<Seq<char>>)
    ensures
        planned(m, m, guarded) == empty_plan(),
{
    sorted_of_nothing(Set::new(|p: Seq<char>| to_write(m, m, guarded, p)));
    sorted_of_nothing(Set::new(|p: Seq<char>| to_delete(m, m, guarded, p)));
    assert(planned(m, m, guarded).writes =~= empty_plan().writes);
}

/// Restoring to a point is idempotent. Once a restore to `target` has gone
/// well, the plan from what is there now to `target` is empty and a run of it
/// is finished at once, for any true capture that looks at the unprotected
/// files of the target. Where it found an unprotected file that the target
/// knows to be absent, the capture before must have looked there too.
pub proof fn a_second_restore_has_nothing_to_do(
    target: ManifestView,
    current: ManifestView,
    again: ManifestView,
    guarded: Set<Seq<char>>,
    blobs: Map<Seq<char>, Seq<u8>>,
    files: Map<Seq<char>, FileState>,
    fates: Seq<Fate>,
)
    requires
        target.entries.dom().finite(),
        current.entries.dom().finite(),
        addressed(blobs),
        forall|p: Seq<char>| #[trigger]
            target.entries.contains_key(p) && !guarded.contains(p) ==> blobs.contains_key(
                target.entries[p].hash,
            ),
        tells(current, blobs, files),
        all_went_well(planned(target, current, guarded), fates),
        tells(again, blobs, carried_out(files, planned(target, current, guarded), blobs, fates)),
        forall|p: Seq<char>| #[trigger]
            target.entries.contains_key(p) && !guarded.contains(p) ==> covers(again, p),
        forall|p: Seq<char>| #[trigger]
            again.entries.contains_key(p) && target.absent.contains(p) && !guarded.contains(p)
                ==> covers(current, p),
    ensures
        planned(target, again, guarded) == empty_plan(),
        fresh_run(planned(target, again, guarded)).stage is Finished,
{
    let after = carried_out(files, planned(target, current, guarded), blobs, fates);
    let w = Set::new(|p: Seq<char>| to_write(target, again, guarded, p));
    let d = Set::new(|p: Seq<char>| to_delete(target, again, guarded, p));
    assert forall|p: Seq<char>| !w.contains(p) && !d.contains(p) by {
        a_restore_does_what_it_planned(target, current, guarded, blobs, files, fates, p);
        if w.contains(p) {
            assert(content_hash(blobs[target.entries[p].hash]) == target.entries[p].hash);
            assert(again.entries.contains_key(p));
            assert(content_hash(blobs[again.entries[p].hash]) == again.entries[p].hash);
        }
    }
    sorted_of_nothing(w);
    sorted_of_nothing(d);
    assert(planned(target, again, guarded).writes =~= empty_plan().writes);
}

/// Every restore can be undone. Where the safety checkpoint told the truth and
/// looked at every unprotected file of the target, and the capture before the undo looked
/// at what the restore changed, restoring the safety checkpoint brings back
/// every file exactly as it was.
pub proof fn an_undo_brings_everything_back(
    target: ManifestView,
    safety: ManifestView,
    second: ManifestView,
    guarded: Set<Seq<char>>,
    blobs: Map<Seq<char>, Seq<u8>>,
    files: Map<Seq<char>, FileState>,
    fates: Seq<Fate>,
    undo_fates: Seq<Fate>,
)
    requires
        target.entries.dom().finite(),
        safety.entries.dom().finite(),
        second.entries.dom().finite(),
        addressed(blobs),
        tells(safety, blobs, files),
        all_went_well(planned(target, safety, guarded), fates),
        tells(second, blobs, carried_out(files, planned(target, safety, guarded), blobs, fates)),
        all_went_well(planned(safety, second, guarded), undo_fates),
        forall|p: Seq<char>| #[trigger]
            target.entries.contains_key(p) && !guarded.contains(p) ==> covers(safety, p),
        forall|p: Seq<char>| #[trigger]
            touches(planned(target, safety, guarded), p) ==> covers(second, p),
    ensures
        carried_out(
            carried_out(files, planned(target, safety, guarded), blobs, fates),
            planned(safety, second, guarded),
            blobs,
            undo_fates,
        ) == files,
{
    let mid = carried_out(files, planned(target, safety, guarded), blobs, fates);
    let end = carried_out(mid, planned(safety, second, guarded), blobs, undo_fates);
    assert forall|p: Seq<char>|
        #![trigger end.contains_key(p)]
        #![trigger files.contains_key(p)]
        end.contains_key(p) == files.contains_key(p) && (files.contains_key(p) ==> end[p]
            == files[p]) by {
        a_restore_does_what_it_planned(target, safety, guarded, blobs, files, fates, p);
        a_restore_does_what_it_planned(safety, second, guarded, blobs, mid, undo_fates, p);
        a_plan_has_its_items(target, safety, guarded);
        assert(touches(planned(target, safety, guarded), p) <==> to_write(
            target,
            safety,
            guarded,
            p,
        ) || to_delete(target, safety, guarded, p));
        if !guarded.contains(p) && safety.entries.contains_key(p) {
            assert(files[p] == outcome_of(write_of(safety, p), blobs));
        }
    }
    assert(end =~= files);
}

/// A sighting tells the truth about the files: what it says is there is there,
/// with what it held, and what it says is missing is not there. Where the
/// previous manifest answers for a file, its blob holds what the file holds.
pub open spec fn truthful(
    s: Sighting,
    prev: Option<ManifestView>,
    now: Moment,
    blobs: Map<Seq<char>, Seq<u8>>,
    files: Map<Seq<char>, FileState>,
) -> bool {
    match s.found {
        Found::Missing => !files.contains_key(s.path@),
        Found::Regular { stat, content } => {
            &&& files.contains_key(s.path@)
            &&& files[s.path@].mode == stat.mode
            &&& reusable(prev, s.path@, stat, now) ==> {
                let hash = prev->0.entries[s.path@].hash;
                blobs.contains_key(hash) && blobs[hash] == files[s.path@].content
            }
            &&& content matches Some(bytes) ==> bytes@ == files[s.path@].content
        },
        _ => true,
    }
}

/// Where a stored blob shares a hash with a file, it holds what the file
/// holds.
pub open spec fn no_collision(
    blobs: Map<Seq<char>, Seq<u8>>,
    files: Map<Seq<char>, FileState>,
) -> bool {
    &&& forall|p: Seq<char>|
        files.contains_key(p) && blobs.contains_key(content_hash((#[trigger] files[p]).content))
            ==> blobs[content_hash(files[p].content)] == files[p].content
    &&& forall|p: Seq<char>, q: Seq<char>|
        files.contains_key(p) && files.contains_key(q) && content_hash(
            (#[trigger] files[p]).content,
        ) == content_hash((#[trigger] files[q]).content) ==> files[p].content == files[q].content
}

/// A capture tells the truth. Where every sighting does, the manifest records
/// the files as they are, for as long as no two contents share a hash.
pub proof fn a_capture_tells_the_truth(
    sightings: Seq<Sighting>,
    prev: Option<ManifestView>,
    now: Moment,
    blobs: Map<Seq<char>, Seq<u8>>,
    files: Map<Seq<char>, FileState>,
    complete: bool,
)
    requires
        no_collision(blobs, files),
        forall|i: int|
            0 <= i < sightings.len() ==> truthful(
                #[trigger] sightings[i],
                prev,
                now,
                blobs,
                files,
            ),
    ensures
        ({
            let p = all_seen(sightings, prev, now, blobs);
            &&& tells(captured(p, complete), p.blobs, files)
            &&& kept(blobs, p.blobs)
            &&& no_collision(p.blobs, files)
        }),
    decreases sightings.len(),
{
    if sightings.len() > 0 {
        let front = sightings.drop_last();
        assert forall|i: int| 0 <= i < front.len() implies truthful(
            #[trigger] front[i],
            prev,
            now,
            blobs,
            files,
        ) by {
            assert(front[i] == sightings[i]);
        }
        a_capture_tells_the_truth(front, prev, now, blobs, files, complete);
        let s = sightings.last();
        assert(sightings[sightings.len() - 1] == s);
        let p = all_seen(front, prev, now, blobs);
        let q = all_seen(sightings, prev, now, blobs);
        assert(q == seen(p, s, prev, now));
        assert(kept(p.blobs, q.blobs));
        assert(no_collision(q.blobs, files)) by {
            if let Found::Regular { stat, content } = s.found {
                if content is Some && !reusable(prev, s.path@, stat, now) {
                    assert(files[s.path@].content == content->0@);
                }
            }
        }
        if let Found::Regular { stat, content } = s.found {
            assert(files[s.path@].mode == stat.mode);
        }
        assert forall|k: Seq<char>| #[trigger] q.entries.contains_key(k) implies files.contains_key(
            k,
        ) && files[k].mode == q.entries[k].mode && q.blobs.contains_key(q.entries[k].hash)
            && files[k].content == q.blobs[q.entries[k].hash] by {
            if q.entries[k] == p.entries[k] && p.entries.contains_key(k) {
                assert(captured(p, complete).entries.contains_key(k));
            }
        }
        assert forall|k: Seq<char>| #[trigger] q.absent.contains(k) implies !files.contains_key(
            k,
        ) by {
            if p.absent.contains(k) {
                assert(captured(p, complete).absent.contains(k));
            }
        }
    }
}

/// What is at a path.
pub enum Spot {
    Missing,
    /// The file system will not say.
    Unreadable,
    NotRegular,
    /// A regular file, which can be read or not.
    Regular { stat: Stat, content: Seq<u8>, readable: bool },
}

/// The sighting shows what is there. Where the previous manifest answers for a
/// file it need not be read, and whether the answer is true is not said.
pub open spec fn shows(s: Sighting, spot: Spot, prev: Option<ManifestView>, now: Moment) -> bool {
    match spot {
        Spot::Missing => s.found is Missing,
        Spot::Unreadable => s.found is Unreadable,
        Spot::NotRegular => s.found is NotRegular,
        Spot::Regular { stat, content, readable } => match s.found {
            Found::Regular { stat: st, content: c } => {
                &&& st == stat
                &&& c matches Some(bytes) ==> bytes@ == content
                &&& !reusable(prev, s.path@, stat, now) ==> (c is Some <==> readable)
            },
            _ => false,
        },
    }
}

/// Some sighting is of `p`.
pub open spec fn is_sighted(sightings: Seq<Sighting>, p: Seq<char>) -> bool {
    exists|i: int| 0 <= i < sightings.len() && (#[trigger] sightings[i]).path@ == p
}

/// The regular files of a disk.
pub open spec fn regular_files(disk: spec_fn(Seq<char>) -> Spot) -> Map<Seq<char>, FileState> {
    Map::new(
        |p: Seq<char>| disk(p) is Regular,
        |p: Seq<char>|
            FileState { content: disk(p)->Regular_content, mode: disk(p)->Regular_stat.mode },
    )
}

/// A capture that looks at a spot records a file there.
pub open spec fn is_recorded(
    spot: Spot,
    prev: Option<ManifestView>,
    p: Seq<char>,
    now: Moment,
) -> bool {
    match spot {
        Spot::Regular { stat, content, readable } => reusable(prev, p, stat, now) || readable,
        _ => false,
    }
}

/// What a capture records of a regular file.
pub open spec fn recorded_as(
    spot: Spot,
    prev: Option<ManifestView>,
    p: Seq<char>,
    now: Moment,
) -> EntryView {
    let stat = spot->Regular_stat;
    if reusable(prev, p, stat, now) {
        with_mode(prev->0.entries[p], stat.mode)
    } else {
        read_entry(stat, spot->Regular_content, now)
    }
}

/// A capture records what is at the paths that it looked at, and nothing else.
pub proof fn a_capture_records_the_disk(
    sightings: Seq<Sighting>,
    prev: Option<ManifestView>,
    now: Moment,
    blobs: Map<Seq<char>, Seq<u8>>,
    disk: spec_fn(Seq<char>) -> Spot,
    p: Seq<char>,
)
    requires
        forall|i: int|
            0 <= i < sightings.len() ==> shows(
                #[trigger] sightings[i],
                disk(sightings[i].path@),
                prev,
                now,
            ),
    ensures
        ({
            let c = all_seen(sightings, prev, now, blobs);
            &&& c.entries.contains_key(p) <==> is_sighted(sightings, p) && is_recorded(
                disk(p),
                prev,
                p,
                now,
            )
            &&& c.entries.contains_key(p) ==> c.entries[p] == recorded_as(disk(p), prev, p, now)
        }),
    decreases sightings.len(),
{
    if sightings.len() > 0 {
        let front = sightings.drop_last();
        assert forall|i: int| 0 <= i < front.len() implies shows(
            #[trigger] front[i],
            disk(front[i].path@),
            prev,
            now,
        ) by {
            assert(front[i] == sightings[i]);
        }
        a_capture_records_the_disk(front, prev, now, blobs, disk, p);
        let s = sightings.last();
        assert(sightings[sightings.len() - 1] == s);
        assert(is_sighted(sightings, p) <==> is_sighted(front, p) || s.path@ == p) by {
            if is_sighted(front, p) {
                let i = choose|i: int| 0 <= i < front.len() && (#[trigger] front[i]).path@ == p;
                assert(sightings[i] == front[i]);
            }
            if is_sighted(sightings, p) {
                let i = choose|i: int|
                    0 <= i < sightings.len() && (#[trigger] sightings[i]).path@ == p;
                assert(i < front.len() ==> front[i] == sightings[i]);
            }
        }
        assert(all_seen(sightings, prev, now, blobs) == seen(
            all_seen(front, prev, now, blobs),
            s,
            prev,
            now,
        ));
    }
}

/// Restoring twice is restoring once. Where a restore has gone well, nothing
/// has changed on the disk since, and the same is asked for again, the second
/// restore finds its manifests and has nothing to do.
///
/// The paths that are looked at need only take in the unprotected files of the
/// target. What they hold does not matter: they may be links or unreadable, and
/// fingerprints may be stale. The file system must have told the truth about
/// when the restore wrote its files, and let them be read.
pub proof fn restoring_again_has_nothing_to_do(
    s: StoreView,
    thread: Seq<char>,
    target_id: Seq<char>,
    guarded: Set<Seq<char>>,
    complete: bool,
    disk: spec_fn(Seq<char>) -> Spot,
    sighted: Seq<Sighting>,
    now: Moment,
    fates: Seq<Fate>,
    later_disk: spec_fn(Seq<char>) -> Spot,
    sighted_again: Seq<Sighting>,
    later: Moment,
)
    requires
        addressed(s.blobs),
        s.manifests.contains_key(target_id),
        !latest_is_missing(s, thread),
        s.manifests[target_id].entries.dom().finite(),
        forall|p: Seq<char>| #[trigger]
            s.manifests[target_id].entries.contains_key(p) && !guarded.contains(p)
                ==> s.blobs.contains_key(s.manifests[target_id].entries[p].hash),
        forall|i: int|
            0 <= i < sighted.len() ==> shows(
                #[trigger] sighted[i],
                disk(sighted[i].path@),
                latest_of(s, thread),
                now,
            ),
        ({
            let first = progress(s, thread, sighted, now);
            let safety = captured(first, complete);
            let plan = planned(s.manifests[target_id], safety, guarded);
            &&& s.manifests.contains_key(manifest_id(safety)) ==> s.manifests[manifest_id(safety)]
                == safety
            &&& all_went_well(plan, fates)
            &&& regular_files(later_disk) == carried_out(
                regular_files(disk),
                plan,
                first.blobs,
                fates,
            )
            &&& forall|p: Seq<char>|
                !(#[trigger] touches(plan, p)) ==> later_disk(p) == disk(p)
            &&& forall|p: Seq<char>| #[trigger]
                touches(plan, p) && later_disk(p) is Regular ==> later_disk(p)->readable
                    && !trustworthy(later_disk(p)->Regular_stat, now)
        }),
        elapsed(now, later) >= 0,
        forall|i: int|
            0 <= i < sighted_again.len() ==> shows(
                #[trigger] sighted_again[i],
                later_disk(sighted_again[i].path@),
                latest_of(
                    checkpointed(s, thread, safety_turn(target_id), sighted, complete, now),
                    thread,
                ),
                later,
            ),
        forall|p: Seq<char>| #[trigger]
            is_sighted(sighted, p) <==> is_sighted(sighted_again, p),
        forall|p: Seq<char>| #[trigger]
            s.manifests[target_id].entries.contains_key(p) && !guarded.contains(p) ==> is_sighted(
                sighted,
                p,
            ),
    ensures
        ({
            let after = checkpointed(s, thread, safety_turn(target_id), sighted, complete, now);
            let safety = captured(progress(after, thread, sighted_again, later), complete);
            let plan = planned(after.manifests[target_id], safety, guarded);
            &&& after.manifests.contains_key(target_id)
            &&& !latest_is_missing(after, thread)
            &&& plan == empty_plan()
            &&& fresh_run(plan).stage is Finished
        }),
{
    let target = s.manifests[target_id];
    let prev = latest_of(s, thread);
    let first = progress(s, thread, sighted, now);
    let safety = captured(first, complete);
    let plan = planned(target, safety, guarded);
    let after = checkpointed(s, thread, safety_turn(target_id), sighted, complete, now);
    assert(log_of(after.refs, thread).last().manifest_id == manifest_id(safety));
    assert(after.manifests[manifest_id(safety)] == safety);
    assert(latest_of(after, thread) == Some(safety));
    assert(after.manifests[target_id] == target);
    let second = progress(after, thread, sighted_again, later);
    let again = captured(second, complete);
    captures_keep_blobs(sighted, prev, now, s.blobs);
    captures_keep_blobs_addressed(sighted, prev, now, s.blobs);
    captured_paths_are_finite(sighted, prev, now, s.blobs);
    a_plan_has_its_items(target, safety, guarded);
    let files = regular_files(disk);
    let w = Set::new(|p: Seq<char>| to_write(target, again, guarded, p));
    let d = Set::new(|p: Seq<char>| to_delete(target, again, guarded, p));
    assert forall|p: Seq<char>| !w.contains(p) && !d.contains(p) by {
        a_capture_records_the_disk(sighted, prev, now, s.blobs, disk, p);
        a_capture_records_the_disk(
            sighted_again,
            Some(safety),
            later,
            after.blobs,
            later_disk,
            p,
        );
        a_restore_does_what_it_planned(
            target,
            safety,
            guarded,
            first.blobs,
            files,
            fates,
            p,
        );
        assert(touches(plan, p) <==> to_write(target, safety, guarded, p) || to_delete(
            target,
            safety,
            guarded,
            p,
        ));
        assert(regular_files(later_disk).contains_key(p) == (later_disk(p) is Regular));
        if let Spot::Regular { stat, content, readable } = later_disk(p) {
            assert(regular_files(later_disk)[p] == (FileState { content, mode: stat.mode }));
            if to_write(target, safety, guarded, p) {
                let hash = target.entries[p].hash;
                assert(s.blobs.contains_key(hash));
                assert(content_hash(first.blobs[hash]) == hash);
                what_is_written_since_is_read_again(
                    sighted,
                    prev,
                    now,
                    s.blobs,
                    complete,
                    p,
                    stat,
                    later,
                );
            } else if !touches(plan, p) {
                if let Some(m) = stat.modified {
                    assert(elapsed(m, later) == elapsed(m, now) + elapsed(now, later));
                }
            }
        }
    }
    sorted_of_nothing(w);
    sorted_of_nothing(d);
    assert(planned(target, again, guarded).writes =~= empty_plan().writes);
}

/// A capture records finitely many files.
proof fn captured_paths_are_finite(
    sightings: Seq<Sighting>,
    prev: Option<ManifestView>,
    now: Moment,
    blobs: Map<Seq<char>, Seq<u8>>,
)
    ensures
        all_seen(sightings, prev, now, blobs).entries.dom().finite(),
    decreases sightings.len(),
{
    if sightings.len() > 0 {
        captured_paths_are_finite(sightings.drop_last(), prev, now, blobs);
    }
}

/// A rewind brings back what was captured. Whatever has been stored since a
/// true capture of the files, a restore to it that goes well leaves every
/// unprotected file of the capture exactly as it was, and no unprotected file
/// where the capture found none and the safety checkpoint looked.
pub proof fn a_rewind_brings_back_what_was_captured(
    target: ManifestView,
    blobs_at_capture: Map<Seq<char>, Seq<u8>>,
    files_at_capture: Map<Seq<char>, FileState>,
    current: ManifestView,
    guarded: Set<Seq<char>>,
    blobs: Map<Seq<char>, Seq<u8>>,
    files: Map<Seq<char>, FileState>,
    fates: Seq<Fate>,
    p: Seq<char>,
)
    requires
        target.entries.dom().finite(),
        current.entries.dom().finite(),
        tells(target, blobs_at_capture, files_at_capture),
        kept(blobs_at_capture, blobs),
        tells(current, blobs, files),
        all_went_well(planned(target, current, guarded), fates),
        !guarded.contains(p),
        target.entries.contains_key(p) || (target.absent.contains(p) && covers(current, p)),
    ensures
        ({
            let after = carried_out(files, planned(target, current, guarded), blobs, fates);
            &&& after.contains_key(p) == files_at_capture.contains_key(p)
            &&& files_at_capture.contains_key(p) ==> after[p] == files_at_capture[p]
        }),
{
    a_rewind_brings_the_target_back(target, current, guarded, blobs, files, fates, p);
    if target.entries.contains_key(p) {
        assert(blobs_at_capture.contains_key(target.entries[p].hash));
    }
}

/// A file that the target says nothing of is never modified in any direction,
/// whatever becomes of the restore.
pub proof fn what_the_target_never_saw_is_untouched(
    target: ManifestView,
    current: ManifestView,
    guarded: Set<Seq<char>>,
    blobs: Map<Seq<char>, Seq<u8>>,
    files: Map<Seq<char>, FileState>,
    fates: Seq<Fate>,
    p: Seq<char>,
)
    requires
        target.entries.dom().finite(),
        current.entries.dom().finite(),
        fates.len() <= items(planned(target, current, guarded)),
        !covers(target, p),
    ensures
        ({
            let after = carried_out(files, planned(target, current, guarded), blobs, fates);
            &&& after.contains_key(p) == files.contains_key(p)
            &&& files.contains_key(p) ==> after[p] == files[p]
        }),
{
    a_plan_has_its_items(target, current, guarded);
    the_rest_is_untouched(files, planned(target, current, guarded), blobs, fates, p);
}

/// What the file system answered to an operation of a run.
pub enum WriteEvent {
    Loaded { outcome: Result<Vec<u8>, String>, process: u32, count: u64 },
    DirMade { outcome: Result<(), String> },
    /// A file that was created has some mode, and one that broke off holds
    /// what had been written.
    Created { outcome: CreateOutcome, mode: u32, written: Seq<u8> },
    ModeSet { outcome: Result<(), String> },
    Renamed { outcome: Result<(), String> },
    Discarded { gone: bool },
    Removed { outcome: RemoveOutcome },
}

/// A run and the files that it works on.
#[verifier::ext_equal]
pub struct Applying {
    pub run: RunView,
    pub files: Map<Seq<char>, FileState>,
}

/// The event answers the operation that the run asked for. A file is created
/// only where there is none.
pub open spec fn answers(s: Applying, event: WriteEvent) -> bool {
    match event {
        WriteEvent::Loaded { outcome, process, count } => awaited(s.run) is LoadBlob,
        WriteEvent::DirMade { outcome } => awaited(s.run) is MakeDir,
        WriteEvent::Created { outcome, mode, written } => awaited(
            s.run,
        ) matches OperationView::CreateNew { path, content } && (outcome is Refused
            || !s.files.contains_key(path)),
        WriteEvent::ModeSet { outcome } => awaited(s.run) is SetMode,
        WriteEvent::Renamed { outcome } => awaited(s.run) is Rename,
        WriteEvent::Discarded { gone } => awaited(s.run) is Discard,
        WriteEvent::Removed { outcome } => awaited(
            s.run,
        ) matches OperationView::RemoveFile { path } && (outcome is NotFound
            ==> !s.files.contains_key(path)),
    }
}

/// The event answers what the run asked for, in the course of the item `at`.
pub open spec fn can_answer(s: Applying, at: nat, event: WriteEvent) -> bool {
    s.run.at == at && answers(s, event)
}

/// The files once an operation has been carried out to the end. One that
/// creates a file gives it some mode.
pub open spec fn performed(
    files: Map<Seq<char>, FileState>,
    operation: OperationView,
    mode: u32,
) -> Map<Seq<char>, FileState> {
    match operation {
        OperationView::CreateNew { path, content } => files.insert(
            path,
            FileState { content, mode },
        ),
        OperationView::SetMode { path, mode: wanted } => files.insert(
            path,
            FileState { content: files[path].content, mode: wanted },
        ),
        OperationView::Rename { from, to } => files.remove(from).insert(to, files[from]),
        OperationView::Discard { path } => files.remove(path),
        OperationView::RemoveFile { path } => files.remove(path),
        _ => files,
    }
}

/// What an event does to the run, and to the files: what was asked for is done,
/// or it was refused and nothing is.
pub open spec fn answered_with(s: Applying, event: WriteEvent) -> Applying {
    let asked = awaited(s.run);
    match event {
        WriteEvent::Loaded { outcome, process, count } => Applying {
            run: after_load(s.run, outcome, process as nat, count as nat),
            files: s.files,
        },
        WriteEvent::DirMade { outcome } => Applying {
            run: after_dir(s.run, outcome),
            files: s.files,
        },
        WriteEvent::Created { outcome, mode, written } => Applying {
            run: after_create(s.run, outcome),
            files: match outcome {
                CreateOutcome::Written => performed(s.files, asked, mode),
                CreateOutcome::Refused(_) => s.files,
                CreateOutcome::Broken(_) => s.files.insert(
                    asked->CreateNew_path,
                    FileState { content: written, mode },
                ),
            },
        },
        WriteEvent::ModeSet { outcome } => Applying {
            run: after_mode(s.run, outcome),
            files: if outcome is Ok {
                performed(s.files, asked, 0)
            } else {
                s.files
            },
        },
        WriteEvent::Renamed { outcome } => Applying {
            run: after_rename(s.run, outcome),
            files: if outcome is Ok {
                performed(s.files, asked, 0)
            } else {
                s.files
            },
        },
        WriteEvent::Discarded { gone } => Applying {
            run: after_discard(s.run),
            files: if gone {
                performed(s.files, asked, 0)
            } else {
                s.files
            },
        },
        WriteEvent::Removed { outcome } => Applying {
            run: after_remove(s.run, outcome),
            files: if outcome is Removed {
                performed(s.files, asked, 0)
            } else {
                s.files
            },
        },
    }
}

/// The run once these events have come, one after another.
pub open spec fn all_answered(s: Applying, events: Seq<WriteEvent>) -> Applying
    decreases events.len(),
{
    if events.len() == 0 {
        s
    } else {
        answered_with(all_answered(s, events.drop_last()), events.last())
    }
}

/// Each event answered what the run was waiting for, in the course of one
/// item.
pub open spec fn all_can_answer(s: Applying, events: Seq<WriteEvent>) -> bool
    decreases events.len(),
{
    events.len() > 0 ==> all_can_answer(s, events.drop_last()) && can_answer(
        all_answered(s, events.drop_last()),
        s.run.at,
        events.last(),
    )
}

/// Nothing about `p` has changed.
pub open spec fn as_before(
    before: Map<Seq<char>, FileState>,
    after: Map<Seq<char>, FileState>,
    p: Seq<char>,
) -> bool {
    &&& after.contains_key(p) == before.contains_key(p)
    &&& before.contains_key(p) ==> after[p] == before[p]
}

/// The temporary file of a write that began with these events.
pub open spec fn tmp_of(path: Seq<char>, events: Seq<WriteEvent>) -> Seq<char> {
    tmp_text(path, events[0]->process as nat, events[0]->count as nat)
}

/// What holds at every moment of a write, stage by stage.
spec fn write_so_far(s: Applying, events: Seq<WriteEvent>, end: Applying) -> bool {
    let w = s.run.plan.writes[s.run.at as int];
    let content = events[0]->Loaded_outcome->Ok_0@;
    let tmp = tmp_of(w.path, events);
    let made = !s.files.contains_key(tmp) && end.files.contains_key(tmp) && end.files
        =~= s.files.insert(tmp, end.files[tmp]);
    &&& end.run.plan == s.run.plan
    &&& events.len() > 0 ==> events[0] is Loaded
    &&& if end.run.at == s.run.at {
        &&& end.run.stats == s.run.stats
        &&& !(end.run.stage is Load) ==> events.len() > 0 && events[0]->Loaded_outcome is Ok
            && end.run.tmp == tmp
        &&& match end.run.stage {
            StageView::Load => events.len() == 0 && end.files == s.files,
            StageView::Parent { content: c } => c == content && end.files == s.files,
            StageView::Create { content: c } => c == content && end.files == s.files,
            StageView::Mode => made && end.files[tmp].content == content,
            StageView::Rename => made && end.files[tmp].content == content && end.files[tmp].mode
                == w.mode,
            StageView::Discard { reason } => made,
            _ => false,
        }
    } else {
        &&& end.run.at == s.run.at + 1
        &&& events.len() > 0
        &&& if end.run.stats.written == s.run.stats.written {
            ||| end.files == s.files
            ||| made
        } else {
            &&& events[0]->Loaded_outcome is Ok
            &&& !s.files.contains_key(tmp)
            &&& end.files == s.files.insert(w.path, FileState { content, mode: w.mode })
        }
    }
}

proof fn a_write_goes_its_way(s: Applying, events: Seq<WriteEvent>)
    requires
        s.run.stage is Load,
        s.run.at < s.run.plan.writes.len(),
        all_can_answer(s, events),
    ensures
        write_so_far(s, events, all_answered(s, events)),
    decreases events.len(),
{
    if events.len() > 0 {
        let front = events.drop_last();
        a_write_goes_its_way(s, front);
        let before = all_answered(s, front);
        let end = all_answered(s, events);
        if front.len() > 0 {
            assert(events[0] == front[0]);
        } else {
            assert(events[0] == events.last());
        }
        let w = s.run.plan.writes[s.run.at as int];
        if let WriteEvent::Loaded { outcome, process, count } = events[0] {
            a_temporary_file_is_another_file(w.path, process as nat, count as nat);
        }
        if events.last() is Discarded {
            let tmp = before.run.tmp;
            assert(s.files.insert(tmp, before.files[tmp]).remove(tmp) =~= s.files);
        }
        if events.last() is Renamed {
            let tmp = before.run.tmp;
            let f = before.files[tmp];
            assert(s.files.insert(tmp, f).remove(tmp) =~= s.files);
        }
    }
}

/// A write happens in full or not at all, whatever the file system refuses and
/// wherever it is cut off. Until the rename the file is what it was. A write
/// that was counted has put there the blob's content with the target's mode,
/// and one that failed has changed nothing. What lay under the temporary
/// file's name is neither followed nor removed, and nothing else is touched.
pub proof fn a_write_happens_in_full_or_not_at_all(s: Applying, events: Seq<WriteEvent>)
    requires
        s.run.stage is Load,
        s.run.at < s.run.plan.writes.len(),
        all_can_answer(s, events),
    ensures
        ({
            let w = s.run.plan.writes[s.run.at as int];
            let end = all_answered(s, events);
            &&& if end.run.stats.written == s.run.stats.written {
                as_before(s.files, end.files, w.path)
            } else {
                &&& end.run.at == s.run.at + 1
                &&& events[0] matches WriteEvent::Loaded { outcome: Ok(content), .. }
                &&& end.files.contains_key(w.path)
                &&& end.files[w.path] == (FileState { content: content@, mode: w.mode })
            }
            &&& forall|p: Seq<char>|
                p != w.path && s.files.contains_key(p) ==> #[trigger] as_before(
                    s.files,
                    end.files,
                    p,
                )
            &&& forall|p: Seq<char>|
                p != w.path && p != tmp_of(w.path, events) ==> #[trigger] as_before(
                    s.files,
                    end.files,
                    p,
                )
        }),
{
    a_write_goes_its_way(s, events);
    let w = s.run.plan.writes[s.run.at as int];
    if let WriteEvent::Loaded { outcome, process, count } = events[0] {
        a_temporary_file_is_another_file(w.path, process as nat, count as nat);
    }
}

/// Every event answered what the run asked for, and what was loaded is what the
/// blobs hold under the hash that was asked for.
pub open spec fn all_answer_truly(
    s: Applying,
    blobs: Map<Seq<char>, Seq<u8>>,
    events: Seq<WriteEvent>,
) -> bool
    decreases events.len(),
{
    events.len() > 0 ==> {
        let before = all_answered(s, events.drop_last());
        &&& all_answer_truly(s, blobs, events.drop_last())
        &&& answers(before, events.last())
        &&& events.last() matches WriteEvent::Loaded { outcome: Ok(content), .. } ==> {
            let hash = awaited(before.run)->hash;
            blobs.contains_key(hash) && content@ == blobs[hash]
        }
    }
}

/// The run never asked to create a file at `p`.
pub open spec fn never_created(s: Applying, events: Seq<WriteEvent>, p: Seq<char>) -> bool
    decreases events.len(),
{
    events.len() > 0 ==> never_created(s, events.drop_last(), p) && (awaited(
        all_answered(s, events.drop_last()).run,
    ) matches OperationView::CreateNew { path, .. } ==> path != p)
}

/// The file system did what was asked.
pub open spec fn is_well(event: WriteEvent) -> bool {
    match event {
        WriteEvent::Loaded { outcome, process, count } => outcome is Ok,
        WriteEvent::DirMade { outcome } => outcome is Ok,
        WriteEvent::Created { outcome, mode, written } => outcome is Written,
        WriteEvent::ModeSet { outcome } => outcome is Ok,
        WriteEvent::Renamed { outcome } => outcome is Ok,
        WriteEvent::Discarded { gone } => true,
        WriteEvent::Removed { outcome } => !(outcome is Failed),
    }
}

/// Nothing was refused.
pub open spec fn all_well(events: Seq<WriteEvent>) -> bool {
    forall|i: int| 0 <= i < events.len() ==> is_well(#[trigger] events[i])
}

/// What holds at every moment of a run, with the fates that its items have met.
spec fn run_so_far(
    plan: PlanView,
    blobs: Map<Seq<char>, Seq<u8>>,
    files: Map<Seq<char>, FileState>,
    end: Applying,
    fates: Seq<Fate>,
    well: bool,
    p: Seq<char>,
) -> bool {
    let w = plan.writes[end.run.at as int];
    let tmp = end.run.tmp;
    &&& end.run.plan == plan
    &&& end.run.at <= items(plan)
    &&& fates.len() == end.run.at
    &&& end.run.stats == played(plan, fates).stats
    &&& as_before(carried_out(files, plan, blobs, fates), end.files, p)
    &&& well ==> !(end.run.stage is Discard) && forall|i: int|
        0 <= i < fates.len() ==> !(#[trigger] fates[i] is Failed)
    &&& match end.run.stage {
        StageView::Load => end.run.at < plan.writes.len(),
        StageView::Parent { content } => end.run.at < plan.writes.len() && content
            == blobs[w.hash],
        StageView::Create { content } => end.run.at < plan.writes.len() && content
            == blobs[w.hash],
        StageView::Mode => end.run.at < plan.writes.len() && tmp != p && end.files.contains_key(tmp)
            && end.files[tmp].content == blobs[w.hash],
        StageView::Rename => end.run.at < plan.writes.len() && tmp != p && end.files.contains_key(
            tmp,
        ) && end.files[tmp] == outcome_of(w, blobs),
        StageView::Discard { reason } => end.run.at < plan.writes.len() && tmp != p,
        StageView::Remove => plan.writes.len() <= end.run.at < items(plan),
        StageView::Finished => end.run.at == items(plan),
    }
}

/// One more item has met its fate.
proof fn fate_is_added(plan: PlanView, fates: Seq<Fate>, fate: Fate)
    requires
        fates.len() < items(plan),
    ensures
        played(plan, fates.push(fate)).stats == tallied(
            plan,
            played(plan, fates).stats,
            fates.len(),
            fate,
        ),
{
    every_item_has_its_turn(plan, fates);
    assert(fates.push(fate).drop_last() =~= fates);
}

proof fn a_run_goes_its_way(
    plan: PlanView,
    blobs: Map<Seq<char>, Seq<u8>>,
    files: Map<Seq<char>, FileState>,
    events: Seq<WriteEvent>,
    p: Seq<char>,
) -> (fates: Seq<Fate>)
    requires
        all_answer_truly((Applying { run: fresh_run(plan), files }), blobs, events),
        never_created((Applying { run: fresh_run(plan), files }), events, p),
    ensures
        run_so_far(
            plan,
            blobs,
            files,
            all_answered((Applying { run: fresh_run(plan), files }), events),
            fates,
            all_well(events),
            p,
        ),
    decreases events.len(),
{
    let s = Applying { run: fresh_run(plan), files };
    if events.len() == 0 {
        Seq::empty()
    } else {
        let front = events.drop_last();
        let fates = a_run_goes_its_way(plan, blobs, files, front, p);
        let before = all_answered(s, front);
        let end = all_answered(s, events);
        let last = events.last();
        if all_well(events) {
            assert forall|i: int| 0 <= i < front.len() implies is_well(#[trigger] front[i]) by {
                assert(front[i] == events[i]);
            }
            assert(is_well(events[events.len() - 1]));
        }
        let w = plan.writes[before.run.at as int];
        if end.run.at == before.run.at {
            fates
        } else {
            let fate = match last {
                WriteEvent::Loaded { outcome, process, count } => Fate::Failed(outcome->Err_0@),
                WriteEvent::DirMade { outcome } => Fate::Failed(outcome->Err_0@),
                WriteEvent::Created { outcome, mode, written } => Fate::Failed(
                    outcome->Refused_0@,
                ),
                WriteEvent::Discarded { gone } => Fate::Failed(before.run.stage->reason),
                WriteEvent::Removed { outcome } => match outcome {
                    RemoveOutcome::Removed => Fate::Applied,
                    RemoveOutcome::NotFound => Fate::Gone,
                    RemoveOutcome::Failed(reason) => Fate::Failed(reason@),
                },
                _ => Fate::Applied,
            };
            fate_is_added(plan, fates, fate);
            assert(fates.push(fate).drop_last() =~= fates);
            fates.push(fate)
        }
    }
}

/// A run does what its plan says, operation by operation. Whatever the file
/// system refuses and wherever the run is cut off, each item before the current
/// one has met a fate, the counts are those of the fates, and every path that
/// is not a temporary file is what these fates make of it: a write that was
/// applied has left the whole blob with the mode of the plan, a deletion has
/// left nothing, and whatever failed has changed nothing. Where nothing was
/// refused nothing has failed.
pub proof fn a_run_does_what_its_plan_says(
    plan: PlanView,
    blobs: Map<Seq<char>, Seq<u8>>,
    files: Map<Seq<char>, FileState>,
    events: Seq<WriteEvent>,
    p: Seq<char>,
)
    requires
        all_answer_truly((Applying { run: fresh_run(plan), files }), blobs, events),
        never_created((Applying { run: fresh_run(plan), files }), events, p),
    ensures
        ({
            let end = all_answered(Applying { run: fresh_run(plan), files }, events);
            exists|fates: Seq<Fate>| #[trigger]
                played(plan, fates).stats == end.run.stats && fates.len() == end.run.at && as_before(
                    carried_out(files, plan, blobs, fates),
                    end.files,
                    p,
                ) && (all_well(events) ==> forall|i: int|
                    0 <= i < fates.len() ==> !(#[trigger] fates[i] is Failed))
        }),
{
    let fates = a_run_goes_its_way(plan, blobs, files, events, p);
    assert(played(plan, fates).stats == all_answered(
        Applying { run: fresh_run(plan), files },
        events,
    ).run.stats);
}

/// A run that meets no refusal and is finished has written every file of its
/// plan in full, with its mode, has deleted every path that was to go, and has
/// counted them all. The rest is untouched.
pub proof fn a_run_that_is_not_refused_carries_out_its_plan(
    plan: PlanView,
    blobs: Map<Seq<char>, Seq<u8>>,
    files: Map<Seq<char>, FileState>,
    events: Seq<WriteEvent>,
    p: Seq<char>,
)
    requires
        apart(plan),
        all_answer_truly((Applying { run: fresh_run(plan), files }), blobs, events),
        never_created((Applying { run: fresh_run(plan), files }), events, p),
        all_well(events),
        awaited(all_answered((Applying { run: fresh_run(plan), files }), events).run) is Finished,
    ensures
        ({
            let end = all_answered(Applying { run: fresh_run(plan), files }, events);
            &&& forall|i: int|
                0 <= i < plan.writes.len() && (#[trigger] plan.writes[i]).path == p
                    ==> end.files.contains_key(p) && end.files[p].content
                    == blobs[plan.writes[i].hash] && end.files[p].mode == plan.writes[i].mode
            &&& forall|i: int|
                0 <= i < plan.deletes.len() && #[trigger] plan.deletes[i] == p
                    ==> !end.files.contains_key(p)
            &&& (forall|i: int|
                0 <= i < plan.writes.len() ==> (#[trigger] plan.writes[i]).path != p) && (forall|
                i: int,
            | 0 <= i < plan.deletes.len() ==> #[trigger] plan.deletes[i] != p) ==> as_before(
                files,
                end.files,
                p,
            )
            &&& end.run.stats.written == plan.writes.len()
            &&& end.run.stats.deleted <= plan.deletes.len()
            &&& end.run.stats.failed.len() == 0
        }),
{
    let end = all_answered(Applying { run: fresh_run(plan), files }, events);
    let fates = a_run_goes_its_way(plan, blobs, files, events, p);
    let after = carried_out(files, plan, blobs, fates);
    assert(fates.len() == items(plan));
    assert forall|i: int|
        0 <= i < plan.writes.len() && (#[trigger] plan.writes[i]).path == p implies after.contains_key(
        p,
    ) && after[p] == outcome_of(plan.writes[i], blobs) by {
        an_item_leaves_its_mark(files, plan, blobs, fates, i);
        assert(item_path(plan, i) == p);
    }
    assert forall|i: int|
        0 <= i < plan.deletes.len() && #[trigger] plan.deletes[i] == p implies !after.contains_key(
        p,
    ) by {
        let k = plan.writes.len() + i;
        an_item_leaves_its_mark(files, plan, blobs, fates, k);
        assert(item_path(plan, k) == p);
    }
    if (forall|i: int| 0 <= i < plan.writes.len() ==> (#[trigger] plan.writes[i]).path != p) && (
    forall|i: int| 0 <= i < plan.deletes.len() ==> #[trigger] plan.deletes[i] != p) {
        assert(!touches(plan, p)) by {
            if touches(plan, p) {
                let i = choose|i: int| 0 <= i < items(plan) && #[trigger] item_path(plan, i) == p;
                if i < plan.writes.len() {
                    assert(plan.writes[i].path == p);
                } else {
                    assert(plan.deletes[i - plan.writes.len()] == p);
                }
            }
        }
        the_rest_is_untouched(files, plan, blobs, fates, p);
    }
    a_well_run_counts_every_write(plan, blobs, files, events);
}

/// Writes are applied or fail; only a deletion can find its work done.
proof fn a_well_run_counts_every_write(
    plan: PlanView,
    blobs: Map<Seq<char>, Seq<u8>>,
    files: Map<Seq<char>, FileState>,
    events: Seq<WriteEvent>,
)
    requires
        all_answer_truly((Applying { run: fresh_run(plan), files }), blobs, events),
        all_well(events),
    ensures
        ({
            let run = all_answered(Applying { run: fresh_run(plan), files }, events).run;
            &&& run.plan == plan
            &&& run.at <= items(plan)
            &&& !(run.stage is Discard)
            &&& run.stage is Finished ==> run.at == items(plan)
            &&& run.stage is Remove ==> plan.writes.len() <= run.at < items(plan)
            &&& !(run.stage is Finished) && !(run.stage is Remove) ==> run.at < plan.writes.len()
            &&& run.stats.failed.len() == 0
            &&& run.stats.written == if run.at < plan.writes.len() {
                run.at
            } else {
                plan.writes.len()
            }
            &&& run.stats.deleted + plan.writes.len() <= if run.at < plan.writes.len() {
                plan.writes.len()
            } else {
                run.at
            }
        }),
    decreases events.len(),
{
    if events.len() > 0 {
        let front = events.drop_last();
        assert forall|i: int| 0 <= i < front.len() implies is_well(#[trigger] front[i]) by {
            assert(front[i] == events[i]);
        }
        assert(is_well(events[events.len() - 1]));
        a_well_run_counts_every_write(plan, blobs, files, front);
    }
}

/// How far a run is within its current item.
spec fn stage_place(stage: StageView) -> int {
    match stage {
        StageView::Load => 0,
        StageView::Parent { content } => 1,
        StageView::Create { content } => 2,
        StageView::Mode => 3,
        StageView::Rename => 4,
        StageView::Discard { reason } => 5,
        StageView::Remove => 0,
        StageView::Finished => 0,
    }
}

/// A run ends: no item takes more than six operations, however they go, and a
/// run that has come to its end asks for nothing more.
pub proof fn a_run_ends(
    plan: PlanView,
    files: Map<Seq<char>, FileState>,
    blobs: Map<Seq<char>, Seq<u8>>,
    events: Seq<WriteEvent>,
)
    requires
        all_answer_truly((Applying { run: fresh_run(plan), files }), blobs, events),
    ensures
        events.len() <= 6 * items(plan),
        ({
            let run = all_answered(Applying { run: fresh_run(plan), files }, events).run;
            awaited(run) is Finished <==> run.at == items(plan)
        }),
{
    a_run_gets_on(plan, files, blobs, events);
}

proof fn a_run_gets_on(
    plan: PlanView,
    files: Map<Seq<char>, FileState>,
    blobs: Map<Seq<char>, Seq<u8>>,
    events: Seq<WriteEvent>,
)
    requires
        all_answer_truly((Applying { run: fresh_run(plan), files }), blobs, events),
    ensures
        ({
            let run = all_answered(Applying { run: fresh_run(plan), files }, events).run;
            &&& run.plan == plan
            &&& events.len() <= 6 * run.at + stage_place(run.stage)
            &&& run.at <= items(plan)
            &&& run.stage is Finished <==> run.at == items(plan)
            &&& run.stage is Remove ==> plan.writes.len() <= run.at
        }),
    decreases events.len(),
{
    if events.len() > 0 {
        a_run_gets_on(plan, files, blobs, events.drop_last());
    }
}

/// A restore brings the target back, operation by operation. Where the safety
/// checkpoint told the truth, nothing was refused and the run has finished,
/// every unprotected file of the target has the whole of its content and its
/// mode again.
pub proof fn a_run_brings_the_target_back(
    target: ManifestView,
    current: ManifestView,
    guarded: Set<Seq<char>>,
    blobs: Map<Seq<char>, Seq<u8>>,
    files: Map<Seq<char>, FileState>,
    events: Seq<WriteEvent>,
    p: Seq<char>,
)
    requires
        target.entries.dom().finite(),
        current.entries.dom().finite(),
        tells(current, blobs, files),
        ({
            let s = Applying { run: fresh_run(planned(target, current, guarded)), files };
            &&& all_answer_truly(s, blobs, events)
            &&& never_created(s, events, p)
            &&& awaited(all_answered(s, events).run) is Finished
        }),
        all_well(events),
    ensures
        ({
            let s = Applying { run: fresh_run(planned(target, current, guarded)), files };
            let after = all_answered(s, events).files;
            &&& target.entries.contains_key(p) && !guarded.contains(p) ==> after.contains_key(p)
                && after[p].content == blobs[target.entries[p].hash] && after[p].mode
                == target.entries[p].mode
            &&& target.absent.contains(p) && !target.entries.contains_key(p) && !guarded.contains(p)
                && (current.entries.contains_key(p) || current.absent.contains(p))
                ==> !after.contains_key(p)
            &&& guarded.contains(p) ==> as_before(files, after, p)
            &&& !target.entries.contains_key(p) && !target.absent.contains(p) ==> as_before(
                files,
                after,
                p,
            )
        }),
{
    let plan = planned(target, current, guarded);
    let fates = a_run_goes_its_way(plan, blobs, files, events, p);
    assert(all_went_well(plan, fates));
    if !guarded.contains(p) {
        a_rewind_brings_the_target_back(target, current, guarded, blobs, files, fates, p);
    } else {
        protected_paths_are_untouched(target, current, guarded, blobs, files, fates, p);
    }
    if !target.entries.contains_key(p) && !target.absent.contains(p) {
        what_the_target_never_saw_is_untouched(
            target,
            current,
            guarded,
            blobs,
            files,
            fates,
            p,
        );
    }
}

/// The writes of a plan are in the order of their paths, and so are the
/// deletions.
pub proof fn a_plan_is_in_order(
    target: ManifestView,
    current: ManifestView,
    guarded: Set<Seq<char>>,
    i: int,
    j: int,
)
    requires
        target.entries.dom().finite(),
        current.entries.dom().finite(),
        0 <= i < j,
    ensures
        ({
            let plan = planned(target, current, guarded);
            &&& j < plan.writes.len() ==> lex_lt(plan.writes[i].path, plan.writes[j].path)
            &&& j < plan.deletes.len() ==> lex_lt(plan.deletes[i], plan.deletes[j])
        }),
{
    let w = Set::new(|p: Seq<char>| to_write(target, current, guarded, p));
    let d = Set::new(|p: Seq<char>| to_delete(target, current, guarded, p));
    vstd::set_lib::lemma_set_subset_finite(target.entries.dom(), w);
    vstd::set_lib::lemma_set_subset_finite(current.entries.dom(), d);
    sorted_lists(w);
    sorted_lists(d);
}

/// An attach tells the truth. Where the content and the mode that are handed
/// over are those of the file, or nothing where there is none, and the latest
/// manifest tells the truth, the new one does too: it has the whole of the
/// content under its hash, and the mode; or it has the path as absent. It is
/// the latest of the thread and what the turn goes back to. No later capture
/// takes the file for unchanged on its account.
pub proof fn an_attach_tells_the_truth(
    s: StoreView,
    thread: Seq<char>,
    turn: Seq<char>,
    path: Seq<char>,
    content: Option<Seq<u8>>,
    mode: u32,
    files: Map<Seq<char>, FileState>,
    stat: Stat,
    later: Moment,
)
    requires
        tells(attach_base(s, thread), s.blobs, files),
        match content {
            Some(bytes) => files.contains_key(path) && files[path].content == bytes
                && files[path].mode == mode && (s.blobs.contains_key(content_hash(bytes))
                ==> s.blobs[content_hash(bytes)] == bytes),
            None => !files.contains_key(path),
        },
        ({
            let m = with_pre_edit(attach_base(s, thread), path, content, mode);
            s.manifests.contains_key(manifest_id(m)) ==> s.manifests[manifest_id(m)] == m
        }),
    ensures
        ({
            let after = attached(s, thread, turn, path, content, mode);
            let log = log_of(after.refs, thread);
            let id = log.last().manifest_id;
            let m = after.manifests[id];
            &&& log.drop_last() == log_of(s.refs, thread)
            &&& log.last().turn_id == turn
            &&& after.refs.turns.contains_key(record_text(turn))
            &&& after.refs.turns[record_text(turn)] == id
            &&& after.manifests.contains_key(id)
            &&& latest_of(after, thread) == Some(m)
            &&& tells(m, after.blobs, files)
            &&& kept(s.blobs, after.blobs)
            &&& content matches Some(bytes) ==> {
                &&& m.entries.contains_key(path)
                &&& m.entries[path].hash == content_hash(bytes)
                &&& after.blobs.contains_key(content_hash(bytes))
                &&& after.blobs[content_hash(bytes)] == bytes
                &&& m.entries[path].mode == mode
                &&& bytes.len() <= u64::MAX ==> m.entries[path].size == bytes.len()
                &&& !reusable(Some(m), path, stat, later)
            }
            &&& content is None ==> m.absent.contains(path)
            &&& m.complete == attach_base(s, thread).complete
        }),
{
    let after = attached(s, thread, turn, path, content, mode);
    let log = log_of(after.refs, thread);
    assert(log.drop_last() =~= log_of(s.refs, thread));
    let base = attach_base(s, thread);
    let m = with_pre_edit(base, path, content, mode);
    assert(after.manifests[manifest_id(m)] == m);
    assert forall|p: Seq<char>| #[trigger] m.entries.contains_key(p) implies files.contains_key(p)
        && files[p].mode == m.entries[p].mode && after.blobs.contains_key(m.entries[p].hash)
        && files[p].content == after.blobs[m.entries[p].hash] by {
        if base.entries.contains_key(p) && m.entries[p] == base.entries[p] {
            assert(s.blobs.contains_key(base.entries[p].hash));
        }
    }
    assert forall|p: Seq<char>| #[trigger] m.absent.contains(p) implies !files.contains_key(p) by {
        if base.absent.contains(p) {
        }
    }
}

/// What was recorded before an edit comes back. Where a file's content was
/// handed over before an edit, and a restore to the turn goes well, the file is
/// exactly what it was; where it was handed over that there was none, and the
/// safety checkpoint looked, there is none.
pub proof fn a_rewind_gives_back_what_was_before_the_edit(
    s: StoreView,
    thread: Seq<char>,
    turn: Seq<char>,
    path: Seq<char>,
    content: Option<Seq<u8>>,
    mode: u32,
    current: ManifestView,
    guarded: Set<Seq<char>>,
    blobs: Map<Seq<char>, Seq<u8>>,
    files: Map<Seq<char>, FileState>,
    fates: Seq<Fate>,
)
    requires
        !attach_base(s, thread).entries.contains_key(path),
        ({
            let m = with_pre_edit(attach_base(s, thread), path, content, mode);
            s.manifests.contains_key(manifest_id(m)) ==> s.manifests[manifest_id(m)] == m
        }),
        content matches Some(bytes) ==> (s.blobs.contains_key(content_hash(bytes))
            ==> s.blobs[content_hash(bytes)] == bytes),
        ({
            let after = attached(s, thread, turn, path, content, mode);
            let target = after.manifests[after.refs.turns[record_text(turn)]];
            &&& target.entries.dom().finite()
            &&& current.entries.dom().finite()
            &&& kept(after.blobs, blobs)
            &&& tells(current, blobs, files)
            &&& all_went_well(planned(target, current, guarded), fates)
        }),
        !guarded.contains(path),
        content is None ==> covers(current, path),
    ensures
        ({
            let after = attached(s, thread, turn, path, content, mode);
            let target = after.manifests[after.refs.turns[record_text(turn)]];
            let end = carried_out(files, planned(target, current, guarded), blobs, fates);
            match content {
                Some(bytes) => end.contains_key(path) && end[path].content == bytes
                    && end[path].mode == mode,
                None => !end.contains_key(path),
            }
        }),
{
    let after = attached(s, thread, turn, path, content, mode);
    let target = after.manifests[after.refs.turns[record_text(turn)]];
    let m = with_pre_edit(attach_base(s, thread), path, content, mode);
    assert(target == m);
    a_rewind_brings_the_target_back(target, current, guarded, blobs, files, fates, path);
    if let Some(bytes) = content {
        assert(after.blobs.contains_key(content_hash(bytes)));
        assert(after.blobs[content_hash(bytes)] == bytes);
    }
}

/// A restore to a turn brings back what was seen at its checkpoint. Whatever
/// has been stored since, where the sightings told the truth then, and the
/// restore goes well, every unprotected file that was seen and could be read is
/// as it was.
pub proof fn a_rewind_goes_back_to_the_checkpoint_of_its_turn(
    s: StoreView,
    thread: Seq<char>,
    turn: Seq<char>,
    sighted: Seq<Sighting>,
    complete: bool,
    now: Moment,
    past: Map<Seq<char>, FileState>,
    current: ManifestView,
    guarded: Set<Seq<char>>,
    blobs: Map<Seq<char>, Seq<u8>>,
    files: Map<Seq<char>, FileState>,
    fates: Seq<Fate>,
    i: int,
)
    requires
        no_collision(s.blobs, past),
        forall|k: int|
            0 <= k < sighted.len() ==> truthful(
                #[trigger] sighted[k],
                latest_of(s, thread),
                now,
                s.blobs,
                past,
            ),
        ({
            let m = captured(progress(s, thread, sighted, now), complete);
            s.manifests.contains_key(manifest_id(m)) ==> s.manifests[manifest_id(m)] == m
        }),
        ({
            let after = checkpointed(s, thread, turn, sighted, complete, now);
            let target = after.manifests[after.refs.turns[record_text(turn)]];
            &&& kept(after.blobs, blobs)
            &&& tells(current, blobs, files)
            &&& current.entries.dom().finite()
            &&& all_went_well(planned(target, current, guarded), fates)
        }),
        0 <= i < sighted.len(),
        sighted[i].found is Regular,
        sighted[i].found->content is Some || reusable(
            latest_of(s, thread),
            sighted[i].path@,
            sighted[i].found->stat,
            now,
        ),
        !guarded.contains(sighted[i].path@),
    ensures
        ({
            let after = checkpointed(s, thread, turn, sighted, complete, now);
            let target = after.manifests[after.refs.turns[record_text(turn)]];
            let end = carried_out(files, planned(target, current, guarded), blobs, fates);
            let p = sighted[i].path@;
            end.contains_key(p) && end[p] == past[p]
        }),
{
    let prev = latest_of(s, thread);
    let after = checkpointed(s, thread, turn, sighted, complete, now);
    let target = after.manifests[after.refs.turns[record_text(turn)]];
    let m = captured(progress(s, thread, sighted, now), complete);
    assert(target == m);
    let p = sighted[i].path@;
    a_capture_tells_the_truth(sighted, prev, now, s.blobs, past, complete);
    captured_paths_are_finite(sighted, prev, now, s.blobs);
    a_seen_file_is_recorded(sighted, prev, now, s.blobs, i);
    a_rewind_brings_back_what_was_captured(
        target,
        after.blobs,
        past,
        current,
        guarded,
        blobs,
        files,
        fates,
        p,
    );
}

/// A file that was seen and read, or that the previous manifest answers for, is
/// recorded, whatever else is seen afterwards.
pub proof fn a_seen_file_is_recorded(
    sightings: Seq<Sighting>,
    prev: Option<ManifestView>,
    now: Moment,
    blobs: Map<Seq<char>, Seq<u8>>,
    i: int,
)
    requires
        0 <= i < sightings.len(),
        sightings[i].found is Regular,
        sightings[i].found->content is Some || reusable(
            prev,
            sightings[i].path@,
            sightings[i].found->stat,
            now,
        ),
    ensures
        all_seen(sightings, prev, now, blobs).entries.contains_key(sightings[i].path@),
    decreases sightings.len(),
{
    let front = sightings.drop_last();
    if i < front.len() {
        assert(front[i] == sightings[i]);
        a_seen_file_is_recorded(front, prev, now, blobs, i);
    } else {
        assert(sightings.last() == sightings[i]);
    }
}

/// A path that was looked for and not there is recorded as absent, unless the
/// same capture found it as well.
pub proof fn a_path_that_is_missing_is_recorded_as_absent(
    sightings: Seq<Sighting>,
    prev: Option<ManifestView>,
    now: Moment,
    blobs: Map<Seq<char>, Seq<u8>>,
    i: int,
)
    requires
        0 <= i < sightings.len(),
        sightings[i].found is Missing,
    ensures
        ({
            let p = all_seen(sightings, prev, now, blobs);
            p.absent.contains(sightings[i].path@) || p.entries.contains_key(sightings[i].path@)
        }),
        (forall|k: int|
            0 <= k < sightings.len() && (#[trigger] sightings[k]).path@ == sightings[i].path@
                ==> !(sightings[k].found is Regular)) ==> all_seen(
            sightings,
            prev,
            now,
            blobs,
        ).absent.contains(sightings[i].path@),
    decreases sightings.len(),
{
    let front = sightings.drop_last();
    let p = sightings[i].path@;
    if i < front.len() {
        assert(front[i] == sightings[i]);
        a_path_that_is_missing_is_recorded_as_absent(front, prev, now, blobs, i);
        if forall|k: int|
            0 <= k < sightings.len() && (#[trigger] sightings[k]).path@ == p ==> !(
            sightings[k].found is Regular) {
            assert forall|k: int| 0 <= k < front.len() && (#[trigger] front[k]).path@ == p implies !(
            front[k].found is Regular) by {
                assert(front[k] == sightings[k]);
            }
            assert(sightings[sightings.len() - 1] == sightings.last());
        }
    } else {
        assert(sightings.last() == sightings[i]);
        if forall|k: int|
            0 <= k < sightings.len() && (#[trigger] sightings[k]).path@ == p ==> !(
            sightings[k].found is Regular) {
            crate::checkpoint::nothing_is_recorded_unseen(front, prev, now, blobs, p);
            if crate::checkpoint::seen_regular(front, p) {
                let k = choose|k: int|
                    0 <= k < front.len() && (#[trigger] front[k]).path@ == p
                        && front[k].found is Regular;
                assert(sightings[k] == front[k]);
            }
        }
    }
}

/// The image says what the file is: its content and its mode, or that it is not
/// there.
pub open spec fn is_image_of(image: PreImage, files: Map<Seq<char>, FileState>) -> bool {
    match image.content {
        Some(bytes) => files.contains_key(image.path@) && files[image.path@].content == bytes@ && (
        match image.mode {
            Some(mode) => files[image.path@].mode == mode,
            None => files[image.path@].mode == 0o644,
        }),
        None => !files.contains_key(image.path@),
    }
}

/// No manifest that the batch would record has the id of another one.
pub open spec fn no_clash(
    s: SessionView,
    turn: Seq<char>,
    images: Seq<PreImage>,
    rules: Seq<IgnoreRules>,
) -> bool {
    forall|k: int|
        0 <= k < images.len() ==> {
            let mid = #[trigger] images_taken(s, turn, images.take(k), rules);
            let m = with_pre_edit(
                attach_base(mid.store, s.thread),
                images[k].path@,
                content_if(images[k].content),
                image_mode(images[k]),
            );
            mid.store.manifests.contains_key(manifest_id(m))
                ==> mid.store.manifests[manifest_id(m)] == m
        }
}

/// A batch of pre-edit images tells the truth. Where every image says what its
/// file is, and the latest manifest told the truth, the latest one afterwards
/// does too, and it says something of every path that the rules do not ignore.
/// Blobs are added and none is changed.
pub proof fn a_batch_of_images_tells_the_truth(
    s: SessionView,
    turn: Seq<char>,
    images: Seq<PreImage>,
    rules: Seq<IgnoreRules>,
    files: Map<Seq<char>, FileState>,
    i: int,
)
    requires
        !latest_is_missing(s.store, s.thread),
        tells(attach_base(s.store, s.thread), s.store.blobs, files),
        no_collision(s.store.blobs, files),
        no_clash(s, turn, images, rules),
        forall|k: int| 0 <= k < images.len() ==> is_image_of(#[trigger] images[k], files),
    ensures
        ({
            let after = images_taken(s, turn, images, rules);
            let m = attach_base(after.store, s.thread);
            &&& !latest_is_missing(after.store, s.thread)
            &&& tells(m, after.store.blobs, files)
            &&& no_collision(after.store.blobs, files)
            &&& kept(s.store.blobs, after.store.blobs)
            &&& after.thread == s.thread
            &&& 0 <= i < images.len() && !any_ignore(rules, images[i].path@) ==> if images[i].content is Some {
                m.entries.contains_key(images[i].path@)
                    && after.store.blobs[m.entries[images[i].path@].hash] == images[i].content->0@
            } else {
                m.absent.contains(images[i].path@)
            }
        }),
    decreases images.len(),
{
    if images.len() > 0 {
        let front = images.drop_last();
        let image = images.last();
        let last = images.len() - 1;
        assert(images.take(last) =~= front);
        assert forall|k: int| 0 <= k < front.len() implies is_image_of(
            #[trigger] front[k],
            files,
        ) by {
            assert(front[k] == images[k]);
        }
        assert(no_clash(s, turn, front, rules)) by {
            assert forall|k: int| 0 <= k < front.len() implies {
                let mid = #[trigger] images_taken(s, turn, front.take(k), rules);
                let m = with_pre_edit(
                    attach_base(mid.store, s.thread),
                    front[k].path@,
                    content_if(front[k].content),
                    image_mode(front[k]),
                );
                mid.store.manifests.contains_key(manifest_id(m))
                    ==> mid.store.manifests[manifest_id(m)] == m
            } by {
                assert(front.take(k) =~= images.take(k));
                assert(front[k] == images[k]);
                let mid = images_taken(s, turn, images.take(k), rules);
            }
        }
        a_batch_of_images_tells_the_truth(s, turn, front, rules, files, i);
        let mid = images_taken(s, turn, front, rules);
        assert(images_taken(s, turn, images.take(last), rules) == mid);
        assert(is_image_of(images[last], files));
        if 0 <= i < last {
            assert(front[i] == images[i]);
        }
        let after = images_taken(s, turn, images, rules);
        let base = attach_base(mid.store, s.thread);
        let m = attach_base(after.store, s.thread);
        if !any_ignore(rules, image.path@) {
            if covers(base, image.path@) {
                assert(after.store == mid.store);
            } else {
                an_attach_tells_the_truth(
                    mid.store,
                    s.thread,
                    turn,
                    image.path@,
                    content_if(image.content),
                    image_mode(image),
                    files,
                    Stat { mode: 0, size: 0, modified: None },
                    Moment { secs: 0, nanos: 0 },
                );
                assert(m == with_pre_edit(
                    base,
                    image.path@,
                    content_if(image.content),
                    image_mode(image),
                ));
                if let Some(bytes) = content_if(image.content) {
                    assert(files[image.path@].content == bytes);
                    assert forall|p: Seq<char>|
                        files.contains_key(p) && after.store.blobs.contains_key(
                            content_hash((#[trigger] files[p]).content),
                        ) implies after.store.blobs[content_hash(files[p].content)]
                        == files[p].content by {
                        if !mid.store.blobs.contains_key(content_hash(files[p].content)) {
                            assert(content_hash(files[p].content) == content_hash(bytes));
                            assert(files[p].content == files[image.path@].content);
                        }
                    }
                }
            }
        }
    }
}

} // verus!
