//! What every operation of the store keeps, and what turns resolve to.

use vstd::prelude::*;

use crate::blob::{addressed, kept, storing_keeps_blobs_addressed};
use crate::checkpoint::{
    all_seen, captured, captured_blobs_are_there, captures_keep_blobs, Sighting,
};
use crate::gc::{is_live, uses_blob};
use crate::manifest::{
    fits, manifest_bytes, manifest_bytes_distinct, manifest_id, ManifestView, Moment,
};
use crate::refs::{
    ensured, held, log_of, logs_manifest, pointed_at, popped, pushed, record_text, records_manifest,
    restores_of, RecordView, RefView, RefsView,
};
use crate::store::{
    attach_base, attached, checkpointed, inherited, last_of_turn, last_of_turn_is_last, latest_id,
    latest_is_missing, latest_of, progress, recorded, swept, with_pre_edit, StoreView,
};

verus! {

/// Every manifest is kept under its id.
pub open spec fn identified(manifests: Map<Seq<char>, ManifestView>) -> bool {
    forall|id: Seq<char>| #[trigger] manifests.contains_key(id) ==> manifest_id(manifests[id]) == id
}

/// The blob of every file of the manifest is there.
pub open spec fn is_backed(m: ManifestView, blobs: Map<Seq<char>, Seq<u8>>) -> bool {
    forall|p: Seq<char>| #[trigger]
        m.entries.contains_key(p) ==> blobs.contains_key(m.entries[p].hash)
}

/// Every record points at manifests that are there.
pub open spec fn records_resolve(
    refs: RefsView,
    manifests: Map<Seq<char>, ManifestView>,
) -> bool {
    &&& forall|t: Seq<char>, i: int|
        refs.logs.contains_key(t) && 0 <= i < refs.logs[t].len() ==> manifests.contains_key(
            (#[trigger] refs.logs[t][i]).manifest_id,
        )
    &&& forall|t: Seq<char>| #[trigger]
        refs.turns.contains_key(t) ==> manifests.contains_key(refs.turns[t])
    &&& forall|k: Seq<char>, i: int|
        refs.restores.contains_key(k) && 0 <= i < refs.restores[k].len() ==> manifests.contains_key(
            (#[trigger] refs.restores[k][i]).target,
        ) && manifests.contains_key(refs.restores[k][i].safety)
}

/// Nothing is missing from the store: every blob and every manifest is under
/// its own name, every manifest has its blobs, and every record its manifests.
pub open spec fn intact(s: StoreView) -> bool {
    &&& addressed(s.blobs)
    &&& identified(s.manifests)
    &&& forall|id: Seq<char>| #[trigger]
        s.manifests.contains_key(id) ==> is_backed(s.manifests[id], s.blobs)
    &&& records_resolve(s.refs, s.manifests)
}

/// The latest manifest of a thread is there.
pub proof fn an_intact_store_has_the_latest_manifest(s: StoreView, thread: Seq<char>)
    requires
        intact(s),
    ensures
        !latest_is_missing(s, thread),
{
    let log = log_of(s.refs, thread);
    if log.len() > 0 {
        assert(s.refs.logs[record_text(thread)][log.len() - 1] == log.last());
    }
}

/// Recording a manifest whose blobs are there keeps the store intact.
proof fn recording_keeps_the_store_intact(
    s: StoreView,
    thread: Seq<char>,
    turn: Seq<char>,
    m: ManifestView,
)
    requires
        intact(s),
        is_backed(m, s.blobs),
    ensures
        intact(recorded(s, thread, turn, m)),
{
    let after = recorded(s, thread, turn, m);
    let id = manifest_id(m);
    assert forall|t: Seq<char>, i: int|
        after.refs.logs.contains_key(t) && 0 <= i
            < after.refs.logs[t].len() implies after.manifests.contains_key(
        (#[trigger] after.refs.logs[t][i]).manifest_id,
    ) by {
        if t == record_text(thread) {
            let log = log_of(s.refs, thread);
            if i < log.len() {
                assert(s.refs.logs[t][i] == after.refs.logs[t][i]);
            }
        } else {
            assert(s.refs.logs[t][i] == after.refs.logs[t][i]);
        }
    }
    assert forall|k: Seq<char>, i: int|
        after.refs.restores.contains_key(k) && 0 <= i
            < after.refs.restores[k].len() implies after.manifests.contains_key(
        (#[trigger] after.refs.restores[k][i]).target,
    ) && after.manifests.contains_key(after.refs.restores[k][i].safety) by {
        assert(s.refs.restores[k][i] == after.refs.restores[k][i]);
    }
}

/// The blobs of a capture are under their own names where those before it
/// were.
pub proof fn captures_keep_blobs_addressed(
    files: Seq<Sighting>,
    prev: Option<ManifestView>,
    now: Moment,
    blobs: Map<Seq<char>, Seq<u8>>,
)
    requires
        addressed(blobs),
    ensures
        addressed(all_seen(files, prev, now, blobs).blobs),
    decreases files.len(),
{
    if files.len() > 0 {
        captures_keep_blobs_addressed(files.drop_last(), prev, now, blobs);
    }
}

/// A checkpoint keeps the store intact; so does the safety checkpoint of a
/// restore.
pub proof fn a_checkpoint_keeps_the_store_intact(
    s: StoreView,
    thread: Seq<char>,
    turn: Seq<char>,
    files: Seq<Sighting>,
    complete: bool,
    now: Moment,
)
    requires
        intact(s),
    ensures
        intact(checkpointed(s, thread, turn, files, complete, now)),
{
    an_intact_store_has_the_latest_manifest(s, thread);
    let prev = latest_of(s, thread);
    let p = progress(s, thread, files, now);
    captures_keep_blobs(files, prev, now, s.blobs);
    captures_keep_blobs_addressed(files, prev, now, s.blobs);
    let mid = StoreView { blobs: p.blobs, ..s };
    if log_of(s.refs, thread).len() > 0 {
        assert(s.manifests.contains_key(latest_id(s, thread)));
    }
    assert forall|path: Seq<char>| #[trigger]
        captured(p, complete).entries.contains_key(path) implies p.blobs.contains_key(
        captured(p, complete).entries[path].hash,
    ) by {
        captured_blobs_are_there(files, prev, now, s.blobs, path);
    }
    assert forall|id: Seq<char>| #[trigger] mid.manifests.contains_key(id) implies is_backed(
        mid.manifests[id],
        mid.blobs,
    ) by {
        assert(is_backed(s.manifests[id], s.blobs));
    }
    recording_keeps_the_store_intact(mid, thread, turn, captured(p, complete));
}

/// Recording a pre-edit image keeps the store intact.
pub proof fn an_attach_keeps_the_store_intact(
    s: StoreView,
    thread: Seq<char>,
    turn: Seq<char>,
    path: Seq<char>,
    content: Option<Seq<u8>>,
    mode: u32,
)
    requires
        intact(s),
    ensures
        intact(attached(s, thread, turn, path, content, mode)),
{
    an_intact_store_has_the_latest_manifest(s, thread);
    let base = attach_base(s, thread);
    if log_of(s.refs, thread).len() > 0 {
        assert(s.manifests.contains_key(latest_id(s, thread)));
    }
    assert(is_backed(base, s.blobs));
    let blobs = match content {
        Some(bytes) => crate::blob::stored(s.blobs, bytes),
        None => s.blobs,
    };
    if content is Some {
        storing_keeps_blobs_addressed(s.blobs, content->0);
    }
    let mid = StoreView { blobs, ..s };
    assert forall|id: Seq<char>| #[trigger] mid.manifests.contains_key(id) implies is_backed(
        mid.manifests[id],
        mid.blobs,
    ) by {
        assert(is_backed(s.manifests[id], s.blobs));
    }
    recording_keeps_the_store_intact(mid, thread, turn, with_pre_edit(base, path, content, mode));
}

/// Giving a thread a log, or another thread's captures, keeps every record
/// resolving.
pub proof fn inheriting_keeps_records_resolving(
    refs: RefsView,
    manifests: Map<Seq<char>, ManifestView>,
    source: Seq<char>,
    new: Seq<char>,
    turn: Seq<char>,
)
    requires
        records_resolve(refs, manifests),
    ensures
        records_resolve(ensured(refs, new), manifests),
        records_resolve(inherited(refs, source, new, turn), manifests),
{
    let log = log_of(refs, source);
    last_of_turn_is_last(log, turn);
    let cut = last_of_turn(log, turn) + 1;
    let a = ensured(refs, new);
    let b = inherited(refs, source, new, turn);
    let base = log_of(refs, new);
    assert forall|t: Seq<char>, i: int|
        a.logs.contains_key(t) && 0 <= i < a.logs[t].len() implies manifests.contains_key(
        (#[trigger] a.logs[t][i]).manifest_id,
    ) by {
        assert(refs.logs[t][i] == a.logs[t][i]);
    }
    assert forall|t: Seq<char>, i: int|
        b.logs.contains_key(t) && 0 <= i < b.logs[t].len() implies manifests.contains_key(
        (#[trigger] b.logs[t][i]).manifest_id,
    ) by {
        if t == record_text(new) {
            if i < base.len() {
                assert(refs.logs[t][i] == b.logs[t][i]);
            } else {
                assert(b.logs[t][i] == log[i - base.len()]);
                assert(refs.logs[record_text(source)][i - base.len()] == log[i - base.len()]);
            }
        } else {
            assert(refs.logs[t][i] == b.logs[t][i]);
        }
    }
    assert forall|k: Seq<char>, i: int|
        refs.restores.contains_key(k) && 0 <= i
            < refs.restores[k].len() implies manifests.contains_key(
        (#[trigger] a.restores[k][i]).target,
    ) && manifests.contains_key(a.restores[k][i].safety) by {
        assert(refs.restores[k][i] == a.restores[k][i]);
    }
    assert forall|k: Seq<char>, i: int|
        refs.restores.contains_key(k) && 0 <= i
            < refs.restores[k].len() implies manifests.contains_key(
        (#[trigger] b.restores[k][i]).target,
    ) && manifests.contains_key(b.restores[k][i].safety) by {
        assert(refs.restores[k][i] == b.restores[k][i]);
    }
}

/// Dropping a thread keeps every other record resolving.
pub proof fn dropping_keeps_records_resolving(
    refs: RefsView,
    after: RefsView,
    manifests: Map<Seq<char>, ManifestView>,
    thread: Seq<char>,
)
    requires
        records_resolve(refs, manifests),
        after.logs == refs.logs.remove(record_text(thread)),
        after.turns == refs.turns,
        after.restores == refs.restores,
    ensures
        records_resolve(after, manifests),
{
    assert forall|t: Seq<char>, i: int|
        after.logs.contains_key(t) && 0 <= i < after.logs[t].len() implies manifests.contains_key(
        (#[trigger] after.logs[t][i]).manifest_id,
    ) by {
        assert(refs.logs[t][i] == after.logs[t][i]);
    }
}

/// Filing and spending restores keeps every record resolving, where the
/// manifests of the restore are there.
pub proof fn restores_keep_records_resolving(
    refs: RefsView,
    manifests: Map<Seq<char>, ManifestView>,
    key: Seq<char>,
    record: RecordView,
)
    requires
        records_resolve(refs, manifests),
        manifests.contains_key(record.target),
        manifests.contains_key(record.safety),
    ensures
        records_resolve(pushed(refs, key, record), manifests),
        records_resolve(popped(refs, key), manifests),
{
    let before = restores_of(refs, key);
    let all = before.push(record);
    let a = pushed(refs, key, record);
    let b = popped(refs, key);
    let at = record_text(key);
    assert forall|t: Seq<char>, i: int|
        a.logs.contains_key(t) && 0 <= i < a.logs[t].len() implies manifests.contains_key(
        (#[trigger] a.logs[t][i]).manifest_id,
    ) by {
        assert(refs.logs[t][i] == a.logs[t][i]);
    }
    assert forall|t: Seq<char>, i: int|
        b.logs.contains_key(t) && 0 <= i < b.logs[t].len() implies manifests.contains_key(
        (#[trigger] b.logs[t][i]).manifest_id,
    ) by {
        assert(refs.logs[t][i] == b.logs[t][i]);
    }
    assert forall|k: Seq<char>, i: int|
        a.restores.contains_key(k) && 0 <= i < a.restores[k].len() implies manifests.contains_key(
        (#[trigger] a.restores[k][i]).target,
    ) && manifests.contains_key(a.restores[k][i].safety) by {
        if k == at {
            let j = i + all.len() - a.restores[k].len();
            assert(a.restores[k][i] == all[j]);
            if j < before.len() {
                assert(refs.restores[at][j] == all[j]);
            }
        } else {
            assert(refs.restores[k][i] == a.restores[k][i]);
        }
    }
    assert forall|k: Seq<char>, i: int|
        b.restores.contains_key(k) && 0 <= i < b.restores[k].len() implies manifests.contains_key(
        (#[trigger] b.restores[k][i]).target,
    ) && manifests.contains_key(b.restores[k][i].safety) by {
        assert(refs.restores[k][i] == b.restores[k][i]);
    }
}

/// A collection keeps the store intact: whatever still points somewhere still
/// finds what it points at.
pub proof fn a_collection_keeps_the_store_intact(s: StoreView)
    requires
        intact(s),
    ensures
        intact(swept(s)),
{
    let after = swept(s);
    assert forall|id: Seq<char>| #[trigger] after.manifests.contains_key(id) implies is_backed(
        after.manifests[id],
        after.blobs,
    ) by {
        assert(is_live(s.refs, s.manifests, id));
        assert(is_backed(s.manifests[id], s.blobs));
        assert forall|p: Seq<char>| #[trigger]
            after.manifests[id].entries.contains_key(p) implies after.blobs.contains_key(
            after.manifests[id].entries[p].hash,
        ) by {
            assert(uses_blob(s.manifests[id], s.manifests[id].entries[p].hash));
        }
    }
    assert forall|t: Seq<char>, i: int|
        after.refs.logs.contains_key(t) && 0 <= i
            < after.refs.logs[t].len() implies after.manifests.contains_key(
        (#[trigger] after.refs.logs[t][i]).manifest_id,
    ) by {
        assert(s.refs.logs[t][i] == after.refs.logs[t][i]);
        assert(logs_manifest(s.refs.logs[t], s.refs.logs[t][i].manifest_id));
        assert(pointed_at(s.refs, s.refs.logs[t][i].manifest_id));
    }
    assert forall|t: Seq<char>| #[trigger]
        after.refs.turns.contains_key(t) implies after.manifests.contains_key(
        after.refs.turns[t],
    ) by {
        assert(s.refs.turns.contains_key(t));
        assert(held(s.refs, t));
        assert(pointed_at(s.refs, s.refs.turns[t]));
    }
    assert forall|k: Seq<char>, i: int|
        after.refs.restores.contains_key(k) && 0 <= i
            < after.refs.restores[k].len() implies after.manifests.contains_key(
        (#[trigger] after.refs.restores[k][i]).target,
    ) && after.manifests.contains_key(after.refs.restores[k][i].safety) by {
        let record = s.refs.restores[k][i];
        assert(record == after.refs.restores[k][i]);
        assert(records_manifest(s.refs.restores[k], record.target));
        assert(records_manifest(s.refs.restores[k], record.safety));
        assert(pointed_at(s.refs, record.target));
        assert(pointed_at(s.refs, record.safety));
    }
}

/// A turn resolves to its checkpoint: the turn index names the manifest that
/// was captured, and the manifest is there as it was captured, unless two
/// different manifests share a hash.
pub proof fn a_turn_resolves_to_its_checkpoint(
    s: StoreView,
    thread: Seq<char>,
    turn: Seq<char>,
    m: ManifestView,
)
    requires
        identified(s.manifests),
        fits(m),
        s.manifests.contains_key(manifest_id(m)) ==> fits(s.manifests[manifest_id(m)])
            && manifest_bytes(s.manifests[manifest_id(m)]) == manifest_bytes(m),
    ensures
        ({
            let after = recorded(s, thread, turn, m);
            let id = after.refs.turns[record_text(turn)];
            &&& after.refs.turns.contains_key(record_text(turn))
            &&& after.manifests.contains_key(id)
            &&& after.manifests[id] == m
            &&& log_of(after.refs, thread).last() == RefView { turn_id: turn, manifest_id: id }
        }),
{
    if s.manifests.contains_key(manifest_id(m)) {
        manifest_bytes_distinct(s.manifests[manifest_id(m)], m);
    }
}

/// Recording one turn changes what no other turn resolves to, whichever thread
/// records it.
pub proof fn other_turns_keep_resolving(
    s: StoreView,
    thread: Seq<char>,
    turn: Seq<char>,
    m: ManifestView,
    other: Seq<char>,
)
    requires
        record_text(turn) != record_text(other),
    ensures
        ({
            let after = recorded(s, thread, turn, m);
            &&& after.refs.turns.contains_key(record_text(other))
                == s.refs.turns.contains_key(record_text(other))
            &&& s.refs.turns.contains_key(record_text(other))
                ==> after.refs.turns[record_text(other)] == s.refs.turns[record_text(other)]
        }),
{
}

/// Attaching to a turn only adds: what the latest manifest says of any other
/// path, the new one says too, and it says something of the path.
pub proof fn an_attach_extends_the_latest_manifest(
    m: ManifestView,
    path: Seq<char>,
    content: Option<Seq<u8>>,
    mode: u32,
    other: Seq<char>,
)
    requires
        other != path,
    ensures
        ({
            let after = with_pre_edit(m, path, content, mode);
            &&& crate::manifest::covers(after, path)
            &&& after.entries.contains_key(other) == m.entries.contains_key(other)
            &&& m.entries.contains_key(other) ==> after.entries[other] == m.entries[other]
            &&& after.absent.contains(other) == m.absent.contains(other)
        }),
{
}

/// The last capture of a turn in the front of a log.
proof fn last_of_turn_in_front(log: Seq<RefView>, turn: Seq<char>, n: int)
    requires
        0 <= n <= log.len(),
        last_of_turn(log, turn) < n,
    ensures
        last_of_turn(log.take(n), turn) == last_of_turn(log, turn),
    decreases log.len(),
{
    if n == log.len() {
        assert(log.take(n) =~= log);
    } else {
        last_of_turn_is_last(log, turn);
        assert(log[log.len() - 1].turn_id != turn);
        last_of_turn_in_front(log.drop_last(), turn, n);
        assert(log.drop_last().take(n) =~= log.take(n));
    }
}

/// A fork resolves what it inherits as its source does: in a thread that had
/// no captures, every turn whose last capture was taken over has the same last
/// capture as in the source.
pub proof fn a_fork_resolves_turns_as_its_source(
    refs: RefsView,
    source: Seq<char>,
    new: Seq<char>,
    through: Seq<char>,
    turn: Seq<char>,
)
    requires
        log_of(refs, new).len() == 0,
        last_of_turn(log_of(refs, source), turn) <= last_of_turn(log_of(refs, source), through),
    ensures
        ({
            let from = log_of(refs, source);
            let to = log_of(inherited(refs, source, new, through), new);
            &&& to == from.take(last_of_turn(from, through) + 1)
            &&& last_of_turn(to, turn) == last_of_turn(from, turn)
            &&& last_of_turn(from, turn) >= 0 ==> to[last_of_turn(to, turn)]
                == from[last_of_turn(from, turn)]
        }),
{
    let from = log_of(refs, source);
    let cut = last_of_turn(from, through) + 1;
    last_of_turn_is_last(from, through);
    last_of_turn_is_last(from, turn);
    assert(log_of(refs, new) + from.take(cut) =~= from.take(cut));
    last_of_turn_in_front(from, turn, cut);
}

} // verus!
