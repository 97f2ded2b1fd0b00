//! `SnapshotStore`: blobs, manifests, records, checkpoints, restores and
//! garbage collection together, under one root directory.

use vstd::prelude::*;

use crate::apply::ApplyStats;
use crate::blob::{stored, BlobStore};
use crate::checkpoint::{
    all_seen, all_settled, an_untouched_workspace_has_one_manifest, capture, captured, elapsed,
    previous, Checkpoint, Progress, Sighting,
};
use crate::digest::content_hash;
use crate::error::SnapshotError;
use crate::gc::{collect_garbage, counted, live_blobs, live_manifests, GcStats};
use crate::manifest::{
    covers, empty_manifest, manifest_id, saved, EntryView, FileEntry, Manifest, ManifestStore,
    ManifestView, Moment,
};
use crate::paths::{join, join_text};
use crate::refs::{
    appended, ensured, log_of, popped, pruned, pushed, record_text, restores_of, with_log,
    with_turn, RecordView, RefStore, RefView, RefsView, RestoreRecord, SnapshotRef,
};
use crate::restore::{answered, plan_guarded, planned, protected_paths, RestorePlan};
use crate::table::{Duplicate, NameSet};
use crate::text::{joined, same};

verus! {

/// The front of the turn id under which a safety checkpoint is recorded.
pub const SAFETY_TURN_PREFIX: &'static str = "safety-restore:";

/// Everything the snapshots consist of, as far as it is at hand.
pub struct SnapshotStore {
    pub blobs: BlobStore,
    pub manifests: ManifestStore,
    pub refs: RefStore,
    pub root: String,
}

/// What a `SnapshotStore` stands for.
#[verifier::ext_equal]
pub struct StoreView {
    pub blobs: Map<Seq<char>, Seq<u8>>,
    pub manifests: Map<Seq<char>, ManifestView>,
    pub refs: RefsView,
}

impl View for SnapshotStore {
    type V = StoreView;

    open spec fn view(&self) -> StoreView {
        StoreView { blobs: self.blobs@, manifests: self.manifests@, refs: self.refs@ }
    }
}

/// A state that can be restored.
#[derive(Debug, Clone, PartialEq, Eq)]
pub struct RestoreTarget {
    id: String,
}

impl View for RestoreTarget {
    type V = Seq<char>;

    closed spec fn view(&self) -> Seq<char> {
        self.id@
    }
}

impl RestoreTarget {
    /// The state that the manifest with this id records.
    pub fn of_manifest(id: String) -> (r: Self)
        ensures
            r@ == id@,
    {
        RestoreTarget { id }
    }

    pub fn manifest_id(&self) -> (r: &str)
        ensures
            r@ == self@,
    {
        self.id.as_str()
    }
}

/// What a restore is for.
#[derive(Debug, Clone, Copy, PartialEq, Eq, Structural)]
pub enum RestoreKind {
    /// Back to an earlier turn: it can be undone afterwards.
    Rewind,
    /// Back from the latest rewind: that rewind is spent.
    Undo,
}

/// A restore whose plan has yet to be applied.
#[derive(Debug)]
pub struct PendingRestore {
    pub target: RestoreTarget,
    /// The checkpoint of the state before the restore.
    pub safety: RestoreTarget,
    pub plan: RestorePlan,
}

/// A restore that has been applied.
#[derive(Debug)]
pub struct RestoreOutcome {
    /// The checkpoint of the state before the restore; restoring it undoes
    /// this one.
    pub safety: RestoreTarget,
    pub plan: RestorePlan,
    pub stats: ApplyStats,
}

/// The latest capture of a thread that has one.
pub open spec fn latest_id(s: StoreView, thread: Seq<char>) -> Seq<char> {
    log_of(s.refs, thread).last().manifest_id
}

/// The thread has captures, and the manifest of the latest is not there.
pub open spec fn latest_is_missing(s: StoreView, thread: Seq<char>) -> bool {
    log_of(s.refs, thread).len() > 0 && !s.manifests.contains_key(latest_id(s, thread))
}

/// The manifest of a thread's latest capture.
pub open spec fn latest_of(s: StoreView, thread: Seq<char>) -> Option<ManifestView> {
    if log_of(s.refs, thread).len() == 0 {
        None
    } else {
        Some(s.manifests[latest_id(s, thread)])
    }
}

/// The store once a manifest has been kept and recorded under a turn.
pub open spec fn recorded(
    s: StoreView,
    thread: Seq<char>,
    turn: Seq<char>,
    m: ManifestView,
) -> StoreView {
    let id = manifest_id(m);
    StoreView {
        blobs: s.blobs,
        manifests: saved(s.manifests, m),
        refs: with_turn(
            appended(s.refs, thread, RefView { turn_id: turn, manifest_id: id }),
            turn,
            id,
        ),
    }
}

/// What a checkpoint of a thread adds up to.
pub open spec fn progress(
    s: StoreView,
    thread: Seq<char>,
    files: Seq<Sighting>,
    now: Moment,
) -> Progress {
    all_seen(files, latest_of(s, thread), now, s.blobs)
}

/// The store once a checkpoint has been taken.
pub open spec fn checkpointed(
    s: StoreView,
    thread: Seq<char>,
    turn: Seq<char>,
    files: Seq<Sighting>,
    complete: bool,
    now: Moment,
) -> StoreView {
    let p = progress(s, thread, files, now);
    recorded(StoreView { blobs: p.blobs, ..s }, thread, turn, captured(p, complete))
}

/// The manifest that an attach starts from.
pub open spec fn attach_base(s: StoreView, thread: Seq<char>) -> ManifestView {
    match latest_of(s, thread) {
        Some(m) => m,
        None => empty_manifest(),
    }
}

/// The entry of a file whose content was handed over before an edit. It has no
/// fingerprint.
pub open spec fn pre_edit_entry(content: Seq<u8>, mode: u32) -> EntryView {
    EntryView {
        mode,
        size: content.len() as u64,
        mtime_secs: 0,
        mtime_nanos: 0,
        hash: content_hash(content),
    }
}

/// A manifest with what `path` was before an edit: its content, or that it did
/// not exist.
pub open spec fn with_pre_edit(
    m: ManifestView,
    path: Seq<char>,
    content: Option<Seq<u8>>,
    mode: u32,
) -> ManifestView {
    match content {
        Some(bytes) => ManifestView {
            entries: m.entries.insert(path, pre_edit_entry(bytes, mode)),
            ..m
        },
        None => ManifestView { absent: m.absent.insert(path), ..m },
    }
}

/// The store once what `path` was before an edit has been recorded.
pub open spec fn attached(
    s: StoreView,
    thread: Seq<char>,
    turn: Seq<char>,
    path: Seq<char>,
    content: Option<Seq<u8>>,
    mode: u32,
) -> StoreView {
    let blobs = match content {
        Some(bytes) => stored(s.blobs, bytes),
        None => s.blobs,
    };
    recorded(
        StoreView { blobs, ..s },
        thread,
        turn,
        with_pre_edit(attach_base(s, thread), path, content, mode),
    )
}

/// What bytes that may not be there stand for.
pub open spec fn bytes_if(content: Option<&[u8]>) -> Option<Seq<u8>> {
    match content {
        Some(bytes) => Some(bytes@),
        None => None,
    }
}

/// The place in a log of the last capture of a turn; negative where there is
/// none.
pub open spec fn last_of_turn(log: Seq<RefView>, turn: Seq<char>) -> int
    decreases log.len(),
{
    if log.len() == 0 {
        -1
    } else if log.last().turn_id == turn {
        log.len() - 1
    } else {
        last_of_turn(log.drop_last(), turn)
    }
}

/// `last_of_turn` is the greatest place with a capture of the turn.
pub proof fn last_of_turn_is_last(log: Seq<RefView>, turn: Seq<char>)
    ensures
        -1 <= last_of_turn(log, turn) < log.len(),
        last_of_turn(log, turn) >= 0 ==> log[last_of_turn(log, turn)].turn_id == turn,
        forall|i: int|
            last_of_turn(log, turn) < i < log.len() ==> (#[trigger] log[i]).turn_id != turn,
    decreases log.len(),
{
    if log.len() > 0 && log.last().turn_id != turn {
        last_of_turn_is_last(log.drop_last(), turn);
        assert forall|i: int| last_of_turn(log, turn) < i < log.len() implies (
        #[trigger] log[i]).turn_id != turn by {
            if i < log.len() - 1 {
                assert(log.drop_last()[i] == log[i]);
            }
        }
    }
}

/// The records once a thread has taken over another's captures, through the
/// last one of a turn.
pub open spec fn inherited(
    refs: RefsView,
    source: Seq<char>,
    new: Seq<char>,
    turn: Seq<char>,
) -> RefsView {
    let log = log_of(refs, source);
    with_log(refs, new, log_of(refs, new) + log.take(last_of_turn(log, turn) + 1))
}

/// Every capture of the log has its manifest.
pub open spec fn log_is_whole(s: StoreView, log: Seq<RefView>) -> bool {
    forall|i: int| 0 <= i < log.len() ==> s.manifests.contains_key((#[trigger] log[i]).manifest_id)
}

/// `id` is the first manifest of the log that is not there.
pub open spec fn first_missing(s: StoreView, log: Seq<RefView>, id: Seq<char>) -> bool {
    exists|i: int|
        0 <= i < log.len() && (#[trigger] log[i]).manifest_id == id && !s.manifests.contains_key(id)
            && log_is_whole(s, log.take(i))
}

/// Some capture of the thread says something of `path`.
pub open spec fn is_tracked(s: StoreView, thread: Seq<char>, path: Seq<char>) -> bool {
    exists|i: int|
        0 <= i < log_of(s.refs, thread).len() && covers(
            s.manifests[(#[trigger] log_of(s.refs, thread)[i]).manifest_id],
            path,
        )
}

/// The records once a restore has been filed: a rewind for the destination that
/// has the files, an undo by spending the latest. Without a destination nothing
/// is.
pub open spec fn filed(
    refs: RefsView,
    destination: Option<Seq<char>>,
    kind: RestoreKind,
    record: RecordView,
) -> RefsView {
    match destination {
        None => refs,
        Some(key) => match kind {
            RestoreKind::Rewind => pushed(refs, key, record),
            RestoreKind::Undo => popped(refs, key),
        },
    }
}

/// The turn id of the safety checkpoint before a restore.
pub open spec fn safety_turn(target: Seq<char>) -> Seq<char> {
    SAFETY_TURN_PREFIX@ + target
}

/// The error for a manifest that is not there.
pub open spec fn is_missing_manifest(e: SnapshotError, id: Seq<char>) -> bool {
    e matches SnapshotError::MissingManifest(i) && i@ == id
}

impl SnapshotStore {
    /// A store at `root` with nothing at hand yet.
    pub fn open(root: String) -> (r: Self)
        ensures
            r@.blobs == Map::<Seq<char>, Seq<u8>>::empty(),
            r@.manifests == Map::<Seq<char>, ManifestView>::empty(),
            r@.refs.logs == Map::<Seq<char>, Seq<RefView>>::empty(),
            r@.refs.turns == Map::<Seq<char>, Seq<char>>::empty(),
            r@.refs.restores == Map::<Seq<char>, Seq<RecordView>>::empty(),
            r.root@ == root@,
            r.blobs.root() == join_text(root@, "blobs"@),
            r.manifests.root() == join_text(root@, "manifests"@),
            r.refs.root() == join_text(root@, "refs"@),
    {
        let blobs = BlobStore::open(join(root.as_str(), "blobs"));
        let manifests = ManifestStore::open(join(root.as_str(), "manifests"));
        let refs = RefStore::open(join(root.as_str(), "refs"));
        SnapshotStore { blobs, manifests, refs, root }
    }

    /// The two stores are in the same place.
    pub open spec fn same_place(self, other: Self) -> bool {
        &&& self.root == other.root
        &&& self.blobs.root() == other.blobs.root()
        &&& self.manifests.root() == other.manifests.root()
        &&& self.refs.root() == other.refs.root()
    }

    /// Captures what was seen of `files` for a thread, and appends the capture
    /// to the thread's log. The previous capture serves as the cache of
    /// hashes.
    pub fn checkpoint(
        &mut self,
        thread_id: &str,
        turn_id: &str,
        files: &Vec<Sighting>,
        complete: bool,
        now: Moment,
    ) -> (r: Result<Checkpoint, SnapshotError>)
        ensures
            r is Err <==> latest_is_missing(old(self)@, thread_id@),
            r matches Err(e) ==> is_missing_manifest(e, latest_id(old(self)@, thread_id@))
                && final(self)@ == old(self)@,
            r matches Ok(cp) ==> {
                let p = progress(old(self)@, thread_id@, files@, now);
                &&& final(self)@ == checkpointed(
                    old(self)@,
                    thread_id@,
                    turn_id@,
                    files@,
                    complete,
                    now,
                )
                &&& cp.manifest@ == captured(p, complete)
                &&& cp.id@ == manifest_id(cp.manifest@)
                &&& cp.stats.reused == p.reused
                &&& cp.stats.hashed == p.hashed
                &&& cp.stats.skipped == p.skipped
            },
            final(self).same_place(*old(self)),
    {
        let prev = match self.latest_manifest(thread_id) {
            Ok(prev) => prev,
            Err(e) => return Err(e),
        };
        let cp = capture(
            &mut self.blobs,
            &mut self.manifests,
            files,
            prev.as_ref(),
            complete,
            now,
        );
        self.record(thread_id, turn_id, cp.id.clone());
        Ok(cp)
    }

    /// Records a manifest that has been kept: in the thread's log, and in the
    /// turn index.
    fn record(&mut self, thread_id: &str, turn_id: &str, id: String)
        ensures
            final(self)@.blobs == old(self)@.blobs,
            final(self)@.manifests == old(self)@.manifests,
            final(self)@.refs == with_turn(
                appended(
                    old(self)@.refs,
                    thread_id@,
                    (RefView { turn_id: turn_id@, manifest_id: id@ }),
                ),
                turn_id@,
                id@,
            ),
            final(self).same_place(*old(self)),
    {
        self.refs.append(
            thread_id,
            SnapshotRef { turn_id: turn_id.to_owned(), manifest_id: id.clone() },
        );
        self.refs.note_turn(turn_id, id);
    }

    /// Whether a thread has a log. That it has one is what marks the thread as
    /// tracking.
    pub fn thread_exists(&self, thread_id: &str) -> (r: bool)
        ensures
            r == self@.refs.logs.contains_key(record_text(thread_id@)),
    {
        self.refs.has_log(thread_id)
    }

    /// Gives a thread an empty log, if it has none.
    pub fn ensure_thread(&mut self, thread_id: &str)
        ensures
            final(self)@.blobs == old(self)@.blobs,
            final(self)@.manifests == old(self)@.manifests,
            final(self)@.refs == ensured(old(self)@.refs, thread_id@),
            final(self).same_place(*old(self)),
    {
        self.refs.ensure(thread_id);
    }

    /// Records what `path_key` was before an edit, under a turn: its content,
    /// or, where `pre_content` is `None`, that it did not exist.
    ///
    /// Where the latest manifest says something of the path already, nothing
    /// is recorded. Otherwise a manifest that extends the latest one is
    /// appended under the turn, and its id is returned.
    pub fn attach_pre_edit(
        &mut self,
        thread_id: &str,
        turn_id: &str,
        path_key: &str,
        pre_content: Option<&[u8]>,
        mode: u32,
    ) -> (r: Result<Option<String>, SnapshotError>)
        ensures
            r is Err <==> latest_is_missing(old(self)@, thread_id@),
            r matches Err(e) ==> is_missing_manifest(e, latest_id(old(self)@, thread_id@))
                && final(self)@ == old(self)@,
            r matches Ok(None) ==> covers(attach_base(old(self)@, thread_id@), path_key@)
                && final(self)@ == old(self)@,
            r matches Ok(Some(id)) ==> {
                &&& !covers(attach_base(old(self)@, thread_id@), path_key@)
                &&& final(self)@ == attached(
                    old(self)@,
                    thread_id@,
                    turn_id@,
                    path_key@,
                    bytes_if(pre_content),
                    mode,
                )
                &&& id@ == manifest_id(
                    with_pre_edit(
                        attach_base(old(self)@, thread_id@),
                        path_key@,
                        bytes_if(pre_content),
                        mode,
                    ),
                )
            },
            final(self).same_place(*old(self)),
    {
        let mut manifest = match self.latest_manifest(thread_id) {
            Ok(Some(m)) => m,
            Ok(None) => Manifest::default(),
            Err(e) => return Err(e),
        };
        if manifest.entries.contains_key(path_key) || manifest.absent.contains(path_key) {
            return Ok(None);
        }
        match pre_content {
            Some(content) => {
                let hash = self.blobs.store_bytes(content);
                manifest.entries.insert(
                    path_key.to_owned(),
                    FileEntry {
                        mode,
                        size: content.len() as u64,
                        mtime_secs: 0,
                        mtime_nanos: 0,
                        hash,
                    },
                );
            },
            None => {
                manifest.absent.insert(path_key.to_owned());
            },
        }
        let id = self.manifests.save(&manifest);
        self.record(thread_id, turn_id, id.clone());
        Ok(Some(id))
    }

    /// The manifest of the last capture that a thread recorded under a turn.
    /// Later captures of a turn extend earlier ones, so the last is the most
    /// complete.
    pub fn manifest_id_for_turn(&self, thread_id: &str, turn_id: &str) -> (r: Option<String>)
        ensures
            ({
                let log = log_of(self@.refs, thread_id@);
                let at = last_of_turn(log, turn_id@);
                match r {
                    Some(id) => at >= 0 && id@ == log[at].manifest_id,
                    None => at < 0,
                }
            }),
    {
        let log = self.refs.load(thread_id);
        match last_place(&log.entries, turn_id) {
            Some(at) => Some(log.entries[at].manifest_id.clone()),
            None => None,
        }
    }

    /// What the files looked like at the start of a turn, whichever thread
    /// asks.
    pub fn target_for_turn(&self, turn_id: &str) -> (r: Option<RestoreTarget>)
        ensures
            r is Some <==> self@.refs.turns.contains_key(record_text(turn_id@)),
            r matches Some(t) ==> t@ == self@.refs.turns[record_text(turn_id@)],
    {
        match self.refs.turn(turn_id) {
            Some(id) => Some(RestoreTarget { id }),
            None => None,
        }
    }

    /// Every path that some capture of the thread says something of.
    pub fn tracked_paths(&self, thread_id: &str) -> (r: Result<NameSet, SnapshotError>)
        ensures
            r is Ok <==> log_is_whole(self@, log_of(self@.refs, thread_id@)),
            r matches Ok(paths) ==> forall|p: Seq<char>| #[trigger]
                paths@.contains(p) <==> is_tracked(self@, thread_id@, p),
            r matches Err(e) ==> exists|id: Seq<char>| #[trigger]
                is_missing_manifest(e, id) && first_missing(
                    self@,
                    log_of(self@.refs, thread_id@),
                    id,
                ),
    {
        let history = match self.thread_history(thread_id) {
            Ok(history) => history,
            Err(e) => return Err(e),
        };
        let ghost log = log_of(self@.refs, thread_id@);
        let mut out = NameSet::new();
        for i in 0..history.len()
            invariant
                log == log_of(self@.refs, thread_id@),
                history@.len() == log.len(),
                forall|j: int|
                    0 <= j < log.len() ==> (#[trigger] history@[j]).1@
                        == self@.manifests[log[j].manifest_id],
                forall|p: Seq<char>| #[trigger]
                    out@.contains(p) <==> exists|j: int|
                        0 <= j < i && covers(self@.manifests[(#[trigger] log[j]).manifest_id], p),
        {
            let ghost was = out@;
            add_covered(&mut out, &history[i].1);
            assert forall|p: Seq<char>| #[trigger] out@.contains(p) <==> exists|j: int|
                0 <= j < i + 1 && covers(self@.manifests[(#[trigger] log[j]).manifest_id], p) by {
                assert(out@.contains(p) <==> was.contains(p) || covers(
                    self@.manifests[log[i as int].manifest_id],
                    p,
                ));
            }
        }
        Ok(out)
    }

    /// Fork inheritance: copies the source thread's captures, through the last
    /// one of a turn, into another thread's log, which is created if it is
    /// missing. Manifests are shared, not copied. Returns how many captures
    /// were taken over; none where the source has none of that turn.
    pub fn inherit_log(
        &mut self,
        source_thread_id: &str,
        new_thread_id: &str,
        through_turn_id: &str,
    ) -> (r: usize)
        ensures
            r == last_of_turn(log_of(old(self)@.refs, source_thread_id@), through_turn_id@) + 1,
            final(self)@.blobs == old(self)@.blobs,
            final(self)@.manifests == old(self)@.manifests,
            final(self)@.refs == inherited(
                old(self)@.refs,
                source_thread_id@,
                new_thread_id@,
                through_turn_id@,
            ),
            final(self).same_place(*old(self)),
    {
        let log = self.refs.load(source_thread_id);
        let ghost src = log@;
        let ghost base = log_of(self@.refs, new_thread_id@);
        let ghost refs0 = self@.refs;
        self.refs.ensure(new_thread_id);
        assert(log.entries.len() <= usize::MAX);
        let n = match last_place(&log.entries, through_turn_id) {
            None => {
                assert(src.take(0) =~= Seq::<RefView>::empty());
                assert(base + src.take(0) =~= base);
                0usize
            },
            Some(cut) => cut + 1,
        };
        assert(base + src.take(0) =~= base);
        for i in 0..n
            invariant
                n <= log.entries@.len(),
                src == log@,
                self.blobs@ == old(self)@.blobs,
                self.manifests@ == old(self)@.manifests,
                self.same_place(*old(self)),
                self.refs@ == with_log(refs0, new_thread_id@, base + src.take(i as int)),
        {
            self.refs.append(new_thread_id, log.entries[i].duplicate());
            proof {
                assert((base + src.take(i as int)).push(src[i as int]) =~= base + src.take(i + 1));
                assert(self.refs@.logs =~= with_log(
                    refs0,
                    new_thread_id@,
                    base + src.take(i + 1),
                ).logs);
            }
        }
        n
    }

    /// The captures of a thread, each with its manifest, in order.
    pub fn thread_history(&self, thread_id: &str) -> (r: Result<
        Vec<(SnapshotRef, Manifest)>,
        SnapshotError,
    >)
        ensures
            r is Ok <==> log_is_whole(self@, log_of(self@.refs, thread_id@)),
            r matches Ok(v) ==> {
                let log = log_of(self@.refs, thread_id@);
                &&& v@.len() == log.len()
                &&& forall|i: int|
                    0 <= i < log.len() ==> (#[trigger] v@[i]).0@ == log[i] && v@[i].1@
                        == self@.manifests[log[i].manifest_id]
            },
            r matches Err(e) ==> exists|id: Seq<char>| #[trigger]
                is_missing_manifest(e, id) && first_missing(
                    self@,
                    log_of(self@.refs, thread_id@),
                    id,
                ),
    {
        let log = self.refs.load(thread_id);
        let ghost all = log@;
        let mut out: Vec<(SnapshotRef, Manifest)> = Vec::new();
        for i in 0..log.entries.len()
            invariant
                all == log@,
                all == log_of(self@.refs, thread_id@),
                out@.len() == i,
                forall|j: int|
                    0 <= j < i ==> (#[trigger] out@[j]).0@ == all[j] && out@[j].1@
                        == self@.manifests[all[j].manifest_id],
                forall|j: int|
                    0 <= j < i ==> self@.manifests.contains_key((#[trigger] all[j]).manifest_id),
        {
            let entry = log.entries[i].duplicate();
            assert(entry@ == all[i as int]);
            match self.manifests.load(entry.manifest_id.as_str()) {
                Ok(m) => out.push((entry, m)),
                Err(e) => {
                    proof {
                        let id = all[i as int].manifest_id;
                        assert(log_is_whole(self@, all.take(i as int)));
                        assert(first_missing(self@, all, id));
                        assert(is_missing_manifest(e, id));
                        assert(!log_is_whole(self@, all));
                    }
                    return Err(e);
                },
            }
        }
        Ok(out)
    }

    /// The manifest of a thread's latest capture.
    pub fn latest_manifest(&self, thread_id: &str) -> (r: Result<Option<Manifest>, SnapshotError>)
        ensures
            r is Err <==> latest_is_missing(self@, thread_id@),
            r matches Err(e) ==> is_missing_manifest(e, latest_id(self@, thread_id@)),
            r matches Ok(m) ==> previous(
                match m {
                    Some(x) => Some(&x),
                    None => None,
                },
            ) == latest_of(self@, thread_id@),
    {
        let log = self.refs.load(thread_id);
        let n = log.entries.len();
        if n == 0 {
            return Ok(None);
        }
        assert(log@.last() == log.entries@[n - 1]@);
        match self.manifests.load(log.entries[n - 1].manifest_id.as_str()) {
            Ok(m) => Ok(Some(m)),
            Err(e) => Err(e),
        }
    }

    /// The manifest kept under `id`.
    pub fn manifest(&self, id: &str) -> (r: Result<Manifest, SnapshotError>)
        ensures
            r is Ok <==> self@.manifests.contains_key(id@),
            r matches Ok(m) ==> m@ == self@.manifests[id@],
            r matches Err(e) ==> is_missing_manifest(e, id@),
    {
        self.manifests.load(id)
    }

    /// Takes the safety checkpoint of what is there now and plans the way to
    /// `target`. Where a manifest is missing nothing is changed.
    ///
    /// `files` is what was seen of the present tracked set. `is_protected`
    /// speaks for the ignore rules as they are now.
    pub fn restore_to<F: Fn(&str) -> bool>(
        &mut self,
        thread_id: &str,
        target: &RestoreTarget,
        files: &Vec<Sighting>,
        complete: bool,
        now: Moment,
        is_protected: &F,
    ) -> (r: Result<PendingRestore, SnapshotError>)
        requires
            forall|t: &str| #[trigger] is_protected.requires((t,)),
        ensures
            r is Err <==> !old(self)@.manifests.contains_key(target@) || latest_is_missing(
                old(self)@,
                thread_id@,
            ),
            r matches Err(e) ==> {
                &&& final(self)@ == old(self)@
                &&& is_missing_manifest(
                    e,
                    if old(self)@.manifests.contains_key(target@) {
                        latest_id(old(self)@, thread_id@)
                    } else {
                        target@
                    },
                )
            },
            r matches Ok(pending) ==> {
                let p = progress(old(self)@, thread_id@, files@, now);
                let wanted = old(self)@.manifests[target@];
                let safety = captured(p, complete);
                &&& final(self)@ == checkpointed(
                    old(self)@,
                    thread_id@,
                    safety_turn(target@),
                    files@,
                    complete,
                    now,
                )
                &&& pending.target@ == target@
                &&& pending.safety@ == manifest_id(safety)
                &&& exists|guarded: Set<Seq<char>>| #[trigger]
                    answered(*is_protected, wanted, safety, guarded) && pending.plan@ == planned(
                        wanted,
                        safety,
                        guarded,
                    )
            },
            final(self).same_place(*old(self)),
    {
        let wanted = match self.manifests.load(target.manifest_id()) {
            Ok(m) => m,
            Err(e) => return Err(e),
        };
        let turn = joined(SAFETY_TURN_PREFIX, target.manifest_id());
        let cp = match self.checkpoint(thread_id, turn.as_str(), files, complete, now) {
            Ok(cp) => cp,
            Err(e) => return Err(e),
        };
        let guarded = protected_paths(&wanted, &cp.manifest, is_protected);
        let plan = plan_guarded(&wanted, &cp.manifest, &guarded);
        let pending = PendingRestore {
            target: RestoreTarget { id: target.manifest_id().to_owned() },
            safety: RestoreTarget { id: cp.id },
            plan,
        };
        assert(answered(*is_protected, wanted@, cp.manifest@, guarded@));
        Ok(pending)
    }

    /// Files a restore once its plan has been applied, as far as it could be.
    /// A rewind can be undone from the destination that it hands the files to;
    /// an undo spends the rewind that it reverses. Without a destination
    /// nothing is filed.
    pub fn finish_restore(
        &mut self,
        destination: Option<&str>,
        kind: RestoreKind,
        pending: PendingRestore,
        stats: ApplyStats,
    ) -> (r: RestoreOutcome)
        ensures
            final(self)@.blobs == old(self)@.blobs,
            final(self)@.manifests == old(self)@.manifests,
            final(self)@.refs == match destination {
                None => old(self)@.refs,
                Some(key) => match kind {
                    RestoreKind::Rewind => pushed(
                        old(self)@.refs,
                        key@,
                        (RecordView { target: pending.target@, safety: pending.safety@ }),
                    ),
                    RestoreKind::Undo => popped(old(self)@.refs, key@),
                },
            },
            final(self)@.refs == filed(
                old(self)@.refs,
                match destination {
                    Some(key) => Some(key@),
                    None => None,
                },
                kind,
                (RecordView { target: pending.target@, safety: pending.safety@ }),
            ),
            r.safety == pending.safety,
            r.plan == pending.plan,
            r.stats == stats,
            final(self).same_place(*old(self)),
    {
        if let Some(key) = destination {
            match kind {
                RestoreKind::Rewind => self.refs.push_restore(
                    key,
                    RestoreRecord {
                        target: pending.target.id.clone(),
                        safety: pending.safety.id.clone(),
                    },
                ),
                RestoreKind::Undo => self.refs.pop_restore(key),
            }
        }
        RestoreOutcome { safety: pending.safety, plan: pending.plan, stats }
    }

    /// What an undo from this destination would restore.
    pub fn last_restore_target(&self, destination: &str) -> (r: Option<RestoreTarget>)
        ensures
            r is Some <==> restores_of(self@.refs, destination@).len() > 0,
            r matches Some(t) ==> t@ == restores_of(self@.refs, destination@).last().safety,
    {
        match self.refs.last_restore(destination) {
            Some(record) => Some(RestoreTarget { id: record.safety }),
            None => None,
        }
    }

    /// Drops a thread's log; its captures become garbage.
    pub fn remove_thread(&mut self, thread_id: &str)
        ensures
            final(self)@.blobs == old(self)@.blobs,
            final(self)@.manifests == old(self)@.manifests,
            final(self)@.refs.logs == old(self)@.refs.logs.remove(record_text(thread_id@)),
            final(self)@.refs.turns == old(self)@.refs.turns,
            final(self)@.refs.restores == old(self)@.refs.restores,
            final(self).same_place(*old(self)),
    {
        self.refs.remove(thread_id);
    }

    /// Removes what nothing points at.
    pub fn gc(&mut self) -> (r: GcStats)
        ensures
            counted(r, old(self)@.refs, old(self)@.manifests, old(self)@.blobs.dom()),
            final(self)@ == swept(old(self)@),
            final(self).same_place(*old(self)),
    {
        collect_garbage(&mut self.refs, &mut self.manifests, &mut self.blobs)
    }
}

/// The store after a collection.
pub open spec fn swept(s: StoreView) -> StoreView {
    StoreView {
        blobs: live_blobs(s.refs, s.manifests, s.blobs),
        manifests: live_manifests(s.refs, s.manifests),
        refs: pruned(s.refs),
    }
}

/// The place of the last capture of a turn.
fn last_place(entries: &Vec<SnapshotRef>, turn_id: &str) -> (r: Option<usize>)
    ensures
        ({
            let log = Seq::new(entries@.len(), |i: int| entries@[i]@);
            let at = last_of_turn(log, turn_id@);
            match r {
                Some(i) => i == at && i < entries@.len(),
                None => at == -1,
            }
        }),
{
    let ghost log = Seq::new(entries@.len(), |i: int| entries@[i]@);
    let mut i = entries.len();
    assert(log.take(i as int) =~= log);
    while i > 0
        invariant
            i <= entries@.len(),
            log == Seq::new(entries@.len(), |i: int| entries@[i]@),
            last_of_turn(log.take(i as int), turn_id@) == last_of_turn(log, turn_id@),
        decreases i,
    {
        i = i - 1;
        proof {
            let front = log.take(i + 1);
            assert(front.drop_last() =~= log.take(i as int));
            assert(front.last() == entries@[i as int]@);
        }
        if same(entries[i].turn_id.as_str(), turn_id) {
            return Some(i);
        }
    }
    None
}

/// Adds every path that a manifest says something of.
fn add_covered(out: &mut NameSet, m: &Manifest)
    ensures
        forall|p: Seq<char>| #[trigger]
            final(out)@.contains(p) <==> old(out)@.contains(p) || covers(m@, p),
{
    let found = m.entries.keys();
    add_all(out, &found);
    add_all(out, &m.absent);
}

/// Adds every name of a set.
fn add_all(out: &mut NameSet, names: &NameSet)
    ensures
        final(out)@ == old(out)@ + names@,
{
    let ghost start = out@;
    let n = names.len();
    let ghost order = names.order();
    for i in 0..n
        invariant
            n == order.len(),
            order == names.order(),
            forall|p: Seq<char>| #[trigger]
                out@.contains(p) <==> start.contains(p) || order.take(i as int).contains(p),
    {
        let ghost was = out@;
        let ghost front = order.take(i as int);
        let ghost name = order[i as int];
        assert(order.take(i + 1) =~= front.push(name));
        out.insert(names.at(i).clone());
        assert forall|p: Seq<char>| #[trigger] out@.contains(p) <==> start.contains(p)
            || front.push(name).contains(p) by {
            vstd::seq_lib::lemma_seq_contains_after_push(front, name, p);
            assert(out@.contains(p) <==> was.contains(p) || p == name);
        }
    }
    assert(order.take(n as int) =~= order);
    assert(out@ =~= start + names@);
}

/// The total of a run of sizes.
pub open spec fn total(sizes: Seq<u64>) -> nat
    decreases sizes.len(),
{
    if sizes.len() == 0 {
        0
    } else {
        total(sizes.drop_last()) + sizes.last() as nat
    }
}

impl SnapshotStore {
    /// The total of the sizes of the files under the store's root, unless it is
    /// too large to count.
    pub fn disk_usage(sizes: &Vec<u64>) -> (r: Option<u64>)
        ensures
            match r {
                Some(n) => n == total(sizes@),
                None => total(sizes@) > u64::MAX,
            },
    {
        let mut sum: u128 = 0;
        for i in 0..sizes.len()
            invariant
                sum == total(sizes@.take(i as int)),
                sum <= i * u64::MAX,
        {
            proof {
                let next = sizes@.take(i + 1);
                assert(next.drop_last() =~= sizes@.take(i as int));
                assert((i + 1) * u64::MAX == i * u64::MAX + u64::MAX) by (nonlinear_arith);
                assert(i * u64::MAX <= usize::MAX * u64::MAX) by (nonlinear_arith)
                    requires
                        i <= usize::MAX,
                ;
            }
            sum = sum + sizes[i] as u128;
        }
        assert(sizes@.take(sizes@.len() as int) =~= sizes@);
        if sum <= u64::MAX as u128 {
            Some(sum as u64)
        } else {
            None
        }
    }
}

/// The latest capture of a thread is the last of its log, and its manifest is
/// the one kept under that id.
pub proof fn the_latest_capture_is_the_last(s: StoreView, thread: Seq<char>)
    ensures
        ({
            let log = log_of(s.refs, thread);
            &&& log.len() == 0 ==> latest_of(s, thread) is None && !latest_is_missing(s, thread)
            &&& log.len() > 0 ==> latest_id(s, thread) == log[log.len() - 1].manifest_id
            &&& log.len() > 0 ==> latest_of(s, thread) == Some(
                s.manifests[log[log.len() - 1].manifest_id],
            )
            &&& latest_is_missing(s, thread) <==> log.len() > 0 && !s.manifests.contains_key(
                log[log.len() - 1].manifest_id,
            )
        }),
{
}

/// Recording a manifest under a turn adds one capture to the thread's log and
/// tells the turn index, both with the manifest's id, under which the manifest
/// is found unless another one was there. Nothing else in the store changes.
pub proof fn recording_adds_one_capture(
    s: StoreView,
    thread: Seq<char>,
    turn: Seq<char>,
    m: ManifestView,
    other: Seq<char>,
    id: Seq<char>,
)
    ensures
        ({
            let after = recorded(s, thread, turn, m);
            &&& log_of(after.refs, thread) == log_of(s.refs, thread).push(
                RefView { turn_id: turn, manifest_id: manifest_id(m) },
            )
            &&& after.refs.turns.contains_key(record_text(turn))
            &&& after.refs.turns[record_text(turn)] == manifest_id(m)
            &&& after.manifests.contains_key(manifest_id(m))
            &&& !s.manifests.contains_key(manifest_id(m)) ==> after.manifests[manifest_id(m)] == m
            &&& s.manifests.contains_key(id) ==> after.manifests.contains_key(id)
                && after.manifests[id] == s.manifests[id]
            &&& after.manifests.contains_key(id) ==> s.manifests.contains_key(id) || id
                == manifest_id(m)
            &&& after.blobs == s.blobs
            &&& after.refs.restores == s.refs.restores
            &&& record_text(other) != record_text(thread) ==> log_of(after.refs, other) == log_of(
                s.refs,
                other,
            )
            &&& record_text(other) != record_text(turn) ==> after.refs.turns.contains_key(
                record_text(other),
            ) == s.refs.turns.contains_key(record_text(other)) && (s.refs.turns.contains_key(
                record_text(other),
            ) ==> after.refs.turns[record_text(other)] == s.refs.turns[record_text(other)])
        }),
{
}

/// A checkpoint is what its turn goes back to, whoever asks: the turn index,
/// the thread's log and the thread's latest manifest all give the manifest of
/// what was seen, unless another one was kept under its id. The previous
/// capture of the thread serves as the cache.
pub proof fn a_checkpoint_is_what_its_turn_goes_back_to(
    s: StoreView,
    thread: Seq<char>,
    turn: Seq<char>,
    files: Seq<Sighting>,
    complete: bool,
    now: Moment,
)
    requires
        ({
            let m = captured(all_seen(files, latest_of(s, thread), now, s.blobs), complete);
            s.manifests.contains_key(manifest_id(m)) ==> s.manifests[manifest_id(m)] == m
        }),
    ensures
        ({
            let seen = all_seen(files, latest_of(s, thread), now, s.blobs);
            let m = captured(seen, complete);
            let after = checkpointed(s, thread, turn, files, complete, now);
            let log = log_of(after.refs, thread);
            let id = after.refs.turns[record_text(turn)];
            &&& after.refs.turns.contains_key(record_text(turn))
            &&& after.manifests.contains_key(id)
            &&& after.manifests[id].entries == seen.entries
            &&& after.manifests[id].absent == seen.absent
            &&& after.manifests[id].complete == complete
            &&& after.blobs == seen.blobs
            &&& log.len() == log_of(s.refs, thread).len() + 1
            &&& log.drop_last() == log_of(s.refs, thread)
            &&& log.last() == (RefView { turn_id: turn, manifest_id: id })
            &&& last_of_turn(log, turn) == log.len() - 1
            &&& latest_of(after, thread) == Some(m)
            &&& after.refs.restores == s.refs.restores
        }),
{
    let log = log_of(checkpointed(s, thread, turn, files, complete, now).refs, thread);
    assert(log.drop_last() =~= log_of(s.refs, thread));
}

/// A second checkpoint of a thread reads nothing, where the files had settled
/// at the first and nothing has touched them since: every hash comes from the
/// first, no blob is added, and the manifest is the same.
pub proof fn a_second_checkpoint_reads_nothing(
    s: StoreView,
    thread: Seq<char>,
    turn: Seq<char>,
    files: Seq<Sighting>,
    complete: bool,
    now: Moment,
    later: Moment,
)
    requires
        log_of(s.refs, thread).len() == 0,
        all_settled(files, now),
        elapsed(now, later) >= 0,
        ({
            let m = captured(all_seen(files, None, now, s.blobs), complete);
            s.manifests.contains_key(manifest_id(m)) ==> s.manifests[manifest_id(m)] == m
        }),
    ensures
        ({
            let after = checkpointed(s, thread, turn, files, complete, now);
            let again = progress(after, thread, files, later);
            &&& again.hashed == 0
            &&& again.blobs == after.blobs
            &&& Some(captured(again, complete)) == latest_of(after, thread)
        }),
{
    let after = checkpointed(s, thread, turn, files, complete, now);
    a_checkpoint_is_what_its_turn_goes_back_to(s, thread, turn, files, complete, now);
    an_untouched_workspace_has_one_manifest(files, now, s.blobs, later, after.blobs, complete);
}

/// A thread tracks every path that any of its captures found or looked for in
/// vain, and no other.
pub proof fn every_path_of_a_capture_is_tracked(
    s: StoreView,
    thread: Seq<char>,
    path: Seq<char>,
    i: int,
)
    ensures
        ({
            let log = log_of(s.refs, thread);
            let m = s.manifests[log[i].manifest_id];
            0 <= i < log.len() && (m.entries.contains_key(path) || m.absent.contains(path))
                ==> is_tracked(s, thread, path)
        }),
        is_tracked(s, thread, path) ==> exists|j: int|
            0 <= j < log_of(s.refs, thread).len() && (s.manifests[(#[trigger] log_of(
                s.refs,
                thread,
            )[j]).manifest_id].entries.contains_key(path) || s.manifests[log_of(
                s.refs,
                thread,
            )[j].manifest_id].absent.contains(path)),
{
    let log = log_of(s.refs, thread);
    if 0 <= i < log.len() && covers(s.manifests[log[i].manifest_id], path) {
        assert(is_tracked(s, thread, path));
    }
    if is_tracked(s, thread, path) {
        let j = choose|j: int|
            0 <= j < log.len() && covers(s.manifests[(#[trigger] log[j]).manifest_id], path);
        assert(log_of(s.refs, thread)[j] == log[j]);
    }
}

/// A thread that takes over another's captures has its own and then those of
/// the source, from the first through the last one of the turn. The source, the
/// other threads, the turns and the restores stay as they are.
pub proof fn inheriting_adds_the_captures_of_the_source(
    refs: RefsView,
    source: Seq<char>,
    new: Seq<char>,
    turn: Seq<char>,
    other: Seq<char>,
)
    ensures
        ({
            let from = log_of(refs, source);
            let own = log_of(refs, new);
            let after = inherited(refs, source, new, turn);
            let to = log_of(after, new);
            let n = to.len() - own.len();
            &&& after.logs.contains_key(record_text(new))
            &&& 0 <= n <= from.len()
            &&& to == own + from.take(n)
            &&& n > 0 ==> from[n - 1].turn_id == turn
            &&& forall|i: int| n <= i < from.len() ==> (#[trigger] from[i]).turn_id != turn
            &&& record_text(other) != record_text(new) ==> log_of(after, other) == log_of(
                refs,
                other,
            )
            &&& after.turns == refs.turns
            &&& after.restores == refs.restores
        }),
{
    last_of_turn_is_last(log_of(refs, source), turn);
}

/// The safety checkpoint before a restore is recorded under a turn of its own,
/// which tells the target.
pub proof fn a_safety_checkpoint_has_its_own_turn(target: Seq<char>, other: Seq<char>)
    ensures
        safety_turn(target) == "safety-restore:"@ + target,
        safety_turn(target) == safety_turn(other) ==> target == other,
{
    let n = SAFETY_TURN_PREFIX@.len() as int;
    assert(safety_turn(target).skip(n) =~= target);
    assert(safety_turn(other).skip(n) =~= other);
}

/// The total counts every size once, in whatever run they come.
pub proof fn a_total_counts_every_size(a: Seq<u64>, b: Seq<u64>, size: u64)
    ensures
        total(Seq::empty()) == 0,
        total(seq![size]) == size,
        total(a + b) == total(a) + total(b),
    decreases b.len(),
{
    reveal_with_fuel(total, 2);
    assert(seq![size].drop_last() =~= Seq::<u64>::empty());
    if b.len() == 0 {
        assert(a + b =~= a);
    } else {
        a_total_counts_every_size(a, b.drop_last(), size);
        assert((a + b).drop_last() =~= a + b.drop_last());
    }
}

/// A collection of the store is a collection of its parts, and cuts the turn
/// index down to the turns that threads hold.
pub proof fn a_collection_is_one_of_every_part(s: StoreView)
    ensures
        swept(s).manifests == live_manifests(s.refs, s.manifests),
        swept(s).blobs == live_blobs(s.refs, s.manifests, s.blobs),
        swept(s).refs == pruned(s.refs),
        swept(s).refs.logs == s.refs.logs,
        swept(s).refs.restores == s.refs.restores,
{
}

/// A store stands for its blobs, its manifests and its records.
pub proof fn a_store_stands_for_its_parts(s: SnapshotStore)
    ensures
        s@.blobs == s.blobs@,
        s@.manifests == s.manifests@,
        s@.refs == s.refs@,
{
}

/// A rewind that hands the files to a destination is what an undo from there
/// goes back from: its record comes last, with the manifest that it went to and
/// the safety checkpoint that it took. The undo spends it, and leaves those
/// before it, where as many could be kept. Without a destination nothing is
/// filed, and no other destination is touched.
pub proof fn an_undo_spends_the_rewind_before_it(
    refs: RefsView,
    destination: Seq<char>,
    target: Seq<char>,
    safety: Seq<char>,
    other: Seq<char>,
)
    ensures
        ({
            let record = RecordView { target, safety };
            let rewound = filed(refs, Some(destination), RestoreKind::Rewind, record);
            let undone = filed(rewound, Some(destination), RestoreKind::Undo, record);
            let had = restores_of(refs, destination);
            let has = restores_of(rewound, destination);
            &&& has.len() > 0
            &&& has.last().target == target
            &&& has.last().safety == safety
            &&& had.len() < 20 ==> has.len() == had.len() + 1
            &&& had.len() < 20 ==> restores_of(undone, destination) == had
            &&& rewound.logs == refs.logs && rewound.turns == refs.turns
            &&& undone.logs == refs.logs && undone.turns == refs.turns
            &&& filed(refs, None, RestoreKind::Rewind, record) == refs
            &&& filed(refs, None, RestoreKind::Undo, record) == refs
            &&& record_text(other) != record_text(destination) ==> restores_of(rewound, other)
                == restores_of(refs, other) && restores_of(undone, other) == restores_of(
                refs,
                other,
            )
        }),
{
    let record = RecordView { target, safety };
    let had = restores_of(refs, destination);
    assert(had.push(record).drop_last() =~= had);
}

} // verus!
