//! The session side: what one thread captures, and when.
//!
//! - Whether a thread tracks is decided when its session starts. A new one
//!   follows the feature switch; a resumed one tracks if it has captures. The
//!   answer never changes while the session lasts.
//! - A capture is scoped to the session's own workspace roots, or to the
//!   directory of the turn where none of them is related to it.
//! - A capture that fails means no snapshot for this turn, and nothing else.

use vstd::prelude::*;

use crate::checkpoint::{all_seen, captured, nothing_is_recorded_unseen, Checkpoint, Sighting};
use crate::error::SnapshotError;
use crate::manifest::{covers, manifest_id, DEFAULT_MODE, Moment};
use crate::paths::{is_under, join, join_text, path_key, path_key_text, starts_with, texts};
use crate::refs::{log_of, record_text};
use crate::rules::{
    any_ignore, compiled_from, is_ignored_by_any, load_ignore, rule_lines, IgnoreRules,
};
use crate::scope::{
    an_ignored_path_is_never_looked_at, are_all_rules, content_if, filtering_adds_nothing,
    holds_path, looked_at, recent_and_known_files_are_looked_at, tracked_files, RootScan,
};
use crate::store::{
    a_checkpoint_is_what_its_turn_goes_back_to, attach_base, attached, checkpointed,
    is_missing_manifest, latest_id, latest_is_missing, latest_of, progress, SnapshotStore, StoreView,
};
use crate::table::Table;
use crate::text::{lists_len, lists_sorted, sorted, sorted_lists};

verus! {

/// The directory of the store.
pub const STORE_DIR_NAME: &'static str = "file_snapshots";

/// Where the store is, under the home directory of the program.
pub fn store_root(home: &str) -> (r: String)
    ensures
        r@ == join_text(home@, STORE_DIR_NAME@),
{
    join(home, STORE_DIR_NAME)
}

/// What a file was before an edit.
#[derive(Debug, Clone, PartialEq, Eq)]
pub struct PreImage {
    pub path: String,
    /// Its content; `None` where it did not exist.
    pub content: Option<Vec<u8>>,
    /// Its mode, where a regular file is there and the mode could be read.
    pub mode: Option<u32>,
}

/// The captures of one thread's session.
pub struct FileSnapshotsController {
    pub store: SnapshotStore,
    thread_id: String,
    include_hidden: bool,
    /// Paths that the agent has edited, by their keys; every capture looks at
    /// them.
    extras: Table<String>,
    /// The directories whose ignore rules hold for this session: all of them,
    /// since each carries its own ignore file.
    ignore_roots: Vec<String>,
    /// Whether the latest capture followed the session's workspace roots.
    rooted: bool,
}

/// What a `FileSnapshotsController` stands for.
#[verifier::ext_equal]
pub struct SessionView {
    pub store: StoreView,
    pub thread: Seq<char>,
    pub include_hidden: bool,
    pub extras: Map<Seq<char>, Seq<char>>,
    pub ignore_roots: Seq<Seq<char>>,
    pub rooted: bool,
}

impl View for FileSnapshotsController {
    type V = SessionView;

    closed spec fn view(&self) -> SessionView {
        SessionView {
            store: self.store@,
            thread: self.thread_id@,
            include_hidden: self.include_hidden,
            extras: self.extras@,
            ignore_roots: texts(self.ignore_roots@),
            rooted: self.rooted,
        }
    }
}

/// Whether a session tracks.
pub open spec fn is_active(
    store: StoreView,
    feature_enabled: bool,
    is_new_thread: bool,
    thread: Seq<char>,
) -> bool {
    if is_new_thread {
        feature_enabled
    } else {
        store.refs.logs.contains_key(record_text(thread))
    }
}

/// A root is related to the directory of a turn: it contains it or sits under
/// it.
pub open spec fn is_related(root: Seq<char>, cwd: Seq<char>) -> bool {
    is_under(cwd, root) || is_under(root, cwd)
}

/// The roots that are related to the directory of a turn.
pub open spec fn related_roots(roots: Seq<Seq<char>>, cwd: Seq<char>) -> Seq<Seq<char>> {
    roots.filter(|root: Seq<char>| is_related(root, cwd))
}

/// The directories that scope a capture: the related roots, or the directory
/// of the turn where there is none.
pub open spec fn scoping_roots(roots: Seq<Seq<char>>, cwd: Seq<char>) -> Seq<Seq<char>> {
    if related_roots(roots, cwd).len() == 0 {
        seq![cwd]
    } else {
        related_roots(roots, cwd)
    }
}

/// Every directory that scopes a capture is related to the directory of the
/// turn.
pub proof fn scoping_roots_are_related(roots: Seq<Seq<char>>, cwd: Seq<char>, i: int)
    requires
        0 <= i < scoping_roots(roots, cwd).len(),
    ensures
        is_related(scoping_roots(roots, cwd)[i], cwd),
{
    let p = |root: Seq<char>| is_related(root, cwd);
    if related_roots(roots, cwd).len() > 0 {
        roots.lemma_filter_pred(p, i);
    }
}

/// A related root is never left out of a capture.
pub proof fn related_roots_are_in_scope(roots: Seq<Seq<char>>, cwd: Seq<char>, i: int)
    requires
        0 <= i < roots.len(),
        is_related(roots[i], cwd),
    ensures
        scoping_roots(roots, cwd).contains(roots[i]),
{
    let p = |root: Seq<char>| is_related(root, cwd);
    roots.lemma_filter_contains(p, i);
}

/// The session once the capture of a turn has begun.
pub open spec fn scoped(s: SessionView, cwd: Seq<char>, roots: Seq<Seq<char>>) -> SessionView {
    SessionView {
        ignore_roots: scoping_roots(roots, cwd),
        rooted: related_roots(roots, cwd).len() > 0,
        ..s
    }
}

/// The session once the start of a turn has been captured.
pub open spec fn turn_captured(
    s: SessionView,
    turn: Seq<char>,
    files: Seq<Sighting>,
    now: Moment,
) -> SessionView {
    SessionView { store: checkpointed(s.store, s.thread, turn, files, s.rooted, now), ..s }
}

/// The extras once a path has been edited.
pub open spec fn with_extra(
    extras: Map<Seq<char>, Seq<char>>,
    path: Seq<char>,
) -> Map<Seq<char>, Seq<char>> {
    if extras.contains_key(path_key_text(path)) {
        extras
    } else {
        extras.insert(path_key_text(path), path)
    }
}

/// The edited paths, in the order of paths.
pub open spec fn extra_paths(extras: Map<Seq<char>, Seq<char>>) -> Seq<Seq<char>> {
    let keys = sorted(extras.dom());
    Seq::new(keys.len(), |i: int| extras[keys[i]])
}

/// The mode that a pre-edit image is recorded with.
pub open spec fn image_mode(image: PreImage) -> u32 {
    match image.mode {
        Some(mode) => mode,
        None => DEFAULT_MODE,
    }
}

/// The store once a pre-edit image has been recorded, if it could be and the
/// latest manifest said nothing of its path.
pub open spec fn with_image(
    store: StoreView,
    thread: Seq<char>,
    turn: Seq<char>,
    image: PreImage,
) -> StoreView {
    if latest_is_missing(store, thread) || covers(attach_base(store, thread), image.path@) {
        store
    } else {
        attached(store, thread, turn, image.path@, content_if(image.content), image_mode(image))
    }
}

/// The session once one pre-edit image has been dealt with. A path that any
/// root's rules ignore enters neither the store nor the extras.
pub open spec fn image_taken(
    s: SessionView,
    turn: Seq<char>,
    image: PreImage,
    rules: Seq<IgnoreRules>,
) -> SessionView {
    if any_ignore(rules, image.path@) {
        s
    } else {
        SessionView {
            store: with_image(s.store, s.thread, turn, image),
            extras: with_extra(s.extras, image.path@),
            ..s
        }
    }
}

/// The session once a batch of pre-edit images has been dealt with, one after
/// another.
pub open spec fn images_taken(
    s: SessionView,
    turn: Seq<char>,
    images: Seq<PreImage>,
    rules: Seq<IgnoreRules>,
) -> SessionView
    decreases images.len(),
{
    if images.len() == 0 {
        s
    } else {
        image_taken(images_taken(s, turn, images.drop_last(), rules), turn, images.last(), rules)
    }
}

/// The ignore file of the directory at place `i`, as far as it was read.
pub open spec fn file_at(files: Seq<Option<Vec<u8>>>, i: int) -> Option<Seq<u8>> {
    if 0 <= i < files.len() {
        content_if(files[i])
    } else {
        None
    }
}

/// `rules` are the rules of these directories, with these ignore files.
pub open spec fn are_rules_with(
    roots: Seq<Seq<char>>,
    files: Seq<Option<Vec<u8>>>,
    rules: Seq<IgnoreRules>,
) -> bool {
    &&& rules.len() == roots.len()
    &&& forall|i: int|
        0 <= i < roots.len() ==> (#[trigger] rules[i]).root() == roots[i] && compiled_from(
            rule_lines(file_at(files, i)),
            rules[i].lines(),
        )
}

impl FileSnapshotsController {
    /// The store of the session.
    pub closed spec fn snapshots(self) -> SnapshotStore {
        self.store
    }

    /// The controller of a session, if the session tracks. A store that could
    /// not be opened means that it does not.
    ///
    /// Nothing is recorded here: the log is written by the first checkpoint,
    /// so that a session that never captures anything leaves nothing behind.
    pub fn maybe_new(
        store: Result<SnapshotStore, SnapshotError>,
        feature_enabled: bool,
        is_new_thread: bool,
        thread_id: String,
        include_hidden: bool,
    ) -> (r: Option<Self>)
        ensures
            r is Some <==> store is Ok && is_active(
                store->Ok_0@,
                feature_enabled,
                is_new_thread,
                thread_id@,
            ),
            store is Ok && !is_new_thread ==> (r is Some <==> store->Ok_0@.refs.logs.contains_key(
                record_text(thread_id@),
            )),
            store is Ok && is_new_thread ==> (r is Some <==> feature_enabled),
            r matches Some(c) ==> {
                &&& c.snapshots() == store->Ok_0
                &&& c@.store == store->Ok_0@
                &&& c@.thread == thread_id@
                &&& c@.include_hidden == include_hidden
                &&& c@.extras == Map::<Seq<char>, Seq<char>>::empty()
                &&& c@.ignore_roots == Seq::<Seq<char>>::empty()
                &&& !c@.rooted
            },
    {
        let store = match store {
            Ok(store) => store,
            Err(_) => return None,
        };
        let active = if is_new_thread {
            feature_enabled
        } else {
            store.thread_exists(thread_id.as_str())
        };
        if !active {
            return None;
        }
        let c = FileSnapshotsController {
            store,
            thread_id,
            include_hidden,
            extras: Table::new(),
            ignore_roots: Vec::new(),
            rooted: false,
        };
        assert(texts(c.ignore_roots@) =~= Seq::<Seq<char>>::empty());
        Some(c)
    }

    /// The thread of the session.
    pub fn thread_id(&self) -> (r: &str)
        ensures
            r@ == self@.thread,
    {
        self.thread_id.as_str()
    }

    /// Whether captures look at hidden entries.
    pub fn include_hidden(&self) -> (r: bool)
        ensures
            r == self@.include_hidden,
    {
        self.include_hidden
    }

    /// The directories whose ignore rules hold for this session.
    pub fn ignore_roots(&self) -> (r: &Vec<String>)
        ensures
            texts(r@) == self@.ignore_roots,
    {
        &self.ignore_roots
    }

    /// Begins the capture at the start of a turn: settles which directories
    /// scope it, and with it the ignore rules of the session.
    ///
    /// The session's workspace roots come first: they are where the agent may
    /// write. Roots that neither contain the directory of the turn nor sit
    /// under it describe some other environment and are dropped.
    pub fn begin_checkpoint(&mut self, cwd: &str, workspace_roots: &Vec<String>)
        ensures
            final(self)@.ignore_roots == scoping_roots(texts(workspace_roots@), cwd@),
            final(self)@.rooted == (related_roots(texts(workspace_roots@), cwd@).len() > 0),
            final(self)@.store == old(self)@.store,
            final(self)@.thread == old(self)@.thread,
            final(self)@.include_hidden == old(self)@.include_hidden,
            final(self)@.extras == old(self)@.extras,
            final(self)@ == scoped(old(self)@, cwd@, texts(workspace_roots@)),
            final(self).snapshots() == old(self).snapshots(),
    {
        let mut related: Vec<String> = Vec::new();
        let ghost all = texts(workspace_roots@);
        let ghost p = |root: Seq<char>| is_related(root, cwd@);
        assert(texts(related@) =~= Seq::<Seq<char>>::empty());
        proof {
            reveal(Seq::filter);
            assert(all.take(0).filter(p) =~= Seq::<Seq<char>>::empty());
        }
        for i in 0..workspace_roots.len()
            invariant
                all == texts(workspace_roots@),
                p == (|root: Seq<char>| is_related(root, cwd@)),
                texts(related@) == all.take(i as int).filter(p),
        {
            let root = &workspace_roots[i];
            let ghost was = texts(related@);
            proof {
                reveal(Seq::filter);
                assert(all.take(i + 1).drop_last() =~= all.take(i as int));
            }
            if starts_with(cwd, root.as_str()) || starts_with(root.as_str(), cwd) {
                related.push(root.clone());
                assert(texts(related@) =~= was.push(root@));
            }
        }
        assert(all.take(workspace_roots@.len() as int) =~= all);
        self.rooted = related.len() > 0;
        if related.len() == 0 {
            related.push(cwd.to_owned());
            assert(texts(related@) =~= seq![cwd@]);
        }
        self.ignore_roots = related;
    }

    /// Everything that the capture should look at, from what was read of the
    /// scoping directories: the three partitions, joined, but for what the
    /// ignore files exclude now. A path that was edited before it was ignored
    /// is no exception.
    pub fn files_to_look_at(&self, scans: &Vec<RootScan>) -> (r: Vec<String>)
        ensures
            exists|rules: Seq<IgnoreRules>| #[trigger]
                are_all_rules(scans@, rules) && texts(r@) == looked_at(
                    scans@,
                    rules,
                    extra_paths(self@.extras),
                    self@.include_hidden,
                ),
    {
        let n = self.extras.len();
        let ghost keys = self.extras.order();
        proof {
            lists_sorted(keys, self.extras@.dom());
        }
        let mut known: Vec<String> = Vec::new();
        for i in 0..n
            invariant
                n == keys.len(),
                keys == self.extras.order(),
                known@.len() == i,
                forall|j: int| 0 <= j < i ==> (#[trigger] known@[j])@ == self.extras@[keys[j]],
        {
            known.push(self.extras.value_at(i).clone());
        }
        assert(texts(known@) =~= extra_paths(self@.extras));
        tracked_files(scans, &known, self.include_hidden)
    }

    /// Captures the start of a turn, from what was seen of the files to look
    /// at. A failure is for the caller to report; the turn goes on.
    pub fn checkpoint_turn_start_blocking(
        &mut self,
        turn_id: &str,
        files: &Vec<Sighting>,
        now: Moment,
    ) -> (r: Result<Checkpoint, SnapshotError>)
        ensures
            r is Err <==> latest_is_missing(old(self)@.store, old(self)@.thread),
            r matches Err(e) ==> is_missing_manifest(
                e,
                latest_id(old(self)@.store, old(self)@.thread),
            ) && final(self)@ == old(self)@,
            r matches Ok(cp) ==> {
                let p = progress(old(self)@.store, old(self)@.thread, files@, now);
                &&& final(self)@.store == checkpointed(
                    old(self)@.store,
                    old(self)@.thread,
                    turn_id@,
                    files@,
                    old(self)@.rooted,
                    now,
                )
                &&& final(self)@ == turn_captured(old(self)@, turn_id@, files@, now)
                &&& cp.manifest@ == captured(p, old(self)@.rooted)
                &&& cp.id@ == manifest_id(cp.manifest@)
                &&& cp.stats.reused == p.reused
                &&& cp.stats.hashed == p.hashed
                &&& cp.stats.skipped == p.skipped
            },
            final(self)@.thread == old(self)@.thread,
            final(self)@.include_hidden == old(self)@.include_hidden,
            final(self)@.extras == old(self)@.extras,
            final(self)@.ignore_roots == old(self)@.ignore_roots,
            final(self)@.rooted == old(self)@.rooted,
            final(self).snapshots().same_place(old(self).snapshots()),
    {
        self.store.checkpoint(self.thread_id.as_str(), turn_id, files, self.rooted, now)
    }

    /// The rules of the session's directories, with these ignore files.
    fn current_rules(&self, ignore_files: &Vec<Option<Vec<u8>>>) -> (r: Vec<IgnoreRules>)
        ensures
            are_rules_with(self@.ignore_roots, ignore_files@, r@),
    {
        let mut out: Vec<IgnoreRules> = Vec::new();
        for i in 0..self.ignore_roots.len()
            invariant
                out@.len() == i,
                forall|j: int|
                    0 <= j < i ==> (#[trigger] out@[j]).root() == texts(self.ignore_roots@)[j]
                        && compiled_from(rule_lines(file_at(ignore_files@, j)), out@[j].lines()),
        {
            let root = self.ignore_roots[i].as_str();
            let rules = if i < ignore_files.len() {
                match &ignore_files[i] {
                    Some(bytes) => load_ignore(root, Some(bytes.as_slice())),
                    None => load_ignore(root, None),
                }
            } else {
                load_ignore(root, None)
            };
            out.push(rules);
        }
        out
    }

    /// Records a batch of pre-edit images under these rules, and registers
    /// their paths for later captures. A failure does not stop the batch; the
    /// paths that failed are returned.
    pub fn attach_pre_edits_under(
        &mut self,
        turn_id: &str,
        pre_images: &Vec<PreImage>,
        rules: &Vec<IgnoreRules>,
    ) -> (r: Vec<String>)
        ensures
            final(self)@ == images_taken(old(self)@, turn_id@, pre_images@, rules@),
            texts(r@) == failed_paths(old(self)@, turn_id@, pre_images@, rules@),
            final(self).snapshots().same_place(old(self).snapshots()),
    {
        let mut failed: Vec<String> = Vec::new();
        let ghost start = self@;
        assert(texts(failed@) =~= Seq::<Seq<char>>::empty());
        for i in 0..pre_images.len()
            invariant
                start == old(self)@,
                self.store.same_place(old(self).store),
                self@.thread == start.thread,
                self@ == images_taken(start, turn_id@, pre_images@.take(i as int), rules@),
                texts(failed@) == failed_paths(
                    start,
                    turn_id@,
                    pre_images@.take(i as int),
                    rules@,
                ),
        {
            let image = &pre_images[i];
            let ghost before = self@;
            let ghost was = texts(failed@);
            proof {
                let next = pre_images@.take(i + 1);
                assert(next.drop_last() =~= pre_images@.take(i as int));
                assert(next.last() == *image);
            }
            if !is_ignored_by_any(rules, image.path.as_str()) {
                let key = path_key(image.path.as_str());
                if !self.extras.contains_key(key.as_str()) {
                    self.extras.insert(key, image.path.clone());
                }
                let mode = match image.mode {
                    Some(mode) => mode,
                    None => DEFAULT_MODE,
                };
                let content = match &image.content {
                    Some(bytes) => Some(bytes.as_slice()),
                    None => None,
                };
                let attempt = self.store.attach_pre_edit(
                    self.thread_id.as_str(),
                    turn_id,
                    image.path.as_str(),
                    content,
                    mode,
                );
                if attempt.is_err() {
                    failed.push(image.path.clone());
                    assert(texts(failed@) =~= was.push(image.path@));
                }
                assert(self@ == image_taken(before, turn_id@, *image, rules@));
            }
        }
        assert(pre_images@.take(pre_images@.len() as int) =~= pre_images@);
        failed
    }

    /// Records a batch of pre-edit images under the rules that the ignore
    /// files of the session's directories hold now, and registers their paths
    /// for later captures.
    pub fn attach_pre_edits_blocking(
        &mut self,
        turn_id: &str,
        pre_images: &Vec<PreImage>,
        ignore_files: &Vec<Option<Vec<u8>>>,
    ) -> (r: Vec<String>)
        ensures
            exists|rules: Seq<IgnoreRules>| #[trigger]
                are_rules_with(old(self)@.ignore_roots, ignore_files@, rules) && final(self)@
                    == images_taken(old(self)@, turn_id@, pre_images@, rules) && texts(r@)
                    == failed_paths(old(self)@, turn_id@, pre_images@, rules),
            final(self).snapshots().same_place(old(self).snapshots()),
    {
        let rules = self.current_rules(ignore_files);
        self.attach_pre_edits_under(turn_id, pre_images, &rules)
    }
}

/// The paths of a batch that could not be recorded.
pub open spec fn failed_paths(
    s: SessionView,
    turn: Seq<char>,
    images: Seq<PreImage>,
    rules: Seq<IgnoreRules>,
) -> Seq<Seq<char>>
    decreases images.len(),
{
    if images.len() == 0 {
        Seq::empty()
    } else {
        let before = failed_paths(s, turn, images.drop_last(), rules);
        let state = images_taken(s, turn, images.drop_last(), rules);
        let image = images.last();
        if !any_ignore(rules, image.path@) && latest_is_missing(state.store, s.thread) {
            before.push(image.path@)
        } else {
            before
        }
    }
}

/// No manifest of the store says anything of `path`.
pub open spec fn is_unknown(store: StoreView, path: Seq<char>) -> bool {
    forall|id: Seq<char>| #[trigger]
        store.manifests.contains_key(id) ==> !covers(store.manifests[id], path)
}

/// A path that the rules ignore does not enter through the edit hook: where
/// the store said nothing of it, and no capture was to look at it, that is so
/// after a batch of pre-edit images too.
pub proof fn an_ignored_path_stays_unknown(
    s: SessionView,
    turn: Seq<char>,
    images: Seq<PreImage>,
    rules: Seq<IgnoreRules>,
    path: Seq<char>,
)
    requires
        any_ignore(rules, path),
        is_unknown(s.store, path),
        forall|k: Seq<char>| #[trigger] s.extras.contains_key(k) ==> s.extras[k] != path,
    ensures
        ({
            let after = images_taken(s, turn, images, rules);
            &&& is_unknown(after.store, path)
            &&& forall|k: Seq<char>| #[trigger]
                after.extras.contains_key(k) ==> after.extras[k] != path
            &&& after.thread == s.thread
        }),
    decreases images.len(),
{
    if images.len() > 0 {
        an_ignored_path_stays_unknown(s, turn, images.drop_last(), rules, path);
        let mid = images_taken(s, turn, images.drop_last(), rules);
        let image = images.last();
        if !any_ignore(rules, image.path@) {
            let base = attach_base(mid.store, mid.thread);
            if !latest_is_missing(mid.store, mid.thread) {
                assert(!covers(base, path)) by {
                    if log_of(mid.store.refs, mid.thread).len() > 0 {
                        assert(mid.store.manifests.contains_key(latest_id(mid.store, mid.thread)));
                    }
                }
            }
            let after = image_taken(mid, turn, image, rules);
            assert forall|id: Seq<char>| #[trigger]
                after.store.manifests.contains_key(id) implies !covers(
                after.store.manifests[id],
                path,
            ) by {
                if mid.store.manifests.contains_key(id) {
                    assert(after.store.manifests[id] == mid.store.manifests[id]);
                }
            }
        }
    }
}

/// An ignored path is never captured. Where a capture looked at nothing but
/// what it was to look at, its manifest says nothing of a path that any root's
/// rules ignore now: neither what it held nor that it was absent, even if it
/// was edited, and captured, before it was ignored.
pub proof fn an_ignored_path_is_never_captured(
    scans: Seq<RootScan>,
    rules: Seq<IgnoreRules>,
    s: SessionView,
    files: Seq<Sighting>,
    now: Moment,
    path: Seq<char>,
)
    requires
        any_ignore(rules, path),
        forall|i: int|
            0 <= i < files.len() ==> looked_at(
                scans,
                rules,
                extra_paths(s.extras),
                s.include_hidden,
            ).contains((#[trigger] files[i]).path@),
    ensures
        !covers(captured(progress(s.store, s.thread, files, now), s.rooted), path),
{
    let prev = latest_of(s.store, s.thread);
    nothing_is_recorded_unseen(files, prev, now, s.store.blobs, path);
    let list = looked_at(scans, rules, extra_paths(s.extras), s.include_hidden);
    assert forall|i: int| 0 <= i < files.len() implies (#[trigger] files[i]).path@ != path by {
        let j = list.index_of(files[i].path@);
        assert(list[j] == files[i].path@);
        an_ignored_path_is_never_looked_at(
            scans,
            rules,
            extra_paths(s.extras),
            s.include_hidden,
            path,
            j,
        );
    }
}

/// A path that was edited stays registered for the rest of the session, unless
/// the rules ignored it then; and what was registered before still is.
pub proof fn edited_paths_stay_registered(
    s: SessionView,
    turn: Seq<char>,
    images: Seq<PreImage>,
    rules: Seq<IgnoreRules>,
    key: Seq<char>,
)
    requires
        s.extras.contains_key(key) || exists|i: int|
            0 <= i < images.len() && path_key_text((#[trigger] images[i]).path@) == key
                && !any_ignore(rules, images[i].path@),
    ensures
        images_taken(s, turn, images, rules).extras.contains_key(key),
    decreases images.len(),
{
    if images.len() > 0 {
        let front = images.drop_last();
        let image = images.last();
        if path_key_text(image.path@) == key && !any_ignore(rules, image.path@) {
        } else {
            if !s.extras.contains_key(key) {
                let i = choose|i: int|
                    0 <= i < images.len() && path_key_text((#[trigger] images[i]).path@) == key
                        && !any_ignore(rules, images[i].path@);
                assert(front[i] == images[i]);
            }
            edited_paths_stay_registered(s, turn, front, rules, key);
        }
    }
}

/// A resumed thread goes by its captures alone: it tracks exactly where the
/// store has a log for it, and the feature switch says nothing. A new one goes
/// by the switch alone, whatever the store has.
pub proof fn a_resumed_thread_goes_by_its_captures(
    store: StoreView,
    other: StoreView,
    enabled: bool,
    otherwise: bool,
    thread: Seq<char>,
)
    ensures
        is_active(store, enabled, false, thread) <==> store.refs.logs.contains_key(
            record_text(thread),
        ),
        is_active(store, enabled, false, thread) == is_active(store, otherwise, false, thread),
        is_active(store, enabled, true, thread) == enabled,
        is_active(store, enabled, true, thread) == is_active(other, enabled, true, thread),
{
}

/// Two sessions that resume the same thread from the same store both track, or
/// neither does, whatever the switch says to each; and they do exactly where
/// the store has a log for the thread.
pub proof fn resumed_sessions_agree_whatever_the_switch(
    store: SnapshotStore,
    enabled: bool,
    otherwise: bool,
    thread_id: String,
    include_hidden: bool,
    one: Option<FileSnapshotsController>,
    two: Option<FileSnapshotsController>,
)
    requires
        call_ensures(
            FileSnapshotsController::maybe_new,
            (Ok(store), enabled, false, thread_id, include_hidden),
            one,
        ),
        call_ensures(
            FileSnapshotsController::maybe_new,
            (Ok(store), otherwise, false, thread_id, include_hidden),
            two,
        ),
    ensures
        one is Some <==> two is Some,
        one is Some <==> store@.refs.logs.contains_key(record_text(thread_id@)),
{
}

/// Once a thread has a capture, every session that resumes it tracks, whatever
/// the switch says; and one that resumes a thread that was given up does not.
pub proof fn a_captured_thread_is_tracked_from_then_on(
    s: StoreView,
    thread: Seq<char>,
    turn: Seq<char>,
    files: Seq<Sighting>,
    complete: bool,
    now: Moment,
    enabled: bool,
)
    ensures
        is_active(checkpointed(s, thread, turn, files, complete, now), enabled, false, thread),
        s.refs.logs.dom().disjoint(set![record_text(thread)]) ==> !is_active(
            s,
            enabled,
            false,
            thread,
        ),
{
    if s.refs.logs.contains_key(record_text(thread)) {
        assert(set![record_text(thread)].contains(record_text(thread)));
    }
}

/// A root is related to a directory exactly where one of them is under the
/// other, and then each is related to the other.
pub proof fn relation_goes_both_ways(root: Seq<char>, cwd: Seq<char>)
    ensures
        is_related(root, cwd) == is_related(cwd, root),
        is_under(cwd, root) ==> is_related(root, cwd),
        is_under(root, cwd) ==> is_related(root, cwd),
        is_related(root, cwd) ==> is_under(cwd, root) || is_under(root, cwd),
{
}

/// The directories that scope a capture are the related roots, as they come;
/// where there is none, the directory of the turn and nothing else. A root more
/// adds itself where it is related, and else nothing.
pub proof fn a_capture_is_scoped_by_the_related_roots(
    roots: Seq<Seq<char>>,
    cwd: Seq<char>,
    root: Seq<char>,
)
    ensures
        is_under(cwd, root) || is_under(root, cwd) ==> related_roots(roots.push(root), cwd)
            == related_roots(roots, cwd).push(root),
        !is_under(cwd, root) && !is_under(root, cwd) ==> related_roots(roots.push(root), cwd)
            == related_roots(roots, cwd),
        related_roots(Seq::empty(), cwd).len() == 0,
        (forall|i: int|
            0 <= i < roots.len() ==> !is_under(cwd, #[trigger] roots[i]) && !is_under(
                roots[i],
                cwd,
            )) ==> scoping_roots(roots, cwd) == seq![cwd],
        (exists|i: int|
            0 <= i < roots.len() && (is_under(cwd, #[trigger] roots[i]) || is_under(
                roots[i],
                cwd,
            ))) ==> scoping_roots(roots, cwd) == related_roots(roots, cwd),
{
    reveal(Seq::filter);
    let p = |r: Seq<char>| is_related(r, cwd);
    assert(roots.push(root).drop_last() =~= roots);
    let related = related_roots(roots, cwd);
    if forall|i: int|
        0 <= i < roots.len() ==> !is_under(cwd, #[trigger] roots[i]) && !is_under(roots[i], cwd) {
        if related.len() > 0 {
            filtering_adds_nothing(roots, p, 0);
            roots.lemma_filter_pred(p, 0);
        }
    }
    if exists|i: int|
        0 <= i < roots.len() && (is_under(cwd, #[trigger] roots[i]) || is_under(roots[i], cwd)) {
        let i = choose|i: int|
            0 <= i < roots.len() && (is_under(cwd, #[trigger] roots[i]) || is_under(roots[i], cwd));
        roots.lemma_filter_contains(p, i);
        assert(related.len() > 0);
    }
}

/// An edited path is registered under its key, as it was first spelled, and
/// nothing else changes.
pub proof fn an_edited_path_is_registered(
    extras: Map<Seq<char>, Seq<char>>,
    path: Seq<char>,
    key: Seq<char>,
)
    ensures
        ({
            let after = with_extra(extras, path);
            &&& after.contains_key(path_key_text(path))
            &&& !extras.contains_key(path_key_text(path)) ==> after[path_key_text(path)] == path
            &&& extras.contains_key(key) ==> after.contains_key(key) && after[key] == extras[key]
            &&& after.contains_key(key) ==> extras.contains_key(key) || key == path_key_text(path)
        }),
{
}

/// A registered path is looked at by every later capture, unless the rules of a
/// root ignore it by then.
pub proof fn a_registered_path_is_looked_at(
    scans: Seq<RootScan>,
    rules: Seq<IgnoreRules>,
    extras: Map<Seq<char>, Seq<char>>,
    include_hidden: bool,
    key: Seq<char>,
)
    requires
        rules.len() == scans.len(),
        extras.dom().finite(),
        extras.contains_key(key),
        forall|j: int| 0 <= j < rules.len() ==> !(#[trigger] rules[j]).ignore(extras[key]),
    ensures
        extra_paths(extras).contains(extras[key]),
        holds_path(
            looked_at(scans, rules, extra_paths(extras), include_hidden),
            extras[key],
        ),
{
    sorted_lists(extras.dom());
    let keys = sorted(extras.dom());
    assert(extras.dom().contains(key));
    assert(keys.contains(key));
    let i = keys.index_of(key);
    assert(extra_paths(extras)[i] == extras[key]);
    recent_and_known_files_are_looked_at(
        scans,
        rules,
        extra_paths(extras),
        include_hidden,
        0,
        extras[key],
    );
}

/// The extra paths are those that were registered, and no others.
pub proof fn extra_paths_were_registered(extras: Map<Seq<char>, Seq<char>>, i: int)
    requires
        extras.dom().finite(),
        0 <= i < extra_paths(extras).len(),
    ensures
        exists|key: Seq<char>| #[trigger]
            extras.contains_key(key) && extras[key] == extra_paths(extras)[i],
        extra_paths(extras).len() == extras.dom().len(),
{
    sorted_lists(extras.dom());
    let keys = sorted(extras.dom());
    assert(keys.contains(keys[i]));
    assert(extras.contains_key(keys[i]));
    lists_len(keys, extras.dom());
}

/// A pre-edit image is recorded with the mode that was read, and where none
/// could be with that of an ordinary file.
pub proof fn an_image_has_the_mode_that_was_read(image: PreImage)
    ensures
        image.mode is Some ==> image_mode(image) == image.mode->0,
        image.mode is None ==> image_mode(image) == 0o644,
{
}

/// A batch of pre-edit images leaves the thread, its directories and its
/// switches as they were, and a run of batches is one batch.
pub proof fn batches_are_taken_one_after_another(
    s: SessionView,
    turn: Seq<char>,
    some: Seq<PreImage>,
    more: Seq<PreImage>,
    rules: Seq<IgnoreRules>,
)
    ensures
        images_taken(s, turn, some + more, rules) == images_taken(
            images_taken(s, turn, some, rules),
            turn,
            more,
            rules,
        ),
        images_taken(s, turn, some, rules).thread == s.thread,
        images_taken(s, turn, some, rules).include_hidden == s.include_hidden,
        images_taken(s, turn, some, rules).ignore_roots == s.ignore_roots,
        images_taken(s, turn, some, rules).rooted == s.rooted,
        images_taken(s, turn, some, rules).store.refs.restores == s.store.refs.restores,
    decreases some.len() + more.len(),
{
    if more.len() > 0 {
        batches_are_taken_one_after_another(s, turn, some, more.drop_last(), rules);
        assert((some + more).drop_last() =~= some + more.drop_last());
    } else {
        assert(some + more =~= some);
        if some.len() > 0 {
            batches_are_taken_one_after_another(s, turn, some.drop_last(), more, rules);
        }
    }
}

/// A batch fails for a thread whose latest manifest is missing, then for every
/// path that the rules do not ignore, and changes nothing of the store; for
/// any other thread it fails for none.
pub proof fn a_batch_fails_with_a_missing_manifest(
    s: SessionView,
    turn: Seq<char>,
    images: Seq<PreImage>,
    rules: Seq<IgnoreRules>,
    i: int,
)
    ensures
        ({
            let failed = failed_paths(s, turn, images, rules);
            let after = images_taken(s, turn, images, rules);
            &&& !latest_is_missing(s.store, s.thread) ==> failed.len() == 0 && !latest_is_missing(
                after.store,
                s.thread,
            )
            &&& latest_is_missing(s.store, s.thread) ==> after.store == s.store
            &&& latest_is_missing(s.store, s.thread) && 0 <= i < images.len() && !any_ignore(
                rules,
                images[i].path@,
            ) ==> failed.contains(images[i].path@)
            &&& forall|k: int|
                0 <= k < failed.len() ==> !any_ignore(rules, #[trigger] failed[k])
        }),
    decreases images.len(),
{
    if images.len() > 0 {
        let front = images.drop_last();
        a_batch_fails_with_a_missing_manifest(s, turn, front, rules, i);
        batches_are_taken_one_after_another(s, turn, front, Seq::empty(), rules);
        let before = failed_paths(s, turn, front, rules);
        let failed = failed_paths(s, turn, images, rules);
        if latest_is_missing(s.store, s.thread) && 0 <= i < images.len() && !any_ignore(
            rules,
            images[i].path@,
        ) {
            if i < front.len() {
                assert(front[i] == images[i]);
                let k = before.index_of(images[i].path@);
                assert(failed[k] == before[k]);
            } else {
                assert(failed[failed.len() - 1] == images[i].path@);
            }
        }
    }
}

/// Every directory of a session has its own rules: those of the ignore file
/// that was read there, and none where none was.
pub proof fn every_directory_has_its_own_rules(
    roots: Seq<Seq<char>>,
    files: Seq<Option<Vec<u8>>>,
    rules: Seq<IgnoreRules>,
    i: int,
)
    requires
        are_rules_with(roots, files, rules),
        0 <= i < roots.len(),
    ensures
        rules.len() == roots.len(),
        rules[i].root() == roots[i],
        i < files.len() && files[i] is Some ==> compiled_from(
            rule_lines(Some(files[i]->0@)),
            rules[i].lines(),
        ),
        i >= files.len() || files[i] is None ==> compiled_from(rule_lines(None), rules[i].lines()),
{
}

/// The store is the directory `file_snapshots` of the home directory.
pub proof fn the_store_has_its_directory()
    ensures
        STORE_DIR_NAME@ == seq![
            'f', 'i', 'l', 'e', '_', 's', 'n', 'a', 'p', 's', 'h', 'o', 't', 's',
        ],
{
    reveal_strlit("file_snapshots");
    assert(STORE_DIR_NAME@ =~= seq![
        'f', 'i', 'l', 'e', '_', 's', 'n', 'a', 'p', 's', 'h', 'o', 't', 's',
    ]);
}

/// A capture at the start of a turn records what was seen, under its turn, for
/// the thread of the session; and it calls itself complete exactly where one of
/// the workspace roots was related to the directory of the turn. Nothing else
/// of the session changes but the directories that scope it.
pub proof fn a_capture_is_complete_where_it_follows_the_roots(
    s: SessionView,
    cwd: Seq<char>,
    roots: Seq<Seq<char>>,
    turn: Seq<char>,
    files: Seq<Sighting>,
    now: Moment,
)
    requires
        ({
            let p = progress(s.store, s.thread, files, now);
            let m = captured(p, scoped(s, cwd, roots).rooted);
            s.store.manifests.contains_key(manifest_id(m)) ==> s.store.manifests[manifest_id(m)]
                == m
        }),
    ensures
        ({
            let after = turn_captured(scoped(s, cwd, roots), turn, files, now);
            let seen = all_seen(files, latest_of(s.store, s.thread), now, s.store.blobs);
            let m = latest_of(after.store, s.thread);
            &&& m is Some
            &&& m->0.entries == seen.entries
            &&& m->0.absent == seen.absent
            &&& m->0.complete <==> exists|i: int|
                0 <= i < roots.len() && (is_under(cwd, #[trigger] roots[i]) || is_under(
                    roots[i],
                    cwd,
                ))
            &&& after.store.blobs == seen.blobs
            &&& after.store.refs.turns[record_text(turn)] == manifest_id(m->0)
            &&& after.thread == s.thread
            &&& after.extras == s.extras
            &&& after.include_hidden == s.include_hidden
            &&& after.ignore_roots == scoping_roots(roots, cwd)
        }),
{
    a_capture_is_scoped_by_the_related_roots(roots, cwd, cwd);
    let p = |r: Seq<char>| is_related(r, cwd);
    let related = related_roots(roots, cwd);
    if related.len() > 0 {
        filtering_adds_nothing(roots, p, 0);
        roots.lemma_filter_pred(p, 0);
        let i = roots.index_of(related[0]);
        assert(is_under(cwd, roots[i]) || is_under(roots[i], cwd));
    } else if exists|i: int|
        0 <= i < roots.len() && (is_under(cwd, #[trigger] roots[i]) || is_under(roots[i], cwd)) {
        let i = choose|i: int|
            0 <= i < roots.len() && (is_under(cwd, #[trigger] roots[i]) || is_under(roots[i], cwd));
        roots.lemma_filter_contains(p, i);
    }
    a_checkpoint_is_what_its_turn_goes_back_to(
        s.store,
        s.thread,
        turn,
        files,
        scoped(s, cwd, roots).rooted,
        now,
    );
}

} // verus!
