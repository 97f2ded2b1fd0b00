use std::collections::BTreeMap;

use file_snapshots::apply::{apply_plan, ApplyStats, CreateOutcome, Operation};
use file_snapshots::blob::RemoveOutcome;
use file_snapshots::checkpoint::{must_read, Checkpoint, Found, Sighting};
use file_snapshots::error::SnapshotError;
use file_snapshots::manifest::{Manifest, Moment, Stat};
use file_snapshots::restore::RestorePlan;
use file_snapshots::rules::{is_ignored, load_ignore};
use file_snapshots::scope::{workspace_files, Walked};
use file_snapshots::store::{
    RestoreKind, RestoreOutcome, RestoreTarget, SnapshotStore, SAFETY_TURN_PREFIX,
};

const THREAD: &str = "thread-1";
const WS_KEY: &str = "/workspace/under-test";
const WS: &str = "/dir/ws";

/// A workspace, a clock, and a store beside it.
struct World {
    files: BTreeMap<String, (Vec<u8>, u32, Moment)>,
    clock: i64,
    store: SnapshotStore,
}

fn world() -> World {
    World {
        files: BTreeMap::new(),
        clock: 1_700_000_000,
        store: SnapshotStore::open("/dir/file_snapshots".to_string()),
    }
}

impl World {
    fn now(&self) -> Moment {
        Moment { secs: self.clock, nanos: 0 }
    }

    fn write(&mut self, path: &str, content: &str) {
        let mode = self.files.get(path).map_or(0o644, |f| f.1);
        let now = self.now();
        self.files.insert(path.to_string(), (content.as_bytes().to_vec(), mode, now));
        self.clock += 10;
    }

    fn chmod(&mut self, path: &str, mode: u32) {
        self.files.get_mut(path).unwrap().1 = mode;
    }

    fn read(&self, path: &str) -> &str {
        std::str::from_utf8(&self.files[path].0).unwrap()
    }

    fn is_there(&self, path: &str) -> bool {
        self.files.contains_key(path)
    }

    /// The tracked files of a directory.
    fn scan(&self, root: &str) -> Vec<String> {
        let walked = self
            .files
            .keys()
            .map(|path| Walked { path: path.clone(), is_file: true, size: None, modified: None })
            .collect();
        let content = self.files.get(&format!("{root}/.codexsnapignore")).map(|f| f.0.clone());
        let rules = load_ignore(root, content.as_deref());
        workspace_files(root, &rules, &walked, false)
    }

    fn look(&self, paths: &[String], prev: Option<&Manifest>) -> Vec<Sighting> {
        paths
            .iter()
            .map(|path| {
                let found = match self.files.get(path) {
                    None => Found::Missing,
                    Some((content, mode, modified)) => {
                        let stat = Stat {
                            mode: *mode,
                            size: content.len() as u64,
                            modified: Some(*modified),
                        };
                        let read = must_read(prev, path, &stat, self.now());
                        let content = if read { Some(content.clone()) } else { None };
                        Found::Regular { stat, content }
                    }
                };
                Sighting { path: path.clone(), found }
            })
            .collect()
    }

    fn sightings(&self, paths: &[String]) -> Vec<Sighting> {
        let prev = self.store.latest_manifest(THREAD).unwrap();
        self.look(paths, prev.as_ref())
    }

    fn checkpoint(&mut self, turn: &str, paths: Vec<String>, complete: bool) -> Checkpoint {
        let seen = self.sightings(&paths);
        let now = self.now();
        self.store.checkpoint(THREAD, turn, &seen, complete, now).unwrap()
    }

    fn restore<F: Fn(&str) -> bool>(
        &mut self,
        target: &RestoreTarget,
        kind: RestoreKind,
        paths: Vec<String>,
        complete: bool,
        protect: &F,
    ) -> RestoreOutcome {
        let seen = self.sightings(&paths);
        let now = self.now();
        let pending = self.store.restore_to(THREAD, target, &seen, complete, now, protect).unwrap();
        let mut run = apply_plan(pending.plan.clone());
        let mut count = 0;
        loop {
            run = match run.operation() {
                Operation::LoadBlob { hash } => {
                    count += 1;
                    let content = self.store.blobs.load(&hash).map_err(|e| format!("{e:?}"));
                    run.loaded(content, 1, count)
                }
                Operation::MakeDir { .. } => run.made_dir(Ok(())),
                Operation::CreateNew { path, content } => {
                    let now = self.now();
                    self.files.insert(path, (content, 0o600, now));
                    run.created(CreateOutcome::Written)
                }
                Operation::SetMode { path, mode } => {
                    self.chmod(&path, mode);
                    run.mode_set(Ok(()))
                }
                Operation::Rename { from, to } => {
                    let file = self.files.remove(&from).unwrap();
                    self.files.insert(to, file);
                    run.renamed(Ok(()))
                }
                Operation::Discard { path } => {
                    self.files.remove(&path);
                    run.discarded()
                }
                Operation::RemoveFile { path } => {
                    let outcome = if self.files.remove(&path).is_some() {
                        RemoveOutcome::Removed
                    } else {
                        RemoveOutcome::NotFound
                    };
                    run.removed(outcome)
                }
                Operation::Finished => break,
            };
        }
        self.clock += 10;
        let stats = run.stats().clone();
        self.store.finish_restore(Some(WS_KEY), kind, pending, stats)
    }

    fn target(&self, turn: &str) -> RestoreTarget {
        self.store.target_for_turn(turn).unwrap()
    }
}

fn in_ws(name: &str) -> String {
    format!("{WS}/{name}")
}

#[test]
fn restore_preserves_permissions() {
    let mut w = world();
    let script = in_ws("run.sh");
    w.write(&script, "#!/bin/sh\necho hi\n");
    w.chmod(&script, 0o755);
    w.checkpoint("turn-1", w.scan(WS), true);

    w.write(&script, "#!/bin/sh\necho changed\n");
    w.chmod(&script, 0o600);
    w.checkpoint("turn-2", w.scan(WS), true);

    let target = w.target("turn-1");
    w.restore(&target, RestoreKind::Rewind, w.scan(WS), true, &|_: &str| false);

    assert_eq!(w.read(&script), "#!/bin/sh\necho hi\n");
    assert_eq!(w.files[&script].1, 0o755, "executable bit restored");
}

#[test]
fn thread_marker_and_pre_edit_attach() {
    let mut w = world();

    // Log existence is the session-scoped "tracking on" marker.
    assert!(!w.store.thread_exists(THREAD));
    w.store.ensure_thread(THREAD);
    assert!(w.store.thread_exists(THREAD));
    w.store.ensure_thread(THREAD); // idempotent

    // Turn-start scan sees only a.txt.
    w.write(&in_ws("a.txt"), "alpha");
    let cp1 = w.checkpoint("turn-1", w.scan(WS), true);

    // Agent edits a file OUTSIDE the workspace scan: pre-image attaches
    // retroactively under the same turn.
    let outside = "/dir/outside.cfg".to_string();
    let attached = w
        .store
        .attach_pre_edit(THREAD, "turn-1", &outside, Some(b"pre-edit state"), 0o644)
        .unwrap()
        .expect("new path should attach");
    w.write(&outside, "post-edit state");

    // Already covered by the turn-start scan: nothing to add.
    assert!(w
        .store
        .attach_pre_edit(THREAD, "turn-1", &in_ws("a.txt"), Some(b"x"), 0o644)
        .unwrap()
        .is_none());
    // Born by this edit: "it did not exist" is itself worth recording.
    let tombstoned = w
        .store
        .attach_pre_edit(THREAD, "turn-1", "/brand/new.txt", None, 0o644)
        .unwrap()
        .expect("a created path is recorded as absent");
    assert!(w.store.manifest(&tombstoned).unwrap().absent.contains("/brand/new.txt"));
    // Recording it twice adds nothing.
    assert!(w
        .store
        .attach_pre_edit(THREAD, "turn-1", "/brand/new.txt", None, 0o644)
        .unwrap()
        .is_none());

    // Each supplement extends the previous one, and the turn resolves to the
    // most complete of them.
    let history = w.store.thread_history(THREAD).unwrap();
    assert_eq!(history.len(), 3, "turn-start scan, pre-image, tombstone");
    assert!(history.iter().all(|(r, _)| r.turn_id == "turn-1"));
    assert_eq!(history[1].0.manifest_id, attached);
    assert_eq!(history[1].1.entries.len(), cp1.manifest.entries.len() + 1);
    assert_eq!(history[2].0.manifest_id, tombstoned);
    assert_eq!(
        history[2].1.entries.len(),
        cp1.manifest.entries.len() + 1,
        "the tombstone carries the pre-image forward"
    );
    assert_eq!(w.target("turn-1").manifest_id(), tombstoned);
    assert_eq!(w.store.manifest_id_for_turn(THREAD, "turn-1"), Some(tombstoned));

    // Restoring to the supplemental manifest recovers the pre-edit content.
    let target = w.target("turn-1");
    let mut files = w.scan(WS);
    files.push(outside.clone());
    w.restore(&target, RestoreKind::Rewind, files, true, &|_: &str| false);
    assert_eq!(w.read(&outside), "pre-edit state");
}

#[test]
fn turn_resolution_and_fork_inheritance() {
    let mut w = world();
    w.write(&in_ws("a.txt"), "v1");
    w.checkpoint("turn-1", w.scan(WS), true);
    // Supplemental attach under the same turn: resolution must pick it.
    let outside = "/dir/ext.cfg";
    let supplemental = w
        .store
        .attach_pre_edit(THREAD, "turn-1", outside, Some(b"pre"), 0o644)
        .unwrap()
        .unwrap();
    w.write(&in_ws("a.txt"), "v2");
    w.checkpoint("turn-2", w.scan(WS), true);

    assert_eq!(
        w.store.target_for_turn("turn-1").map(|t| t.manifest_id().to_string()),
        Some(supplemental.clone()),
        "last entry for the turn wins"
    );
    assert!(w.store.target_for_turn("nope").is_none());
    assert!(w.store.manifest_id_for_turn(THREAD, "nope").is_none());

    // tracked_paths covers the outside-workspace attach.
    let paths = w.store.tracked_paths(THREAD).unwrap();
    assert!(paths.contains(outside));
    assert!(paths.contains(&in_ws("a.txt")));

    // Fork inherits entries through turn-1 (scan + supplemental), not turn-2.
    let inherited = w.store.inherit_log(THREAD, "fork-1", "turn-1");
    assert_eq!(inherited, 2);
    assert!(w.store.thread_exists("fork-1"));
    let fork_history = w.store.thread_history("fork-1").unwrap();
    assert_eq!(fork_history.len(), 2);
    assert_eq!(fork_history.last().unwrap().0.manifest_id, supplemental);
    assert_eq!(w.store.manifest_id_for_turn("fork-1", "turn-1"), Some(supplemental));

    // Unknown turn: log created (tracking marker) but nothing inherited.
    assert_eq!(w.store.inherit_log(THREAD, "fork-2", "nope"), 0);
    assert!(w.store.thread_exists("fork-2"));

    // Shared manifests survive GC while either thread references them.
    w.store.remove_thread(THREAD);
    let gc = w.store.gc();
    assert!(gc.manifests_kept >= 2, "fork-1 still references manifests");
    assert!(w.store.thread_history("fork-1").is_ok());
}

#[test]
fn rewinding_twice_still_restores() {
    let mut w = world();
    let a = in_ws("a.txt");
    w.write(&a, "v1");
    w.checkpoint("turn-1", w.scan(WS), true);
    w.write(&a, "v2");
    w.checkpoint("turn-2", w.scan(WS), true);

    // Rewind to turn 1.
    let turn1_target = w.target("turn-1");
    w.restore(&turn1_target, RestoreKind::Rewind, w.scan(WS), true, &|_: &str| false);
    assert_eq!(w.read(&a), "v1", "first rewind");

    // Undo that rewind.
    let safety = w.store.last_restore_target(WS_KEY).unwrap();
    w.restore(&safety, RestoreKind::Undo, w.scan(WS), true, &|_: &str| false);
    assert_eq!(w.read(&a), "v2", "undo restores the newer state");

    // Rewind to turn 1 again.
    w.restore(&turn1_target, RestoreKind::Rewind, w.scan(WS), true, &|_: &str| false);
    assert_eq!(w.read(&a), "v1", "second rewind must still work");
}

#[test]
fn a_file_created_outside_the_scanned_scope_is_removed_by_a_rewind() {
    let mut w = world();
    let cwd = "/dir/project/inner";

    // Turn 1 starts with an empty scope: `inner/` holds nothing.
    let cp1 = w.checkpoint("turn-1", w.scan(cwd), /*complete*/ false);
    assert!(cp1.manifest.entries.is_empty());
    assert!(!cp1.manifest.complete, "fallback captures are bounded");

    // The agent creates a file in the parent directory.
    let created = "/dir/project/hello.html";
    w.store
        .attach_pre_edit(THREAD, "turn-1", created, /*pre_content*/ None, 0o644)
        .unwrap()
        .expect("creating a file records that it did not exist");
    w.write(created, "generated");

    // Rewind to turn 1. The safety scope includes what the thread has observed.
    let mut current = w.scan(cwd);
    let known = w.store.tracked_paths(THREAD).unwrap();
    for i in 0..known.len() {
        current.push(known.at(i).clone());
    }
    let target = w.target("turn-1");
    let outcome = w.restore(
        &target,
        RestoreKind::Rewind,
        current,
        /*complete*/ false,
        &|_: &str| false,
    );

    assert!(
        !w.is_there(created),
        "a tombstoned path is removed even though the capture was bounded"
    );
    assert_eq!(outcome.stats.deleted, 1);
}

#[test]
fn undo_walks_back_through_successive_rewinds() {
    let mut w = world();
    let a = in_ws("a.txt");
    for (turn, contents) in [("turn-1", "v1"), ("turn-2", "v2"), ("turn-3", "v3")] {
        w.write(&a, contents);
        w.checkpoint(turn, w.scan(WS), true);
    }

    let rewind = |w: &mut World, turn: &str| {
        let target = w.target(turn);
        w.restore(&target, RestoreKind::Rewind, w.scan(WS), true, &|_: &str| false);
    };
    let undo = |w: &mut World| {
        let target = w.store.last_restore_target(WS_KEY).unwrap();
        w.restore(&target, RestoreKind::Undo, w.scan(WS), true, &|_: &str| false);
    };

    rewind(&mut w, "turn-2");
    assert_eq!(w.read(&a), "v2");
    rewind(&mut w, "turn-1");
    assert_eq!(w.read(&a), "v1");

    undo(&mut w);
    assert_eq!(w.read(&a), "v2", "first undo retraces one step");
    undo(&mut w);
    assert_eq!(
        w.read(&a),
        "v3",
        "second undo retraces the earlier rewind, back to where we started"
    );
    assert!(
        w.store.last_restore_target(WS_KEY).is_none(),
        "both rewinds have been spent"
    );
}

#[test]
fn a_rewind_and_its_undo_bring_everything_back() {
    let mut w = world();
    let (a, b, c, log) = (in_ws("a.txt"), in_ws("b.txt"), in_ws("c.txt"), in_ws("build.log"));
    w.write(&a, "alpha v1");
    w.write(&b, "bravo v1");
    w.write(&log, "log v1");
    w.write(&in_ws(".codexsnapignore"), "*.log\n");
    let cp1 = w.checkpoint("turn-1", w.scan(WS), true);
    assert_eq!(cp1.manifest.entries.len(), 2);
    w.store.attach_pre_edit(THREAD, "turn-1", &c, None, 0o644).unwrap().unwrap();

    w.write(&a, "alpha v2");
    w.files.remove(&b);
    w.write(&c, "charlie");
    w.write(&log, "log v2");
    let before = w.files.clone();

    let rules = load_ignore(WS, Some(b"*.log\n"));
    let protect = |p: &str| is_ignored(&rules, p);
    let everything = vec![a.clone(), b.clone(), c.clone(), log.clone()];
    let target = w.target("turn-1");
    let outcome = w.restore(&target, RestoreKind::Rewind, everything.clone(), true, &protect);
    assert_eq!((outcome.stats.written, outcome.stats.deleted), (2, 1));
    assert_eq!(w.read(&a), "alpha v1");
    assert_eq!(w.read(&b), "bravo v1", "deleted file recreated");
    assert!(!w.is_there(&c), "agent-born file deleted");
    assert_eq!(w.read(&log), "log v2", "ignored paths are untouched");

    // A second restore to the same point has nothing to do.
    let again = w.restore(&target, RestoreKind::Rewind, everything.clone(), true, &protect);
    assert!(again.plan.writes.is_empty() && again.plan.deletes.is_empty());
    w.store.refs.pop_restore(WS_KEY);

    w.restore(&outcome.safety, RestoreKind::Undo, everything, true, &protect);
    for (path, (content, mode, _)) in &before {
        assert_eq!((&w.files[path].0, w.files[path].1), (content, *mode), "{path}");
    }
    assert_eq!(w.files.len(), before.len());
    assert!(w.store.last_restore_target(WS_KEY).is_none());

    // With the undo spent, dropping the thread leaves nothing reachable.
    w.store.remove_thread(THREAD);
    let gc = w.store.gc();
    assert!(gc.manifests_removed > 0);
    assert!(gc.blobs_removed > 0);
    assert_eq!(gc.manifests_kept, 0);
    assert_eq!(gc.blobs_kept, 0);
}

#[test]
fn a_restore_without_its_target_changes_nothing() {
    let mut w = world();
    w.write(&in_ws("a.txt"), "v1");
    w.checkpoint("turn-1", w.scan(WS), true);
    let seen = w.sightings(&w.scan(WS));
    let lost = RestoreTarget::of_manifest("lost".to_string());
    let now = w.now();
    let failed = w.store.restore_to(THREAD, &lost, &seen, true, now, &|_: &str| false);
    assert_eq!(failed.unwrap_err(), SnapshotError::MissingManifest("lost".to_string()));
    assert_eq!(w.store.refs.load(THREAD).entries.len(), 1, "no safety checkpoint either");

    // Nor where the thread's own latest manifest is gone.
    let target = w.target("turn-1");
    w.store.ensure_thread("other");
    w.store.inherit_log(THREAD, "other", "turn-1");
    w.checkpoint("turn-2", vec![in_ws("gone.txt")], true);
    let latest = w.store.manifest_id_for_turn(THREAD, "turn-2").unwrap();
    w.store.manifests.remove(&latest);
    let failed = w.store.restore_to(THREAD, &target, &seen, true, now, &|_: &str| false);
    assert_eq!(failed.unwrap_err(), SnapshotError::MissingManifest(latest.clone()));
    assert_eq!(
        w.store.thread_history(THREAD).unwrap_err(),
        SnapshotError::MissingManifest(latest.clone())
    );
    assert!(w.store.tracked_paths(THREAD).is_err());
    assert!(w.store.latest_manifest(THREAD).is_err());
    assert!(w.store.attach_pre_edit(THREAD, "t", "/x", None, 0).is_err());
    assert!(w.store.manifest(&latest).is_err());
}

#[test]
fn the_safety_checkpoint_is_in_the_log() {
    let mut w = world();
    w.write(&in_ws("a.txt"), "v1");
    w.checkpoint("turn-1", w.scan(WS), true);
    w.write(&in_ws("a.txt"), "v2");
    let target = w.target("turn-1");
    let outcome = w.restore(&target, RestoreKind::Rewind, w.scan(WS), true, &|_: &str| false);
    let log = w.store.refs.load(THREAD).entries;
    assert_eq!(log.len(), 2);
    assert_eq!(log[1].turn_id, format!("{SAFETY_TURN_PREFIX}{}", target.manifest_id()));
    assert_eq!(log[1].turn_id, format!("safety-restore:{}", target.manifest_id()));
    assert_eq!(log[1].manifest_id, outcome.safety.manifest_id());
}

#[test]
fn a_restore_with_no_destination_files_nothing() {
    let mut w = world();
    w.write(&in_ws("a.txt"), "v1");
    w.checkpoint("turn-1", w.scan(WS), true);
    let seen = w.sightings(&w.scan(WS));
    let target = w.target("turn-1");
    let now = w.now();
    let pending = w.store.restore_to(THREAD, &target, &seen, true, now, &|_: &str| false).unwrap();
    w.store.finish_restore(None, RestoreKind::Rewind, pending, Default::default());
    assert!(w.store.last_restore_target(WS_KEY).is_none());
}

#[test]
fn a_thread_inheriting_from_itself_repeats_its_captures() {
    let mut w = world();
    w.write(&in_ws("a.txt"), "v1");
    w.checkpoint("turn-1", w.scan(WS), true);
    assert_eq!(w.store.inherit_log(THREAD, THREAD, "turn-1"), 1);
    assert_eq!(w.store.refs.load(THREAD).entries.len(), 2);
}

#[test]
fn disk_usage_adds_up() {
    assert_eq!(SnapshotStore::disk_usage(&vec![]), Some(0));
    assert_eq!(SnapshotStore::disk_usage(&vec![3, 4, 5]), Some(12));
    assert_eq!(SnapshotStore::disk_usage(&vec![u64::MAX, 1]), None);
    assert_eq!(SnapshotStore::disk_usage(&vec![u64::MAX]), Some(u64::MAX));
}

#[test]
fn restoring_again_finds_nothing_to_do() {
    let mut w = world();
    let (a, secret, gone) = (in_ws("a.txt"), in_ws("secret.key"), in_ws("gone.txt"));
    w.write(&a, "one");
    w.write(&secret, "old key");
    // `gone.txt` is looked for and not there.
    w.checkpoint("turn-1", vec![a.clone(), secret.clone(), gone.clone()], true);

    w.write(&a, "two");
    w.write(&secret, "new key");
    let target = w.target("turn-1");
    // The secret is ignored by now, and nothing looks for it or for `gone.txt`.
    let protect = |p: &str| p.ends_with(".key");
    let first = w.restore(&target, RestoreKind::Rewind, vec![a.clone()], true, &protect);
    assert_eq!(first.stats.written, 1);
    let again = w.restore(&target, RestoreKind::Rewind, vec![a.clone()], true, &protect);
    assert_eq!(again.plan, RestorePlan::default());
    assert_eq!(again.stats, ApplyStats::default());
    assert_eq!(w.read(&a), "one");
    assert_eq!(w.read(&secret), "new key", "what is protected stays in both directions");
}

#[test]
fn a_stale_fingerprint_gives_a_second_restore_nothing_to_do() {
    let mut w = world();
    let (a, b) = (in_ws("a.txt"), in_ws("b.txt"));
    w.write(&a, "one");
    w.write(&b, "old");
    let paths = vec![a.clone(), b.clone()];
    w.checkpoint("turn-1", paths.clone(), true);

    w.write(&a, "two");
    // Another content of the same size, under the time that was recorded.
    w.files.get_mut(&b).unwrap().0 = b"new".to_vec();
    let target = w.target("turn-1");
    let first = w.restore(&target, RestoreKind::Rewind, paths.clone(), true, &|_: &str| false);
    assert_eq!(first.stats.written, 1, "the fingerprint answers for b");
    let again = w.restore(&target, RestoreKind::Rewind, paths, true, &|_: &str| false);
    assert_eq!(again.plan, RestorePlan::default());
    assert_eq!(again.stats, ApplyStats::default());
}
