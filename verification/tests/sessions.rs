use std::collections::BTreeMap;

use file_snapshots::checkpoint::{must_read, Found, Sighting};
use file_snapshots::controller::{store_root, FileSnapshotsController, PreImage};
use file_snapshots::error::SnapshotError;
use file_snapshots::manifest::{Manifest, Moment, Stat};
use file_snapshots::refs::{SnapshotRef, ThreadLog};
use file_snapshots::rules::SNAPSHOT_IGNORE_FILENAME;
use file_snapshots::scope::{RootScan, Walked, RECENT_LIMIT};
use file_snapshots::store::SnapshotStore;

const NOW: Moment = Moment { secs: 1_700_000_000, nanos: 0 };

/// Files by path, with their modes.
#[derive(Default)]
struct Disk {
    files: BTreeMap<String, (Vec<u8>, u32)>,
}

impl Disk {
    fn write(&mut self, path: &str, content: &str) {
        self.files.insert(path.to_string(), (content.as_bytes().to_vec(), 0o644));
    }

    fn content(&self, path: &str) -> Option<Vec<u8>> {
        self.files.get(path).map(|f| f.0.clone())
    }

    fn ignore_file(&self, root: &str) -> Option<Vec<u8>> {
        self.content(&format!("{root}/{SNAPSHOT_IGNORE_FILENAME}"))
    }

    fn scan(&self, root: &str) -> RootScan {
        let walked = self
            .files
            .iter()
            .filter(|(path, _)| path.starts_with(&format!("{root}/")))
            .map(|(path, (content, _))| Walked {
                path: path.clone(),
                is_file: true,
                size: Some(content.len() as u64),
                modified: Some(NOW),
            })
            .collect();
        RootScan {
            root: root.to_string(),
            ignore_file: self.ignore_file(root),
            workdir: root.to_string(),
            index: Vec::new(),
            walked,
        }
    }

    fn look(&self, path: &str, prev: Option<&Manifest>) -> Sighting {
        let found = match self.files.get(path) {
            None => Found::Missing,
            Some((content, mode)) => {
                let stat = Stat { mode: *mode, size: content.len() as u64, modified: Some(NOW) };
                let content = if must_read(prev, path, &stat, NOW) {
                    Some(content.clone())
                } else {
                    None
                };
                Found::Regular { stat, content }
            }
        };
        Sighting { path: path.to_string(), found }
    }

    /// The start of a turn.
    fn turn(&self, ctl: &mut FileSnapshotsController, turn: &str, cwd: &str, roots: &[&str]) {
        let roots: Vec<String> = roots.iter().map(|r| r.to_string()).collect();
        ctl.begin_checkpoint(cwd, &roots);
        let scans: Vec<RootScan> = ctl.ignore_roots().iter().map(|r| self.scan(r)).collect();
        let files = ctl.files_to_look_at(&scans);
        let thread = ctl.thread_id().to_string();
        let prev = ctl.store.latest_manifest(&thread).unwrap();
        let seen: Vec<Sighting> = files.iter().map(|f| self.look(f, prev.as_ref())).collect();
        ctl.checkpoint_turn_start_blocking(turn, &seen, NOW).unwrap();
    }

    /// An edit, before it lands.
    fn edit(&self, ctl: &mut FileSnapshotsController, turn: &str, edits: &[(&str, Option<&str>)]) -> Vec<String> {
        let images = edits
            .iter()
            .map(|(path, pre)| PreImage {
                path: path.to_string(),
                content: pre.map(|c| c.as_bytes().to_vec()),
                mode: self.files.get(*path).map(|f| f.1),
            })
            .collect();
        let ignore_files = ctl.ignore_roots().iter().map(|r| self.ignore_file(r)).collect();
        ctl.attach_pre_edits_blocking(turn, &images, &ignore_files)
    }
}

fn open() -> Result<SnapshotStore, SnapshotError> {
    Ok(SnapshotStore::open(store_root("/home")))
}

fn tracking(thread: &str) -> FileSnapshotsController {
    FileSnapshotsController::maybe_new(open(), true, true, thread.to_string(), false)
        .expect("feature on for a new session")
}

#[test]
fn session_scoped_binding() {
    // New session, feature off: inactive, no marker.
    assert!(
        FileSnapshotsController::maybe_new(open(), false, true, "t1".to_string(), false).is_none()
    );
    // New session, feature on: active. The marker is not written yet.
    let mut controller = tracking("t1");
    assert_eq!(
        controller.store.refs.log_path("t1"),
        "/home/file_snapshots/refs/t1.json"
    );
    assert!(!controller.store.thread_exists("t1"), "no snapshots yet, so no marker");

    // Capturing one writes it.
    let mut disk = Disk::default();
    disk.write("/home/ws/a.txt", "x");
    disk.turn(&mut controller, "turn-1", "/home/ws", &[]);
    assert!(controller.store.thread_exists("t1"));

    // Resume with the feature now off: the marker wins, still tracking.
    let resumed = FileSnapshotsController::maybe_new(
        Ok(controller.store),
        false,
        false,
        "t1".to_string(),
        false,
    )
    .unwrap();
    // Resume of a session that never tracked, feature now on: stays off.
    assert!(FileSnapshotsController::maybe_new(
        Ok(resumed.store),
        true,
        false,
        "t2".to_string(),
        false
    )
    .is_none());
}

#[test]
fn a_store_that_cannot_be_opened_means_no_tracking() {
    let failed = SnapshotError::Io { path: "/home".to_string(), reason: "denied".to_string() };
    assert!(
        FileSnapshotsController::maybe_new(Err(failed), true, true, "t1".to_string(), false).is_none()
    );
}

#[test]
fn hidden_entries_are_skipped_unless_edited() {
    let mut ctl = tracking("t1");
    let mut disk = Disk::default();
    disk.write("/ws/.git/HEAD", "ref");
    disk.write("/ws/.env", "SECRET=1");
    disk.write("/ws/.github/workflows/ci.yml", "on: push");
    disk.write("/ws/src.rs", "code");

    disk.turn(&mut ctl, "turn-1", "/ws", &[]);
    let scanned = ctl.store.tracked_paths("t1").unwrap();
    assert!(!scanned.contains("/ws/.env"), "tool state and credentials stay out of snapshots");
    assert!(!scanned.contains("/ws/.git/HEAD"));
    assert!(scanned.contains("/ws/src.rs"));
    assert_eq!(scanned.len(), 1);

    // An edited hidden file is work product.
    let workflow = "/ws/.github/workflows/ci.yml";
    disk.edit(&mut ctl, "turn-1", &[(workflow, Some("on: push"))]);
    assert!(
        ctl.store.tracked_paths("t1").unwrap().contains(workflow),
        "explicitly edited hidden files must remain restorable"
    );
}

#[test]
fn a_large_directory_cannot_flood_a_capture() {
    let mut ctl = tracking("t1");
    let mut disk = Disk::default();
    for i in 0..(RECENT_LIMIT + 50) {
        disk.write(&format!("/loose/f{i}.txt"), "x");
    }
    disk.turn(&mut ctl, "turn-1", "/loose", &[]);

    let history = ctl.store.thread_history("t1").unwrap();
    assert_eq!(
        history[0].1.entries.len(),
        RECENT_LIMIT,
        "no repository here, so only the recency partition contributes"
    );
}

#[test]
fn ignored_paths_are_not_captured_through_the_edit_hook() {
    let mut ctl = tracking("t1");
    let mut disk = Disk::default();
    disk.write(&format!("/ws/{SNAPSHOT_IGNORE_FILENAME}"), "secrets/**\n");
    disk.write("/ws/secrets/key.pem", "private");
    disk.write("/ws/src.rs", "code");

    // Turn-start scan establishes the ignore scope for the session.
    disk.turn(&mut ctl, "turn-1", "/ws", &[]);

    let secret = "/ws/secrets/key.pem";
    let source = "/ws/src.rs";
    disk.edit(&mut ctl, "turn-1", &[(secret, Some("private")), (source, Some("code"))]);
    disk.turn(&mut ctl, "turn-2", "/ws", &[]);

    let paths = ctl.store.tracked_paths("t1").unwrap();
    assert!(
        !paths.contains(secret),
        "ignored path must never reach the store, not even via the edit hook"
    );
    assert!(paths.contains(source));
}

#[test]
fn an_edit_outside_the_ignore_root_still_records_its_evidence() {
    let mut ctl = tracking("t1");
    let mut disk = Disk::default();
    disk.write(&format!("/ws/{SNAPSHOT_IGNORE_FILENAME}"), "*.log\n");
    disk.write("/ws/src.rs", "code");
    disk.turn(&mut ctl, "turn-1", "/ws", &[]);

    // A sibling directory: a real absolute path, under no snapshot root.
    let outside = "/outside/created.txt";
    let inside = "/ws/src.rs";
    let failed = disk.edit(&mut ctl, "turn-1", &[(outside, None), (inside, Some("code"))]);
    assert!(failed.is_empty());

    let paths = ctl.store.tracked_paths("t1").unwrap();
    assert!(
        paths.contains(outside),
        "a path under no ignore root is not ignored, and its tombstone is what licenses a later \
         rewind to remove the file"
    );
    assert!(
        paths.contains(inside),
        "one unmatchable path must not drop the rest of the batch"
    );
}

#[test]
fn every_workspace_root_ignore_file_governs_the_edit_hook() {
    let mut ctl = tracking("t1");
    let mut disk = Disk::default();
    disk.write(&format!("/ws/first/{SNAPSHOT_IGNORE_FILENAME}"), "*.a\n");
    disk.write(&format!("/ws/second/{SNAPSHOT_IGNORE_FILENAME}"), "*.b\n");
    disk.write("/ws/first/keep.txt", "keep");

    // Both roots are related to the directory of the turn, their parent.
    disk.turn(&mut ctl, "turn-1", "/ws", &["/ws/first", "/ws/second"]);

    disk.edit(
        &mut ctl,
        "turn-1",
        &[
            ("/ws/first/x.a", Some("a")),
            ("/ws/second/x.b", Some("b")),
            ("/ws/first/keep.txt", Some("keep")),
        ],
    );

    let paths = ctl.store.tracked_paths("t1").unwrap();
    assert!(!paths.contains("/ws/first/x.a"), "the first root's rules apply");
    assert!(
        !paths.contains("/ws/second/x.b"),
        "and so do the second root's"
    );
    assert!(paths.contains("/ws/first/keep.txt"));
}

#[test]
fn a_capture_follows_the_session_workspace_roots() {
    let mut ctl = tracking("t1");
    let mut disk = Disk::default();
    disk.write("/ws/project/top.txt", "at the root");
    disk.write("/ws/project/crate-a/inner.txt", "below the cwd");
    // Configured but unrelated: neither contains the cwd nor sits under it.
    disk.write("/ws/elsewhere/stale.txt", "different environment");

    // The turn runs in the nested directory; the root is above it.
    disk.turn(&mut ctl, "turn-1", "/ws/project/crate-a", &["/ws/project", "/ws/elsewhere"]);

    let manifest = ctl
        .store
        .latest_manifest("t1")
        .unwrap()
        .expect("the checkpoint recorded something");

    assert!(
        manifest.entries.contains_key("/ws/project/top.txt"),
        "the root bounds the capture, not the directory of the turn"
    );
    assert!(manifest.entries.contains_key("/ws/project/crate-a/inner.txt"));
    assert!(
        !manifest.entries.contains_key("/ws/elsewhere/stale.txt"),
        "a root that neither contains nor sits under the directory of the turn is dropped"
    );
    assert!(
        manifest.absent.is_empty(),
        "and it must not leave tombstones there either"
    );
    assert!(manifest.complete, "a workspace-root scan is a complete capture");
}

#[test]
fn every_related_workspace_root_is_in_scope_not_just_the_one_holding_the_cwd() {
    let mut ctl = tracking("t1");
    let mut disk = Disk::default();
    disk.write("/ws/a/in-a.txt", "a");
    disk.write("/ws/b/in-b.txt", "b");

    // Both roots sit under the directory of the turn, so both are related.
    disk.turn(&mut ctl, "turn-1", "/ws", &["/ws/a", "/ws/b"]);

    let manifest = ctl.store.latest_manifest("t1").unwrap().unwrap();
    assert!(manifest.entries.contains_key("/ws/a/in-a.txt"));
    assert!(
        manifest.entries.contains_key("/ws/b/in-b.txt"),
        "every related root is scanned; the first is not privileged"
    );
}

#[test]
fn a_pre_edit_image_records_the_file_permissions_it_actually_had() {
    let mut ctl = tracking("t1");
    let mut disk = Disk::default();
    disk.files.insert("/ws/run.sh".to_string(), (b"#!/bin/sh\n".to_vec(), 0o755));
    disk.turn(&mut ctl, "turn-1", "/ws", &[]);
    // A path the turn-start scan did not reach, so the edit hook records it.
    let outside = "/ws/nested/tool.sh";
    disk.files.insert(outside.to_string(), (b"#!/bin/sh\n".to_vec(), 0o755));

    disk.edit(
        &mut ctl,
        "turn-1",
        &[(outside, Some("#!/bin/sh\n")), ("/ws/unknown.sh", Some("x"))],
    );

    let manifest = ctl
        .store
        .latest_manifest("t1")
        .unwrap()
        .expect("the edit hook recorded something");
    assert_eq!(
        manifest.entries.get(outside).unwrap().mode,
        0o755,
        "the executable bit is part of what a rewind has to put back"
    );
    assert_eq!(manifest.entries.get("/ws/unknown.sh").unwrap().mode, 0o644);
}

#[test]
fn checkpoint_workspace_and_fallback_modes() {
    let mut ctl = tracking("t1");
    let mut disk = Disk::default();
    disk.write("/ws/a.txt", "alpha");
    disk.turn(&mut ctl, "turn-1", "/ws", &[]);

    let history = ctl.store.thread_history("t1").unwrap();
    assert_eq!(history.len(), 1);
    assert_eq!(history[0].1.entries.len(), 1);
    assert!(!history[0].1.complete);

    // Paths registered via pre-edit attach are observed by later checkpoints,
    // wherever they live.
    disk.write("/loose/note.md", "n1");
    let mut ctl2 = tracking("t2");
    disk.turn(&mut ctl2, "turn-1", "/loose", &[]);
    let outside = "/home/elsewhere.cfg";
    disk.edit(&mut ctl2, "turn-1", &[(outside, Some("pre"))]);
    disk.write(outside, "post");
    disk.turn(&mut ctl2, "turn-2", "/loose", &[]);

    let history = ctl2.store.thread_history("t2").unwrap();
    // turn-1 scan, turn-1 supplemental attach, turn-2 scan.
    assert_eq!(history.len(), 3);
    assert!(
        !history[0].1.entries.contains_key(outside),
        "a path nothing had pointed at yet is simply not observed"
    );
    assert!(
        history[2].1.entries.contains_key(outside),
        "extras are unioned into later checkpoints"
    );
}

#[test]
fn a_capture_without_its_previous_manifest_fails_and_changes_nothing() {
    let mut ctl = tracking("t1");
    let log = ThreadLog {
        entries: vec![SnapshotRef { turn_id: "turn-0".to_string(), manifest_id: "lost".to_string() }],
    };
    ctl.store.refs.supply_log("t1".to_string(), log);
    let missing = SnapshotError::MissingManifest("lost".to_string());
    ctl.begin_checkpoint("/ws", &Vec::new());
    let failed = ctl.checkpoint_turn_start_blocking("turn-1", &Vec::new(), NOW);
    assert_eq!(failed.unwrap_err(), missing);
    assert_eq!(ctl.store.refs.load("t1").entries.len(), 1);

    let disk = Disk::default();
    let failed = disk.edit(&mut ctl, "turn-1", &[("/a", None), ("/b", Some("x"))]);
    assert_eq!(failed, vec!["/a".to_string(), "/b".to_string()]);
}

#[test]
fn an_edited_path_that_is_gone_leaves_a_tombstone() {
    let mut ctl = tracking("t1");
    let disk = Disk::default();
    disk.turn(&mut ctl, "turn-1", "/ws", &[]);
    disk.edit(&mut ctl, "turn-1", &[("/ws/new.txt", None)]);
    disk.turn(&mut ctl, "turn-2", "/ws", &[]);
    let latest = ctl.store.latest_manifest("t1").unwrap().unwrap();
    assert!(latest.absent.contains("/ws/new.txt"), "the capture looked and did not find it");
}

#[test]
fn a_path_ignored_after_its_edit_is_not_captured_again() {
    let mut disk = Disk::default();
    disk.write("/ws/a.txt", "a");
    disk.write("/ws/secret.key", "k1");
    let mut ctl = tracking("t1");
    disk.turn(&mut ctl, "turn-1", "/ws", &["/ws"]);
    assert!(disk.edit(&mut ctl, "turn-1", &[("/ws/secret.key", Some("k1"))]).is_empty());
    disk.turn(&mut ctl, "turn-2", "/ws", &["/ws"]);
    let before = ctl.store.latest_manifest("t1").unwrap().unwrap();
    assert!(before.entries.contains_key("/ws/secret.key"));

    disk.write("/ws/.codexsnapignore", "*.key\n");
    disk.turn(&mut ctl, "turn-3", "/ws", &["/ws"]);
    let after = ctl.store.latest_manifest("t1").unwrap().unwrap();
    assert!(after.entries.contains_key("/ws/a.txt"));
    assert!(!after.entries.contains_key("/ws/secret.key"), "an ignored path is never snapshotted");
    assert!(!after.absent.contains("/ws/secret.key"), "nor taken for absent");

    // The rule goes, and the edited path is in scope again.
    disk.files.remove("/ws/.codexsnapignore");
    disk.turn(&mut ctl, "turn-4", "/ws", &["/ws"]);
    let back = ctl.store.latest_manifest("t1").unwrap().unwrap();
    assert!(back.entries.contains_key("/ws/secret.key"));
}
