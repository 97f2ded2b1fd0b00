use std::collections::BTreeMap;

use file_snapshots::apply::{apply_plan, tmp_path, ApplyStats, CreateOutcome, Operation};
use file_snapshots::blob::{BlobStore, RemoveOutcome};
use file_snapshots::manifest::{FileEntry, Manifest};
use file_snapshots::restore::{plan_restore, RestorePlan, WriteAction};

/// Files by path, and the names that are links to somewhere else.
#[derive(Default)]
struct Disk {
    files: BTreeMap<String, (Vec<u8>, u32)>,
    links: Vec<String>,
    locked: Vec<String>,
}

impl Disk {
    fn write(&mut self, path: &str, content: &[u8]) {
        self.files.insert(path.to_string(), (content.to_vec(), 0o644));
    }

    fn read(&self, path: &str) -> Option<&[u8]> {
        self.files.get(path).map(|f| f.0.as_slice())
    }

    /// A directory can be made unless a file is in its way.
    fn make_dir(&self, path: &str) -> Result<(), String> {
        let blocked = self
            .files
            .keys()
            .any(|f| path == f || path.starts_with(&format!("{f}/")));
        if blocked {
            Err("not a directory".to_string())
        } else {
            Ok(())
        }
    }

    fn apply(&mut self, blobs: &BlobStore, plan: RestorePlan) -> ApplyStats {
        let mut run = apply_plan(plan);
        let mut count = 0;
        loop {
            run = match run.operation() {
                Operation::LoadBlob { hash } => {
                    count += 1;
                    run.loaded(blobs.load(&hash).map_err(|e| format!("{e:?}")), 77, count)
                }
                Operation::MakeDir { path } => run.made_dir(self.make_dir(&path)),
                Operation::CreateNew { path, content } => {
                    let outcome = if self.files.contains_key(&path) || self.links.contains(&path) {
                        CreateOutcome::Refused("already exists".to_string())
                    } else {
                        self.files.insert(path, (content, 0o600));
                        CreateOutcome::Written
                    };
                    run.created(outcome)
                }
                Operation::SetMode { path, mode } => {
                    self.files.get_mut(&path).unwrap().1 = mode;
                    run.mode_set(Ok(()))
                }
                Operation::Rename { from, to } => {
                    if self.locked.contains(&to) {
                        run.renamed(Err("held open".to_string()))
                    } else {
                        let file = self.files.remove(&from).unwrap();
                        self.files.insert(to, file);
                        run.renamed(Ok(()))
                    }
                }
                Operation::Discard { path } => {
                    self.files.remove(&path);
                    run.discarded()
                }
                Operation::RemoveFile { path } => {
                    let outcome = if self.locked.contains(&path) {
                        RemoveOutcome::Failed("read-only".to_string())
                    } else if self.files.remove(&path).is_some() {
                        RemoveOutcome::Removed
                    } else {
                        RemoveOutcome::NotFound
                    };
                    run.removed(outcome)
                }
                Operation::Finished => return run.stats().clone(),
            };
        }
    }
}

fn blobs_with(content: &[u8]) -> (BlobStore, String) {
    let mut blobs = BlobStore::open("/s/blobs".to_string());
    let hash = blobs.store_bytes(content);
    (blobs, hash)
}

#[test]
fn a_delete_target_that_is_already_gone_does_not_abandon_the_rest() {
    let (blobs, hash) = blobs_with(b"restored");
    let mut disk = Disk::default();
    disk.write("/d/still-here.txt", b"delete me");

    let plan = RestorePlan {
        writes: vec![WriteAction { path: "/d/written.txt".to_string(), hash, mode: 0o644 }],
        deletes: vec!["/d/vanished.txt".to_string(), "/d/still-here.txt".to_string()],
    };

    let stats = disk.apply(&blobs, plan);

    assert_eq!(
        stats,
        ApplyStats { written: 1, deleted: 1, failed: Vec::new() },
        "the vanished path is not counted, and does not stop the one after it"
    );
    assert!(disk.read("/d/still-here.txt").is_none(), "the delete after the vanished one ran");
    assert_eq!(disk.read("/d/written.txt").unwrap(), b"restored");
}

#[test]
fn a_symlink_at_the_temp_path_cannot_redirect_a_restore() {
    let (blobs, hash) = blobs_with(b"restored content");
    let mut disk = Disk::default();
    disk.write("/d/outside.txt", b"do not touch");
    let planted = tmp_path("/d/target.txt", 77, 1);
    assert_eq!(planted, "/d/target.txt.77.1.codex-restore-tmp");
    disk.links.push(planted.clone());

    let plan = RestorePlan {
        writes: vec![WriteAction { path: "/d/target.txt".to_string(), hash, mode: 0o644 }],
        deletes: Vec::new(),
    };
    let stats = disk.apply(&blobs, plan);
    assert_eq!(
        stats.failed,
        vec![("/d/target.txt".to_string(), "already exists".to_string())],
        "an existing path must be refused, not followed"
    );
    assert_eq!(
        disk.read("/d/outside.txt").unwrap(),
        b"do not touch",
        "nothing was written through the link"
    );
    assert_eq!(disk.links, vec![planted], "and what was in the way is still there");
}

fn manifest(entries: &[(&str, &str)]) -> Manifest {
    let mut m = Manifest::default();
    for (path, hash) in entries {
        m.entries.insert(
            (*path).to_string(),
            FileEntry {
                mode: 0o644,
                size: hash.len() as u64,
                mtime_secs: 0,
                mtime_nanos: 0,
                hash: (*hash).to_string(),
            },
        );
    }
    m
}

#[test]
fn a_path_the_target_still_has_content_for_is_never_deleted() {
    let mut target = manifest(&[("/ws/a.txt", "hash-a")]);
    target.absent.insert("/ws/a.txt".to_string());
    let current = manifest(&[("/ws/a.txt", "different")]);

    let plan = plan_restore(&target, &current, &|_: &str| false);

    assert!(
        plan.deletes.is_empty(),
        "a tombstone contradicted by a content record deletes nothing: {:?}",
        plan.deletes
    );
    assert_eq!(plan.writes.len(), 1, "the content is still restored");
}

#[test]
fn a_write_that_cannot_land_does_not_abandon_the_rest() {
    let (blobs, hash) = blobs_with(b"content");
    let mut disk = Disk::default();
    // The parent of the first write is a regular file.
    disk.write("/d/a-file", b"not a directory");

    let plan = RestorePlan {
        writes: vec![
            WriteAction { path: "/d/a-file/nested.txt".to_string(), hash: hash.clone(), mode: 0o644 },
            WriteAction { path: "/d/reachable.txt".to_string(), hash, mode: 0o644 },
        ],
        deletes: Vec::new(),
    };
    let stats = disk.apply(&blobs, plan);

    assert_eq!(stats.written, 1, "the write after the failure still ran");
    assert_eq!(stats.failed.len(), 1);
    assert!(stats.failed[0].0.contains("nested.txt"));
    assert_eq!(disk.read("/d/reachable.txt").unwrap(), b"content");
}

#[test]
fn writes_files_that_differ_or_are_missing() {
    let target = manifest(&[("/a", "h-old"), ("/b", "h-b")]);
    let current = manifest(&[("/a", "h-new")]);

    let plan = plan_restore(&target, &current, &|_: &str| false);
    let paths: Vec<&str> = plan.writes.iter().map(|w| w.path.as_str()).collect();
    assert_eq!(paths, vec!["/a", "/b"]);
}

#[test]
fn identical_states_need_no_work() {
    let m = manifest(&[("/a", "h")]);
    assert_eq!(plan_restore(&m, &m, &|_: &str| false), RestorePlan::default());
}

#[test]
fn deletion_needs_the_target_to_have_looked() {
    let target = manifest(&[("/kept", "h-k")]);
    let current = manifest(&[("/kept", "h-k"), ("/added", "h-a")]);

    let plan = plan_restore(&target, &current, &|_: &str| false);
    assert!(
        plan.deletes.is_empty(),
        "missing from the target says nothing on its own"
    );

    // Recorded as looked-for-and-absent, it says everything.
    let mut target = target;
    target.absent.insert("/added".to_string());
    let plan = plan_restore(&target, &current, &|_: &str| false);
    assert_eq!(plan.deletes, vec!["/added"]);
    assert!(plan.writes.is_empty());
}

#[test]
fn protected_paths_are_untouched_in_both_directions() {
    let target = manifest(&[("/secret/a", "h-1"), ("/ok", "h-ok")]);
    let current = manifest(&[("/secret/b", "h-2")]);

    let protect = |p: &str| p.starts_with("/secret/");
    let plan = plan_restore(&target, &current, &protect);
    let write_paths: Vec<&str> = plan.writes.iter().map(|w| w.path.as_str()).collect();
    assert_eq!(
        write_paths,
        vec!["/ok"],
        "protected target entry not restored"
    );
    assert!(
        plan.deletes.is_empty(),
        "protected current entry not deleted"
    );
}

#[test]
fn restoring_is_idempotent_for_a_given_target() {
    let target = manifest(&[("/a", "h-old")]);
    let current = manifest(&[("/a", "h-new")]);

    let first = plan_restore(&target, &current, &|_: &str| false);
    let after_undo = plan_restore(&target, &current, &|_: &str| false);
    assert_eq!(first, after_undo);
}

#[test]
fn a_tombstone_of_a_protected_path_deletes_nothing() {
    let mut target = manifest(&[]);
    target.absent.insert("/secret/b".to_string());
    target.absent.insert("/plain".to_string());
    let current = manifest(&[("/secret/b", "h"), ("/plain", "h")]);
    let plan = plan_restore(&target, &current, &|p: &str| p.starts_with("/secret/"));
    assert_eq!(plan.deletes, vec!["/plain"]);
}

#[test]
fn a_change_of_mode_alone_is_written() {
    let target = manifest(&[("/run.sh", "h")]);
    let mut current = manifest(&[]);
    current.entries.insert(
        "/run.sh".to_string(),
        FileEntry { mode: 0o600, size: 1, mtime_secs: 9, mtime_nanos: 9, hash: "h".to_string() },
    );
    let plan = plan_restore(&target, &current, &|_: &str| false);
    assert_eq!(
        plan.writes,
        vec![WriteAction { path: "/run.sh".to_string(), hash: "h".to_string(), mode: 0o644 }]
    );
}

#[test]
fn a_whole_run_restores_content_and_mode() {
    let (blobs, hash) = blobs_with(b"#!/bin/sh\n");
    let mut disk = Disk::default();
    disk.write("/d/run.sh", b"changed");
    let plan = RestorePlan {
        writes: vec![WriteAction { path: "/d/run.sh".to_string(), hash, mode: 0o755 }],
        deletes: Vec::new(),
    };
    let stats = disk.apply(&blobs, plan);
    assert_eq!(stats, ApplyStats { written: 1, deleted: 0, failed: Vec::new() });
    assert_eq!(disk.files.len(), 1, "no temporary file is left");
    assert_eq!(disk.files["/d/run.sh"], (b"#!/bin/sh\n".to_vec(), 0o755));
}

#[test]
fn whatever_fails_is_reported_with_its_reason() {
    let (blobs, hash) = blobs_with(b"new");
    let mut disk = Disk::default();
    disk.write("/d/open.txt", b"old");
    disk.write("/d/stuck.txt", b"old");
    disk.write("/d/gone.txt", b"old");
    disk.locked = vec!["/d/open.txt".to_string(), "/d/stuck.txt".to_string()];
    let write = |path: &str, hash: &str| WriteAction {
        path: path.to_string(),
        hash: hash.to_string(),
        mode: 0o644,
    };
    let plan = RestorePlan {
        writes: vec![write("/d/lost.txt", "no-such-blob"), write("/d/open.txt", &hash), write("/d/a.txt", &hash)],
        deletes: vec!["/d/stuck.txt".to_string(), "/d/gone.txt".to_string()],
    };
    let stats = disk.apply(&blobs, plan);
    assert_eq!((stats.written, stats.deleted), (1, 1));
    let paths: Vec<&str> = stats.failed.iter().map(|f| f.0.as_str()).collect();
    assert_eq!(paths, vec!["/d/lost.txt", "/d/open.txt", "/d/stuck.txt"]);
    assert!(stats.failed[0].1.contains("no-such-blob"));
    assert_eq!(stats.failed[1].1, "held open");
    assert_eq!(stats.failed[2].1, "read-only");
    assert_eq!(disk.read("/d/open.txt").unwrap(), b"old");
    assert_eq!(disk.files.len(), 3, "the temporary file of the failed write is gone");
}

#[test]
fn a_broken_temporary_file_is_removed() {
    let (blobs, hash) = blobs_with(b"new");
    let plan = RestorePlan {
        writes: vec![WriteAction { path: "/d/a".to_string(), hash, mode: 0o644 }],
        deletes: Vec::new(),
    };
    let run = apply_plan(plan);
    let Operation::LoadBlob { hash } = run.operation() else { panic!() };
    let run = run.loaded(Ok(blobs.load(&hash).unwrap()), 5, 6).made_dir(Ok(()));
    let run = run.created(CreateOutcome::Broken("disk full".to_string()));
    assert_eq!(
        run.operation(),
        Operation::Discard { path: "/d/a.5.6.codex-restore-tmp".to_string() }
    );
    let run = run.discarded();
    assert_eq!(run.operation(), Operation::Finished);
    assert_eq!(run.stats().failed, vec![("/d/a".to_string(), "disk full".to_string())]);
}

#[test]
fn an_empty_plan_is_finished_at_once() {
    let run = apply_plan(RestorePlan::default());
    assert_eq!(run.operation(), Operation::Finished);
    assert_eq!(run.stats(), &ApplyStats::default());
}

#[test]
fn protection_of_a_path_that_nothing_records_changes_no_plan() {
    let target = manifest(&[("/w/a", "1"), ("/w/b", "2")]);
    let current = manifest(&[("/w/a", "3")]);
    let free = plan_restore(&target, &current, &|_: &str| false);
    let elsewhere = plan_restore(&target, &current, &|p: &str| p == "/w/unrelated");
    assert_eq!(free, elsewhere);
    assert_eq!(free.writes.len(), 2);
}

#[test]
fn a_write_that_cannot_be_renamed_leaves_the_file_as_it_was() {
    let (blobs, hash) = blobs_with(b"new");
    let mut disk = Disk::default();
    disk.write("/d/a.txt", b"old");
    disk.locked.push("/d/a.txt".to_string());
    let before = disk.files.clone();

    let plan = RestorePlan {
        writes: vec![WriteAction { path: "/d/a.txt".to_string(), hash, mode: 0o755 }],
        deletes: Vec::new(),
    };
    let stats = disk.apply(&blobs, plan);

    assert_eq!(stats.failed, vec![("/d/a.txt".to_string(), "held open".to_string())]);
    assert_eq!(disk.files, before, "neither the file nor a temporary file remains changed");
}

#[test]
fn a_temporary_file_is_never_the_file_itself() {
    assert_eq!(tmp_path("/d//a/", 1, 2), "/d/a.1.2.codex-restore-tmp");
    assert_eq!(tmp_path("a", 1, 2), "a.1.2.codex-restore-tmp");
    assert_eq!(tmp_path("/", 1, 2), "/.1.2.codex-restore-tmp");
    assert_eq!(tmp_path("/d/..", 1, 2), "/d/../.1.2.codex-restore-tmp");
}
