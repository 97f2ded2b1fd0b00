use file_snapshots::blob::BlobStore;
use file_snapshots::gc::{collect_garbage, sweep, GcStats};
use file_snapshots::manifest::{FileEntry, Manifest, ManifestStore};
use file_snapshots::refs::{
    record_name, RefStore, RestoreLog, RestoreRecord, SnapshotRef, ThreadLog, MAX_RESTORES,
};

fn open() -> (RefStore, ManifestStore, BlobStore) {
    (
        RefStore::open("/s/refs".to_string()),
        ManifestStore::open("/s/manifests".to_string()),
        BlobStore::open("/s/blobs".to_string()),
    )
}

fn entry(turn: &str, manifest: &str) -> SnapshotRef {
    SnapshotRef { turn_id: turn.to_string(), manifest_id: manifest.to_string() }
}

#[test]
fn append_and_load_roundtrip() {
    let (mut refs, _, _) = open();

    assert_eq!(refs.load("t1"), ThreadLog::default());
    refs.append("t1", entry("turn-1", "m1"));
    refs.append("t1", entry("turn-2", "m2"));

    let log = refs.load("t1");
    assert_eq!(log.entries.len(), 2);
    assert_eq!(log.entries[1].manifest_id, "m2");
}

fn one_file(hash: &str) -> Manifest {
    let mut m = Manifest::default();
    m.entries.insert(
        "/f".to_string(),
        FileEntry { mode: 0o644, size: 4, mtime_secs: 1, mtime_nanos: 0, hash: hash.to_string() },
    );
    m
}

#[test]
fn gc_sweeps_unreferenced_manifests_and_blobs() {
    let (mut refs, mut manifests, mut blobs) = open();

    let live_hash = blobs.store_bytes(b"live");
    let dead_hash = blobs.store_bytes(b"dead");

    let live_id = manifests.save(&one_file(&live_hash));
    let dead_id = manifests.save(&one_file(&dead_hash));

    refs.append("t1", entry("turn", &live_id));

    let stats = collect_garbage(&mut refs, &mut manifests, &mut blobs);
    assert_eq!(stats.manifests_kept, 1);
    assert_eq!(stats.manifests_removed, 1);
    assert_eq!(stats.blobs_kept, 1);
    assert_eq!(stats.blobs_removed, 1);
    assert!(manifests.load(&live_id).is_ok());
    assert!(manifests.load(&dead_id).is_err());
    assert!(blobs.contains(&live_hash));
    assert!(!blobs.contains(&dead_hash));

    // Dropping the thread makes everything garbage.
    refs.remove("t1");
    let stats = collect_garbage(&mut refs, &mut manifests, &mut blobs);
    assert_eq!(stats.manifests_removed, 1);
    assert_eq!(stats.blobs_removed, 1);
    assert_eq!(manifests.ids().len(), 0);
    assert_eq!(blobs.hashes().len(), 0);
}

#[test]
fn the_turn_index_keeps_what_a_live_thread_can_ask_for() {
    let (mut refs, mut manifests, mut blobs) = open();
    let hash = blobs.store_bytes(b"x");
    let scan = manifests.save(&one_file(&hash));
    let mut wider = one_file(&hash);
    wider.absent.insert("/new".to_string());
    let supplement = manifests.save(&wider);

    // A fork holds the turn; the supplement is known to the index alone.
    refs.append("fork", entry("turn-1", &scan));
    refs.note_turn("turn-1", supplement.clone());
    refs.note_turn("turn-9", scan.clone());
    let stats = collect_garbage(&mut refs, &mut manifests, &mut blobs);
    assert_eq!(
        stats,
        GcStats { manifests_kept: 2, manifests_removed: 0, blobs_kept: 1, blobs_removed: 0 }
    );
    assert_eq!(refs.turn("turn-1"), Some(supplement));
    assert_eq!(refs.turn("turn-9"), None, "a turn that no thread holds is forgotten");

    let again = collect_garbage(&mut refs, &mut manifests, &mut blobs);
    assert_eq!(again, stats, "a second collection has nothing to do");
}

#[test]
fn an_undo_outlives_its_thread() {
    let (mut refs, mut manifests, mut blobs) = open();
    let before = blobs.store_bytes(b"before");
    let after = blobs.store_bytes(b"after");
    let target = manifests.save(&one_file(&before));
    let safety = manifests.save(&one_file(&after));
    refs.append("t1", entry("turn-1", &target));
    refs.push_restore("branch", RestoreRecord { target: target.clone(), safety: safety.clone() });
    refs.remove("t1");
    let stats = collect_garbage(&mut refs, &mut manifests, &mut blobs);
    assert_eq!((stats.manifests_kept, stats.blobs_kept), (2, 2));
    refs.pop_restore("branch");
    let stats = collect_garbage(&mut refs, &mut manifests, &mut blobs);
    assert_eq!((stats.manifests_removed, stats.blobs_removed), (2, 2));
}

#[test]
fn a_sweep_names_what_would_go() {
    let (mut refs, mut manifests, mut blobs) = open();
    let live = blobs.store_bytes(b"live");
    let live_id = manifests.save(&one_file(&live));
    let dead_id = manifests.save(&one_file("feed"));
    refs.append("t1", entry("turn", &live_id));
    let mut hashes = blobs.hashes();
    hashes.insert("feed".to_string());
    let gone = sweep(&refs, &manifests, &hashes);
    assert_eq!(gone.manifests.len(), 1);
    assert!(gone.manifests.contains(&dead_id));
    assert_eq!(gone.blobs.len(), 1);
    assert!(gone.blobs.contains("feed"));
    assert_eq!(
        gone.stats,
        GcStats { manifests_kept: 1, manifests_removed: 1, blobs_kept: 1, blobs_removed: 1 }
    );
}

#[test]
fn records_have_names_that_every_system_takes() {
    assert_eq!(record_name("0198-ab_C.d"), "0198-ab_C.d");
    assert_eq!(record_name("a/b:c é"), "a_b_c__");
    let (refs, _, _) = open();
    assert_eq!(refs.log_path("t/1"), "/s/refs/t_1.json");
}

#[test]
fn a_thread_is_marked_by_its_log() {
    let (mut refs, _, _) = open();
    assert!(!refs.has_log("t1"));
    refs.ensure("t1");
    assert!(refs.has_log("t1"));
    refs.append("t1", entry("turn-1", "m1"));
    refs.ensure("t1");
    assert_eq!(refs.load("t1").entries.len(), 1);
    refs.append("a", entry("turn-2", "m2"));
    let logs = refs.thread_logs();
    assert_eq!(logs.len(), 2);
    assert_eq!(logs[0].entries[0].manifest_id, "m2");
    assert_eq!(logs[1].entries[0].manifest_id, "m1");
    refs.remove("t1");
    refs.remove("t1");
    assert!(!refs.has_log("t1"));
}

fn record(n: usize) -> RestoreRecord {
    RestoreRecord { target: format!("t{n}"), safety: format!("s{n}") }
}

#[test]
fn undos_retrace_rewinds_and_the_oldest_are_let_go() {
    let (mut refs, _, _) = open();
    assert_eq!(refs.last_restore("k"), None);
    refs.pop_restore("k");
    for n in 0..MAX_RESTORES + 3 {
        refs.push_restore("k", record(n));
    }
    refs.push_restore("other", record(99));
    for n in (3..MAX_RESTORES + 3).rev() {
        assert_eq!(refs.last_restore("k"), Some(record(n)));
        refs.pop_restore("k");
    }
    assert_eq!(refs.last_restore("k"), None, "only so many are kept");
    assert_eq!(refs.last_restore("other"), Some(record(99)), "destinations are private");
}

#[test]
fn what_was_read_is_put_at_hand() {
    let (mut refs, mut manifests, _) = open();
    refs.supply_log("t1".to_string(), ThreadLog { entries: vec![entry("turn-1", "m1")] });
    refs.supply_turn("turn-1".to_string(), "m1".to_string());
    refs.supply_restores("k".to_string(), RestoreLog { records: vec![record(1)] });
    assert_eq!(refs.load("t1").entries.len(), 1);
    assert_eq!(refs.turn("turn-1"), Some("m1".to_string()));
    assert_eq!(refs.last_restore("k"), Some(record(1)));
    manifests.supply("m1".to_string(), one_file("h"));
    assert!(manifests.contains("m1"));
}
