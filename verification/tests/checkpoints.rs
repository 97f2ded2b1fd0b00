use file_snapshots::blob::BlobStore;
use file_snapshots::checkpoint::{
    capture, fingerprint_is_trustworthy, must_read, Checkpoint, CheckpointStats, Found, Sighting,
};
use file_snapshots::manifest::{FileEntry, Manifest, ManifestStore, Moment, Stat};

const NOW: Moment = Moment { secs: 1_700_000_000, nanos: 500 };

fn ago(secs: i64) -> Moment {
    Moment { secs: NOW.secs - secs, nanos: NOW.nanos }
}

struct Fixture {
    blobs: BlobStore,
    manifests: ManifestStore,
}

fn fixture() -> Fixture {
    Fixture {
        blobs: BlobStore::open("/s/blobs".to_string()),
        manifests: ManifestStore::open("/s/manifests".to_string()),
    }
}

fn stat(content: &[u8], mode: u32, modified: Moment) -> Stat {
    Stat { mode, size: content.len() as u64, modified: Some(modified) }
}

/// A regular file as a capture sees it: read only where it has to be.
fn regular(path: &str, content: &[u8], mode: u32, modified: Moment, prev: Option<&Manifest>) -> Sighting {
    let stat = stat(content, mode, modified);
    let content = if must_read(prev, path, &stat, NOW) {
        Some(content.to_vec())
    } else {
        None
    };
    Sighting { path: path.to_string(), found: Found::Regular { stat, content } }
}

fn take(f: &mut Fixture, files: Vec<Sighting>, prev: Option<&Manifest>) -> Checkpoint {
    capture(&mut f.blobs, &mut f.manifests, &files, prev, true, NOW)
}

#[test]
fn captures_files_and_stores_blobs() {
    let mut f = fixture();
    let a = "/ws/a.txt";

    let files = vec![regular(a, b"alpha", 0o644, NOW, None)];
    let cp = take(&mut f, files, None);
    assert_eq!(cp.stats.hashed, 1);
    assert_eq!(cp.stats.reused, 0);

    let entry = cp.manifest.entries.get(a).unwrap();
    assert_eq!(f.blobs.load(&entry.hash).unwrap(), b"alpha");
    assert_eq!(entry.size, 5);
}

#[test]
fn unchanged_files_reuse_hash_without_reading() {
    let mut f = fixture();
    let a = "/ws/a.txt";
    // Aged past the racy window so its fingerprint is proof.
    let written = ago(60);

    let files = vec![regular(a, b"alpha", 0o644, written, None)];
    let cp1 = take(&mut f, files, None);
    let files = vec![regular(a, b"alpha", 0o644, written, Some(&cp1.manifest))];
    assert!(matches!(files[0].found, Found::Regular { content: None, .. }));
    let cp2 = take(&mut f, files, Some(&cp1.manifest));

    assert_eq!(cp2.stats.reused, 1);
    assert_eq!(cp2.stats.hashed, 0);
    // Identical state, identical manifest.
    assert_eq!(cp1.id, cp2.id);
}

#[test]
fn a_just_written_file_is_reread_even_if_its_fingerprint_matches() {
    let mut f = fixture();
    let a = "/ws/a.txt";
    let files = vec![regular(a, b"v1", 0o644, NOW, None)];
    let cp1 = take(&mut f, files, None);

    // Rewritten with identical size and the old fingerprint, exactly what a
    // same-tick write looks like.
    let stale = cp1.manifest.entries.get(a).unwrap();
    let forged = Moment { secs: stale.mtime_secs, nanos: stale.mtime_nanos };
    for written in [forged, NOW] {
        let files = vec![regular(a, b"v2", 0o644, written, Some(&cp1.manifest))];
        let cp2 = take(&mut f, files, Some(&cp1.manifest));
        assert_eq!(cp2.stats.hashed, 1, "a racily-clean entry must be re-read");
        assert_eq!(
            f.blobs
                .load(&cp2.manifest.entries.get(a).unwrap().hash)
                .unwrap()
                .as_slice(),
            b"v2"
        );
    }
}

#[test]
fn changed_files_are_rehashed() {
    let mut f = fixture();
    let a = "/ws/a.txt";
    let files = vec![regular(a, b"alpha", 0o644, ago(60), None)];
    let cp1 = take(&mut f, files, None);

    let files = vec![regular(a, b"alpha-2", 0o644, ago(30), Some(&cp1.manifest))];
    let cp2 = take(&mut f, files, Some(&cp1.manifest));

    assert_eq!(cp2.stats.hashed, 1);
    assert_ne!(cp1.id, cp2.id);
    assert_ne!(
        cp1.manifest.entries.get(a).unwrap().hash,
        cp2.manifest.entries.get(a).unwrap().hash
    );
}

#[test]
fn vanished_files_are_skipped() {
    let mut f = fixture();
    let ghost = Sighting { path: "/ws/ghost.txt".to_string(), found: Found::Missing };
    let cp = take(&mut f, vec![ghost], None);
    assert_eq!(cp.stats.skipped, 1);
    assert!(cp.manifest.entries.is_empty());
}

#[test]
fn mode_changes_are_recorded_even_on_stat_cache_hit() {
    let mut f = fixture();
    let a = "/ws/a.sh";
    let written = ago(60);
    let files = vec![regular(a, b"#!/bin/sh", 0o644, written, None)];
    let cp1 = take(&mut f, files, None);
    // A change of mode alone leaves size and time as they were.
    let files = vec![regular(a, b"#!/bin/sh", 0o755, written, Some(&cp1.manifest))];
    let cp2 = take(&mut f, files, Some(&cp1.manifest));

    assert_eq!(cp2.stats.reused, 1);
    assert_eq!(cp2.manifest.entries.get(a).unwrap().mode, 0o755);
}

#[test]
fn a_fingerprint_proves_something_after_two_seconds() {
    let now = Moment { secs: 100, nanos: 5 };
    let at = |secs: i64, nanos: u32| Stat { mode: 0, size: 0, modified: Some(Moment { secs, nanos }) };
    assert!(fingerprint_is_trustworthy(&at(98, 5), now));
    assert!(!fingerprint_is_trustworthy(&at(98, 6), now));
    assert!(!fingerprint_is_trustworthy(&at(200, 0), now), "a time to come proves nothing");
    let unknown = Stat { mode: 0, size: 0, modified: None };
    assert!(!fingerprint_is_trustworthy(&unknown, now));
    assert!(fingerprint_is_trustworthy(&at(i64::MIN, 0), Moment { secs: i64::MAX, nanos: 0 }));
}

#[test]
fn a_racy_capture_leaves_no_fingerprint() {
    let mut f = fixture();
    let files = vec![
        regular("/fresh", b"x", 0o600, ago(1), None),
        regular("/settled", b"y", 0o600, ago(2), None),
    ];
    let cp = take(&mut f, files, None);
    let fresh = cp.manifest.entries.get("/fresh").unwrap();
    assert_eq!((fresh.mtime_secs, fresh.mtime_nanos, fresh.size), (0, 0, 1));
    let settled = cp.manifest.entries.get("/settled").unwrap();
    assert_eq!((settled.mtime_secs, settled.mtime_nanos), (NOW.secs - 2, NOW.nanos));
    assert!(!fresh.stat_matches(&Stat { mode: 0, size: 1, modified: Some(Moment { secs: 0, nanos: 0 }) }));
    assert!(settled.stat_matches(&stat(b"y", 0o777, ago(2))));
    assert!(!settled.stat_matches(&stat(b"yy", 0o600, ago(2))));
}

#[test]
fn every_sighting_is_counted_and_absence_is_recorded() {
    let mut f = fixture();
    let gone = |p: &str| Sighting { path: p.to_string(), found: Found::Missing };
    let files = vec![
        gone("/gone"),
        Sighting { path: "/secret".to_string(), found: Found::Unreadable },
        Sighting { path: "/link".to_string(), found: Found::NotRegular },
        regular("/a", b"a", 0o644, ago(60), None),
        Sighting {
            path: "/unread".to_string(),
            found: Found::Regular { stat: stat(b"?", 0o644, ago(60)), content: None },
        },
        // Two looks at one path: what was found wins.
        gone("/a"),
        gone("/b"),
        regular("/b", b"b", 0o644, ago(60), None),
    ];
    let cp = take(&mut f, files, None);
    assert_eq!(cp.stats, CheckpointStats { reused: 0, hashed: 2, skipped: 6 });
    assert_eq!(cp.manifest.entries.len(), 2);
    assert!(cp.manifest.entries.contains_key("/a"));
    assert!(cp.manifest.entries.contains_key("/b"));
    assert_eq!(cp.manifest.absent.len(), 1);
    assert!(cp.manifest.absent.contains("/gone"));
    assert!(cp.manifest.complete);
}

fn entry(hash: &str) -> FileEntry {
    FileEntry { mode: 0o644, size: 1, mtime_secs: 2, mtime_nanos: 3, hash: hash.to_string() }
}

#[test]
fn manifests_that_differ_have_different_ids() {
    let mut ids = Vec::new();
    let mut m = Manifest::default();
    ids.push(m.id());
    m.complete = true;
    ids.push(m.id());
    m.entries.insert("/a".to_string(), entry("h"));
    ids.push(m.id());
    m.absent.insert("/b".to_string());
    ids.push(m.id());
    let mut swapped = Manifest::default();
    swapped.complete = true;
    swapped.entries.insert("/b".to_string(), entry("h"));
    swapped.absent.insert("/a".to_string());
    ids.push(swapped.id());
    m.entries.insert("/a".to_string(), FileEntry { mtime_secs: -2, ..entry("h") });
    ids.push(m.id());
    for i in 0..ids.len() {
        for j in 0..i {
            assert_ne!(ids[i], ids[j]);
        }
    }
    let again = m.clone();
    assert_eq!(again.id(), m.id());
}

#[test]
fn the_id_of_a_manifest_is_the_hash_of_its_bytes() {
    // Not complete, no entries, nothing absent.
    let mut bytes = vec![0u8];
    bytes.extend([0u8; 16]);
    assert_eq!(Manifest::default().id(), BlobStore::hash_bytes(&bytes));

    let mut m = Manifest::default();
    m.entries.insert("/a".to_string(), entry("h"));
    let mut bytes = vec![0u8];
    bytes.extend(1u64.to_le_bytes());
    bytes.extend(2u64.to_le_bytes());
    bytes.extend(b"/a");
    bytes.extend(0o644u32.to_le_bytes());
    bytes.extend(1u64.to_le_bytes());
    bytes.extend(2u64.to_le_bytes());
    bytes.extend(3u32.to_le_bytes());
    bytes.extend(1u64.to_le_bytes());
    bytes.extend(b"h");
    bytes.extend(0u64.to_le_bytes());
    assert_eq!(m.id(), BlobStore::hash_bytes(&bytes));
}

#[test]
fn a_manifest_store_gives_back_what_it_keeps() {
    let mut f = fixture();
    let mut m = Manifest::default();
    m.entries.insert("/a".to_string(), entry("h"));
    let id = f.manifests.save(&m);
    assert_eq!(id, m.id());
    assert_eq!(f.manifests.save(&m), id);
    assert_eq!(f.manifests.ids().len(), 1);
    assert_eq!(f.manifests.load(&id).unwrap(), m);
    f.manifests.remove(&id);
    f.manifests.remove(&id);
    assert!(f.manifests.load(&id).is_err());
}
