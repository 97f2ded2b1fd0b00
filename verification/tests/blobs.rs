use file_snapshots::blob::{BlobStore, ListedDir, ReadOutcome, RemoveOutcome};
use file_snapshots::error::SnapshotError;
use file_snapshots::publish::{PublishRun, PublishStep};

fn open() -> BlobStore {
    BlobStore::open("/store/blobs".to_string())
}

#[test]
fn roundtrip_and_dedup() {
    let mut store = open();

    let h1 = store.store_bytes(b"hello");
    let h2 = store.store_bytes(b"hello");
    assert_eq!(h1, h2);
    assert_eq!(store.load(&h1).unwrap(), b"hello");
    assert_eq!(store.hashes().len(), 1);

    let h3 = store.store_bytes(b"world");
    assert_ne!(h1, h3);
    assert_eq!(store.hashes().len(), 2);
}

#[test]
fn missing_blob_is_typed_error() {
    let store = open();
    assert!(matches!(
        store.load("deadbeef"),
        Err(SnapshotError::MissingBlob(_))
    ));
}

/// Lists one directory of the storage.
fn listing(dir: &str, files: &[&str]) -> ListedDir {
    ListedDir {
        name: dir.to_string(),
        is_dir: true,
        files: files.iter().map(|f| f.to_string()).collect(),
    }
}

#[test]
fn an_in_flight_write_is_invisible_to_the_sweep() {
    let mut store = open();
    let hash = store.store_bytes(b"published");

    let published = store.path_for(&hash);
    let in_flight = store.tmp_path_for(&hash, 4242, 7);
    assert_eq!(in_flight, format!("{published}.4242.7.tmp"));

    let (dir, name) = (&hash[..2], &hash[2..]);
    let tmp_name = in_flight.rsplit('/').next().unwrap();
    let seen = BlobStore::listed_hashes(&vec![listing(dir, &[name, tmp_name, ".DS_Store"])]);
    assert_eq!(seen.len(), 1);
    assert_eq!(
        seen.at(0),
        &hash,
        "only published blobs are hashes; an in-flight temp and a stray file are neither"
    );
}

#[test]
fn a_blob_already_published_by_someone_else_is_not_an_error() {
    let mut store = open();

    let first = store.store_bytes(b"same bytes");
    let again = store.store_bytes(b"same bytes");

    assert_eq!(first, again);
    assert_eq!(store.load(&first).unwrap(), b"same bytes");
    assert_eq!(
        store.hashes().len(),
        1,
        "no temp file survives a completed write"
    );
}

#[test]
fn remove_is_idempotent() {
    let mut store = open();
    let h = store.store_bytes(b"x");
    store.remove(&h);
    store.remove(&h);
    assert!(!store.contains(&h));
}

#[test]
fn hashes_are_sha_256_in_lower_case_hex() {
    assert_eq!(
        BlobStore::hash_bytes(b"hello"),
        "2cf24dba5fb0a30e26e83b2ac5b9e29e1b161e5c1fa7425e73043362938b9824"
    );
    assert_eq!(
        BlobStore::hash_bytes(b""),
        "e3b0c44298fc1c149afbf4c8996fb92427ae41e4649b934ca495991b7852b855"
    );
}

#[test]
fn a_blob_lives_under_the_front_of_its_hash() {
    let store = open();
    assert_eq!(store.path_for("abcdef"), "/store/blobs/ab/cdef");
    assert_eq!(store.path_for("a"), "/store/blobs/a/");
}

#[test]
fn an_existing_blob_is_never_rewritten() {
    let mut store = open();
    let hash = BlobStore::hash_bytes(b"content");
    store.supply(hash.clone(), b"what was read".to_vec());
    assert_eq!(store.store_bytes(b"content"), hash);
    assert_eq!(store.load(&hash).unwrap(), b"what was read");
}

#[test]
fn only_directories_of_the_storage_are_listed() {
    let mut stray = listing("ab", &["cd"]);
    stray.is_dir = false;
    assert!(BlobStore::listed_hashes(&vec![stray]).is_empty());
    let seen = BlobStore::listed_hashes(&vec![
        listing("ab", &["cd", "EF", "xyz"]),
        listing("12", &["34"]),
    ]);
    assert_eq!(seen.len(), 3);
    assert!(seen.contains("abcd"));
    assert!(seen.contains("abEF"));
    assert!(seen.contains("1234"));
}

#[test]
fn reading_and_removing_settle_what_the_file_system_said() {
    assert_eq!(
        BlobStore::settle_read("h", "/p", ReadOutcome::Bytes(b"x".to_vec())),
        Ok(b"x".to_vec())
    );
    assert_eq!(
        BlobStore::settle_read("h", "/p", ReadOutcome::NotFound),
        Err(SnapshotError::MissingBlob("h".to_string()))
    );
    let denied = SnapshotError::Io {
        path: "/p".to_string(),
        reason: "denied".to_string(),
    };
    assert_eq!(
        BlobStore::settle_read("h", "/p", ReadOutcome::Failed("denied".to_string())),
        Err(denied.clone())
    );
    assert_eq!(BlobStore::settle_remove("/p", RemoveOutcome::Removed), Ok(()));
    assert_eq!(BlobStore::settle_remove("/p", RemoveOutcome::NotFound), Ok(()));
    assert_eq!(
        BlobStore::settle_remove("/p", RemoveOutcome::Failed("denied".to_string())),
        Err(denied)
    );
}

fn publication() -> PublishRun {
    PublishRun::new(&open(), "abcdef", 9, 3)
}

const PLACE: &str = "/store/blobs/ab/cdef";
const TMP: &str = "/store/blobs/ab/cdef.9.3.tmp";

#[test]
fn a_publication_writes_aside_and_renames() {
    let run = publication();
    assert_eq!(run.step(), PublishStep::LookUp { path: PLACE.to_string() });
    let run = run.looked_up(false);
    assert_eq!(
        run.step(),
        PublishStep::MakeDir { path: "/store/blobs/ab".to_string() }
    );
    let run = run.made_dir(Ok(()));
    assert_eq!(run.step(), PublishStep::WriteFile { path: TMP.to_string() });
    let run = run.written(Ok(()));
    assert_eq!(
        run.step(),
        PublishStep::Rename { from: TMP.to_string(), to: PLACE.to_string() }
    );
    let run = run.renamed(Ok(()));
    assert_eq!(run.step(), PublishStep::Finished);
    assert_eq!(run.outcome(), Ok(()));
}

#[test]
fn a_publication_stops_where_the_blob_is_there() {
    let run = publication().looked_up(true);
    assert_eq!(run.step(), PublishStep::Finished);
    assert_eq!(run.outcome(), Ok(()));
}

#[test]
fn losing_the_race_is_success() {
    let run = publication().looked_up(false).made_dir(Ok(())).written(Ok(()));
    let run = run.renamed(Err("held open".to_string()));
    assert_eq!(run.step(), PublishStep::LookUp { path: PLACE.to_string() });
    let run = run.looked_up(true);
    assert_eq!(run.step(), PublishStep::Discard { path: TMP.to_string() });
    assert_eq!(run.discarded().outcome(), Ok(()));
}

#[test]
fn a_failed_publication_says_where() {
    let io = |path: &str, reason: &str| {
        Err(SnapshotError::Io {
            path: path.to_string(),
            reason: reason.to_string(),
        })
    };
    let run = publication().looked_up(false);
    assert_eq!(
        run.made_dir(Err("full".to_string())).outcome(),
        io("/store/blobs/ab", "full")
    );
    let run = publication().looked_up(false).made_dir(Ok(()));
    assert_eq!(run.written(Err("full".to_string())).outcome(), io(TMP, "full"));
    let run = publication().looked_up(false).made_dir(Ok(())).written(Ok(()));
    let run = run.renamed(Err("denied".to_string())).looked_up(false);
    assert_eq!(run.step(), PublishStep::Discard { path: TMP.to_string() });
    assert_eq!(run.discarded().outcome(), io(PLACE, "denied"));
}
