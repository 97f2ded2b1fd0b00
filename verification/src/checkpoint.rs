//! Checkpoint capture: from what was seen of the tracked files to a manifest.
//!
//! For every file the previous manifest's fingerprint, its size and its time,
//! is consulted first. On a match the recorded hash is reused and the file
//! need not be read. Only changed or new files are read, hashed and stored.

use vstd::prelude::*;

use crate::blob::{kept, stored, BlobStore};
use crate::digest::content_hash;
use crate::manifest::{
    a_match_means_the_same_size_and_time, fingerprint_matches, manifest_id, mtime_parts, saved,
    stat_time, EntryView, FileEntry, Manifest, ManifestStore, ManifestView, Moment, Stat,
};
use crate::table::{Duplicate, NameSet, Table};

verus! {

/// How long ago a file must have been written, in nanoseconds, for its
/// fingerprint to prove that it is unchanged. Two writes inside one tick of
/// the file system's clock cannot be told apart by size and time.
pub const RACY_WINDOW_NANOS: i128 = 2_000_000_000;

/// What was found at a path.
#[derive(Debug, PartialEq, Eq)]
pub enum Found {
    /// Nothing: the path was looked for and does not exist.
    Missing,
    /// The file system would not say.
    Unreadable,
    /// Something other than a regular file, a link for instance.
    NotRegular,
    /// A regular file; `content` is what it held, where it was read.
    Regular { stat: Stat, content: Option<Vec<u8>> },
}

/// One path that a capture was asked about, and what was found there.
#[derive(Debug, PartialEq, Eq)]
pub struct Sighting {
    pub path: String,
    pub found: Found,
}

#[derive(Debug, Default, Clone, Copy, PartialEq, Eq, Structural)]
pub struct CheckpointStats {
    /// Files whose hash was taken over from the previous manifest.
    pub reused: usize,
    /// Files that were read, hashed and, if new, stored.
    pub hashed: usize,
    /// Paths with no regular file that could be read.
    pub skipped: usize,
}

/// A capture that has been kept.
#[derive(Debug)]
pub struct Checkpoint {
    pub id: String,
    pub manifest: Manifest,
    pub stats: CheckpointStats,
}

/// Nanoseconds from one moment to another.
pub open spec fn elapsed(from: Moment, to: Moment) -> int {
    (to.secs - from.secs) * 1_000_000_000 + (to.nanos - from.nanos)
}

/// The file was written long enough before `now` for its fingerprint to prove
/// something. A time that is unknown, or in the future, proves nothing.
pub open spec fn trustworthy(stat: Stat, now: Moment) -> bool {
    match stat.modified {
        Some(m) => elapsed(m, now) >= RACY_WINDOW_NANOS,
        None => false,
    }
}

/// Whether the fingerprint of a file proves anything at `now`.
pub fn fingerprint_is_trustworthy(stat: &Stat, now: Moment) -> (r: bool)
    ensures
        r == trustworthy(*stat, now),
{
    match stat.modified {
        Some(m) => {
            let secs: i128 = now.secs as i128 - m.secs as i128;
            let nanos: i128 = now.nanos as i128 - m.nanos as i128;
            secs * 1_000_000_000 + nanos >= RACY_WINDOW_NANOS
        },
        None => false,
    }
}

/// The previous manifest answers for the file at `path`, without a read.
pub open spec fn reusable(
    prev: Option<ManifestView>,
    path: Seq<char>,
    stat: Stat,
    now: Moment,
) -> bool {
    &&& prev is Some
    &&& prev->0.entries.contains_key(path)
    &&& fingerprint_matches(prev->0.entries[path], stat)
    &&& trustworthy(stat, now)
}

/// The entry of a file that was read. A fingerprint taken too soon after a
/// write is recorded as zero, so that no later capture relies on it.
pub open spec fn read_entry(stat: Stat, content: Seq<u8>, now: Moment) -> EntryView {
    let time = if trustworthy(stat, now) {
        stat_time(stat)
    } else {
        (0i64, 0u32)
    };
    EntryView {
        mode: stat.mode,
        size: content.len() as u64,
        mtime_secs: time.0,
        mtime_nanos: time.1,
        hash: content_hash(content),
    }
}

/// An entry with the mode replaced.
pub open spec fn with_mode(e: EntryView, mode: u32) -> EntryView {
    EntryView { mode, ..e }
}

/// How far a capture has come.
#[verifier::ext_equal]
pub struct Progress {
    pub entries: Map<Seq<char>, EntryView>,
    pub absent: Set<Seq<char>>,
    pub blobs: Map<Seq<char>, Seq<u8>>,
    pub reused: nat,
    pub hashed: nat,
    pub skipped: nat,
}

/// A capture that has looked at nothing yet.
pub open spec fn nothing_seen(blobs: Map<Seq<char>, Seq<u8>>) -> Progress {
    Progress {
        entries: Map::empty(),
        absent: Set::empty(),
        blobs,
        reused: 0,
        hashed: 0,
        skipped: 0,
    }
}

/// The file at `path` is recorded as found.
pub open spec fn with_entry(p: Progress, path: Seq<char>, entry: EntryView) -> Progress {
    Progress { entries: p.entries.insert(path, entry), absent: p.absent.remove(path), ..p }
}

/// What one sighting adds.
pub open spec fn seen(
    p: Progress,
    s: Sighting,
    prev: Option<ManifestView>,
    now: Moment,
) -> Progress {
    match s.found {
        Found::Missing => Progress {
            absent: if p.entries.contains_key(s.path@) {
                p.absent
            } else {
                p.absent.insert(s.path@)
            },
            skipped: p.skipped + 1,
            ..p
        },
        Found::Unreadable => Progress { skipped: p.skipped + 1, ..p },
        Found::NotRegular => Progress { skipped: p.skipped + 1, ..p },
        Found::Regular { stat, content } => if reusable(prev, s.path@, stat, now) {
            Progress {
                reused: p.reused + 1,
                ..with_entry(p, s.path@, with_mode(prev->0.entries[s.path@], stat.mode))
            }
        } else {
            match content {
                None => Progress { skipped: p.skipped + 1, ..p },
                Some(bytes) => Progress {
                    blobs: stored(p.blobs, bytes@),
                    hashed: p.hashed + 1,
                    ..with_entry(p, s.path@, read_entry(stat, bytes@, now))
                },
            }
        },
    }
}

/// What a run of sightings adds up to, one after another.
pub open spec fn all_seen(
    files: Seq<Sighting>,
    prev: Option<ManifestView>,
    now: Moment,
    blobs: Map<Seq<char>, Seq<u8>>,
) -> Progress
    decreases files.len(),
{
    if files.len() == 0 {
        nothing_seen(blobs)
    } else {
        seen(all_seen(files.drop_last(), prev, now, blobs), files.last(), prev, now)
    }
}

/// The manifest of a capture.
pub open spec fn captured(p: Progress, complete: bool) -> ManifestView {
    ManifestView { entries: p.entries, absent: p.absent, complete }
}

/// What a manifest that may not be there stands for.
pub open spec fn previous(prev: Option<&Manifest>) -> Option<ManifestView> {
    match prev {
        Some(m) => Some(m@),
        None => None,
    }
}

/// The content of `path` has to be read: the previous manifest does not answer
/// for it.
pub fn must_read(prev: Option<&Manifest>, path: &str, stat: &Stat, now: Moment) -> (r: bool)
    ensures
        r == !reusable(previous(prev), path@, *stat, now),
{
    match prev {
        Some(m) => match m.entries.get(path) {
            Some(entry) => !(entry.stat_matches(stat) && fingerprint_is_trustworthy(stat, now)),
            None => true,
        },
        None => true,
    }
}

/// Captures what was seen of `files` into a manifest, and keeps it.
///
/// `prev` is the previous checkpoint of the same files, if there is one, and
/// serves as the cache of hashes. Paths with nothing that could be read are
/// skipped: a checkpoint records what verifiably exists. A path that was
/// looked for and does not exist is recorded as absent.
pub fn capture(
    blobs: &mut BlobStore,
    manifests: &mut ManifestStore,
    files: &Vec<Sighting>,
    prev: Option<&Manifest>,
    complete: bool,
    now: Moment,
) -> (r: Checkpoint)
    ensures
        ({
            let p = all_seen(files@, previous(prev), now, old(blobs)@);
            &&& final(blobs)@ == p.blobs
            &&& r.manifest@ == captured(p, complete)
            &&& r.stats.reused == p.reused
            &&& r.stats.hashed == p.hashed
            &&& r.stats.skipped == p.skipped
        }),
        r.id@ == manifest_id(r.manifest@),
        final(manifests)@ == saved(old(manifests)@, r.manifest@),
        final(blobs).root() == old(blobs).root(),
        final(manifests).root() == old(manifests).root(),
{
    let ghost before = previous(prev);
    let ghost start = blobs@;
    let mut entries: Table<FileEntry> = Table::new();
    let mut absent = NameSet::new();
    let mut stats = CheckpointStats { reused: 0, hashed: 0, skipped: 0 };
    for i in 0..files.len()
        invariant
            before == previous(prev),
            blobs.root() == old(blobs).root(),
            ({
                let p = all_seen(files@.take(i as int), before, now, start);
                &&& entries@ == p.entries
                &&& absent@ == p.absent
                &&& blobs@ == p.blobs
                &&& stats.reused == p.reused
                &&& stats.hashed == p.hashed
                &&& stats.skipped == p.skipped
                &&& p.reused + p.hashed + p.skipped == i
            }),
    {
        let s = &files[i];
        proof {
            let front = files@.take(i as int);
            let next = files@.take(i + 1);
            assert(next.drop_last() =~= front);
            assert(next.last() == *s);
        }
        match &s.found {
            Found::Missing => {
                if !entries.contains_key(s.path.as_str()) {
                    absent.insert(s.path.clone());
                }
                stats.skipped = stats.skipped + 1;
            },
            Found::Unreadable => {
                stats.skipped = stats.skipped + 1;
            },
            Found::NotRegular => {
                stats.skipped = stats.skipped + 1;
            },
            Found::Regular { stat, content } => {
                let mut kept: Option<FileEntry> = None;
                if let Some(m) = prev {
                    if let Some(entry) = m.entries.get(s.path.as_str()) {
                        if entry.stat_matches(stat) && fingerprint_is_trustworthy(stat, now) {
                            let mut entry = entry.duplicate();
                            // A change of permissions need not change the time.
                            entry.mode = stat.mode;
                            kept = Some(entry);
                        }
                    }
                }
                if let Some(entry) = kept {
                    entries.insert(s.path.clone(), entry);
                    absent.remove(s.path.as_str());
                    stats.reused = stats.reused + 1;
                } else {
                    match content {
                        None => {
                            stats.skipped = stats.skipped + 1;
                        },
                        Some(bytes) => {
                            let hash = blobs.store_bytes(bytes.as_slice());
                            let (mtime_secs, mtime_nanos) = if fingerprint_is_trustworthy(
                                stat,
                                now,
                            ) {
                                mtime_parts(stat)
                            } else {
                                (0i64, 0u32)
                            };
                            let entry = FileEntry {
                                mode: stat.mode,
                                size: bytes.len() as u64,
                                mtime_secs,
                                mtime_nanos,
                                hash,
                            };
                            entries.insert(s.path.clone(), entry);
                            absent.remove(s.path.as_str());
                            stats.hashed = stats.hashed + 1;
                        },
                    }
                }
            },
        }
    }
    assert(files@.take(files@.len() as int) =~= files@);
    let manifest = Manifest { entries, absent, complete };
    let id = manifests.save(&manifest);
    Checkpoint { id, manifest, stats }
}

/// Every sighting is counted once: as reused, as hashed or as skipped.
pub proof fn every_sighting_counts_once(
    files: Seq<Sighting>,
    prev: Option<ManifestView>,
    now: Moment,
    blobs: Map<Seq<char>, Seq<u8>>,
)
    ensures
        ({
            let p = all_seen(files, prev, now, blobs);
            p.reused + p.hashed + p.skipped == files.len()
        }),
    decreases files.len(),
{
    if files.len() > 0 {
        every_sighting_counts_once(files.drop_last(), prev, now, blobs);
    }
}

/// A capture never records one path both as found and as absent.
pub proof fn found_and_absent_are_apart(
    files: Seq<Sighting>,
    prev: Option<ManifestView>,
    now: Moment,
    blobs: Map<Seq<char>, Seq<u8>>,
    path: Seq<char>,
)
    ensures
        ({
            let p = all_seen(files, prev, now, blobs);
            !(p.entries.contains_key(path) && p.absent.contains(path))
        }),
    decreases files.len(),
{
    if files.len() > 0 {
        found_and_absent_are_apart(files.drop_last(), prev, now, blobs, path);
    }
}

/// Some sighting of `path` found nothing there.
pub open spec fn seen_missing(files: Seq<Sighting>, path: Seq<char>) -> bool {
    exists|i: int|
        0 <= i < files.len() && (#[trigger] files[i]).path@ == path && files[i].found is Missing
}

/// Some sighting of `path` found a regular file there.
pub open spec fn seen_regular(files: Seq<Sighting>, path: Seq<char>) -> bool {
    exists|i: int|
        0 <= i < files.len() && (#[trigger] files[i]).path@ == path && files[i].found is Regular
}

/// A capture records nothing that it was not asked about: an entry goes back
/// to a regular file that was seen, and an absence to a look that found
/// nothing.
pub proof fn nothing_is_recorded_unseen(
    files: Seq<Sighting>,
    prev: Option<ManifestView>,
    now: Moment,
    blobs: Map<Seq<char>, Seq<u8>>,
    path: Seq<char>,
)
    ensures
        ({
            let p = all_seen(files, prev, now, blobs);
            &&& p.entries.contains_key(path) ==> seen_regular(files, path)
            &&& p.absent.contains(path) ==> seen_missing(files, path)
        }),
    decreases files.len(),
{
    if files.len() > 0 {
        let front = files.drop_last();
        nothing_is_recorded_unseen(front, prev, now, blobs, path);
        if seen_regular(front, path) {
            let i = choose|i: int|
                0 <= i < front.len() && (#[trigger] front[i]).path@ == path
                    && front[i].found is Regular;
            assert(files[i] == front[i]);
        }
        if seen_missing(front, path) {
            let i = choose|i: int|
                0 <= i < front.len() && (#[trigger] front[i]).path@ == path
                    && front[i].found is Missing;
            assert(files[i] == front[i]);
        }
        assert(files[files.len() - 1] == files.last());
    }
}

/// What was stored before a capture is still there after it.
pub proof fn captures_keep_blobs(
    files: Seq<Sighting>,
    prev: Option<ManifestView>,
    now: Moment,
    blobs: Map<Seq<char>, Seq<u8>>,
)
    ensures
        kept(blobs, all_seen(files, prev, now, blobs).blobs),
    decreases files.len(),
{
    if files.len() > 0 {
        captures_keep_blobs(files.drop_last(), prev, now, blobs);
    }
}

/// The blob of every entry is there: it was there for the previous manifest's
/// entries, or it was stored by this capture.
pub proof fn captured_blobs_are_there(
    files: Seq<Sighting>,
    prev: Option<ManifestView>,
    now: Moment,
    blobs: Map<Seq<char>, Seq<u8>>,
    path: Seq<char>,
)
    requires
        prev matches Some(m) ==> forall|k: Seq<char>| #[trigger]
            m.entries.contains_key(k) ==> blobs.contains_key(m.entries[k].hash),
        all_seen(files, prev, now, blobs).entries.contains_key(path),
    ensures
        ({
            let p = all_seen(files, prev, now, blobs);
            p.blobs.contains_key(p.entries[path].hash)
        }),
    decreases files.len(),
{
    captures_keep_blobs(files, prev, now, blobs);
    if files.len() > 0 {
        let front = files.drop_last();
        captures_keep_blobs(front, prev, now, blobs);
        if all_seen(front, prev, now, blobs).entries.contains_key(path) {
            captured_blobs_are_there(front, prev, now, blobs, path);
        }
    }
}

/// A fingerprint that proves nothing when it is taken is never relied on: the
/// entry made with it matches no file, at any later time.
pub proof fn a_racy_fingerprint_never_matches(
    stat: Stat,
    content: Seq<u8>,
    now: Moment,
    later: Stat,
)
    requires
        !trustworthy(stat, now),
    ensures
        !fingerprint_matches(read_entry(stat, content, now), later),
{
}

/// What is written after a capture is read by the next one: no fingerprint of
/// the capture answers for a file that had not settled by then.
pub proof fn what_is_written_since_is_read_again(
    files: Seq<Sighting>,
    prev: Option<ManifestView>,
    now: Moment,
    blobs: Map<Seq<char>, Seq<u8>>,
    complete: bool,
    path: Seq<char>,
    stat: Stat,
    later: Moment,
)
    requires
        !trustworthy(stat, now),
    ensures
        !reusable(Some(captured(all_seen(files, prev, now, blobs), complete)), path, stat, later),
    decreases files.len(),
{
    if files.len() > 0 {
        what_is_written_since_is_read_again(
            files.drop_last(),
            prev,
            now,
            blobs,
            complete,
            path,
            stat,
            later,
        );
    }
}

/// A file that has settled and has not been touched is not read again: the
/// entry made by one capture answers for it in the next.
pub proof fn a_settled_fingerprint_is_reused(
    m: ManifestView,
    path: Seq<char>,
    stat: Stat,
    content: Seq<u8>,
    now: Moment,
    later: Moment,
)
    requires
        m.entries.contains_key(path),
        m.entries[path] == read_entry(stat, content, now),
        content.len() == stat.size,
        trustworthy(stat, now),
        elapsed(now, later) >= 0,
        stat_time(stat) != (0i64, 0u32),
    ensures
        reusable(Some(m), path, stat, later),
        with_mode(m.entries[path], stat.mode) == m.entries[path],
{
    let written = stat.modified->0;
    assert(elapsed(written, later) == elapsed(written, now) + elapsed(now, later));
}

/// Every sighting is of a file that was read and has settled, or of a path
/// with nothing there, and no two sightings of one path disagree.
pub open spec fn all_settled(files: Seq<Sighting>, now: Moment) -> bool {
    &&& forall|i: int|
        0 <= i < files.len() ==> match (#[trigger] files[i]).found {
            Found::Missing => true,
            Found::Regular { stat, content } => content is Some && content->0@.len() == stat.size
                && trustworthy(stat, now) && stat_time(stat) != (0i64, 0u32),
            _ => false,
        }
    &&& forall|i: int, j: int|
        0 <= i < files.len() && 0 <= j < files.len() && (#[trigger] files[i]).path@
            == (#[trigger] files[j]).path@ ==> files[i].found == files[j].found
}

/// The entry of a path that was captured is that of the file seen there.
proof fn captured_as_seen(
    files: Seq<Sighting>,
    now: Moment,
    blobs: Map<Seq<char>, Seq<u8>>,
    i: int,
)
    requires
        all_settled(files, now),
        0 <= i < files.len(),
    ensures
        ({
            let p = all_seen(files, None, now, blobs);
            match files[i].found {
                Found::Regular { stat, content } => p.entries.contains_key(files[i].path@)
                    && p.entries[files[i].path@] == read_entry(stat, content->0@, now),
                _ => !p.entries.contains_key(files[i].path@),
            }
        }),
    decreases files.len(),
{
    let front = files.drop_last();
    let last = files.len() - 1;
    assert(all_settled(front, now)) by {
        assert forall|a: int, b: int|
            0 <= a < front.len() && 0 <= b < front.len() && (#[trigger] front[a]).path@
                == (#[trigger] front[b]).path@ implies front[a].found == front[b].found by {
            assert(files[a].found == files[b].found);
        }
        assert forall|a: int| 0 <= a < front.len() implies match (#[trigger] front[a]).found {
            Found::Missing => true,
            Found::Regular { stat, content } => content is Some && content->0@.len() == stat.size
                && trustworthy(stat, now) && stat_time(stat) != (0i64, 0u32),
            _ => false,
        } by {
            assert(files[a] == front[a]);
        }
    }
    assert(files[last] == files.last());
    if i < last {
        captured_as_seen(front, now, blobs, i);
        assert(front[i] == files[i]);
        if files[last].path@ == files[i].path@ {
            assert(files[last].found == files[i].found);
        }
    } else {
        if files[i].found is Missing {
            nothing_is_recorded_unseen(front, None, now, blobs, files[i].path@);
            if seen_regular(front, files[i].path@) {
                let j = choose|j: int|
                    0 <= j < front.len() && (#[trigger] front[j]).path@ == files[i].path@
                        && front[j].found is Regular;
                assert(files[j].found == files[i].found);
            }
        }
    }
}

/// A workspace that nothing has touched has one manifest: a second capture of
/// settled files, with the first as its cache, records the same.
pub proof fn an_untouched_workspace_has_one_manifest(
    files: Seq<Sighting>,
    now: Moment,
    blobs: Map<Seq<char>, Seq<u8>>,
    later: Moment,
    later_blobs: Map<Seq<char>, Seq<u8>>,
    complete: bool,
)
    requires
        all_settled(files, now),
        elapsed(now, later) >= 0,
    ensures
        ({
            let first = captured(all_seen(files, None, now, blobs), complete);
            let again = all_seen(files, Some(first), later, later_blobs);
            &&& captured(again, complete) == first
            &&& again.hashed == 0
            &&& again.blobs == later_blobs
        }),
{
    let first = captured(all_seen(files, None, now, blobs), complete);
    second_capture_follows(files, files.len() as int, now, blobs, later, later_blobs, first);
    assert(files.take(files.len() as int) =~= files);
    let again = all_seen(files, Some(first), later, later_blobs);
    assert(captured(again, complete) == first);
}

/// The second capture records as it goes what the first did.
proof fn second_capture_follows(
    files: Seq<Sighting>,
    n: int,
    now: Moment,
    blobs: Map<Seq<char>, Seq<u8>>,
    later: Moment,
    later_blobs: Map<Seq<char>, Seq<u8>>,
    first: ManifestView,
)
    requires
        all_settled(files, now),
        elapsed(now, later) >= 0,
        0 <= n <= files.len(),
        first.entries == all_seen(files, None, now, blobs).entries,
    ensures
        ({
            let a = all_seen(files.take(n), None, now, blobs);
            let b = all_seen(files.take(n), Some(first), later, later_blobs);
            &&& a.entries == b.entries
            &&& a.absent == b.absent
            &&& b.hashed == 0
            &&& b.blobs == later_blobs
        }),
    decreases n,
{
    if n > 0 {
        second_capture_follows(files, n - 1, now, blobs, later, later_blobs, first);
        let s = files[n - 1];
        assert(files.take(n).drop_last() =~= files.take(n - 1));
        assert(files.take(n).last() == s);
        captured_as_seen(files, now, blobs, n - 1);
        if let Found::Regular { stat, content } = s.found {
            a_settled_fingerprint_is_reused(first, s.path@, stat, content->0@, now, later);
        }
    }
}

/// A fingerprint proves something from two seconds after the write on, and not
/// before; a time that is unknown never does.
pub proof fn a_fingerprint_settles_after_two_seconds(stat: Stat, now: Moment)
    ensures
        trustworthy(stat, now) <==> (stat.modified matches Some(m) && m.secs * 1_000_000_000
            + m.nanos + 2_000_000_000 <= now.secs * 1_000_000_000 + now.nanos),
{
}

/// The previous manifest answers for a file only if it holds an entry for that
/// very path, with the file's size and the file's time, and the file was
/// written two seconds ago or more; and there it does answer.
pub proof fn only_an_unchanged_file_is_not_read(
    prev: Option<ManifestView>,
    path: Seq<char>,
    stat: Stat,
    now: Moment,
)
    ensures
        reusable(prev, path, stat, now) <==> (prev matches Some(m) && m.entries.dom().contains(path)
            && m.entries[path].size == stat.size && !(m.entries[path].mtime_secs == 0
            && m.entries[path].mtime_nanos == 0) && stat.modified == Some(
            Moment { secs: m.entries[path].mtime_secs, nanos: m.entries[path].mtime_nanos },
        ) && m.entries[path].mtime_secs * 1_000_000_000 + m.entries[path].mtime_nanos
            + 2_000_000_000 <= now.secs * 1_000_000_000 + now.nanos),
{
    if let Some(m) = prev {
        a_match_means_the_same_size_and_time(m.entries[path], stat);
    }
    a_fingerprint_settles_after_two_seconds(stat, now);
}

/// The entry of a file that was read has the file's mode, the size of what was
/// read and its hash. It has the file's time where that had settled, and none
/// where it had not.
pub proof fn a_read_entry_describes_what_was_read(stat: Stat, content: Seq<u8>, now: Moment)
    requires
        content.len() <= u64::MAX,
    ensures
        ({
            let e = read_entry(stat, content, now);
            &&& e.mode == stat.mode
            &&& e.size == content.len()
            &&& e.hash == content_hash(content)
            &&& trustworthy(stat, now) ==> stat.modified == Some(
                Moment { secs: e.mtime_secs, nanos: e.mtime_nanos },
            )
            &&& !trustworthy(stat, now) ==> e.mtime_secs == 0 && e.mtime_nanos == 0
        }),
{
}

/// The counts of a capture are those of its sightings: reused are the files
/// that the previous manifest answers for, hashed the other files whose content
/// was at hand, skipped the rest. The manifest says whether the capture was
/// complete.
pub proof fn a_capture_counts_its_sightings(
    files: Seq<Sighting>,
    prev: Option<ManifestView>,
    now: Moment,
    blobs: Map<Seq<char>, Seq<u8>>,
    complete: bool,
)
    ensures
        ({
            let p = all_seen(files, prev, now, blobs);
            let reused = |s: Sighting|
                s.found is Regular && reusable(prev, s.path@, s.found->stat, now);
            let hashed = |s: Sighting|
                s.found is Regular && !reusable(prev, s.path@, s.found->stat, now)
                    && s.found->content is Some;
            &&& p.reused == files.filter(reused).len()
            &&& p.hashed == files.filter(hashed).len()
            &&& p.skipped == files.len() - files.filter(reused).len() - files.filter(hashed).len()
            &&& captured(p, complete).complete == complete
            &&& captured(p, complete).entries == p.entries
            &&& captured(p, complete).absent == p.absent
        }),
    decreases files.len(),
{
    let reused = |s: Sighting| s.found is Regular && reusable(prev, s.path@, s.found->stat, now);
    let hashed = |s: Sighting|
        s.found is Regular && !reusable(prev, s.path@, s.found->stat, now)
            && s.found->content is Some;
    reveal(Seq::filter);
    if files.len() > 0 {
        a_capture_counts_its_sightings(files.drop_last(), prev, now, blobs, complete);
    }
}

/// The last look at a path counts. A path that was found in the end, and read
/// or known, has the entry of what was found; one that was found missing in the
/// end is recorded as absent, unless the same capture had found it before.
pub proof fn the_last_look_at_a_path_counts(
    front: Seq<Sighting>,
    s: Sighting,
    prev: Option<ManifestView>,
    now: Moment,
    blobs: Map<Seq<char>, Seq<u8>>,
    other: Seq<char>,
)
    requires
        other != s.path@,
    ensures
        ({
            let before = all_seen(front, prev, now, blobs);
            let after = all_seen(front.push(s), prev, now, blobs);
            &&& match s.found {
                Found::Missing => after.entries.contains_key(s.path@) || after.absent.contains(
                    s.path@,
                ),
                Found::Regular { stat, content } => if reusable(prev, s.path@, stat, now) {
                    &&& after.entries.contains_key(s.path@)
                    &&& after.entries[s.path@].hash == prev->0.entries[s.path@].hash
                    &&& after.entries[s.path@].size == stat.size
                    &&& after.entries[s.path@].mode == stat.mode
                    &&& stat.modified == Some(
                        Moment {
                            secs: after.entries[s.path@].mtime_secs,
                            nanos: after.entries[s.path@].mtime_nanos,
                        },
                    )
                    &&& after.blobs == before.blobs
                } else {
                    &&& content matches Some(bytes) ==> after.entries.contains_key(s.path@)
                        && after.entries[s.path@] == read_entry(stat, bytes@, now)
                        && after.blobs.contains_key(content_hash(bytes@))
                    &&& content is None ==> after.entries == before.entries && after.absent
                        == before.absent
                },
                _ => after.entries == before.entries && after.absent == before.absent,
            }
            &&& after.entries.contains_key(other) == before.entries.contains_key(other)
            &&& before.entries.contains_key(other) ==> after.entries[other]
                == before.entries[other]
            &&& after.absent.contains(other) == before.absent.contains(other)
            &&& kept(before.blobs, after.blobs)
        }),
{
    assert(front.push(s).drop_last() =~= front);
}

} // verus!
