//! Manifests: what one checkpoint recorded of the files it looked at.
//!
//! A manifest is itself content-addressed: its id is the hash of its bytes,
//! so identical states have one manifest.

use vstd::bytes::{
    lemma_auto_spec_u32_to_from_le_bytes, lemma_auto_spec_u64_to_from_le_bytes,
    spec_u32_from_le_bytes, spec_u32_to_le_bytes, spec_u64_from_le_bytes, spec_u64_to_le_bytes,
    u32_to_le_bytes, u64_to_le_bytes,
};
use vstd::prelude::*;
use vstd::utf8::{encode_utf8, encode_utf8_decode_utf8};

use crate::digest::{a_hash_is_the_digest_of_the_whole, content_hash, hash_of, sha256};
use crate::error::SnapshotError;
use crate::table::{Duplicate, NameSet, Table};
use crate::text::{lists, lists_sorted, sorted};

verus! {

/// The mode of a file whose own is not known.
pub const DEFAULT_MODE: u32 = 0o644;

/// A point in time: seconds since the epoch, and nanoseconds past them.
#[derive(Debug, Clone, Copy, PartialEq, Eq, Structural)]
pub struct Moment {
    pub secs: i64,
    pub nanos: u32,
}

/// What the file system says of a regular file without reading it.
#[derive(Debug, Clone, Copy, PartialEq, Eq, Structural)]
pub struct Stat {
    pub mode: u32,
    pub size: u64,
    /// When it was last written, where the file system knows.
    pub modified: Option<Moment>,
}

/// One file of a manifest.
#[derive(Debug, Clone, PartialEq, Eq)]
pub struct FileEntry {
    pub mode: u32,
    pub size: u64,
    pub mtime_secs: i64,
    pub mtime_nanos: u32,
    /// The blob that holds the content.
    pub hash: String,
}

/// What a `FileEntry` stands for.
pub struct EntryView {
    pub mode: u32,
    pub size: u64,
    pub mtime_secs: i64,
    pub mtime_nanos: u32,
    pub hash: Seq<char>,
}

impl View for FileEntry {
    type V = EntryView;

    open spec fn view(&self) -> EntryView {
        EntryView {
            mode: self.mode,
            size: self.size,
            mtime_secs: self.mtime_secs,
            mtime_nanos: self.mtime_nanos,
            hash: self.hash@,
        }
    }
}

impl Duplicate for FileEntry {
    fn duplicate(&self) -> (r: Self) {
        FileEntry {
            mode: self.mode,
            size: self.size,
            mtime_secs: self.mtime_secs,
            mtime_nanos: self.mtime_nanos,
            hash: self.hash.clone(),
        }
    }
}

/// The time part of a fingerprint; zero where the time is not known.
pub open spec fn stat_time(stat: Stat) -> (i64, u32) {
    match stat.modified {
        Some(m) => (m.secs, m.nanos),
        None => (0, 0),
    }
}

/// The time part of a fingerprint; zero where the time is not known.
pub fn mtime_parts(stat: &Stat) -> (r: (i64, u32))
    ensures
        r == stat_time(*stat),
{
    match stat.modified {
        Some(m) => (m.secs, m.nanos),
        None => (0, 0),
    }
}

/// The recorded fingerprint matches the file's. A zero time is the mark of an
/// entry whose fingerprint proves nothing, and never matches.
pub open spec fn fingerprint_matches(entry: EntryView, stat: Stat) -> bool {
    &&& entry.size == stat.size
    &&& (entry.mtime_secs, entry.mtime_nanos) == stat_time(stat)
    &&& (entry.mtime_secs, entry.mtime_nanos) != (0i64, 0u32)
}

impl FileEntry {
    /// Whether the file still has the size and the time recorded here.
    pub fn stat_matches(&self, stat: &Stat) -> (r: bool)
        ensures
            r == fingerprint_matches(self@, *stat),
    {
        let (secs, nanos) = mtime_parts(stat);
        self.size == stat.size && self.mtime_secs == secs && self.mtime_nanos == nanos && (secs
            != 0 || nanos != 0)
    }
}

/// What a checkpoint recorded.
#[derive(Debug, PartialEq, Eq)]
pub struct Manifest {
    /// The files that were found, by path.
    pub entries: Table<FileEntry>,
    /// Paths that were looked for and did not exist.
    pub absent: NameSet,
    /// Whether the capture was said to cover its whole scope.
    pub complete: bool,
}

/// What a `Manifest` stands for.
#[verifier::ext_equal]
pub struct ManifestView {
    pub entries: Map<Seq<char>, EntryView>,
    pub absent: Set<Seq<char>>,
    pub complete: bool,
}

impl View for Manifest {
    type V = ManifestView;

    open spec fn view(&self) -> ManifestView {
        ManifestView { entries: self.entries@, absent: self.absent@, complete: self.complete }
    }
}

/// The manifest that records nothing.
pub open spec fn empty_manifest() -> ManifestView {
    ManifestView { entries: Map::empty(), absent: Set::empty(), complete: false }
}

/// The manifest says something of `path`: what it held, or that it was not
/// there.
pub open spec fn covers(m: ManifestView, path: Seq<char>) -> bool {
    m.entries.contains_key(path) || m.absent.contains(path)
}

impl Default for Manifest {
    fn default() -> (r: Self)
        ensures
            r@ == empty_manifest(),
    {
        Manifest { entries: Table::new(), absent: NameSet::new(), complete: false }
    }
}

impl Duplicate for Manifest {
    fn duplicate(&self) -> (r: Self) {
        Manifest {
            entries: self.entries.duplicate(),
            absent: self.absent.duplicate(),
            complete: self.complete,
        }
    }
}

impl Clone for Manifest {
    fn clone(&self) -> (r: Self)
        ensures
            r@ == self@,
    {
        self.duplicate()
    }
}

/// Bytes behind their length.
pub open spec fn framed(bytes: Seq<u8>) -> Seq<u8> {
    spec_u64_to_le_bytes(bytes.len() as u64) + bytes
}

/// The bytes of one entry.
pub open spec fn entry_bytes(path: Seq<char>, e: EntryView) -> Seq<u8> {
    framed(encode_utf8(path)) + (spec_u32_to_le_bytes(e.mode) + (spec_u64_to_le_bytes(e.size) + (
    spec_u64_to_le_bytes(e.mtime_secs as u64) + (spec_u32_to_le_bytes(e.mtime_nanos) + framed(
        encode_utf8(e.hash),
    )))))
}

/// The bytes of each entry, in the order of `paths`.
pub open spec fn entry_blocks(
    paths: Seq<Seq<char>>,
    entries: Map<Seq<char>, EntryView>,
) -> Seq<Seq<u8>> {
    Seq::new(paths.len(), |i: int| entry_bytes(paths[i], entries[paths[i]]))
}

/// The bytes of each path.
pub open spec fn path_blocks(paths: Seq<Seq<char>>) -> Seq<Seq<u8>> {
    Seq::new(paths.len(), |i: int| framed(encode_utf8(paths[i])))
}

/// How many there are, and then each of them.
pub open spec fn listed(blocks: Seq<Seq<u8>>) -> Seq<u8> {
    spec_u64_to_le_bytes(blocks.len() as u64) + blocks.flatten()
}

/// One byte for whether the capture was complete.
pub open spec fn complete_byte(complete: bool) -> Seq<u8> {
    if complete {
        seq![1u8]
    } else {
        seq![0u8]
    }
}

/// The bytes of a manifest.
pub open spec fn manifest_bytes(m: ManifestView) -> Seq<u8> {
    complete_byte(m.complete) + (listed(entry_blocks(sorted(m.entries.dom()), m.entries)) + listed(
        path_blocks(sorted(m.absent)),
    ))
}

/// The id of a manifest.
pub open spec fn manifest_id(m: ManifestView) -> Seq<char> {
    content_hash(manifest_bytes(m))
}

/// Every length and every count in the manifest can be written in 64 bits, as
/// in every manifest that a machine holds.
pub open spec fn fits(m: ManifestView) -> bool {
    &&& exists|s: Seq<Seq<char>>| #[trigger] lists(s, m.entries.dom()) && s.len() <= u64::MAX
    &&& exists|s: Seq<Seq<char>>| #[trigger] lists(s, m.absent) && s.len() <= u64::MAX
    &&& forall|k: Seq<char>| #[trigger]
        m.entries.contains_key(k) ==> encode_utf8(k).len() <= u64::MAX && encode_utf8(
            m.entries[k].hash,
        ).len() <= u64::MAX
    &&& forall|k: Seq<char>| #[trigger] m.absent.contains(k) ==> encode_utf8(k).len() <= u64::MAX
}

/// What follows framed bytes can be told from them.
proof fn framed_splits(a: Seq<u8>, ra: Seq<u8>, b: Seq<u8>, rb: Seq<u8>)
    requires
        framed(a) + ra == framed(b) + rb,
        a.len() <= u64::MAX,
        b.len() <= u64::MAX,
    ensures
        a == b,
        ra == rb,
{
    lemma_auto_spec_u64_to_from_le_bytes();
    let whole = framed(a) + ra;
    assert(whole.subrange(0, 8) =~= spec_u64_to_le_bytes(a.len() as u64));
    assert(whole.subrange(0, 8) =~= spec_u64_to_le_bytes(b.len() as u64));
    assert(a.len() as u64 == spec_u64_from_le_bytes(whole.subrange(0, 8)));
    assert(a.len() == b.len());
    assert(whole.subrange(8, 8 + a.len() as int) =~= a);
    assert(whole.subrange(8, 8 + b.len() as int) =~= b);
    assert(whole.skip(8 + a.len() as int) =~= ra);
    assert(whole.skip(8 + b.len() as int) =~= rb);
}

/// What follows four bytes of a number can be told from them.
proof fn four_splits(a: u32, ra: Seq<u8>, b: u32, rb: Seq<u8>)
    requires
        spec_u32_to_le_bytes(a) + ra == spec_u32_to_le_bytes(b) + rb,
    ensures
        a == b,
        ra == rb,
{
    lemma_auto_spec_u32_to_from_le_bytes();
    let whole = spec_u32_to_le_bytes(a) + ra;
    assert(whole.subrange(0, 4) =~= spec_u32_to_le_bytes(a));
    assert(whole.subrange(0, 4) =~= spec_u32_to_le_bytes(b));
    assert(a == spec_u32_from_le_bytes(whole.subrange(0, 4)));
    assert(whole.skip(4) =~= ra);
    assert(whole.skip(4) =~= rb);
}

/// What follows eight bytes of a number can be told from them.
proof fn eight_splits(a: u64, ra: Seq<u8>, b: u64, rb: Seq<u8>)
    requires
        spec_u64_to_le_bytes(a) + ra == spec_u64_to_le_bytes(b) + rb,
    ensures
        a == b,
        ra == rb,
{
    lemma_auto_spec_u64_to_from_le_bytes();
    let whole = spec_u64_to_le_bytes(a) + ra;
    assert(whole.subrange(0, 8) =~= spec_u64_to_le_bytes(a));
    assert(whole.subrange(0, 8) =~= spec_u64_to_le_bytes(b));
    assert(a == spec_u64_from_le_bytes(whole.subrange(0, 8)));
    assert(whole.skip(8) =~= ra);
    assert(whole.skip(8) =~= rb);
}

/// Different text has different bytes.
proof fn utf8_distinct(a: Seq<char>, b: Seq<char>)
    requires
        encode_utf8(a) == encode_utf8(b),
    ensures
        a == b,
{
    encode_utf8_decode_utf8(a);
    encode_utf8_decode_utf8(b);
}

/// What follows an entry can be told from it.
proof fn entry_splits(
    p: Seq<char>,
    e: EntryView,
    ra: Seq<u8>,
    q: Seq<char>,
    f: EntryView,
    rb: Seq<u8>,
)
    requires
        entry_bytes(p, e) + ra == entry_bytes(q, f) + rb,
        encode_utf8(p).len() <= u64::MAX,
        encode_utf8(q).len() <= u64::MAX,
        encode_utf8(e.hash).len() <= u64::MAX,
        encode_utf8(f.hash).len() <= u64::MAX,
    ensures
        p == q,
        e == f,
        ra == rb,
{
    let a5 = framed(encode_utf8(e.hash)) + ra;
    let b5 = framed(encode_utf8(f.hash)) + rb;
    let a4 = spec_u32_to_le_bytes(e.mtime_nanos) + a5;
    let b4 = spec_u32_to_le_bytes(f.mtime_nanos) + b5;
    let a3 = spec_u64_to_le_bytes(e.mtime_secs as u64) + a4;
    let b3 = spec_u64_to_le_bytes(f.mtime_secs as u64) + b4;
    let a2 = spec_u64_to_le_bytes(e.size) + a3;
    let b2 = spec_u64_to_le_bytes(f.size) + b3;
    let a1 = spec_u32_to_le_bytes(e.mode) + a2;
    let b1 = spec_u32_to_le_bytes(f.mode) + b2;
    assert(entry_bytes(p, e) + ra =~= framed(encode_utf8(p)) + a1);
    assert(entry_bytes(q, f) + rb =~= framed(encode_utf8(q)) + b1);
    framed_splits(encode_utf8(p), a1, encode_utf8(q), b1);
    four_splits(e.mode, a2, f.mode, b2);
    eight_splits(e.size, a3, f.size, b3);
    eight_splits(e.mtime_secs as u64, a4, f.mtime_secs as u64, b4);
    four_splits(e.mtime_nanos, a5, f.mtime_nanos, b5);
    framed_splits(encode_utf8(e.hash), ra, encode_utf8(f.hash), rb);
    utf8_distinct(p, q);
    utf8_distinct(e.hash, f.hash);
    let s = e.mtime_secs;
    let t = f.mtime_secs;
    assert(s as u64 == t as u64 ==> s == t) by (bit_vector);
}

/// What follows a run of entries can be told from it.
proof fn entries_split(
    ps: Seq<Seq<char>>,
    m: Map<Seq<char>, EntryView>,
    ra: Seq<u8>,
    qs: Seq<Seq<char>>,
    n: Map<Seq<char>, EntryView>,
    rb: Seq<u8>,
)
    requires
        ps.len() == qs.len(),
        entry_blocks(ps, m).flatten() + ra == entry_blocks(qs, n).flatten() + rb,
        forall|i: int|
            0 <= i < ps.len() ==> encode_utf8(#[trigger] ps[i]).len() <= u64::MAX && encode_utf8(
                m[ps[i]].hash,
            ).len() <= u64::MAX,
        forall|i: int|
            0 <= i < qs.len() ==> encode_utf8(#[trigger] qs[i]).len() <= u64::MAX && encode_utf8(
                n[qs[i]].hash,
            ).len() <= u64::MAX,
    ensures
        ps == qs,
        forall|i: int| 0 <= i < ps.len() ==> m[#[trigger] ps[i]] == n[ps[i]],
        ra == rb,
    decreases ps.len(),
{
    let a = entry_blocks(ps, m);
    let b = entry_blocks(qs, n);
    if ps.len() == 0 {
        assert(ps =~= qs);
        assert(a.flatten() + ra =~= ra);
        assert(b.flatten() + rb =~= rb);
    } else {
        let ps1 = ps.drop_first();
        let qs1 = qs.drop_first();
        let a1 = entry_blocks(ps1, m);
        let b1 = entry_blocks(qs1, n);
        assert(a.drop_first() =~= a1);
        assert(b.drop_first() =~= b1);
        assert(a.flatten() + ra =~= entry_bytes(ps[0], m[ps[0]]) + (a1.flatten() + ra));
        assert(b.flatten() + rb =~= entry_bytes(qs[0], n[qs[0]]) + (b1.flatten() + rb));
        entry_splits(ps[0], m[ps[0]], a1.flatten() + ra, qs[0], n[qs[0]], b1.flatten() + rb);
        assert forall|i: int| 0 <= i < ps1.len() implies encode_utf8(#[trigger] ps1[i]).len()
            <= u64::MAX && encode_utf8(m[ps1[i]].hash).len() <= u64::MAX by {
            assert(ps1[i] == ps[i + 1]);
        }
        assert forall|i: int| 0 <= i < qs1.len() implies encode_utf8(#[trigger] qs1[i]).len()
            <= u64::MAX && encode_utf8(n[qs1[i]].hash).len() <= u64::MAX by {
            assert(qs1[i] == qs[i + 1]);
        }
        entries_split(ps1, m, ra, qs1, n, rb);
        assert(ps =~= seq![ps[0]] + ps1);
        assert(qs =~= seq![qs[0]] + qs1);
        assert forall|i: int| 0 <= i < ps.len() implies m[#[trigger] ps[i]] == n[ps[i]] by {
            if i > 0 {
                assert(ps1[i - 1] == ps[i]);
            }
        }
    }
}

/// What follows a run of paths can be told from it.
proof fn paths_split(ps: Seq<Seq<char>>, ra: Seq<u8>, qs: Seq<Seq<char>>, rb: Seq<u8>)
    requires
        ps.len() == qs.len(),
        path_blocks(ps).flatten() + ra == path_blocks(qs).flatten() + rb,
        forall|i: int| 0 <= i < ps.len() ==> encode_utf8(#[trigger] ps[i]).len() <= u64::MAX,
        forall|i: int| 0 <= i < qs.len() ==> encode_utf8(#[trigger] qs[i]).len() <= u64::MAX,
    ensures
        ps == qs,
        ra == rb,
    decreases ps.len(),
{
    let a = path_blocks(ps);
    let b = path_blocks(qs);
    if ps.len() == 0 {
        assert(ps =~= qs);
        assert(a.flatten() + ra =~= ra);
        assert(b.flatten() + rb =~= rb);
    } else {
        let ps1 = ps.drop_first();
        let qs1 = qs.drop_first();
        assert(a.drop_first() =~= path_blocks(ps1));
        assert(b.drop_first() =~= path_blocks(qs1));
        let ta = path_blocks(ps1).flatten() + ra;
        let tb = path_blocks(qs1).flatten() + rb;
        assert(a.flatten() + ra =~= framed(encode_utf8(ps[0])) + ta);
        assert(b.flatten() + rb =~= framed(encode_utf8(qs[0])) + tb);
        framed_splits(encode_utf8(ps[0]), ta, encode_utf8(qs[0]), tb);
        utf8_distinct(ps[0], qs[0]);
        assert forall|i: int| 0 <= i < ps1.len() implies encode_utf8(#[trigger] ps1[i]).len()
            <= u64::MAX by {
            assert(ps1[i] == ps[i + 1]);
        }
        assert forall|i: int| 0 <= i < qs1.len() implies encode_utf8(#[trigger] qs1[i]).len()
            <= u64::MAX by {
            assert(qs1[i] == qs[i + 1]);
        }
        paths_split(ps1, ra, qs1, rb);
        assert(ps =~= seq![ps[0]] + ps1);
        assert(qs =~= seq![qs[0]] + qs1);
    }
}

/// Manifests that record different things have different bytes. So two
/// manifests share an id only if they are the same, or if two different runs
/// of bytes share a hash.
pub proof fn manifest_bytes_distinct(m: ManifestView, n: ManifestView)
    requires
        fits(m),
        fits(n),
        manifest_bytes(m) == manifest_bytes(n),
    ensures
        m == n,
{
    let a = manifest_bytes(m);
    let b = manifest_bytes(n);
    assert(a[0] == complete_byte(m.complete)[0]);
    assert(b[0] == complete_byte(n.complete)[0]);
    let ps = sorted(m.entries.dom());
    let qs = sorted(n.entries.dom());
    let us = sorted(m.absent);
    let vs = sorted(n.absent);
    let s = choose|s: Seq<Seq<char>>| #[trigger]
        lists(s, m.entries.dom()) && s.len() <= u64::MAX;
    lists_sorted(s, m.entries.dom());
    let s = choose|s: Seq<Seq<char>>| #[trigger]
        lists(s, n.entries.dom()) && s.len() <= u64::MAX;
    lists_sorted(s, n.entries.dom());
    let s = choose|s: Seq<Seq<char>>| #[trigger] lists(s, m.absent) && s.len() <= u64::MAX;
    lists_sorted(s, m.absent);
    let s = choose|s: Seq<Seq<char>>| #[trigger] lists(s, n.absent) && s.len() <= u64::MAX;
    lists_sorted(s, n.absent);
    let la = listed(path_blocks(us));
    let lb = listed(path_blocks(vs));
    let fa = entry_blocks(ps, m.entries).flatten();
    let fb = entry_blocks(qs, n.entries).flatten();
    assert(a.skip(1) =~= spec_u64_to_le_bytes(ps.len() as u64) + (fa + la));
    assert(b.skip(1) =~= spec_u64_to_le_bytes(qs.len() as u64) + (fb + lb));
    eight_splits(ps.len() as u64, fa + la, qs.len() as u64, fb + lb);
    assert forall|i: int| 0 <= i < ps.len() implies encode_utf8(#[trigger] ps[i]).len()
        <= u64::MAX && encode_utf8(m.entries[ps[i]].hash).len() <= u64::MAX by {
        assert(ps.contains(ps[i]));
        assert(m.entries.dom().contains(ps[i]));
    }
    assert forall|i: int| 0 <= i < qs.len() implies encode_utf8(#[trigger] qs[i]).len()
        <= u64::MAX && encode_utf8(n.entries[qs[i]].hash).len() <= u64::MAX by {
        assert(qs.contains(qs[i]));
        assert(n.entries.dom().contains(qs[i]));
    }
    entries_split(ps, m.entries, la, qs, n.entries, lb);
    eight_splits(
        us.len() as u64,
        path_blocks(us).flatten(),
        vs.len() as u64,
        path_blocks(vs).flatten(),
    );
    let none = Seq::<u8>::empty();
    assert(path_blocks(us).flatten() + none =~= path_blocks(us).flatten());
    assert(path_blocks(vs).flatten() + none =~= path_blocks(vs).flatten());
    assert forall|i: int| 0 <= i < us.len() implies encode_utf8(#[trigger] us[i]).len()
        <= u64::MAX by {
        assert(us.contains(us[i]));
        assert(m.absent.contains(us[i]));
    }
    assert forall|i: int| 0 <= i < vs.len() implies encode_utf8(#[trigger] vs[i]).len()
        <= u64::MAX by {
        assert(vs.contains(vs[i]));
        assert(n.absent.contains(vs[i]));
    }
    paths_split(us, none, vs, none);
    assert(m.entries =~= n.entries) by {
        assert forall|k: Seq<char>| #[trigger] m.entries.contains_key(k)
            <==> n.entries.contains_key(k) by {
            assert(m.entries.dom().contains(k) <==> ps.contains(k));
            assert(n.entries.dom().contains(k) <==> qs.contains(k));
        }
        assert forall|k: Seq<char>| #[trigger] m.entries.contains_key(k) implies m.entries[k]
            == n.entries[k] by {
            assert(m.entries.dom().contains(k));
            let i = ps.index_of(k);
            assert(ps[i] == k);
        }
    }
    assert(m.absent =~= n.absent) by {
        assert forall|k: Seq<char>| #[trigger] m.absent.contains(k) <==> n.absent.contains(k) by {
            assert(m.absent.contains(k) <==> us.contains(k));
        }
    }
}

/// Appends bytes behind their length.
fn put_framed(out: &mut Vec<u8>, text: &str)
    ensures
        final(out)@ == old(out)@ + framed(encode_utf8(text@)),
{
    let bytes = text.as_bytes();
    let mut len = u64_to_le_bytes(bytes.len() as u64);
    out.append(&mut len);
    put_bytes(out, bytes);
    assert(out@ =~= old(out)@ + framed(encode_utf8(text@)));
}

/// Appends bytes.
fn put_bytes(out: &mut Vec<u8>, bytes: &[u8])
    ensures
        final(out)@ == old(out)@ + bytes@,
{
    let ghost was = out@;
    for i in 0..bytes.len()
        invariant
            out@ == was + bytes@.take(i as int),
    {
        out.push(bytes[i]);
        assert(out@ =~= was + bytes@.take(i + 1));
    }
    assert(bytes@.take(bytes@.len() as int) =~= bytes@);
}

/// Appends the bytes of one entry.
fn put_entry(out: &mut Vec<u8>, path: &str, e: &FileEntry)
    ensures
        final(out)@ == old(out)@ + entry_bytes(path@, e@),
{
    put_framed(out, path);
    let mut part = u32_to_le_bytes(e.mode);
    out.append(&mut part);
    let mut part = u64_to_le_bytes(e.size);
    out.append(&mut part);
    let mut part = u64_to_le_bytes(e.mtime_secs as u64);
    out.append(&mut part);
    let mut part = u32_to_le_bytes(e.mtime_nanos);
    out.append(&mut part);
    put_framed(out, e.hash.as_str());
    assert(out@ =~= old(out)@ + entry_bytes(path@, e@));
}

impl Manifest {
    /// The bytes whose hash is the id.
    fn to_bytes(&self) -> (r: Vec<u8>)
        ensures
            r@ == manifest_bytes(self@),
    {
        let mut out: Vec<u8> = Vec::new();
        out.push(if self.complete {
            1u8
        } else {
            0u8
        });
        let n = self.entries.len();
        let ghost names = self.entries.order();
        proof {
            lists_sorted(names, self.entries@.dom());
        }
        let mut len = u64_to_le_bytes(n as u64);
        out.append(&mut len);
        let ghost head = out@;
        assert(entry_blocks(names.take(0), self.entries@).flatten() =~= Seq::<u8>::empty());
        for i in 0..n
            invariant
                names == self.entries.order(),
                n == names.len(),
                out@ == head + entry_blocks(names.take(i as int), self.entries@).flatten(),
        {
            put_entry(&mut out, self.entries.key_at(i).as_str(), self.entries.value_at(i));
            proof {
                let was = entry_blocks(names.take(i as int), self.entries@);
                let block = entry_bytes(names[i as int], self.entries@[names[i as int]]);
                was.lemma_flatten_push(block);
                assert(entry_blocks(names.take(i + 1), self.entries@) =~= was.push(block));
                assert(out@ =~= head + (was.flatten() + block));
            }
        }
        assert(names.take(n as int) =~= names);
        let ghost body = out@;
        assert(body =~= complete_byte(self.complete) + listed(entry_blocks(names, self.entries@)));
        let k = self.absent.len();
        let ghost gone = self.absent.order();
        proof {
            lists_sorted(gone, self.absent@);
        }
        let mut len = u64_to_le_bytes(k as u64);
        out.append(&mut len);
        let ghost head = out@;
        assert(path_blocks(gone.take(0)).flatten() =~= Seq::<u8>::empty());
        for i in 0..k
            invariant
                gone == self.absent.order(),
                k == gone.len(),
                out@ == head + path_blocks(gone.take(i as int)).flatten(),
        {
            put_framed(&mut out, self.absent.at(i).as_str());
            proof {
                let was = path_blocks(gone.take(i as int));
                let block = framed(encode_utf8(gone[i as int]));
                was.lemma_flatten_push(block);
                assert(path_blocks(gone.take(i + 1)) =~= was.push(block));
                assert(out@ =~= head + (was.flatten() + block));
            }
        }
        assert(gone.take(k as int) =~= gone);
        assert(out@ =~= manifest_bytes(self@));
        out
    }

    /// The id under which this manifest is kept.
    pub fn id(&self) -> (r: String)
        ensures
            r@ == manifest_id(self@),
    {
        let bytes = self.to_bytes();
        hash_of(bytes.as_slice())
    }
}

/// Manifests by id.
pub struct ManifestStore {
    root: String,
    manifests: Table<Manifest>,
}

impl View for ManifestStore {
    type V = Map<Seq<char>, ManifestView>;

    closed spec fn view(&self) -> Map<Seq<char>, ManifestView> {
        self.manifests@
    }
}

/// The manifests once `m` has been saved: one that is there stays as it is.
pub open spec fn saved(
    manifests: Map<Seq<char>, ManifestView>,
    m: ManifestView,
) -> Map<Seq<char>, ManifestView> {
    if manifests.contains_key(manifest_id(m)) {
        manifests
    } else {
        manifests.insert(manifest_id(m), m)
    }
}

impl ManifestStore {
    /// The directory of the storage.
    pub closed spec fn root(self) -> Seq<char> {
        self.root@
    }

    /// A store at `root` with nothing at hand yet.
    pub fn open(root: String) -> (r: Self)
        ensures
            r@ == Map::<Seq<char>, ManifestView>::empty(),
            r.root() == root@,
    {
        ManifestStore { root, manifests: Table::new() }
    }

    /// Keeps a manifest and returns its id.
    pub fn save(&mut self, m: &Manifest) -> (r: String)
        ensures
            r@ == manifest_id(m@),
            final(self)@ == saved(old(self)@, m@),
            final(self).root() == old(self).root(),
    {
        let id = m.id();
        if !self.manifests.contains_key(id.as_str()) {
            self.manifests.insert(id.clone(), m.duplicate());
        }
        id
    }

    /// Puts at hand the manifest that was read from under `id`.
    pub fn supply(&mut self, id: String, m: Manifest)
        ensures
            final(self)@ == old(self)@.insert(id@, m@),
            final(self).root() == old(self).root(),
    {
        self.manifests.insert(id, m);
    }

    pub fn contains(&self, id: &str) -> (r: bool)
        ensures
            r == self@.contains_key(id@),
    {
        self.manifests.contains_key(id)
    }

    /// The manifest kept under `id`.
    pub fn load(&self, id: &str) -> (r: Result<Manifest, SnapshotError>)
        ensures
            r is Ok <==> self@.contains_key(id@),
            r matches Ok(m) ==> m@ == self@[id@],
            r matches Err(e) ==> e matches SnapshotError::MissingManifest(i) && i@ == id@,
    {
        match self.manifests.get(id) {
            Some(m) => Ok(m.duplicate()),
            None => Err(SnapshotError::MissingManifest(id.to_owned())),
        }
    }

    /// Removes the manifest of `id`; one that is not there is no error.
    pub fn remove(&mut self, id: &str)
        ensures
            final(self)@ == old(self)@.remove(id@),
            final(self).root() == old(self).root(),
    {
        self.manifests.remove(id);
    }

    /// The ids of all manifests, in order.
    pub fn ids(&self) -> (r: NameSet)
        ensures
            r@ == self@.dom(),
    {
        self.manifests.keys()
    }
}

/// Identical states have one manifest: saving it again changes nothing, and
/// saving anything changes no manifest that is there.
pub proof fn identical_states_share_a_manifest(
    manifests: Map<Seq<char>, ManifestView>,
    m: ManifestView,
    id: Seq<char>,
)
    ensures
        saved(saved(manifests, m), m) == saved(manifests, m),
        saved(manifests, m).contains_key(manifest_id(m)),
        manifests.contains_key(id) ==> saved(manifests, m).contains_key(id) && saved(
            manifests,
            m,
        )[id] == manifests[id],
{
}

/// A fingerprint matches a file exactly if the size and the time that were
/// recorded are the file's own, and there was a time to record.
pub proof fn a_match_means_the_same_size_and_time(entry: EntryView, stat: Stat)
    ensures
        fingerprint_matches(entry, stat) <==> entry.size == stat.size && stat.modified == Some(
            Moment { secs: entry.mtime_secs, nanos: entry.mtime_nanos },
        ) && !(entry.mtime_secs == 0 && entry.mtime_nanos == 0),
{
}

/// What is saved is found under its id, as it was saved, where nothing else was
/// there.
pub proof fn a_saved_manifest_reads_back(
    manifests: Map<Seq<char>, ManifestView>,
    m: ManifestView,
    id: Seq<char>,
)
    ensures
        ({
            let after = saved(manifests, m);
            &&& after.contains_key(id) <==> manifests.contains_key(id) || id == manifest_id(m)
            &&& manifests.contains_key(id) ==> after[id] == manifests[id]
            &&& id == manifest_id(m) && !manifests.contains_key(id) ==> after[id] == m
        }),
{
}

/// Two manifests share an id only where the digests of all their bytes are the
/// same; and the bytes differ wherever the manifests do.
pub proof fn an_id_stands_for_all_that_is_recorded(m: ManifestView, n: ManifestView)
    requires
        fits(m),
        fits(n),
    ensures
        manifest_id(m) == manifest_id(n) <==> sha256(manifest_bytes(m)) == sha256(
            manifest_bytes(n),
        ),
        manifest_bytes(m) == manifest_bytes(n) ==> m == n,
{
    a_hash_is_the_digest_of_the_whole(manifest_bytes(m), manifest_bytes(n));
    if manifest_bytes(m) == manifest_bytes(n) {
        manifest_bytes_distinct(m, n);
    }
}

/// A manifest stands for what it holds: every file with its own fields, and
/// every absent path.
pub proof fn a_manifest_stands_for_what_it_holds(m: Manifest, e: FileEntry)
    ensures
        m@.entries == m.entries@,
        m@.absent == m.absent@,
        m@.complete == m.complete,
        e@.mode == e.mode,
        e@.size == e.size,
        e@.mtime_secs == e.mtime_secs,
        e@.mtime_nanos == e.mtime_nanos,
        e@.hash == e.hash@,
{
}

/// A manifest says something of exactly the paths that it found or looked for
/// in vain.
pub proof fn a_manifest_covers_what_it_records(m: ManifestView, path: Seq<char>)
    ensures
        covers(m, path) <==> m.entries.dom().contains(path) || m.absent.contains(path),
{
}

} // verus!
