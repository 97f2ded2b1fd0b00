//! Content-addressed blob storage.
//!
//! A blob is kept under the hash of its content, so identical content across
//! files, checkpoints and threads is kept once. On disk a blob lives at
//! `<root>/<first two characters of the hash>/<the rest>`. A `BlobStore` is
//! the part of that storage that is at hand: what was read from it and what
//! has been added since.

use vstd::prelude::*;
use vstd::utf8::{
    decode_utf8, encode_utf8, encode_utf8_decode_utf8, encode_utf8_valid_utf8, is_ascii_chars,
    is_ascii_chars_encode_utf8, is_char_boundary, is_char_boundary_iff_not_is_continuation_byte,
    is_char_boundary_start_end_of_seq,
};

use crate::digest::{all_hex, content_hash, hash_of, is_hex_digit};
use crate::error::SnapshotError;
use crate::paths::{a_joined_name_is_one_more_component, components, is_name, join, join_text};
use crate::table::{Duplicate, NameSet, Table};
use crate::text::{chars_of, decimal, decimal_of, dotted_numbers_are_distinct, joined};

verus! {

/// Blobs by the hash of their content.
pub struct BlobStore {
    root: String,
    blobs: Table<Vec<u8>>,
}

impl View for BlobStore {
    type V = Map<Seq<char>, Seq<u8>>;

    closed spec fn view(&self) -> Map<Seq<char>, Seq<u8>> {
        self.blobs@
    }
}

/// What reading a file gave.
#[derive(Debug, Clone, PartialEq, Eq)]
pub enum ReadOutcome {
    Bytes(Vec<u8>),
    NotFound,
    Failed(String),
}

/// What removing a file gave.
#[derive(Debug, Clone, PartialEq, Eq)]
pub enum RemoveOutcome {
    Removed,
    NotFound,
    Failed(String),
}

/// One directory of the blob storage, as it was listed.
pub struct ListedDir {
    pub name: String,
    pub is_dir: bool,
    pub files: Vec<String>,
}

/// Every blob is kept under the hash of its content.
pub open spec fn addressed(blobs: Map<Seq<char>, Seq<u8>>) -> bool {
    forall|h: Seq<char>| #[trigger] blobs.contains_key(h) ==> content_hash(blobs[h]) == h
}

/// The blobs once `content` has been stored: a blob that is there stays as it
/// is.
pub open spec fn stored(blobs: Map<Seq<char>, Seq<u8>>, content: Seq<u8>) -> Map<
    Seq<char>,
    Seq<u8>,
> {
    if blobs.contains_key(content_hash(content)) {
        blobs
    } else {
        blobs.insert(content_hash(content), content)
    }
}

/// Everything in `before` is in `after`, unchanged.
pub open spec fn kept(before: Map<Seq<char>, Seq<u8>>, after: Map<Seq<char>, Seq<u8>>) -> bool {
    forall|h: Seq<char>| #[trigger]
        before.contains_key(h) ==> after.contains_key(h) && after[h] == before[h]
}

/// Where a hash is divided: after two bytes, or at its end.
pub open spec fn divide(hash: Seq<char>) -> int {
    if encode_utf8(hash).len() < 2 {
        encode_utf8(hash).len() as int
    } else {
        2
    }
}

/// The directory and the file name of a hash.
pub open spec fn divided(hash: Seq<char>) -> (Seq<char>, Seq<char>) {
    let bytes = encode_utf8(hash);
    (
        decode_utf8(bytes.subrange(0, divide(hash))),
        decode_utf8(bytes.subrange(divide(hash), bytes.len() as int)),
    )
}

/// A hash that has a place in the storage: it can be divided between two
/// characters.
pub open spec fn has_place(hash: Seq<char>) -> bool {
    is_char_boundary(encode_utf8(hash), divide(hash))
}

/// Where the blob of `hash` lives under `root`.
pub open spec fn place_of(root: Seq<char>, hash: Seq<char>) -> Seq<char> {
    join_text(join_text(root, divided(hash).0), divided(hash).1)
}

/// A hash written in hexadecimal is divided after its second digit.
pub proof fn hex_hash_has_place(hash: Seq<char>)
    requires
        all_hex(hash),
        hash.len() >= 2,
    ensures
        has_place(hash),
        divided(hash) == (hash.take(2), hash.skip(2)),
{
    assert(is_ascii_chars(hash)) by {
        assert forall|i: int| 0 <= i < hash.len() implies '\0' <= #[trigger] hash[i]
            <= '\u{7f}' by {
            assert(is_hex_digit(hash[i]));
        }
    }
    let bytes = encode_utf8(hash);
    is_ascii_chars_encode_utf8(hash);
    encode_utf8_valid_utf8(hash);
    if bytes.len() == 2 {
        is_char_boundary_start_end_of_seq(bytes);
    } else {
        is_char_boundary_iff_not_is_continuation_byte(bytes, 2);
        assert(is_hex_digit(hash[2]));
        assert(bytes[2] == hash[2] as u8);
        assert(!vstd::utf8::is_continuation_byte(bytes[2]));
    }
    is_ascii_chars_encode_utf8(hash.take(2));
    is_ascii_chars_encode_utf8(hash.skip(2));
    assert(bytes.subrange(0, 2) =~= encode_utf8(hash.take(2)));
    assert(bytes.subrange(2, bytes.len() as int) =~= encode_utf8(hash.skip(2)));
    encode_utf8_decode_utf8(hash.take(2));
    encode_utf8_decode_utf8(hash.skip(2));
}

impl BlobStore {
    /// The directory of the storage.
    pub closed spec fn root(self) -> Seq<char> {
        self.root@
    }

    /// A store at `root` with nothing at hand yet.
    pub fn open(root: String) -> (r: Self)
        ensures
            r@ == Map::<Seq<char>, Seq<u8>>::empty(),
            r.root() == root@,
    {
        BlobStore { root, blobs: Table::new() }
    }

    /// The hash under which `content` is kept.
    pub fn hash_bytes(content: &[u8]) -> (r: String)
        ensures
            r@ == content_hash(content@),
            r@.len() == 64,
            all_hex(r@),
    {
        hash_of(content)
    }

    /// Stores `content` and returns its hash. A blob that is there already is
    /// never rewritten.
    pub fn store_bytes(&mut self, content: &[u8]) -> (r: String)
        ensures
            r@ == content_hash(content@),
            r@.len() == 64,
            all_hex(r@),
            final(self)@ == stored(old(self)@, content@),
            final(self).root() == old(self).root(),
    {
        let hash = Self::hash_bytes(content);
        if !self.blobs.contains_key(hash.as_str()) {
            self.blobs.insert(hash.clone(), bytes_of(content));
        }
        hash
    }

    /// Puts at hand the content that was read from under `hash`.
    pub fn supply(&mut self, hash: String, content: Vec<u8>)
        ensures
            final(self)@ == old(self)@.insert(hash@, content@),
            final(self).root() == old(self).root(),
    {
        self.blobs.insert(hash, content);
    }

    pub fn contains(&self, hash: &str) -> (r: bool)
        ensures
            r == self@.contains_key(hash@),
    {
        self.blobs.contains_key(hash)
    }

    /// The content kept under `hash`.
    pub fn load(&self, hash: &str) -> (r: Result<Vec<u8>, SnapshotError>)
        ensures
            r is Ok <==> self@.contains_key(hash@),
            r matches Ok(content) ==> content@ == self@[hash@],
            r matches Err(e) ==> e matches SnapshotError::MissingBlob(h) && h@ == hash@,
    {
        match self.blobs.get(hash) {
            Some(content) => Ok(content.duplicate()),
            None => Err(SnapshotError::MissingBlob(hash.to_owned())),
        }
    }

    /// Where the blob of `hash` lives.
    pub fn path_for(&self, hash: &str) -> (r: String)
        requires
            has_place(hash@),
        ensures
            r@ == place_of(self.root(), hash@),
    {
        self.blob_path(hash)
    }

    /// Removes the blob of `hash`; one that is not there is no error.
    pub fn remove(&mut self, hash: &str)
        ensures
            final(self)@ == old(self)@.remove(hash@),
            final(self).root() == old(self).root(),
    {
        self.blobs.remove(hash);
    }

    /// The hashes of all blobs, in order.
    pub fn hashes(&self) -> (r: NameSet)
        ensures
            r@ == self@.dom(),
    {
        self.blobs.keys()
    }

    fn blob_path(&self, hash: &str) -> (r: String)
        requires
            has_place(hash@),
        ensures
            r@ == place_of(self.root(), hash@),
    {
        let n: usize = hash.as_bytes().len();
        let mid: usize = if n < 2 {
            n
        } else {
            2
        };
        let (prefix, rest) = hash.split_at(mid);
        proof {
            encode_utf8_decode_utf8(prefix@);
            encode_utf8_decode_utf8(rest@);
        }
        join(join(self.root.as_str(), prefix).as_str(), rest)
    }

    /// The temporary file in which the blob of `hash` is written before it is
    /// renamed into place. The process and the count keep writers apart.
    pub fn tmp_path_for(&self, hash: &str, process: u32, count: u64) -> (r: String)
        requires
            has_place(hash@),
        ensures
            r@ == place_of(self.root(), hash@) + in_flight_suffix(process as nat, count as nat),
    {
        let mut r = self.blob_path(hash);
        let ghost at = r@;
        r.push('.');
        r.append(decimal_of(process as u64).as_str());
        r.push('.');
        r.append(decimal_of(count).as_str());
        r.append(".tmp");
        assert(r@ =~= at + in_flight_suffix(process as nat, count as nat));
        r
    }

    /// What `load` answers when the file of `hash`, at `path`, was read with
    /// this outcome.
    pub fn settle_read(hash: &str, path: &str, outcome: ReadOutcome) -> (r: Result<
        Vec<u8>,
        SnapshotError,
    >)
        ensures
            match outcome {
                ReadOutcome::Bytes(bytes) => r matches Ok(content) && content@ == bytes@,
                ReadOutcome::NotFound => r matches Err(SnapshotError::MissingBlob(h)) && h@
                    == hash@,
                ReadOutcome::Failed(why) => r matches Err(SnapshotError::Io { path: p, reason })
                    && p@ == path@ && reason@ == why@,
            },
    {
        match outcome {
            ReadOutcome::Bytes(bytes) => Ok(bytes),
            ReadOutcome::NotFound => Err(SnapshotError::MissingBlob(hash.to_owned())),
            ReadOutcome::Failed(why) => Err(
                SnapshotError::Io { path: path.to_owned(), reason: why },
            ),
        }
    }

    /// What `remove` answers when removing the file at `path` had this
    /// outcome: one that is gone already is no error.
    pub fn settle_remove(path: &str, outcome: RemoveOutcome) -> (r: Result<(), SnapshotError>)
        ensures
            match outcome {
                RemoveOutcome::Failed(why) => r matches Err(SnapshotError::Io { path: p, reason })
                    && p@ == path@ && reason@ == why@,
                _ => r is Ok,
            },
    {
        match outcome {
            RemoveOutcome::Failed(why) => Err(
                SnapshotError::Io { path: path.to_owned(), reason: why },
            ),
            _ => Ok(()),
        }
    }

    /// The hashes in a listing of the storage. A blob's name is the rest of
    /// its hexadecimal hash and nothing else: any other file, an unfinished
    /// write among them, is not read back as a hash.
    pub fn listed_hashes(dirs: &Vec<ListedDir>) -> (r: NameSet)
        ensures
            forall|h: Seq<char>| #[trigger] r@.contains(h) <==> is_listed(dirs@, h),
    {
        let mut out = NameSet::new();
        for i in 0..dirs.len()
            invariant
                forall|h: Seq<char>| #[trigger] out@.contains(h) <==> is_listed(dirs@.take(i as int), h),
        {
            let dir = &dirs[i];
            let ghost before = out@;
            if dir.is_dir {
                for j in 0..dir.files.len()
                    invariant
                        *dir == dirs@[i as int],
                        dir.is_dir,
                        forall|h: Seq<char>| #[trigger]
                            out@.contains(h) <==> (before.contains(h) || (exists|b: int|
                                0 <= b < j && #[trigger] names_blob(*dir, b, h))),
                {
                    let ghost was = out@;
                    let is_blob = hex_only(dir.files[j].as_str());
                    let hash = joined(dir.name.as_str(), dir.files[j].as_str());
                    let ghost h0 = hash@;
                    if is_blob {
                        out.insert(hash);
                    }
                    proof {
                        assert(is_blob ==> names_blob(*dir, j as int, h0));
                        assert forall|h: Seq<char>| #[trigger] out@.contains(h) <==> (
                        before.contains(h) || (exists|b: int|
                            0 <= b < j + 1 && #[trigger] names_blob(*dir, b, h))) by {
                            if exists|b: int|
                                0 <= b < j + 1 && #[trigger] names_blob(*dir, b, h) {
                                let b = choose|b: int|
                                    0 <= b < j + 1 && #[trigger] names_blob(*dir, b, h);
                                if b < j {
                                    assert(names_blob(*dir, b, h));
                                    assert(was.contains(h));
                                }
                            }
                            if was.contains(h) && !before.contains(h) {
                                let b = choose|b: int|
                                    0 <= b < j && #[trigger] names_blob(*dir, b, h);
                                assert(names_blob(*dir, b, h));
                            }
                        }
                    }
                }
            }
            proof {
                let now = dirs@.take(i + 1);
                let was = dirs@.take(i as int);
                assert forall|h: Seq<char>| #[trigger] out@.contains(h) <==> is_listed(now, h) by {
                    if out@.contains(h) {
                        if before.contains(h) {
                            let (a, b) = choose|a: int, b: int|
                                0 <= a < was.len() && was[a].is_dir && 0 <= b
                                    < was[a].files@.len() && #[trigger] names_blob(was[a], b, h);
                            assert(names_blob(now[a], b, h));
                        } else {
                            let b = choose|b: int|
                                0 <= b < dir.files@.len() && #[trigger] names_blob(*dir, b, h);
                            assert(names_blob(now[i as int], b, h));
                        }
                    }
                    if is_listed(now, h) {
                        let (a, b) = choose|a: int, b: int|
                            0 <= a < now.len() && now[a].is_dir && 0 <= b < now[a].files@.len()
                                && #[trigger] names_blob(now[a], b, h);
                        if a < i {
                            assert(names_blob(was[a], b, h));
                        } else {
                            assert(names_blob(*dir, b, h));
                        }
                    }
                }
            }
        }
        assert(dirs@.take(dirs@.len() as int) =~= dirs@);
        out
    }
}

/// What the name of an unfinished write has behind the name of its blob.
pub open spec fn in_flight_suffix(process: nat, count: nat) -> Seq<char> {
    seq!['.'] + decimal(process) + seq!['.'] + decimal(count) + ".tmp"@
}

/// The file at place `j` of a listed directory is the blob of `hash`.
pub open spec fn names_blob(dir: ListedDir, j: int, hash: Seq<char>) -> bool {
    all_hex(dir.files@[j]@) && hash == dir.name@ + dir.files@[j]@
}

/// Some file of a listing is the blob of `hash`.
pub open spec fn is_listed(dirs: Seq<ListedDir>, hash: Seq<char>) -> bool {
    exists|i: int, j: int|
        0 <= i < dirs.len() && dirs[i].is_dir && 0 <= j < dirs[i].files@.len()
            && #[trigger] names_blob(dirs[i], j, hash)
}

/// A copy of some bytes.
fn bytes_of(content: &[u8]) -> (r: Vec<u8>)
    ensures
        r@ == content@,
{
    let mut r: Vec<u8> = Vec::new();
    for i in 0..content.len()
        invariant
            r@ == content@.take(i as int),
    {
        r.push(content[i]);
        assert(r@ =~= content@.take(i + 1));
    }
    assert(r@ =~= content@);
    r
}

/// Whether text is made of hexadecimal digits only.
fn hex_only(s: &str) -> (r: bool)
    ensures
        r == all_hex(s@),
{
    let chars = chars_of(s);
    for i in 0..chars.len()
        invariant
            chars@ == s@,
            forall|j: int| 0 <= j < i ==> is_hex_digit(#[trigger] chars@[j]),
    {
        let c = chars[i];
        let ok = ('0' <= c && c <= '9') || ('a' <= c && c <= 'f') || ('A' <= c && c <= 'F');
        if !ok {
            assert(!is_hex_digit(s@[i as int]));
            return false;
        }
    }
    true
}

/// A read gives back what a write wrote, unless a blob with other content was
/// there under the same hash.
pub proof fn a_stored_blob_reads_back(blobs: Map<Seq<char>, Seq<u8>>, content: Seq<u8>)
    requires
        blobs.contains_key(content_hash(content)) ==> blobs[content_hash(content)] == content,
    ensures
        stored(blobs, content).contains_key(content_hash(content)),
        stored(blobs, content)[content_hash(content)] == content,
{
}

/// Identical content is kept once: storing it again changes nothing, and
/// storing anything changes no blob that is there.
pub proof fn identical_content_is_kept_once(blobs: Map<Seq<char>, Seq<u8>>, content: Seq<u8>)
    ensures
        stored(stored(blobs, content), content) == stored(blobs, content),
        kept(blobs, stored(blobs, content)),
{
}

/// Storing keeps every blob under the hash of its content.
pub proof fn storing_keeps_blobs_addressed(blobs: Map<Seq<char>, Seq<u8>>, content: Seq<u8>)
    requires
        addressed(blobs),
    ensures
        addressed(stored(blobs, content)),
{
}

/// A blob in its place is read back as its own hash by a listing.
pub proof fn a_blob_is_listed_as_its_hash(hash: Seq<char>)
    requires
        all_hex(hash),
        hash.len() >= 2,
    ensures
        all_hex(divided(hash).1),
        divided(hash).0 + divided(hash).1 == hash,
{
    hex_hash_has_place(hash);
    assert(hash.take(2) + hash.skip(2) =~= hash);
}

/// An unfinished write is never read back as a blob by a listing.
pub proof fn an_unfinished_write_is_not_listed(name: Seq<char>, process: nat, count: nat)
    ensures
        !all_hex(name + in_flight_suffix(process, count)),
{
    let whole = name + in_flight_suffix(process, count);
    assert(whole[name.len() as int] == '.');
    assert(!is_hex_digit('.'));
}

/// Storing gives back the hash of the whole content, and under it the whole
/// content, where nothing else was under it before. Every other blob is as it
/// was.
pub proof fn storing_adds_the_content_and_nothing_else(
    blobs: Map<Seq<char>, Seq<u8>>,
    content: Seq<u8>,
    hash: Seq<char>,
)
    ensures
        ({
            let after = stored(blobs, content);
            let own = hash == content_hash(content);
            &&& after.contains_key(hash) <==> blobs.contains_key(hash) || own
            &&& blobs.contains_key(hash) ==> after[hash] == blobs[hash]
            &&& own && !blobs.contains_key(hash) ==> after[hash] == content
        }),
{
}

/// A blob lives in the directory named by the first two digits of its hash, in
/// the file named by the others. So no two blobs share a place.
pub proof fn a_place_tells_the_hash(root: Seq<char>, a: Seq<char>, b: Seq<char>)
    requires
        all_hex(a),
        all_hex(b),
        a.len() > 2,
        b.len() > 2,
    ensures
        components(place_of(root, a)) == components(root).push(a.take(2)).push(a.skip(2)),
        place_of(root, a) == place_of(root, b) ==> a == b,
{
    place_has_its_names(root, a);
    place_has_its_names(root, b);
    let x = components(root).push(a.take(2)).push(a.skip(2));
    let y = components(root).push(b.take(2)).push(b.skip(2));
    if place_of(root, a) == place_of(root, b) {
        let n = components(root).len() as int;
        assert(x[n] == y[n] && x[n + 1] == y[n + 1]);
        assert(a =~= a.take(2) + a.skip(2));
        assert(b =~= b.take(2) + b.skip(2));
    }
}

proof fn place_has_its_names(root: Seq<char>, hash: Seq<char>)
    requires
        all_hex(hash),
        hash.len() > 2,
    ensures
        components(place_of(root, hash)) == components(root).push(hash.take(2)).push(hash.skip(2)),
{
    hex_hash_has_place(hash);
    let dir = hash.take(2);
    let name = hash.skip(2);
    assert(is_name(dir) && dir != seq!['.']) by {
        assert forall|i: int| 0 <= i < dir.len() implies #[trigger] dir[i] != '/' by {
            assert(is_hex_digit(hash[i]));
        }
    }
    assert(is_name(name) && name != seq!['.']) by {
        assert forall|i: int| 0 <= i < name.len() implies #[trigger] name[i] != '/' by {
            assert(is_hex_digit(hash[i + 2]));
        }
        assert(is_hex_digit(hash[2]));
        assert(name[0] == hash[2]);
    }
    a_joined_name_is_one_more_component(root, dir);
    a_joined_name_is_one_more_component(join_text(root, dir), name);
}

/// No two writers share a temporary file: the process and the count can be read
/// from its name.
pub proof fn writers_are_kept_apart(a: nat, b: nat, c: nat, d: nat)
    requires
        in_flight_suffix(a, b) == in_flight_suffix(c, d),
    ensures
        a == c,
        b == d,
{
    dotted_numbers_are_distinct(a, b, c, d, ".tmp"@);
}

/// A listing gives back every file with a name of hexadecimal digits in a
/// directory of the storage, behind the name of the directory, and gives back
/// nothing else.
pub proof fn a_listing_holds_the_blobs_of_its_directories(
    dirs: Seq<ListedDir>,
    hash: Seq<char>,
    i: int,
    j: int,
)
    requires
        0 <= i < dirs.len(),
        0 <= j < dirs[i].files@.len(),
        dirs[i].is_dir,
        forall|k: int|
            0 <= k < dirs[i].files@[j]@.len() ==> {
                let c = #[trigger] dirs[i].files@[j]@[k];
                '0' <= c <= '9' || 'a' <= c <= 'f' || 'A' <= c <= 'F'
            },
    ensures
        is_listed(dirs, dirs[i].name@ + dirs[i].files@[j]@),
        is_listed(dirs, hash) ==> exists|a: int, b: int|
            0 <= a < dirs.len() && 0 <= b < dirs[a].files@.len() && dirs[a].is_dir && hash
                == dirs[a].name@ + #[trigger] dirs[a].files@[b]@ && forall|k: int|
                0 <= k < dirs[a].files@[b]@.len() ==> #[trigger] dirs[a].files@[b]@[k] != '.',
{
    let h = dirs[i].name@ + dirs[i].files@[j]@;
    assert(names_blob(dirs[i], j, h));
    if is_listed(dirs, hash) {
        let (a, b) = choose|a: int, b: int|
            0 <= a < dirs.len() && dirs[a].is_dir && 0 <= b < dirs[a].files@.len()
                && #[trigger] names_blob(dirs[a], b, hash);
        assert forall|k: int|
            0 <= k < dirs[a].files@[b]@.len() implies #[trigger] dirs[a].files@[b]@[k] != '.' by {
            assert(is_hex_digit(dirs[a].files@[b]@[k]));
        }
    }
}

/// A file with any other character in its name is not read back as a blob.
pub proof fn other_files_are_not_listed(dir: ListedDir, j: int, hash: Seq<char>, k: int)
    requires
        0 <= j < dir.files@.len(),
        0 <= k < dir.files@[j]@.len(),
        ({
            let c = dir.files@[j]@[k];
            !('0' <= c <= '9' || 'a' <= c <= 'f' || 'A' <= c <= 'F')
        }),
    ensures
        !names_blob(dir, j, hash),
{
    assert(!is_hex_digit(dir.files@[j]@[k]));
}

} // verus!
