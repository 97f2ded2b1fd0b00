//! Garbage collection: mark what the records reach, sweep the rest.

use vstd::prelude::*;

use crate::blob::BlobStore;
use crate::manifest::{Manifest, ManifestStore, ManifestView};
use crate::refs::{
    held, logs_manifest, logs_turn, pointed_at, pruned, records_manifest, RefStore, RefsView,
};
use crate::table::NameSet;
use crate::text::{lists, lists_len};

verus! {

#[derive(Debug, Default, Clone, Copy, PartialEq, Eq, Structural)]
pub struct GcStats {
    pub manifests_kept: usize,
    pub manifests_removed: usize,
    pub blobs_kept: usize,
    pub blobs_removed: usize,
}

/// What a collection removes.
#[derive(Debug)]
pub struct Sweep {
    pub manifests: NameSet,
    pub blobs: NameSet,
    pub stats: GcStats,
}

/// Some file of the manifest is kept in this blob.
pub open spec fn uses_blob(m: ManifestView, hash: Seq<char>) -> bool {
    exists|p: Seq<char>| #[trigger] m.entries.contains_key(p) && m.entries[p].hash == hash
}

/// The manifest is kept and something points at it.
pub open spec fn is_live(
    refs: RefsView,
    manifests: Map<Seq<char>, ManifestView>,
    id: Seq<char>,
) -> bool {
    manifests.contains_key(id) && pointed_at(refs, id)
}

/// Some live manifest uses the blob.
pub open spec fn is_live_blob(
    refs: RefsView,
    manifests: Map<Seq<char>, ManifestView>,
    hash: Seq<char>,
) -> bool {
    exists|id: Seq<char>| #[trigger] is_live(refs, manifests, id) && uses_blob(manifests[id], hash)
}

/// The manifests that a collection keeps.
pub open spec fn live_manifests(
    refs: RefsView,
    manifests: Map<Seq<char>, ManifestView>,
) -> Map<Seq<char>, ManifestView> {
    Map::new(
        |id: Seq<char>| is_live(refs, manifests, id),
        |id: Seq<char>| manifests[id],
    )
}

/// The blobs that a collection keeps.
pub open spec fn live_blobs(
    refs: RefsView,
    manifests: Map<Seq<char>, ManifestView>,
    blobs: Map<Seq<char>, Seq<u8>>,
) -> Map<Seq<char>, Seq<u8>> {
    Map::new(
        |h: Seq<char>| blobs.contains_key(h) && is_live_blob(refs, manifests, h),
        |h: Seq<char>| blobs[h],
    )
}

/// How many manifests and blobs there are, and how many stay.
pub open spec fn counted(
    stats: GcStats,
    refs: RefsView,
    manifests: Map<Seq<char>, ManifestView>,
    hashes: Set<Seq<char>>,
) -> bool {
    &&& stats.manifests_kept == manifests.dom().filter(
        |id: Seq<char>| is_live(refs, manifests, id),
    ).len()
    &&& stats.manifests_kept + stats.manifests_removed == manifests.dom().len()
    &&& stats.blobs_kept == hashes.filter(|h: Seq<char>| is_live_blob(refs, manifests, h)).len()
    &&& stats.blobs_kept + stats.blobs_removed == hashes.len()
}

/// Adds the blobs of a manifest.
fn add_blobs(out: &mut NameSet, m: &Manifest)
    ensures
        forall|h: Seq<char>| #[trigger]
            final(out)@.contains(h) <==> old(out)@.contains(h) || uses_blob(m@, h),
{
    let ghost start = out@;
    let n = m.entries.len();
    let ghost names = m.entries.order();
    for i in 0..n
        invariant
            n == names.len(),
            names == m.entries.order(),
            forall|h: Seq<char>| #[trigger]
                out@.contains(h) <==> start.contains(h) || exists|j: int|
                    0 <= j < i && m@.entries[#[trigger] names[j]].hash == h,
    {
        let ghost was = out@;
        out.insert(m.entries.value_at(i).hash.clone());
        assert forall|h: Seq<char>| #[trigger] out@.contains(h) <==> start.contains(h)
            || exists|j: int| 0 <= j < i + 1 && m@.entries[#[trigger] names[j]].hash == h by {
            assert(out@.contains(h) <==> was.contains(h) || m@.entries[names[i as int]].hash == h);
        }
    }
    assert forall|h: Seq<char>| #[trigger] out@.contains(h) <==> start.contains(h) || uses_blob(
        m@,
        h,
    ) by {
        if uses_blob(m@, h) {
            let p = choose|p: Seq<char>| #[trigger]
                m@.entries.contains_key(p) && m@.entries[p].hash == h;
            assert(m.entries@.dom().contains(p));
            let j = names.index_of(p);
            assert(names[j] == p);
        }
        if exists|j: int| 0 <= j < n && m@.entries[#[trigger] names[j]].hash == h {
            let j = choose|j: int| 0 <= j < n && m@.entries[#[trigger] names[j]].hash == h;
            assert(names.contains(names[j]));
            assert(m@.entries.contains_key(names[j]));
        }
    }
}

/// Divides names into those in `live` and the others.
fn divide(all: &NameSet, live: &NameSet) -> (r: (NameSet, NameSet))
    ensures
        r.0@ == all@.filter(|k: Seq<char>| live@.contains(k)),
        r.1@ == all@.filter(|k: Seq<char>| !live@.contains(k)),
        r.0@.finite(),
        r.1@.finite(),
        all@.finite(),
        r.0@.len() + r.1@.len() == all@.len(),
{
    let n = all.len();
    let ghost names = all.order();
    let mut kept = NameSet::new();
    let mut dead = NameSet::new();
    for i in 0..n
        invariant
            n == names.len(),
            names == all.order(),
            forall|k: Seq<char>| #[trigger]
                kept@.contains(k) <==> names.take(i as int).contains(k) && live@.contains(k),
            forall|k: Seq<char>| #[trigger]
                dead@.contains(k) <==> names.take(i as int).contains(k) && !live@.contains(k),
    {
        let ghost was_kept = kept@;
        let ghost was_dead = dead@;
        let ghost front = names.take(i as int);
        let ghost name = names[i as int];
        assert(names.take(i + 1) =~= front.push(name));
        let key = all.at(i);
        if live.contains(key.as_str()) {
            kept.insert(key.clone());
        } else {
            dead.insert(key.clone());
        }
        assert forall|k: Seq<char>| #[trigger] kept@.contains(k) <==> front.push(name).contains(k)
            && live@.contains(k) by {
            vstd::seq_lib::lemma_seq_contains_after_push(front, name, k);
            assert(kept@.contains(k) <==> was_kept.contains(k) || (k == name && live@.contains(k)));
        }
        assert forall|k: Seq<char>| #[trigger] dead@.contains(k) <==> front.push(name).contains(k)
            && !live@.contains(k) by {
            vstd::seq_lib::lemma_seq_contains_after_push(front, name, k);
            assert(dead@.contains(k) <==> was_dead.contains(k) || (k == name && !live@.contains(
                k,
            )));
        }
    }
    proof {
        assert(names.take(n as int) =~= names);
        lists_len(names, all@);
        assert(kept@ =~= all@.filter(|k: Seq<char>| live@.contains(k)));
        assert(dead@ =~= all@.filter(|k: Seq<char>| !live@.contains(k)));
        assert(all@ =~= kept@ + dead@);
        vstd::set_lib::lemma_set_subset_finite(all@, kept@);
        vstd::set_lib::lemma_set_subset_finite(all@, dead@);
        vstd::set_lib::lemma_set_disjoint_lens(kept@, dead@);
    }
    (kept, dead)
}

/// What a collection removes: the manifests that nothing points at, and the
/// blobs, among those with these hashes, that no live manifest uses.
pub fn sweep(refs: &RefStore, manifests: &ManifestStore, hashes: &NameSet) -> (r: Sweep)
    ensures
        r.manifests@ == manifests@.dom().filter(
            |id: Seq<char>| !is_live(refs@, manifests@, id),
        ),
        r.blobs@ == hashes@.filter(|h: Seq<char>| !is_live_blob(refs@, manifests@, h)),
        counted(r.stats, refs@, manifests@, hashes@),
{
    let marked = refs.live_manifests();
    let ids = manifests.ids();
    let (live, dead) = divide(&ids, &marked);
    proof {
        assert(live@ =~= manifests@.dom().filter(|id: Seq<char>| is_live(refs@, manifests@, id)));
        assert(dead@ =~= manifests@.dom().filter(|id: Seq<char>| !is_live(refs@, manifests@, id)));
    }
    let mut used = NameSet::new();
    let n = live.len();
    let ghost names = live.order();
    for i in 0..n
        invariant
            n == names.len(),
            names == live.order(),
            lists(names, live@),
            live@ == manifests@.dom().filter(|id: Seq<char>| is_live(refs@, manifests@, id)),
            forall|h: Seq<char>| #[trigger]
                used@.contains(h) <==> exists|j: int|
                    0 <= j < i && uses_blob(manifests@[#[trigger] names[j]], h),
    {
        let ghost was = used@;
        assert(names.contains(names[i as int]));
        match manifests.load(live.at(i).as_str()) {
            Ok(m) => add_blobs(&mut used, &m),
            Err(_) => (),
        }
        assert forall|h: Seq<char>| #[trigger] used@.contains(h) <==> exists|j: int|
            0 <= j < i + 1 && uses_blob(manifests@[#[trigger] names[j]], h) by {
            assert(used@.contains(h) <==> was.contains(h) || uses_blob(
                manifests@[names[i as int]],
                h,
            ));
        }
    }
    proof {
        assert forall|h: Seq<char>| #[trigger] used@.contains(h) <==> is_live_blob(
            refs@,
            manifests@,
            h,
        ) by {
            if used@.contains(h) {
                let j = choose|j: int|
                    0 <= j < n && uses_blob(manifests@[#[trigger] names[j]], h);
                assert(names.contains(names[j]));
                assert(live@.contains(names[j]));
                assert(is_live(refs@, manifests@, names[j]));
            }
            if is_live_blob(refs@, manifests@, h) {
                let id = choose|id: Seq<char>| #[trigger]
                    is_live(refs@, manifests@, id) && uses_blob(manifests@[id], h);
                assert(live@.contains(id));
                let j = names.index_of(id);
                assert(names[j] == id);
            }
        }
    }
    let (kept, gone) = divide(hashes, &used);
    proof {
        assert(kept@ =~= hashes@.filter(|h: Seq<char>| is_live_blob(refs@, manifests@, h)));
        assert(gone@ =~= hashes@.filter(|h: Seq<char>| !is_live_blob(refs@, manifests@, h)));
    }
    let stats = GcStats {
        manifests_kept: live.len(),
        manifests_removed: dead.len(),
        blobs_kept: kept.len(),
        blobs_removed: gone.len(),
    };
    proof {
        lists_len(live.order(), live@);
        lists_len(dead.order(), dead@);
        lists_len(kept.order(), kept@);
        lists_len(gone.order(), gone@);
    }
    Sweep { manifests: dead, blobs: gone, stats }
}

/// Mark and sweep: the manifests that something points at stay, and the blobs
/// that those use. Everything else is removed, and the turn index is cut down
/// to the turns that some thread still holds.
pub fn collect_garbage(
    refs: &mut RefStore,
    manifests: &mut ManifestStore,
    blobs: &mut BlobStore,
) -> (r: GcStats)
    ensures
        counted(r, old(refs)@, old(manifests)@, old(blobs)@.dom()),
        final(refs)@ == pruned(old(refs)@),
        final(manifests)@ == live_manifests(old(refs)@, old(manifests)@),
        final(blobs)@ == live_blobs(old(refs)@, old(manifests)@, old(blobs)@),
        final(refs).root() == old(refs).root(),
        final(manifests).root() == old(manifests).root(),
        final(blobs).root() == old(blobs).root(),
{
    let hashes = blobs.hashes();
    let dead = sweep(refs, manifests, &hashes);
    let ghost r0 = refs@;
    let ghost m0 = manifests@;
    let ghost b0 = blobs@;
    let n = dead.manifests.len();
    let ghost names = dead.manifests.order();
    for i in 0..n
        invariant
            n == names.len(),
            names == dead.manifests.order(),
            manifests.root() == old(manifests).root(),
            manifests@ == m0.remove_keys(Set::new(|k: Seq<char>| names.take(i as int).contains(k))),
    {
        manifests.remove(dead.manifests.at(i).as_str());
        proof {
            let front = names.take(i as int);
            let name = names[i as int];
            assert(names.take(i + 1) =~= front.push(name));
            assert forall|k: Seq<char>| #[trigger] front.push(name).contains(k)
                <==> front.contains(k) || k == name by {
                vstd::seq_lib::lemma_seq_contains_after_push(front, name, k);
            }
            assert(manifests@ =~= m0.remove_keys(
                Set::new(|k: Seq<char>| names.take(i + 1).contains(k)),
            ));
        }
    }
    proof {
        assert(names.take(n as int) =~= names);
        assert forall|k: Seq<char>| #[trigger] manifests@.contains_key(k) <==> live_manifests(
            r0,
            m0,
        ).contains_key(k) by {
            assert(dead.manifests@.contains(k) <==> names.contains(k));
        }
        assert(manifests@ =~= live_manifests(r0, m0));
    }
    let n = dead.blobs.len();
    let ghost names = dead.blobs.order();
    for i in 0..n
        invariant
            n == names.len(),
            names == dead.blobs.order(),
            blobs.root() == old(blobs).root(),
            blobs@ == b0.remove_keys(Set::new(|k: Seq<char>| names.take(i as int).contains(k))),
    {
        blobs.remove(dead.blobs.at(i).as_str());
        proof {
            let front = names.take(i as int);
            let name = names[i as int];
            assert(names.take(i + 1) =~= front.push(name));
            assert forall|k: Seq<char>| #[trigger] front.push(name).contains(k)
                <==> front.contains(k) || k == name by {
                vstd::seq_lib::lemma_seq_contains_after_push(front, name, k);
            }
            assert(blobs@ =~= b0.remove_keys(
                Set::new(|k: Seq<char>| names.take(i + 1).contains(k)),
            ));
        }
    }
    proof {
        assert(names.take(n as int) =~= names);
        assert forall|k: Seq<char>| #[trigger] blobs@.contains_key(k) <==> live_blobs(
            r0,
            m0,
            b0,
        ).contains_key(k) by {
            assert(dead.blobs@.contains(k) <==> names.contains(k));
        }
        assert(blobs@ =~= live_blobs(r0, m0, b0));
    }
    refs.prune_turns();
    dead.stats
}

/// Pruning the turn index loses nothing that something pointed at.
pub proof fn pruning_keeps_what_is_pointed_at(refs: RefsView, id: Seq<char>)
    ensures
        pointed_at(pruned(refs), id) == pointed_at(refs, id),
{
    assert forall|t: Seq<char>| #[trigger] held(pruned(refs), t) == held(refs, t) by {
        if held(refs, t) {
            let l = choose|l: Seq<char>| #[trigger]
                refs.logs.contains_key(l) && logs_turn(refs.logs[l], t);
            assert(pruned(refs).logs.contains_key(l));
        }
        if held(pruned(refs), t) {
            let l = choose|l: Seq<char>| #[trigger]
                pruned(refs).logs.contains_key(l) && logs_turn(pruned(refs).logs[l], t);
            assert(refs.logs.contains_key(l));
        }
    }
    if pointed_at(refs, id) {
        if exists|t: Seq<char>| #[trigger]
            refs.logs.contains_key(t) && logs_manifest(refs.logs[t], id) {
            let t = choose|t: Seq<char>| #[trigger]
                refs.logs.contains_key(t) && logs_manifest(refs.logs[t], id);
            assert(pruned(refs).logs.contains_key(t));
        } else if exists|t: Seq<char>| #[trigger]
            refs.turns.contains_key(t) && refs.turns[t] == id && held(refs, t) {
            let t = choose|t: Seq<char>| #[trigger]
                refs.turns.contains_key(t) && refs.turns[t] == id && held(refs, t);
            assert(pruned(refs).turns.contains_key(t));
        } else {
            let k = choose|k: Seq<char>| #[trigger]
                refs.restores.contains_key(k) && records_manifest(refs.restores[k], id);
            assert(pruned(refs).restores.contains_key(k));
        }
    }
    if pointed_at(pruned(refs), id) {
        let p = pruned(refs);
        if exists|t: Seq<char>| #[trigger] p.logs.contains_key(t) && logs_manifest(p.logs[t], id) {
            let t = choose|t: Seq<char>| #[trigger]
                p.logs.contains_key(t) && logs_manifest(p.logs[t], id);
            assert(refs.logs.contains_key(t));
        } else if exists|t: Seq<char>| #[trigger]
            p.turns.contains_key(t) && p.turns[t] == id && held(p, t) {
            let t = choose|t: Seq<char>| #[trigger]
                p.turns.contains_key(t) && p.turns[t] == id && held(p, t);
            assert(refs.turns.contains_key(t));
        } else {
            let k = choose|k: Seq<char>| #[trigger]
                p.restores.contains_key(k) && records_manifest(p.restores[k], id);
            assert(refs.restores.contains_key(k));
        }
    }
}

/// A collection loses nothing that a restore could need: every manifest that
/// something points at is still there, and so is every blob that it uses.
pub proof fn a_collection_keeps_what_is_reachable(
    refs: RefsView,
    manifests: Map<Seq<char>, ManifestView>,
    blobs: Map<Seq<char>, Seq<u8>>,
    id: Seq<char>,
    path: Seq<char>,
)
    requires
        pointed_at(refs, id),
        manifests.contains_key(id),
    ensures
        live_manifests(refs, manifests).contains_key(id),
        live_manifests(refs, manifests)[id] == manifests[id],
        manifests[id].entries.contains_key(path) && blobs.contains_key(
            manifests[id].entries[path].hash,
        ) ==> {
            let hash = manifests[id].entries[path].hash;
            let after = live_blobs(refs, manifests, blobs);
            after.contains_key(hash) && after[hash] == blobs[hash]
        },
{
    assert(is_live(refs, manifests, id));
}

/// A second collection has nothing to do.
pub proof fn a_second_collection_has_nothing_to_do(
    refs: RefsView,
    manifests: Map<Seq<char>, ManifestView>,
    blobs: Map<Seq<char>, Seq<u8>>,
)
    ensures
        ({
            let m = live_manifests(refs, manifests);
            let b = live_blobs(refs, manifests, blobs);
            &&& live_manifests(pruned(refs), m) == m
            &&& live_blobs(pruned(refs), m, b) == b
            &&& pruned(pruned(refs)) == pruned(refs)
        }),
{
    let m = live_manifests(refs, manifests);
    let b = live_blobs(refs, manifests, blobs);
    assert forall|id: Seq<char>| #[trigger] is_live(pruned(refs), m, id) <==> is_live(
        refs,
        manifests,
        id,
    ) by {
        pruning_keeps_what_is_pointed_at(refs, id);
    }
    assert(live_manifests(pruned(refs), m) =~= m);
    assert forall|h: Seq<char>| #[trigger] is_live_blob(refs, manifests, h) implies is_live_blob(
        pruned(refs),
        m,
        h,
    ) by {
        let id = choose|id: Seq<char>| #[trigger]
            is_live(refs, manifests, id) && uses_blob(manifests[id], h);
        assert(is_live(pruned(refs), m, id));
        assert(m[id] == manifests[id]);
    }
    assert(live_blobs(pruned(refs), m, b) =~= b);
    assert forall|t: Seq<char>| #[trigger] held(refs, t) implies held(pruned(refs), t) by {
        let l = choose|l: Seq<char>| #[trigger]
            refs.logs.contains_key(l) && logs_turn(refs.logs[l], t);
        assert(pruned(refs).logs.contains_key(l));
    }
    assert(pruned(pruned(refs)).turns =~= pruned(refs).turns);
    assert(pruned(pruned(refs)) == pruned(refs));
}

/// With no thread left and no restore to undo, a collection empties the store.
pub proof fn without_records_everything_goes(
    refs: RefsView,
    manifests: Map<Seq<char>, ManifestView>,
    blobs: Map<Seq<char>, Seq<u8>>,
)
    requires
        forall|t: Seq<char>| !(#[trigger] refs.logs.contains_key(t)),
        forall|k: Seq<char>|
            #[trigger] refs.restores.contains_key(k) ==> refs.restores[k].len() == 0,
    ensures
        live_manifests(refs, manifests) == Map::<Seq<char>, ManifestView>::empty(),
        live_blobs(refs, manifests, blobs) == Map::<Seq<char>, Seq<u8>>::empty(),
        pruned(refs).turns == Map::<Seq<char>, Seq<char>>::empty(),
{
    assert(live_manifests(refs, manifests) =~= Map::<Seq<char>, ManifestView>::empty());
    assert(live_blobs(refs, manifests, blobs) =~= Map::<Seq<char>, Seq<u8>>::empty());
    assert(pruned(refs).turns =~= Map::<Seq<char>, Seq<char>>::empty());
}

/// A collection keeps a manifest exactly if it was there and something points
/// at it, and a blob exactly if it was there and a manifest that is kept has a
/// file in it. What is kept is as it was.
pub proof fn a_collection_keeps_nothing_else(
    refs: RefsView,
    manifests: Map<Seq<char>, ManifestView>,
    blobs: Map<Seq<char>, Seq<u8>>,
    id: Seq<char>,
    hash: Seq<char>,
)
    ensures
        ({
            let m = live_manifests(refs, manifests);
            let b = live_blobs(refs, manifests, blobs);
            &&& m.contains_key(id) <==> manifests.contains_key(id) && pointed_at(refs, id)
            &&& m.contains_key(id) ==> m[id] == manifests[id]
            &&& b.contains_key(hash) <==> blobs.contains_key(hash) && exists|
                k: Seq<char>,
                p: Seq<char>,
            |
                m.contains_key(k) && #[trigger] m[k].entries.contains_key(p)
                    && m[k].entries[p].hash == hash
            &&& b.contains_key(hash) ==> b[hash] == blobs[hash]
        }),
{
    let m = live_manifests(refs, manifests);
    let b = live_blobs(refs, manifests, blobs);
    if b.contains_key(hash) {
        let k = choose|k: Seq<char>| #[trigger]
            is_live(refs, manifests, k) && uses_blob(manifests[k], hash);
        let p = choose|p: Seq<char>| #[trigger]
            manifests[k].entries.contains_key(p) && manifests[k].entries[p].hash == hash;
        assert(m.contains_key(k) && m[k].entries.contains_key(p));
    }
    if exists|k: Seq<char>, p: Seq<char>|
        m.contains_key(k) && #[trigger] m[k].entries.contains_key(p) && m[k].entries[p].hash
            == hash {
        let (k, p) = choose|k: Seq<char>, p: Seq<char>|
            m.contains_key(k) && #[trigger] m[k].entries.contains_key(p) && m[k].entries[p].hash
                == hash;
        assert(is_live(refs, manifests, k));
        assert(uses_blob(manifests[k], hash));
    }
}

/// The counts of a collection are those of the store before and after it.
pub proof fn a_collection_counts_what_stays_and_what_goes(
    stats: GcStats,
    refs: RefsView,
    manifests: Map<Seq<char>, ManifestView>,
    blobs: Map<Seq<char>, Seq<u8>>,
)
    requires
        counted(stats, refs, manifests, blobs.dom()),
    ensures
        stats.manifests_kept == live_manifests(refs, manifests).dom().len(),
        stats.manifests_removed == manifests.dom().len() - live_manifests(
            refs,
            manifests,
        ).dom().len(),
        stats.blobs_kept == live_blobs(refs, manifests, blobs).dom().len(),
        stats.blobs_removed == blobs.dom().len() - live_blobs(refs, manifests, blobs).dom().len(),
{
    assert(live_manifests(refs, manifests).dom() =~= manifests.dom().filter(
        |id: Seq<char>| is_live(refs, manifests, id),
    ));
    assert(live_blobs(refs, manifests, blobs).dom() =~= blobs.dom().filter(
        |h: Seq<char>| is_live_blob(refs, manifests, h),
    ));
}

} // verus!
