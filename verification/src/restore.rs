//! Restores: planning the way from one manifest to another.
//!
//! A plan is the difference between the target manifest and the safety
//! checkpoint, the capture of the present state that is taken before any
//! restore and that makes it reversible.
//!
//! Deletion needs positive evidence of absence, and the only thing that counts
//! is the target having looked: a path that it was asked about and did not
//! find. Nothing is inferred from a path merely being missing. Paths that are
//! protected are untouched in both directions.

use vstd::prelude::*;

use crate::manifest::{Manifest, ManifestView};
use crate::paths::texts;
use crate::table::NameSet;
use crate::text::{increasing, lex_lt, lex_total, lists, lists_sorted, same, sorted, sorted_lists};

verus! {

/// A file that a restore writes.
#[derive(Debug, Clone, PartialEq, Eq)]
pub struct WriteAction {
    pub path: String,
    pub hash: String,
    pub mode: u32,
}

/// What a restore does.
#[derive(Debug, Clone, Default, PartialEq, Eq)]
pub struct RestorePlan {
    pub writes: Vec<WriteAction>,
    pub deletes: Vec<String>,
}

/// What a `WriteAction` stands for.
pub struct WriteView {
    pub path: Seq<char>,
    pub hash: Seq<char>,
    pub mode: u32,
}

/// What a `RestorePlan` stands for.
#[verifier::ext_equal]
pub struct PlanView {
    pub writes: Seq<WriteView>,
    pub deletes: Seq<Seq<char>>,
}

impl View for WriteAction {
    type V = WriteView;

    open spec fn view(&self) -> WriteView {
        WriteView { path: self.path@, hash: self.hash@, mode: self.mode }
    }
}

impl View for RestorePlan {
    type V = PlanView;

    open spec fn view(&self) -> PlanView {
        PlanView {
            writes: Seq::new(self.writes@.len(), |i: int| self.writes@[i]@),
            deletes: texts(self.deletes@),
        }
    }
}

/// The plan with nothing to do.
pub open spec fn empty_plan() -> PlanView {
    PlanView { writes: Seq::empty(), deletes: Seq::empty() }
}

/// The target's file at `path` is not what is there now.
pub open spec fn differs(target: ManifestView, current: ManifestView, path: Seq<char>) -> bool {
    !current.entries.contains_key(path) || current.entries[path].hash != target.entries[path].hash
        || current.entries[path].mode != target.entries[path].mode
}

/// The restore writes `path`.
pub open spec fn to_write(
    target: ManifestView,
    current: ManifestView,
    guarded: Set<Seq<char>>,
    path: Seq<char>,
) -> bool {
    target.entries.contains_key(path) && !guarded.contains(path) && differs(target, current, path)
}

/// The restore deletes `path`: it is there now, and the target looked for it
/// and did not find it. A path that the target has content for is never
/// deleted.
pub open spec fn to_delete(
    target: ManifestView,
    current: ManifestView,
    guarded: Set<Seq<char>>,
    path: Seq<char>,
) -> bool {
    current.entries.contains_key(path) && !target.entries.contains_key(path)
        && target.absent.contains(path) && !guarded.contains(path)
}

/// The write that brings back the target's file at `path`.
pub open spec fn write_of(target: ManifestView, path: Seq<char>) -> WriteView {
    WriteView { path, hash: target.entries[path].hash, mode: target.entries[path].mode }
}

/// The plan from `current` to `target`, with the paths in `guarded` protected.
pub open spec fn planned(
    target: ManifestView,
    current: ManifestView,
    guarded: Set<Seq<char>>,
) -> PlanView {
    let writes = sorted(Set::new(|p: Seq<char>| to_write(target, current, guarded, p)));
    PlanView {
        writes: Seq::new(writes.len(), |i: int| write_of(target, writes[i])),
        deletes: sorted(Set::new(|p: Seq<char>| to_delete(target, current, guarded, p))),
    }
}

/// `protect` may answer `answer` for `path`.
pub open spec fn may_answer<F: Fn(&str) -> bool>(
    protect: F,
    path: Seq<char>,
    answer: bool,
) -> bool {
    exists|t: &str| t@ == path && #[trigger] protect.ensures((t,), answer)
}

/// `guarded` is what `protect` says of the paths that two manifests hold.
pub open spec fn answered<F: Fn(&str) -> bool>(
    protect: F,
    target: ManifestView,
    current: ManifestView,
    guarded: Set<Seq<char>>,
) -> bool {
    forall|p: Seq<char>|
        target.entries.contains_key(p) || current.entries.contains_key(p) ==> may_answer(
            protect,
            p,
            #[trigger] guarded.contains(p),
        )
}

/// Adds to `out` the keys of `m` that `protect` protects.
fn ask<F: Fn(&str) -> bool>(protect: &F, m: &Manifest, out: &mut NameSet, skip: Option<&Manifest>)
    requires
        forall|t: &str| #[trigger] protect.requires((t,)),
        forall|p: Seq<char>|
            m@.entries.contains_key(p) && (skip matches Some(s) ==> !s@.entries.contains_key(p))
                ==> !(#[trigger] old(out)@.contains(p)),
    ensures
        forall|p: Seq<char>|
            m@.entries.contains_key(p) && (skip matches Some(s) ==> !s@.entries.contains_key(p))
                ==> may_answer(*protect, p, #[trigger] final(out)@.contains(p)),
        forall|p: Seq<char>|
            !(m@.entries.contains_key(p) && (skip matches Some(s) ==> !s@.entries.contains_key(p)))
                ==> (#[trigger] final(out)@.contains(p) == old(out)@.contains(p)),
{
    let ghost start = out@;
    let n = m.entries.len();
    let ghost names = m.entries.order();
    let ghost wanted = |p: Seq<char>|
        m@.entries.contains_key(p) && (skip matches Some(s) ==> !s@.entries.contains_key(p));
    for i in 0..n
        invariant
            n == names.len(),
            names == m.entries.order(),
            lists(names, m.entries@.dom()),
            wanted == (|p: Seq<char>|
                m@.entries.contains_key(p) && (skip matches Some(s) ==> !s@.entries.contains_key(
                    p,
                ))),
            forall|t: &str| #[trigger] protect.requires((t,)),
            forall|p: Seq<char>| wanted(p) ==> !(#[trigger] start.contains(p)),
            forall|j: int|
                0 <= j < i && wanted(#[trigger] names[j]) ==> may_answer(
                    *protect,
                    names[j],
                    out@.contains(names[j]),
                ),
            forall|j: int| i <= j < n ==> out@.contains(#[trigger] names[j]) == start.contains(names[j]),
            forall|p: Seq<char>| !wanted(p) ==> (#[trigger] out@.contains(p) == start.contains(p)),
    {
        let path = m.entries.key_at(i);
        let ghost p0 = names[i as int];
        let skipped = match skip {
            Some(s) => s.entries.contains_key(path.as_str()),
            None => false,
        };
        assert(names.contains(p0));
        assert(wanted(p0) == !skipped);
        assert forall|j: int| 0 <= j < n && j != i implies #[trigger] names[j] != p0 by {
            if j < i {
                lex_total(names[j], names[i as int]);
            } else {
                lex_total(names[i as int], names[j]);
            }
        }
        if !skipped {
            let answer = protect(path.as_str());
            assert(may_answer(*protect, p0, answer));
            if answer {
                out.insert(path.clone());
            }
        }
    }
    proof {
        assert forall|p: Seq<char>| wanted(p) implies may_answer(
            *protect,
            p,
            #[trigger] out@.contains(p),
        ) by {
            assert(m.entries@.dom().contains(p));
            let j = names.index_of(p);
            assert(names[j] == p);
        }
        assert forall|p: Seq<char>| !wanted(p) implies (#[trigger] out@.contains(p)
            == start.contains(p)) by {}
    }
}

/// Plans the move from `current` to `target`, with the paths in `guarded`
/// protected.
pub fn plan_guarded(target: &Manifest, current: &Manifest, guarded: &NameSet) -> (r: RestorePlan)
    ensures
        r@ == planned(target@, current@, guarded@),
{
    let mut writes: Vec<WriteAction> = Vec::new();
    let n = target.entries.len();
    let ghost names = target.entries.order();
    let ghost mut chosen: Seq<Seq<char>> = Seq::empty();
    for i in 0..n
        invariant
            n == names.len(),
            names == target.entries.order(),
            lists(names, target.entries@.dom()),
            chosen.len() == writes@.len(),
            forall|j: int|
                0 <= j < chosen.len() ==> (#[trigger] writes@[j])@ == write_of(target@, chosen[j]),
            increasing(chosen),
            forall|j: int, k: int|
                0 <= j < chosen.len() && i <= k < n ==> lex_lt(
                    #[trigger] chosen[j],
                    #[trigger] names[k],
                ),
            forall|j: int|
                0 <= j < chosen.len() ==> to_write(
                    target@,
                    current@,
                    guarded@,
                    #[trigger] chosen[j],
                ),
            forall|k: int|
                0 <= k < i && to_write(target@, current@, guarded@, #[trigger] names[k])
                    ==> chosen.contains(names[k]),
    {
        let path = target.entries.key_at(i);
        let entry = target.entries.value_at(i);
        let ghost was = chosen;
        let ghost p0 = names[i as int];
        assert(names.contains(p0));
        if !guarded.contains(path.as_str()) {
            let changed = match current.entries.get(path.as_str()) {
                None => true,
                Some(cur) => !same(cur.hash.as_str(), entry.hash.as_str()) || cur.mode
                    != entry.mode,
            };
            if changed {
                writes.push(
                    WriteAction {
                        path: path.clone(),
                        hash: entry.hash.clone(),
                        mode: entry.mode,
                    },
                );
                proof {
                    chosen = chosen.push(p0);
                }
            }
        }
        proof {
            assert forall|k: int|
                0 <= k < i + 1 && to_write(
                    target@,
                    current@,
                    guarded@,
                    #[trigger] names[k],
                ) implies chosen.contains(names[k]) by {
                if k < i {
                    let j = was.index_of(names[k]);
                    assert(chosen[j] == names[k]);
                } else {
                    assert(chosen[chosen.len() - 1] == names[k]);
                }
            }
        }
    }
    proof {
        let d = Set::new(|p: Seq<char>| to_write(target@, current@, guarded@, p));
        assert forall|p: Seq<char>| #[trigger] d.contains(p) <==> chosen.contains(p) by {
            if d.contains(p) {
                assert(target.entries@.dom().contains(p));
                let k = names.index_of(p);
                assert(names[k] == p);
            }
            if chosen.contains(p) {
                let j = chosen.index_of(p);
                assert(chosen[j] == p);
            }
        }
        lists_sorted(chosen, d);
    }
    let mut deletes: Vec<String> = Vec::new();
    let n = current.entries.len();
    let ghost names = current.entries.order();
    for i in 0..n
        invariant
            n == names.len(),
            names == current.entries.order(),
            lists(names, current.entries@.dom()),
            increasing(texts(deletes@)),
            forall|j: int, k: int|
                0 <= j < deletes@.len() && i <= k < n ==> lex_lt(
                    #[trigger] texts(deletes@)[j],
                    #[trigger] names[k],
                ),
            forall|j: int|
                0 <= j < deletes@.len() ==> to_delete(
                    target@,
                    current@,
                    guarded@,
                    #[trigger] texts(deletes@)[j],
                ),
            forall|k: int|
                0 <= k < i && to_delete(target@, current@, guarded@, #[trigger] names[k]) ==> texts(
                    deletes@,
                ).contains(names[k]),
    {
        let path = current.entries.key_at(i);
        let ghost was = texts(deletes@);
        assert(names.contains(names[i as int]));
        if !target.entries.contains_key(path.as_str()) && !guarded.contains(path.as_str())
            && target.absent.contains(path.as_str()) {
            deletes.push(path.clone());
            assert(texts(deletes@) =~= was.push(names[i as int]));
        }
        proof {
            let now = texts(deletes@);
            assert forall|k: int|
                0 <= k < i + 1 && to_delete(
                    target@,
                    current@,
                    guarded@,
                    #[trigger] names[k],
                ) implies now.contains(names[k]) by {
                if k < i {
                    let j = was.index_of(names[k]);
                    assert(now[j] == names[k]);
                } else {
                    assert(now[now.len() - 1] == names[k]);
                }
            }
        }
    }
    let plan = RestorePlan { writes, deletes };
    proof {
        let d = Set::new(|p: Seq<char>| to_delete(target@, current@, guarded@, p));
        let gone = texts(plan.deletes@);
        assert forall|p: Seq<char>| #[trigger] d.contains(p) <==> gone.contains(p) by {
            if d.contains(p) {
                assert(current.entries@.dom().contains(p));
                let k = names.index_of(p);
                assert(names[k] == p);
            }
            if gone.contains(p) {
                let j = gone.index_of(p);
                assert(gone[j] == p);
            }
        }
        lists_sorted(gone, d);
        assert(plan@.writes =~= planned(target@, current@, guarded@).writes);
        assert(plan@.deletes =~= planned(target@, current@, guarded@).deletes);
    }
    plan
}

/// Plans the move from `current` to `target`. `is_protected` says which paths
/// are neither written nor removed; it is asked once for every path that
/// either manifest holds.
pub fn plan_restore<F: Fn(&str) -> bool>(
    target: &Manifest,
    current: &Manifest,
    is_protected: &F,
) -> (r: RestorePlan)
    requires
        forall|t: &str| #[trigger] is_protected.requires((t,)),
    ensures
        exists|guarded: Set<Seq<char>>|
            #[trigger] answered(*is_protected, target@, current@, guarded) && r@ == planned(
                target@,
                current@,
                guarded,
            ),
{
    let guarded = protected_paths(target, current, is_protected);
    plan_guarded(target, current, &guarded)
}

/// The paths of two manifests that `is_protected` protects.
pub fn protected_paths<F: Fn(&str) -> bool>(
    target: &Manifest,
    current: &Manifest,
    is_protected: &F,
) -> (r: NameSet)
    requires
        forall|t: &str| #[trigger] is_protected.requires((t,)),
    ensures
        answered(*is_protected, target@, current@, r@),
{
    let mut guarded = NameSet::new();
    ask(is_protected, target, &mut guarded, None);
    let ghost first = guarded@;
    ask(is_protected, current, &mut guarded, Some(target));
    proof {
        assert forall|p: Seq<char>|
            target@.entries.contains_key(p) || current@.entries.contains_key(p) implies may_answer(
            *is_protected,
            p,
            #[trigger] guarded@.contains(p),
        ) by {
            if target@.entries.contains_key(p) {
                assert(guarded@.contains(p) == first.contains(p));
            }
        }
    }
    guarded
}

/// What is protected matters only for the files that the two manifests hold:
/// whatever is said of any other path, the plan is the same.
pub proof fn only_recorded_paths_can_be_protected(
    target: ManifestView,
    current: ManifestView,
    one: Set<Seq<char>>,
    other: Set<Seq<char>>,
)
    requires
        forall|p: Seq<char>|
            target.entries.contains_key(p) || current.entries.contains_key(p) ==> (
            #[trigger] one.contains(p) == other.contains(p)),
    ensures
        planned(target, current, one) == planned(target, current, other),
{
    assert(Set::new(|p: Seq<char>| to_write(target, current, one, p)) =~= Set::new(
        |p: Seq<char>| to_write(target, current, other, p),
    ));
    assert(Set::new(|p: Seq<char>| to_delete(target, current, one, p)) =~= Set::new(
        |p: Seq<char>| to_delete(target, current, other, p),
    ));
}

/// Where the predicate always says the same of a path, there is one plan: with
/// exactly the paths protected that it protects.
pub proof fn a_steady_predicate_has_one_plan<F: Fn(&str) -> bool>(
    is_protected: F,
    steady: Set<Seq<char>>,
    target: ManifestView,
    current: ManifestView,
    guarded: Set<Seq<char>>,
)
    requires
        forall|p: Seq<char>, answer: bool| #[trigger]
            may_answer(is_protected, p, answer) ==> answer == steady.contains(p),
        answered(is_protected, target, current, guarded),
    ensures
        planned(target, current, guarded) == planned(target, current, steady),
{
    assert forall|p: Seq<char>|
        target.entries.contains_key(p) || current.entries.contains_key(p) implies (
    #[trigger] guarded.contains(p) == steady.contains(p)) by {
        assert(may_answer(is_protected, p, guarded.contains(p)));
    }
    only_recorded_paths_can_be_protected(target, current, guarded, steady);
}

/// A plan stands for all its items, each with its own path, hash and mode.
pub proof fn a_plan_stands_for_all_its_items(plan: RestorePlan, i: int)
    ensures
        plan@.writes.len() == plan.writes@.len(),
        plan@.deletes.len() == plan.deletes@.len(),
        0 <= i < plan.writes@.len() ==> plan@.writes[i].path == plan.writes@[i].path@
            && plan@.writes[i].hash == plan.writes@[i].hash@ && plan@.writes[i].mode
            == plan.writes@[i].mode,
        0 <= i < plan.deletes@.len() ==> plan@.deletes[i] == plan.deletes@[i]@,
{
}

/// A plan writes exactly the unprotected files of the target that are not there
/// with the same content and mode, with the target's content and mode; and it
/// deletes exactly the unprotected files that are there and that the target
/// looked for in vain.
pub proof fn a_plan_is_the_difference(
    target: ManifestView,
    current: ManifestView,
    guarded: Set<Seq<char>>,
    p: Seq<char>,
)
    requires
        target.entries.dom().finite(),
        current.entries.dom().finite(),
    ensures
        ({
            let plan = planned(target, current, guarded);
            &&& (exists|i: int| 0 <= i < plan.writes.len() && (#[trigger] plan.writes[i]).path == p)
                <==> target.entries.contains_key(p) && !guarded.contains(p) && !(
            current.entries.contains_key(p) && current.entries[p].hash == target.entries[p].hash
                && current.entries[p].mode == target.entries[p].mode)
            &&& forall|i: int|
                0 <= i < plan.writes.len() && (#[trigger] plan.writes[i]).path == p
                    ==> plan.writes[i].hash == target.entries[p].hash && plan.writes[i].mode
                    == target.entries[p].mode
            &&& plan.deletes.contains(p) <==> current.entries.contains_key(p)
                && !target.entries.contains_key(p) && target.absent.contains(p)
                && !guarded.contains(p)
        }),
{
    let plan = planned(target, current, guarded);
    let w = Set::new(|q: Seq<char>| to_write(target, current, guarded, q));
    let d = Set::new(|q: Seq<char>| to_delete(target, current, guarded, q));
    vstd::set_lib::lemma_set_subset_finite(target.entries.dom(), w);
    vstd::set_lib::lemma_set_subset_finite(current.entries.dom(), d);
    sorted_lists(w);
    sorted_lists(d);
    let ws = sorted(w);
    if to_write(target, current, guarded, p) {
        assert(w.contains(p));
        let i = ws.index_of(p);
        assert(ws[i] == p);
        assert(plan.writes[i].path == p);
    }
    assert forall|i: int| 0 <= i < plan.writes.len() implies plan.writes[i] == write_of(
        target,
        ws[i],
    ) && w.contains(#[trigger] ws[i]) by {
        assert(ws.contains(ws[i]));
    }
    if exists|i: int| 0 <= i < plan.writes.len() && (#[trigger] plan.writes[i]).path == p {
        let i = choose|i: int| 0 <= i < plan.writes.len() && (#[trigger] plan.writes[i]).path == p;
        assert(w.contains(ws[i]));
    }
    assert(plan.deletes.contains(p) <==> d.contains(p));
}

} // verus!
