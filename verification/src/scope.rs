//! Tracking scope: which files a checkpoint looks at.
//!
//! Three partitions, joined. Each is bounded by something other than the size
//! of the directory tree: what the project's index lists, what the agent's own
//! tools have written, and what was modified most recently, up to a limit.

use vstd::prelude::*;
use vstd::utf8::{decode_utf8, valid_utf8};

use crate::manifest::Moment;
use crate::paths::{
    a_spelled_path_has_its_components, below, components, components_are_names,
    components_are_proper, is_absolute, is_name, is_under, join, join_text, names_below, parts,
    path_key, path_key_text, path_text, proper, spell, texts,
};
use crate::restore::may_answer;
use crate::rules::{
    any_ignore, compiled_from, is_ignored, is_ignored_by_any, load_ignore, rule_lines, text_of,
    IgnoreRules,
};
use crate::table::{Duplicate, Table};
use crate::text::{chars_of, lex_lt, lists_sorted, same, sorted, sorted_lists};

verus! {

/// The largest file that counts as recently modified. It keeps out media,
/// model weights and databases, and sits well above any text.
pub const RECENT_MAX_FILE_BYTES: u64 = 16 * 1024 * 1024;

/// How many recently modified files are taken.
pub const RECENT_LIMIT: usize = 100;

/// A name that is always in motion, so that recency would pick what is under
/// it ahead of everything else.
pub open spec fn is_churn(name: Seq<char>) -> bool {
    ||| name == "node_modules"@
    ||| name == "target"@
    ||| name == "Pods"@
    ||| name == "dist"@
    ||| name == "build"@
    ||| name == "out"@
    ||| name == "vendor"@
    ||| name == "__pycache__"@
    ||| name == ".venv"@
    ||| name == "venv"@
}

/// A dot-file or a dot-directory.
pub open spec fn is_hidden(name: Seq<char>) -> bool {
    name.len() > 0 && name[0] == '.'
}

/// A scan looks at what has this name: repository internals never, hidden
/// entries only on request.
pub open spec fn name_in_scan(name: Seq<char>, include_hidden: bool) -> bool {
    name != ".git"@ && (include_hidden || !is_hidden(name))
}

/// The search for recent files looks at what has this name.
pub open spec fn name_in_recent(name: Seq<char>, include_hidden: bool) -> bool {
    name_in_scan(name, include_hidden) && !is_churn(name)
}

/// Every name of `path` below `root` is in the scan.
pub open spec fn path_in_scan(path: Seq<char>, root: Seq<char>, include_hidden: bool) -> bool {
    &&& is_under(path, root)
    &&& forall|i: int|
        0 <= i < below(path, root).len() ==> name_in_scan(
            #[trigger] below(path, root)[i],
            include_hidden,
        )
}

/// Every name of `path` below `root` is in the search for recent files.
pub open spec fn path_in_recent(path: Seq<char>, root: Seq<char>, include_hidden: bool) -> bool {
    &&& is_under(path, root)
    &&& forall|i: int|
        0 <= i < below(path, root).len() ==> name_in_recent(
            #[trigger] below(path, root)[i],
            include_hidden,
        )
}

fn starts_with_dot(name: &str) -> (r: bool)
    ensures
        r == is_hidden(name@),
{
    let chars = chars_of(name);
    chars.len() > 0 && chars[0] == '.'
}

/// Whether a scan looks at what has this name. Below a directory that it does
/// not look at it sees nothing.
pub fn enters_scan(name: &str, include_hidden: bool) -> (r: bool)
    ensures
        r == name_in_scan(name@, include_hidden),
{
    !same(name, ".git") && (include_hidden || !starts_with_dot(name))
}

/// Whether the search for recent files looks at what has this name.
pub fn enters_recent(name: &str, include_hidden: bool) -> (r: bool)
    ensures
        r == name_in_recent(name@, include_hidden),
{
    enters_scan(name, include_hidden) && !(same(name, "node_modules") || same(name, "target")
        || same(name, "Pods") || same(name, "dist") || same(name, "build") || same(name, "out")
        || same(name, "vendor") || same(name, "__pycache__") || same(name, ".venv") || same(
        name,
        "venv",
    ))
}

/// Something that a walk of a directory came upon.
#[derive(Debug, Clone, PartialEq, Eq)]
pub struct Walked {
    pub path: String,
    /// A regular file; links are not followed.
    pub is_file: bool,
    /// Its size, where the file system says.
    pub size: Option<u64>,
    /// When it was last written, where the file system says.
    pub modified: Option<Moment>,
}

fn below_all_in_scan(path: &str, root: &str, include_hidden: bool) -> (r: bool)
    ensures
        r == path_in_scan(path@, root@, include_hidden),
{
    match names_below(path, root) {
        None => false,
        Some(names) => {
            for i in 0..names.len()
                invariant
                    texts(names@) == below(path@, root@),
                    is_under(path@, root@),
                    forall|j: int|
                        0 <= j < i ==> name_in_scan(
                            #[trigger] below(path@, root@)[j],
                            include_hidden,
                        ),
            {
                assert(below(path@, root@)[i as int] == names@[i as int]@);
                if !enters_scan(names[i].as_str(), include_hidden) {
                    return false;
                }
            }
            assert(names@.len() == below(path@, root@).len());
            true
        },
    }
}

fn below_all_in_recent(path: &str, root: &str, include_hidden: bool) -> (r: bool)
    ensures
        r == path_in_recent(path@, root@, include_hidden),
{
    match names_below(path, root) {
        None => false,
        Some(names) => {
            for i in 0..names.len()
                invariant
                    texts(names@) == below(path@, root@),
                    is_under(path@, root@),
                    forall|j: int|
                        0 <= j < i ==> name_in_recent(
                            #[trigger] below(path@, root@)[j],
                            include_hidden,
                        ),
            {
                assert(below(path@, root@)[i as int] == names@[i as int]@);
                if !enters_recent(names[i].as_str(), include_hidden) {
                    return false;
                }
            }
            assert(names@.len() == below(path@, root@).len());
            true
        },
    }
}

/// Paths by their keys: the first spelling of each, in the order of paths.
pub open spec fn first_spellings(paths: Seq<Seq<char>>) -> Map<Seq<char>, Seq<char>>
    decreases paths.len(),
{
    if paths.len() == 0 {
        Map::empty()
    } else {
        let before = first_spellings(paths.drop_last());
        let key = path_key_text(paths.last());
        if before.contains_key(key) {
            before
        } else {
            before.insert(key, paths.last())
        }
    }
}

/// A run of paths in the order of paths, each once, as it was first spelled.
pub open spec fn in_path_order(paths: Seq<Seq<char>>) -> Seq<Seq<char>> {
    let found = first_spellings(paths);
    let keys = sorted(found.dom());
    Seq::new(keys.len(), |i: int| found[keys[i]])
}

/// A run of paths in the order of paths, each once, as it was first spelled.
pub fn ordered_paths(paths: &Vec<String>) -> (r: Vec<String>)
    ensures
        texts(r@) == in_path_order(texts(paths@)),
{
    let mut table: Table<String> = Table::new();
    let ghost all = texts(paths@);
    assert(all.take(0) =~= Seq::<Seq<char>>::empty());
    for i in 0..paths.len()
        invariant
            all == texts(paths@),
            table@ == first_spellings(all.take(i as int)),
    {
        proof {
            let next = all.take(i + 1);
            assert(next.drop_last() =~= all.take(i as int));
            assert(next.last() == paths@[i as int]@);
        }
        let key = path_key(paths[i].as_str());
        if !table.contains_key(key.as_str()) {
            table.insert(key, paths[i].clone());
        }
    }
    assert(all.take(paths@.len() as int) =~= all);
    let n = table.len();
    let ghost keys = table.order();
    proof {
        lists_sorted(keys, table@.dom());
    }
    let mut out: Vec<String> = Vec::new();
    for i in 0..n
        invariant
            n == keys.len(),
            keys == table.order(),
            out@.len() == i,
            forall|j: int| 0 <= j < i ==> (#[trigger] out@[j])@ == table@[keys[j]],
    {
        out.push(table.value_at(i).clone());
    }
    assert(texts(out@) =~= in_path_order(all));
    out
}

/// A walked path is a tracked file of the workspace.
pub open spec fn is_workspace_file(
    w: Walked,
    root: Seq<char>,
    rules: IgnoreRules,
    include_hidden: bool,
) -> bool {
    w.is_file && path_in_scan(w.path@, root, include_hidden) && !rules.ignore(w.path@)
}

/// The paths of the walked files that are tracked, in the order of the walk.
pub open spec fn workspace_paths(
    walked: Seq<Walked>,
    root: Seq<char>,
    rules: IgnoreRules,
    include_hidden: bool,
) -> Seq<Seq<char>>
    decreases walked.len(),
{
    if walked.len() == 0 {
        Seq::empty()
    } else {
        let before = workspace_paths(walked.drop_last(), root, rules, include_hidden);
        if is_workspace_file(walked.last(), root, rules, include_hidden) {
            before.push(walked.last().path@)
        } else {
            before
        }
    }
}

/// The tracked files of a workspace: every regular file under `root`, minus
/// `.git`, minus what the rules ignore and, unless `include_hidden`, minus
/// dot-files and dot-directories. In the order of paths.
pub fn workspace_files(
    root: &str,
    rules: &IgnoreRules,
    walked: &Vec<Walked>,
    include_hidden: bool,
) -> (r: Vec<String>)
    ensures
        texts(r@) == in_path_order(workspace_paths(walked@, root@, *rules, include_hidden)),
{
    let mut found: Vec<String> = Vec::new();
    assert(texts(found@) =~= Seq::<Seq<char>>::empty());
    for i in 0..walked.len()
        invariant
            texts(found@) == workspace_paths(
                walked@.take(i as int),
                root@,
                *rules,
                include_hidden,
            ),
    {
        let w = &walked[i];
        let ghost was = texts(found@);
        proof {
            let next = walked@.take(i + 1);
            assert(next.drop_last() =~= walked@.take(i as int));
            assert(next.last() == *w);
        }
        if w.is_file && below_all_in_scan(w.path.as_str(), root, include_hidden) && !is_ignored(
            rules,
            w.path.as_str(),
        ) {
            found.push(w.path.clone());
            assert(texts(found@) =~= was.push(w.path@));
        }
    }
    assert(walked@.take(walked@.len() as int) =~= walked@);
    ordered_paths(&found)
}

/// A walked path can count as recently modified.
pub open spec fn is_candidate(
    w: Walked,
    root: Seq<char>,
    rules: IgnoreRules,
    include_hidden: bool,
) -> bool {
    &&& w.is_file
    &&& path_in_recent(w.path@, root, include_hidden)
    &&& !rules.ignore(w.path@)
    &&& w.size matches Some(n) && n <= RECENT_MAX_FILE_BYTES
    &&& w.modified is Some
}

/// One moment is later than another.
pub open spec fn is_later(a: Moment, b: Moment) -> bool {
    a.secs > b.secs || (a.secs == b.secs && a.nanos > b.nanos)
}

/// The file at place `a` goes before the one at place `b`: it was modified
/// later, or at the same time and came first in the walk.
pub open spec fn goes_before(walked: Seq<Walked>, a: int, b: int) -> bool {
    let ta = walked[a].modified->0;
    let tb = walked[b].modified->0;
    is_later(ta, tb) || (ta == tb && a < b)
}

/// `ks` are the places of the most recent candidates, the latest first: as
/// many as there are, up to the limit.
pub open spec fn are_most_recent(
    walked: Seq<Walked>,
    root: Seq<char>,
    rules: IgnoreRules,
    include_hidden: bool,
    ks: Seq<int>,
) -> bool {
    &&& ks.len() <= RECENT_LIMIT
    &&& forall|i: int|
        0 <= i < ks.len() ==> 0 <= #[trigger] ks[i] < walked.len() && is_candidate(
            walked[ks[i]],
            root,
            rules,
            include_hidden,
        )
    &&& forall|i: int, j: int|
        0 <= i < j < ks.len() ==> goes_before(walked, #[trigger] ks[i], #[trigger] ks[j])
    &&& forall|k: int|
        0 <= k < walked.len() && is_candidate(#[trigger] walked[k], root, rules, include_hidden)
            && !ks.contains(k) ==> ks.len() == RECENT_LIMIT && forall|i: int|
            0 <= i < ks.len() ==> goes_before(walked, #[trigger] ks[i], k)
}

/// The paths at these places.
pub open spec fn paths_at(walked: Seq<Walked>, ks: Seq<int>) -> Seq<Seq<char>> {
    Seq::new(ks.len(), |i: int| walked[ks[i]].path@)
}

/// The most recently modified files, the latest first.
pub open spec fn recent_paths(
    walked: Seq<Walked>,
    root: Seq<char>,
    rules: IgnoreRules,
    include_hidden: bool,
) -> Seq<Seq<char>> {
    paths_at(
        walked,
        choose|ks: Seq<int>| are_most_recent(walked, root, rules, include_hidden, ks),
    )
}

/// There is one answer to which candidates are the most recent.
pub proof fn most_recent_is_unique(
    walked: Seq<Walked>,
    root: Seq<char>,
    rules: IgnoreRules,
    include_hidden: bool,
    ks: Seq<int>,
    ls: Seq<int>,
)
    requires
        are_most_recent(walked, root, rules, include_hidden, ks),
        are_most_recent(walked, root, rules, include_hidden, ls),
    ensures
        ks == ls,
{
    let n = if ks.len() < ls.len() {
        ks.len() as int
    } else {
        ls.len() as int
    };
    most_recent_agree(walked, root, rules, include_hidden, ks, ls, n);
    if ks.len() < ls.len() {
        longer_is_not_most_recent(walked, root, rules, include_hidden, ks, ls);
    }
    if ls.len() < ks.len() {
        longer_is_not_most_recent(walked, root, rules, include_hidden, ls, ks);
    }
    assert(ks =~= ls);
}

proof fn longer_is_not_most_recent(
    walked: Seq<Walked>,
    root: Seq<char>,
    rules: IgnoreRules,
    include_hidden: bool,
    ks: Seq<int>,
    ls: Seq<int>,
)
    requires
        are_most_recent(walked, root, rules, include_hidden, ks),
        are_most_recent(walked, root, rules, include_hidden, ls),
        forall|i: int| 0 <= i < ks.len() && i < ls.len() ==> #[trigger] ks[i] == ls[i],
    ensures
        ks.len() >= ls.len(),
{
    if ks.len() < ls.len() {
        let k = ls[ks.len() as int];
        if ks.contains(k) {
            let i = ks.index_of(k);
            assert(ks[i] == ls[i]);
            assert(goes_before(walked, ls[i], ls[ks.len() as int]));
        } else {
            assert(is_candidate(walked[k], root, rules, include_hidden));
        }
    }
}

proof fn most_recent_agree(
    walked: Seq<Walked>,
    root: Seq<char>,
    rules: IgnoreRules,
    include_hidden: bool,
    ks: Seq<int>,
    ls: Seq<int>,
    n: int,
)
    requires
        are_most_recent(walked, root, rules, include_hidden, ks),
        are_most_recent(walked, root, rules, include_hidden, ls),
        0 <= n <= ks.len(),
        n <= ls.len(),
    ensures
        forall|i: int| 0 <= i < n ==> #[trigger] ks[i] == ls[i],
    decreases n,
{
    if n > 0 {
        most_recent_agree(walked, root, rules, include_hidden, ks, ls, n - 1);
        let a = ks[n - 1];
        let b = ls[n - 1];
        if a != b {
            leads(walked, root, rules, include_hidden, ks, ls, n - 1);
            leads(walked, root, rules, include_hidden, ls, ks, n - 1);
        }
    }
}

/// Where two answers first differ, each one's pick goes before the other's.
proof fn leads(
    walked: Seq<Walked>,
    root: Seq<char>,
    rules: IgnoreRules,
    include_hidden: bool,
    ks: Seq<int>,
    ls: Seq<int>,
    n: int,
)
    requires
        are_most_recent(walked, root, rules, include_hidden, ks),
        are_most_recent(walked, root, rules, include_hidden, ls),
        0 <= n < ks.len(),
        n < ls.len(),
        forall|i: int| 0 <= i < n ==> #[trigger] ks[i] == ls[i],
        ks[n] != ls[n],
    ensures
        goes_before(walked, ks[n], ls[n]),
{
    let b = ls[n];
    assert(is_candidate(walked[b], root, rules, include_hidden));
    if ks.contains(b) {
        let j = ks.index_of(b);
        assert(ks[j] == b);
        if j < n {
            assert(ls[j] == b);
            assert(goes_before(walked, ls[j], ls[n]));
        }
        assert(goes_before(walked, ks[n], ks[j]));
    } else {
        assert(goes_before(walked, ks[n], b));
    }
}

/// Whether one moment is later than another.
fn later(a: Moment, b: Moment) -> (r: bool)
    ensures
        r == is_later(a, b),
{
    a.secs > b.secs || (a.secs == b.secs && a.nanos > b.nanos)
}

/// When a file was modified, or `other` where that is not known.
fn modified_or(w: &Walked, other: Moment) -> (r: Moment)
    ensures
        r == match w.modified {
            Some(t) => t,
            None => other,
        },
{
    match w.modified {
        Some(t) => t,
        None => other,
    }
}

/// The places of a run of positions.
spec fn places(v: Seq<usize>) -> Seq<int> {
    Seq::new(v.len(), |i: int| v[i] as int)
}

/// The most recent ones with one more put in, cut at the limit.
spec fn put_in(ks: Seq<int>, at: int, k: int) -> Seq<int> {
    let full = ks.insert(at, k);
    if full.len() > RECENT_LIMIT {
        full.drop_last()
    } else {
        full
    }
}

/// Putting the next candidate of the walk where it belongs keeps the most
/// recent ones.
proof fn putting_in_keeps_most_recent(
    w: Seq<Walked>,
    root: Seq<char>,
    rules: IgnoreRules,
    include_hidden: bool,
    was: Seq<int>,
    at: int,
    k: int,
)
    requires
        0 <= k < w.len(),
        is_candidate(w[k], root, rules, include_hidden),
        are_most_recent(w.take(k), root, rules, include_hidden, was),
        0 <= at <= was.len(),
        forall|i: int| 0 <= i < at ==> goes_before(w, #[trigger] was[i], k),
        at < was.len() ==> goes_before(w, k, was[at]),
    ensures
        are_most_recent(w.take(k + 1), root, rules, include_hidden, put_in(was, at, k)),
{
    let front = w.take(k);
    let next = w.take(k + 1);
    let full = was.insert(at, k);
    let now = put_in(was, at, k);
    assert forall|i: int| 0 <= i < was.len() implies 0 <= #[trigger] was[i] < k && next[was[i]]
        == w[was[i]] && is_candidate(w[was[i]], root, rules, include_hidden) by {
        assert(front[was[i]] == w[was[i]]);
    }
    assert forall|i: int, j: int| 0 <= i < j < was.len() implies goes_before(
        w,
        #[trigger] was[i],
        #[trigger] was[j],
    ) by {
        assert(goes_before(front, was[i], was[j]));
    }
    assert forall|i: int| at <= i < was.len() implies goes_before(w, k, #[trigger] was[i]) by {
        if i > at {
            assert(goes_before(w, was[at], was[i]));
        }
    }
    assert forall|m: int|
        0 <= m < k && is_candidate(#[trigger] w[m], root, rules, include_hidden) && !was.contains(
            m,
        ) implies was.len() == RECENT_LIMIT && forall|i: int|
        0 <= i < was.len() ==> goes_before(w, #[trigger] was[i], m) by {
        assert(front[m] == w[m]);
        assert forall|i: int| 0 <= i < was.len() implies goes_before(w, #[trigger] was[i], m) by {
            assert(goes_before(front, was[i], m));
        }
    }
    assert forall|i: int| 0 <= i < now.len() implies #[trigger] now[i] == full[i] by {}
    assert forall|i: int| 0 <= i < full.len() implies 0 <= #[trigger] full[i] <= k && is_candidate(
        w[full[i]],
        root,
        rules,
        include_hidden,
    ) by {
        if i < at {
            assert(full[i] == was[i]);
        } else if i > at {
            assert(full[i] == was[i - 1]);
        }
    }
    assert forall|i: int, j: int| 0 <= i < j < full.len() implies goes_before(
        w,
        #[trigger] full[i],
        #[trigger] full[j],
    ) by {
        if i < at {
            assert(full[i] == was[i]);
        } else if i > at {
            assert(full[i] == was[i - 1]);
        }
        if j < at {
            assert(full[j] == was[j]);
        } else if j > at {
            assert(full[j] == was[j - 1]);
        }
    }
    assert forall|m: int|
        0 <= m < next.len() && is_candidate(#[trigger] next[m], root, rules, include_hidden)
            && !now.contains(m) implies now.len() == RECENT_LIMIT && forall|i: int|
        0 <= i < now.len() ==> goes_before(next, #[trigger] now[i], m) by {
        assert(next[m] == w[m]);
        if full.contains(m) {
            let i = full.index_of(m);
            assert(full[i] == m);
            if i < now.len() {
                assert(now[i] == m);
            }
            assert(now.len() == RECENT_LIMIT && i == now.len());
            assert forall|j: int| 0 <= j < now.len() implies goes_before(
                next,
                #[trigger] now[j],
                m,
            ) by {
                assert(goes_before(w, full[j], full[i]));
                assert(next[now[j]] == w[now[j]]);
            }
        } else {
            assert(m != k) by {
                if m == k {
                    assert(full[at] == k);
                }
            }
            assert(!was.contains(m)) by {
                if was.contains(m) {
                    let i = was.index_of(m);
                    assert(full[if i < at { i } else { i + 1 }] == m);
                }
            }
            assert(was.len() == RECENT_LIMIT);
            assert forall|j: int| 0 <= j < now.len() implies goes_before(
                next,
                #[trigger] now[j],
                m,
            ) by {
                assert(next[now[j]] == w[now[j]]);
                assert(now[j] == full[j]);
                if j < at {
                    assert(full[j] == was[j]);
                    assert(goes_before(w, was[j], m));
                } else if j > at {
                    assert(full[j] == was[j - 1]);
                    assert(goes_before(w, was[j - 1], m));
                } else {
                    assert(goes_before(w, k, was[at]));
                    assert(goes_before(w, was[at], m));
                }
            }
        }
    }
    assert forall|i: int, j: int| 0 <= i < j < now.len() implies goes_before(
        next,
        #[trigger] now[i],
        #[trigger] now[j],
    ) by {
        assert(goes_before(w, full[i], full[j]));
        assert(next[now[i]] == w[now[i]] && next[now[j]] == w[now[j]]);
    }
    assert forall|i: int| 0 <= i < now.len() implies 0 <= #[trigger] now[i] < next.len()
        && is_candidate(next[now[i]], root, rules, include_hidden) by {
        assert(now[i] == full[i]);
        assert(next[now[i]] == w[now[i]]);
    }
}

/// What is no candidate changes nothing.
proof fn passing_over_keeps_most_recent(
    w: Seq<Walked>,
    root: Seq<char>,
    rules: IgnoreRules,
    include_hidden: bool,
    was: Seq<int>,
    k: int,
)
    requires
        0 <= k < w.len(),
        !is_candidate(w[k], root, rules, include_hidden),
        are_most_recent(w.take(k), root, rules, include_hidden, was),
    ensures
        are_most_recent(w.take(k + 1), root, rules, include_hidden, was),
{
    let front = w.take(k);
    let next = w.take(k + 1);
    assert forall|m: int|
        0 <= m < next.len() && is_candidate(#[trigger] next[m], root, rules, include_hidden)
            && !was.contains(m) implies was.len() == RECENT_LIMIT && forall|j: int|
        0 <= j < was.len() ==> goes_before(next, #[trigger] was[j], m) by {
        assert(m < k);
        assert(front[m] == next[m]);
        assert forall|j: int| 0 <= j < was.len() implies goes_before(
            next,
            #[trigger] was[j],
            m,
        ) by {
            assert(goes_before(front, was[j], m));
            assert(front[was[j]] == next[was[j]]);
        }
    }
    assert forall|a: int, b: int| 0 <= a < b < was.len() implies goes_before(
        next,
        #[trigger] was[a],
        #[trigger] was[b],
    ) by {
        assert(goes_before(front, was[a], was[b]));
        assert(front[was[a]] == next[was[a]] && front[was[b]] == next[was[b]]);
    }
    assert forall|a: int| 0 <= a < was.len() implies 0 <= #[trigger] was[a] < next.len()
        && is_candidate(next[was[a]], root, rules, include_hidden) by {
        assert(front[was[a]] == next[was[a]]);
    }
}

/// Where a candidate belongs among the most recent ones.
spec fn place_among(w: Seq<Walked>, ks: Seq<int>, k: int) -> int
    decreases ks.len(),
{
    if ks.len() == 0 || goes_before(w, ks.last(), k) {
        ks.len() as int
    } else {
        place_among(w, ks.drop_last(), k)
    }
}

proof fn place_among_is_right(w: Seq<Walked>, ks: Seq<int>, k: int)
    requires
        forall|i: int| 0 <= i < ks.len() ==> #[trigger] ks[i] != k,
        forall|i: int, j: int|
            0 <= i < j < ks.len() ==> goes_before(w, #[trigger] ks[i], #[trigger] ks[j]),
    ensures
        0 <= place_among(w, ks, k) <= ks.len(),
        forall|i: int| 0 <= i < place_among(w, ks, k) ==> goes_before(w, #[trigger] ks[i], k),
        place_among(w, ks, k) < ks.len() ==> goes_before(w, k, ks[place_among(w, ks, k)]),
    decreases ks.len(),
{
    if ks.len() > 0 {
        let front = ks.drop_last();
        let last = ks[ks.len() - 1];
        if goes_before(w, ks.last(), k) {
            assert forall|i: int| 0 <= i < ks.len() implies goes_before(
                w,
                #[trigger] ks[i],
                k,
            ) by {
                if i < ks.len() - 1 {
                    assert(goes_before(w, ks[i], last));
                }
            }
        } else {
            assert forall|i: int| 0 <= i < front.len() implies #[trigger] front[i] != k by {
                assert(front[i] == ks[i]);
            }
            assert forall|i: int, j: int| 0 <= i < j < front.len() implies goes_before(
                w,
                #[trigger] front[i],
                #[trigger] front[j],
            ) by {
                assert(goes_before(w, ks[i], ks[j]));
            }
            place_among_is_right(w, front, k);
            let at = place_among(w, ks, k);
            assert forall|i: int| 0 <= i < at implies goes_before(w, #[trigger] ks[i], k) by {
                assert(front[i] == ks[i]);
            }
            assert(last != k);
        }
    }
}

/// There is an answer to which candidates are the most recent.
pub proof fn most_recent_exists(
    walked: Seq<Walked>,
    root: Seq<char>,
    rules: IgnoreRules,
    include_hidden: bool,
)
    ensures
        exists|ks: Seq<int>| are_most_recent(walked, root, rules, include_hidden, ks),
    decreases walked.len(),
{
    if walked.len() == 0 {
        assert(are_most_recent(walked, root, rules, include_hidden, Seq::<int>::empty()));
    } else {
        let k = walked.len() - 1;
        let front = walked.drop_last();
        most_recent_exists(front, root, rules, include_hidden);
        let ks = choose|ks: Seq<int>| are_most_recent(front, root, rules, include_hidden, ks);
        assert(walked.take(k) =~= front);
        assert(walked.take(k + 1) =~= walked);
        if is_candidate(walked[k], root, rules, include_hidden) {
            assert forall|i: int, j: int| 0 <= i < j < ks.len() implies goes_before(
                walked,
                #[trigger] ks[i],
                #[trigger] ks[j],
            ) by {
                assert(goes_before(front, ks[i], ks[j]));
                assert(front[ks[i]] == walked[ks[i]] && front[ks[j]] == walked[ks[j]]);
            }
            place_among_is_right(walked, ks, k);
            let at = place_among(walked, ks, k);
            putting_in_keeps_most_recent(walked, root, rules, include_hidden, ks, at, k);
            assert(are_most_recent(walked, root, rules, include_hidden, put_in(ks, at, k)));
        } else {
            passing_over_keeps_most_recent(walked, root, rules, include_hidden, ks, k);
            assert(are_most_recent(walked, root, rules, include_hidden, ks));
        }
    }
}

/// Puts the candidate at place `k`, which comes last in the walk so far, among
/// the most recent ones.
fn place_recent(
    walked: &Vec<Walked>,
    root: &str,
    rules: &IgnoreRules,
    include_hidden: bool,
    ks: &mut Vec<usize>,
    k: usize,
    time: Moment,
)
    requires
        k < walked@.len(),
        walked@[k as int].modified == Some(time),
        is_candidate(walked@[k as int], root@, *rules, include_hidden),
        are_most_recent(
            walked@.take(k as int),
            root@,
            *rules,
            include_hidden,
            places(old(ks)@),
        ),
    ensures
        are_most_recent(
            walked@.take(k + 1),
            root@,
            *rules,
            include_hidden,
            places(final(ks)@),
        ),
{
    let ghost w = walked@;
    let ghost was = places(ks@);
    proof {
        let front = w.take(k as int);
        assert forall|i: int| 0 <= i < was.len() implies 0 <= #[trigger] was[i] < k && is_candidate(
            w[was[i]],
            root@,
            *rules,
            include_hidden,
        ) by {
            assert(front[was[i]] == w[was[i]]);
        }
    }
    assert forall|i: int| 0 <= i < ks@.len() implies #[trigger] ks@[i] < walked@.len() by {
        assert(was[i] == ks@[i]);
    }
    let mut at: usize = 0;
    while at < ks.len() && !later(time, modified_or(&walked[ks[at]], time))
        invariant
            at <= ks@.len(),
            ks@ == old(ks)@,
            w == walked@,
            was == places(ks@),
            walked@[k as int].modified == Some(time),
            k < walked@.len(),
            forall|i: int| 0 <= i < ks@.len() ==> #[trigger] ks@[i] < walked@.len(),
            forall|i: int|
                0 <= i < was.len() ==> 0 <= #[trigger] was[i] < k && is_candidate(
                    w[was[i]],
                    root@,
                    *rules,
                    include_hidden,
                ),
            forall|i: int| 0 <= i < at ==> goes_before(w, #[trigger] was[i], k as int),
        decreases ks@.len() - at,
    {
        assert(was[at as int] == ks@[at as int]);
        at = at + 1;
    }
    proof {
        if at < ks@.len() {
            assert(was[at as int] == ks@[at as int]);
        }
        putting_in_keeps_most_recent(
            w,
            root@,
            *rules,
            include_hidden,
            was,
            at as int,
            k as int,
        );
    }
    ks.insert(at, k);
    assert(places(ks@) =~= was.insert(at as int, k as int));
    if ks.len() > RECENT_LIMIT {
        ks.pop();
    }
    assert(places(ks@) =~= put_in(was, at as int, k as int));
}

/// The most recently modified files under `root`, the latest first. Bounded
/// three ways, by count, by size and by the names that are always in motion,
/// because a large tree would flood it otherwise.
pub fn recent_files(
    root: &str,
    rules: &IgnoreRules,
    walked: &Vec<Walked>,
    include_hidden: bool,
) -> (r: Vec<String>)
    ensures
        texts(r@) == recent_paths(walked@, root@, *rules, include_hidden),
        r@.len() <= RECENT_LIMIT,
{
    let mut ks: Vec<usize> = Vec::new();
    assert(places(ks@) =~= Seq::<int>::empty());
    for i in 0..walked.len()
        invariant
            are_most_recent(
                walked@.take(i as int),
                root@,
                *rules,
                include_hidden,
                places(ks@),
            ),
    {
        let w = &walked[i];
        let ghost was = places(ks@);
        let small = match w.size {
            Some(n) => n <= RECENT_MAX_FILE_BYTES,
            None => false,
        };
        let mut time: Option<Moment> = None;
        if w.is_file && small && below_all_in_recent(w.path.as_str(), root, include_hidden)
            && !is_ignored(rules, w.path.as_str()) {
            time = w.modified;
        }
        match time {
            Some(t) => place_recent(walked, root, rules, include_hidden, &mut ks, i, t),
            None => {
                proof {
                    passing_over_keeps_most_recent(
                        walked@,
                        root@,
                        *rules,
                        include_hidden,
                        was,
                        i as int,
                    );
                }
            },
        }
    }
    assert(walked@.take(walked@.len() as int) =~= walked@);
    let ghost found = places(ks@);
    proof {
        let ls = choose|ls: Seq<int>|
            are_most_recent(walked@, root@, *rules, include_hidden, ls);
        most_recent_is_unique(walked@, root@, *rules, include_hidden, found, ls);
    }
    let mut out: Vec<String> = Vec::new();
    for i in 0..ks.len()
        invariant
            found == places(ks@),
            are_most_recent(walked@, root@, *rules, include_hidden, found),
            out@.len() == i,
            forall|j: int| 0 <= j < i ==> (#[trigger] out@[j])@ == walked@[found[j]].path@,
    {
        assert(found[i as int] == ks@[i as int]);
        out.push(walked[ks[i]].path.clone());
    }
    assert(texts(out@) =~= paths_at(walked@, found));
    out
}

/// A path that a project's index lists.
#[derive(Debug, Clone, PartialEq, Eq)]
pub struct IndexEntry {
    /// The path, as the index holds it: relative to the working directory.
    pub path: Vec<u8>,
    /// Whether a regular file is there.
    pub is_file: bool,
}

/// Where an entry of the index is, if its path is text.
pub fn index_path(workdir: &str, path: &Vec<u8>) -> (r: Option<String>)
    ensures
        r is Some <==> valid_utf8(path@),
        r matches Some(p) ==> p@ == join_text(workdir@, decode_utf8(path@)),
{
    match text_of(path.duplicate()) {
        Some(rel) => Some(join(workdir, rel.as_str())),
        None => None,
    }
}

/// An entry of the index contributes its path.
pub open spec fn is_listed_file(e: IndexEntry, workdir: Seq<char>, rules: IgnoreRules) -> bool {
    &&& valid_utf8(e.path@)
    &&& !rules.ignore(join_text(workdir, decode_utf8(e.path@)))
    &&& e.is_file
}

/// The paths that an index contributes, in its order.
pub open spec fn index_paths(
    entries: Seq<IndexEntry>,
    workdir: Seq<char>,
    rules: IgnoreRules,
) -> Seq<Seq<char>>
    decreases entries.len(),
{
    if entries.len() == 0 {
        Seq::empty()
    } else {
        let before = index_paths(entries.drop_last(), workdir, rules);
        if is_listed_file(entries.last(), workdir, rules) {
            before.push(join_text(workdir, decode_utf8(entries.last().path@)))
        } else {
            before
        }
    }
}

/// The files that a project's own index lists: those whose path is text, that
/// the rules do not ignore, and that are there. Without a repository there are
/// no entries, which is no error.
pub fn git_tracked_files(workdir: &str, entries: &Vec<IndexEntry>, rules: &IgnoreRules) -> (r: Vec<
    String,
>)
    ensures
        texts(r@) == index_paths(entries@, workdir@, *rules),
{
    let mut out: Vec<String> = Vec::new();
    assert(texts(out@) =~= Seq::<Seq<char>>::empty());
    for i in 0..entries.len()
        invariant
            texts(out@) == index_paths(entries@.take(i as int), workdir@, *rules),
    {
        let e = &entries[i];
        let ghost was = texts(out@);
        proof {
            let next = entries@.take(i + 1);
            assert(next.drop_last() =~= entries@.take(i as int));
            assert(next.last() == *e);
        }
        match index_path(workdir, &e.path) {
            None => (),
            Some(path) => {
                if !is_ignored(rules, path.as_str()) && e.is_file {
                    out.push(path);
                    assert(texts(out@) =~= was.push(path@));
                }
            },
        }
    }
    assert(entries@.take(entries@.len() as int) =~= entries@);
    out
}

/// What was read of one root: its ignore file, the index of its project, and a
/// walk of it.
#[derive(Debug)]
pub struct RootScan {
    pub root: String,
    /// The content of the ignore file, if there is one.
    pub ignore_file: Option<Vec<u8>>,
    /// The working directory of the project.
    pub workdir: String,
    pub index: Vec<IndexEntry>,
    pub walked: Vec<Walked>,
}

/// What bytes that may not be there hold.
pub open spec fn content_if(content: Option<Vec<u8>>) -> Option<Seq<u8>> {
    match content {
        Some(bytes) => Some(bytes@),
        None => None,
    }
}

/// What a root contributes under some rules: what its index lists, and what
/// was modified most recently.
pub open spec fn root_paths(scan: RootScan, rules: IgnoreRules, include_hidden: bool) -> Seq<
    Seq<char>,
> {
    index_paths(scan.index@, scan.workdir@, rules) + recent_paths(
        scan.walked@,
        scan.root@,
        rules,
        include_hidden,
    )
}

/// `rules` are the rules of the ignore file of the scanned root.
pub open spec fn are_rules_of(scan: RootScan, rules: IgnoreRules) -> bool {
    rules.root() == scan.root@ && compiled_from(
        rule_lines(content_if(scan.ignore_file)),
        rules.lines(),
    )
}

/// The rules of every scanned root, in order.
pub open spec fn are_all_rules(scans: Seq<RootScan>, rules: Seq<IgnoreRules>) -> bool {
    rules.len() == scans.len() && forall|i: int|
        0 <= i < scans.len() ==> are_rules_of(scans[i], #[trigger] rules[i])
}

/// What all roots contribute, one after another.
pub open spec fn all_root_paths(
    scans: Seq<RootScan>,
    rules: Seq<IgnoreRules>,
    include_hidden: bool,
) -> Seq<Seq<char>>
    decreases scans.len(),
{
    if scans.len() == 0 {
        Seq::empty()
    } else {
        all_root_paths(scans.drop_last(), rules.drop_last(), include_hidden) + root_paths(
            scans.last(),
            rules.last(),
            include_hidden,
        )
    }
}

/// The rules of every scanned root, in order.
pub fn rules_of_scans(scans: &Vec<RootScan>) -> (r: Vec<IgnoreRules>)
    ensures
        are_all_rules(scans@, r@),
{
    let mut out: Vec<IgnoreRules> = Vec::new();
    for i in 0..scans.len()
        invariant
            out@.len() == i,
            forall|j: int| 0 <= j < i ==> are_rules_of(scans@[j], #[trigger] out@[j]),
    {
        let rules = match &scans[i].ignore_file {
            Some(bytes) => load_ignore(scans[i].root.as_str(), Some(bytes.as_slice())),
            None => load_ignore(scans[i].root.as_str(), None),
        };
        out.push(rules);
    }
    out
}

/// Appends every string of a list.
fn append_all(out: &mut Vec<String>, more: &Vec<String>)
    ensures
        texts(final(out)@) == texts(old(out)@) + texts(more@),
{
    let ghost start = texts(out@);
    for i in 0..more.len()
        invariant
            texts(out@) == start + texts(more@).take(i as int),
    {
        let ghost was = texts(out@);
        out.push(more[i].clone());
        assert(texts(out@) =~= was.push(more@[i as int]@));
        assert(texts(out@) =~= start + texts(more@).take(i + 1));
    }
    assert(texts(more@).take(more@.len() as int) =~= texts(more@));
}

/// The paths that no rules ignore, in order.
pub open spec fn not_ignored(paths: Seq<Seq<char>>, rules: Seq<IgnoreRules>) -> Seq<Seq<char>> {
    paths.filter(|p: Seq<char>| !any_ignore(rules, p))
}

/// The paths that no rules ignore, in order.
fn without_ignored(paths: &Vec<String>, rules: &Vec<IgnoreRules>) -> (r: Vec<String>)
    ensures
        texts(r@) == not_ignored(texts(paths@), rules@),
{
    let mut out: Vec<String> = Vec::new();
    let ghost all = texts(paths@);
    let ghost p = |p: Seq<char>| !any_ignore(rules@, p);
    assert(texts(out@) =~= Seq::<Seq<char>>::empty());
    proof {
        reveal(Seq::filter);
        assert(all.take(0).filter(p) =~= Seq::<Seq<char>>::empty());
    }
    for i in 0..paths.len()
        invariant
            all == texts(paths@),
            p == (|p: Seq<char>| !any_ignore(rules@, p)),
            texts(out@) == all.take(i as int).filter(p),
    {
        let path = &paths[i];
        let ghost was = texts(out@);
        proof {
            reveal(Seq::filter);
            assert(all.take(i + 1).drop_last() =~= all.take(i as int));
            assert(all.take(i + 1).last() == path@);
        }
        if !is_ignored_by_any(rules, path.as_str()) {
            out.push(path.clone());
            assert(texts(out@) =~= was.push(path@));
        }
    }
    assert(all.take(paths@.len() as int) =~= all);
    out
}

/// Everything a capture looks at, in the order of paths: what the roots
/// contribute and what is known already, but for what any root's rules ignore.
pub open spec fn looked_at(
    scans: Seq<RootScan>,
    rules: Seq<IgnoreRules>,
    known: Seq<Seq<char>>,
    include_hidden: bool,
) -> Seq<Seq<char>> {
    in_path_order(not_ignored(all_root_paths(scans, rules, include_hidden) + known, rules))
}

/// Everything a capture should look at, under these rules: what the roots
/// contribute, and the paths that are known already, whatever first brought
/// them in, but for what any of the rules ignore now. In the order of paths.
///
/// The checkpoint of a turn and the safety checkpoint of a restore both go
/// through here. They have to agree: a path that one captured and the other
/// missed could be restored and then not be undone.
pub fn tracked_files_under(
    scans: &Vec<RootScan>,
    rules: &Vec<IgnoreRules>,
    already_known: &Vec<String>,
    include_hidden: bool,
) -> (r: Vec<String>)
    requires
        rules@.len() == scans@.len(),
    ensures
        texts(r@) == looked_at(scans@, rules@, texts(already_known@), include_hidden),
{
    let mut files: Vec<String> = Vec::new();
    assert(texts(files@) =~= Seq::<Seq<char>>::empty());
    for i in 0..scans.len()
        invariant
            rules@.len() == scans@.len(),
            texts(files@) == all_root_paths(
                scans@.take(i as int),
                rules@.take(i as int),
                include_hidden,
            ),
    {
        let scan = &scans[i];
        proof {
            assert(scans@.take(i + 1).drop_last() =~= scans@.take(i as int));
            assert(rules@.take(i + 1).drop_last() =~= rules@.take(i as int));
        }
        let ghost was = texts(files@);
        let listed = git_tracked_files(scan.workdir.as_str(), &scan.index, &rules[i]);
        append_all(&mut files, &listed);
        let recent = recent_files(scan.root.as_str(), &rules[i], &scan.walked, include_hidden);
        append_all(&mut files, &recent);
        assert(texts(files@) =~= was + (texts(listed@) + texts(recent@)));
    }
    proof {
        assert(scans@.take(scans@.len() as int) =~= scans@);
        assert(rules@.take(rules@.len() as int) =~= rules@);
    }
    append_all(&mut files, already_known);
    ordered_paths(&without_ignored(&files, rules))
}

/// Everything a capture should look at, under the ignore files of the roots:
/// what the roots contribute, and the paths that are known already.
pub fn tracked_files(
    scans: &Vec<RootScan>,
    already_known: &Vec<String>,
    include_hidden: bool,
) -> (r: Vec<String>)
    ensures
        exists|rules: Seq<IgnoreRules>| #[trigger]
            are_all_rules(scans@, rules) && texts(r@) == looked_at(
                scans@,
                rules,
                texts(already_known@),
                include_hidden,
            ),
{
    let rules = rules_of_scans(scans);
    tracked_files_under(scans, &rules, already_known, include_hidden)
}

/// How many directories a search from `start` upward passes, `start` included.
pub open spec fn ancestor_count(start: Seq<char>) -> int {
    let n = components(start).len() as int;
    if is_absolute(start) {
        n
    } else {
        n + 1
    }
}

/// The directory `k` levels above `start`.
pub open spec fn ancestor_text(start: Seq<char>, k: int) -> Seq<char> {
    if k == 0 {
        start
    } else {
        path_text(components(start).take(components(start).len() - k))
    }
}

/// `probe` may say that none of the markers is in `dir`.
pub open spec fn may_lack_markers<F: Fn(&str) -> bool>(
    probe: F,
    dir: Seq<char>,
    markers: Seq<Seq<char>>,
) -> bool {
    forall|i: int|
        0 <= i < markers.len() ==> may_answer(probe, join_text(dir, #[trigger] markers[i]), false)
}

/// `probe` may say that one of the markers, and none before it, is in `dir`.
pub open spec fn may_hold_marker<F: Fn(&str) -> bool>(
    probe: F,
    dir: Seq<char>,
    markers: Seq<Seq<char>>,
) -> bool {
    exists|i: int|
        0 <= i < markers.len() && may_answer(probe, join_text(dir, #[trigger] markers[i]), true)
            && may_lack_markers(probe, dir, markers.take(i))
}

/// Whether one of the markers is in `dir`, as `probe` says.
fn holds_marker<F: Fn(&str) -> bool>(probe: &F, dir: &str, markers: &Vec<String>) -> (r: bool)
    requires
        forall|t: &str| #[trigger] probe.requires((t,)),
    ensures
        r ==> may_hold_marker(*probe, dir@, texts(markers@)),
        !r ==> may_lack_markers(*probe, dir@, texts(markers@)),
{
    let ghost all = texts(markers@);
    for i in 0..markers.len()
        invariant
            all == texts(markers@),
            forall|t: &str| #[trigger] probe.requires((t,)),
            forall|j: int|
                0 <= j < i ==> may_answer(*probe, join_text(dir@, #[trigger] all[j]), false),
    {
        let path = join(dir, markers[i].as_str());
        assert(path@ == join_text(dir@, all[i as int]));
        let found = probe(path.as_str());
        assert(may_answer(*probe, path@, found));
        if found {
            assert(may_lack_markers(*probe, dir@, all.take(i as int)));
            return true;
        }
    }
    false
}

/// The nearest directory, from `start` upward, that holds one of `markers`, as
/// `probe` says.
pub fn find_workspace_root<F: Fn(&str) -> bool>(
    start: &str,
    markers: &Vec<String>,
    probe: &F,
) -> (r: Option<String>)
    requires
        forall|t: &str| #[trigger] probe.requires((t,)),
    ensures
        match r {
            Some(dir) => exists|k: int|
                0 <= k < ancestor_count(start@) && dir@ == #[trigger] ancestor_text(start@, k)
                    && may_hold_marker(*probe, dir@, texts(markers@)) && forall|j: int|
                    0 <= j < k ==> may_lack_markers(
                        *probe,
                        #[trigger] ancestor_text(start@, j),
                        texts(markers@),
                    ),
            None => forall|j: int|
                0 <= j < ancestor_count(start@) ==> may_lack_markers(
                    *probe,
                    #[trigger] ancestor_text(start@, j),
                    texts(markers@),
                ),
        },
{
    let cs = parts(start);
    let n = cs.len();
    let rooted = starts_with_separator(start);
    proof {
        crate::paths::components_are_names(start@);
    }
    assert(ancestor_text(start@, 0) == start@);
    if holds_marker(probe, start, markers) {
        return Some(start.to_owned());
    }
    let stop: usize = if rooted {
        1
    } else {
        0
    };
    let mut left: usize = n;
    while left > stop
        invariant
            forall|t: &str| #[trigger] probe.requires((t,)),
            texts(cs@) == components(start@),
            n == cs@.len(),
            left <= n,
            stop == (if is_absolute(start@) {
                1usize
            } else {
                0usize
            }),
            stop <= left || n == 0,
            forall|j: int|
                0 <= j <= n - left ==> may_lack_markers(
                    *probe,
                    #[trigger] ancestor_text(start@, j),
                    texts(markers@),
                ),
        decreases left,
    {
        left = left - 1;
        let dir = spell(&cs, left);
        assert(dir@ == ancestor_text(start@, n - left));
        if holds_marker(probe, dir.as_str(), markers) {
            return Some(dir);
        }
    }
    None
}

fn starts_with_separator(path: &str) -> (r: bool)
    ensures
        r == is_absolute(path@),
{
    let chars = chars_of(path);
    chars.len() > 0 && chars[0] == '/'
}

/// Whatever was found in whichever partition, a path that is known already and
/// that no rules ignore is looked at again, in some spelling.
pub proof fn known_paths_stay_tracked(
    found: Seq<Seq<char>>,
    known: Seq<Seq<char>>,
    rules: Seq<IgnoreRules>,
    i: int,
)
    requires
        0 <= i < known.len(),
        !any_ignore(rules, known[i]),
    ensures
        first_spellings(not_ignored(found + known, rules)).contains_key(path_key_text(known[i])),
{
    let all = found + known;
    let kept = not_ignored(all, rules);
    assert(all[found.len() + i] == known[i]);
    all.lemma_filter_contains(|p: Seq<char>| !any_ignore(rules, p), found.len() + i);
    every_path_has_a_spelling(kept, kept.index_of(known[i]));
}

/// What is spelled first was in the run, and the run has finitely many keys.
proof fn spellings_come_from_the_run(paths: Seq<Seq<char>>)
    ensures
        first_spellings(paths).dom().finite(),
        forall|k: Seq<char>| #[trigger]
            first_spellings(paths).contains_key(k) ==> paths.contains(first_spellings(paths)[k]),
    decreases paths.len(),
{
    if paths.len() > 0 {
        let front = paths.drop_last();
        spellings_come_from_the_run(front);
        assert forall|k: Seq<char>| #[trigger]
            first_spellings(paths).contains_key(k) implies paths.contains(
            first_spellings(paths)[k],
        ) by {
            let p = first_spellings(paths)[k];
            if first_spellings(front).contains_key(k) {
                assert(front[front.index_of(p)] == p);
                assert(paths[front.index_of(p)] == p);
            } else {
                assert(paths[paths.len() - 1] == p);
            }
        }
    }
}

/// Whatever the order puts out was put in.
proof fn order_adds_nothing(paths: Seq<Seq<char>>, i: int)
    requires
        0 <= i < in_path_order(paths).len(),
    ensures
        paths.contains(in_path_order(paths)[i]),
{
    spellings_come_from_the_run(paths);
    let found = first_spellings(paths);
    sorted_lists(found.dom());
    let keys = sorted(found.dom());
    assert(keys.contains(keys[i]));
    assert(found.dom().contains(keys[i]));
}

/// A path that any root's rules ignore now is never looked at, whatever brought
/// it in and however it is spelled: from the root of another, from an index, or
/// as one that is known already.
pub proof fn an_ignored_path_is_never_looked_at(
    scans: Seq<RootScan>,
    rules: Seq<IgnoreRules>,
    known: Seq<Seq<char>>,
    include_hidden: bool,
    path: Seq<char>,
    i: int,
)
    requires
        any_ignore(rules, path),
        0 <= i < looked_at(scans, rules, known, include_hidden).len(),
    ensures
        components(looked_at(scans, rules, known, include_hidden)[i]) != components(path),
{
    let all = all_root_paths(scans, rules, include_hidden) + known;
    let kept = not_ignored(all, rules);
    order_adds_nothing(kept, i);
    let other = in_path_order(kept)[i];
    let j = kept.index_of(other);
    assert(kept[j] == other);
    all.lemma_filter_pred(|p: Seq<char>| !any_ignore(rules, p), j);
    if components(other) == components(path) {
        let k = choose|k: int| 0 <= k < rules.len() && (#[trigger] rules[k]).ignore(path);
        assert(rules[k].ignore(other));
    }
}

/// Every path of a run is there under its key.
pub proof fn every_path_has_a_spelling(paths: Seq<Seq<char>>, i: int)
    requires
        0 <= i < paths.len(),
    ensures
        first_spellings(paths).contains_key(path_key_text(paths[i])),
    decreases paths.len(),
{
    if i < paths.len() - 1 {
        every_path_has_a_spelling(paths.drop_last(), i);
        assert(paths.drop_last()[i] == paths[i]);
    }
}

/// Whatever a root contributes, a path that its rules ignore is not in it.
pub proof fn an_ignored_path_is_not_contributed(
    scan: RootScan,
    rules: IgnoreRules,
    include_hidden: bool,
    path: Seq<char>,
)
    requires
        rules.ignore(path),
    ensures
        !root_paths(scan, rules, include_hidden).contains(path),
{
    let listed = index_paths(scan.index@, scan.workdir@, rules);
    let recent = recent_paths(scan.walked@, scan.root@, rules, include_hidden);
    most_recent_exists(scan.walked@, scan.root@, rules, include_hidden);
    let ks = choose|ks: Seq<int>|
        are_most_recent(scan.walked@, scan.root@, rules, include_hidden, ks);
    if (listed + recent).contains(path) {
        let i = (listed + recent).index_of(path);
        assert((listed + recent)[i] == path);
        if i < listed.len() {
            index_paths_are_not_ignored(scan.index@, scan.workdir@, rules, i);
        } else {
            assert(recent[i - listed.len()] == path);
            assert(is_candidate(
                scan.walked@[ks[i - listed.len()]],
                scan.root@,
                rules,
                include_hidden,
            ));
        }
    }
}

proof fn index_paths_are_not_ignored(
    entries: Seq<IndexEntry>,
    workdir: Seq<char>,
    rules: IgnoreRules,
    i: int,
)
    requires
        0 <= i < index_paths(entries, workdir, rules).len(),
    ensures
        !rules.ignore(index_paths(entries, workdir, rules)[i]),
    decreases entries.len(),
{
    if entries.len() > 0 {
        let before = index_paths(entries.drop_last(), workdir, rules);
        if i < before.len() {
            index_paths_are_not_ignored(entries.drop_last(), workdir, rules, i);
        }
    }
}

/// What a scan tracks is a regular file that was walked, that no rule ignores,
/// and that has neither repository internals nor, unless they are asked for,
/// hidden names below the root.
pub proof fn a_scan_tracks_what_is_in_it(
    walked: Seq<Walked>,
    root: Seq<char>,
    rules: IgnoreRules,
    include_hidden: bool,
    i: int,
)
    requires
        0 <= i < workspace_paths(walked, root, rules, include_hidden).len(),
    ensures
        exists|k: int|
            0 <= k < walked.len() && is_workspace_file(
                #[trigger] walked[k],
                root,
                rules,
                include_hidden,
            ) && walked[k].path@ == workspace_paths(walked, root, rules, include_hidden)[i],
    decreases walked.len(),
{
    if walked.len() > 0 {
        let front = walked.drop_last();
        let before = workspace_paths(front, root, rules, include_hidden);
        if i < before.len() {
            a_scan_tracks_what_is_in_it(front, root, rules, include_hidden, i);
            let k = choose|k: int|
                0 <= k < front.len() && is_workspace_file(
                    #[trigger] front[k],
                    root,
                    rules,
                    include_hidden,
                ) && front[k].path@ == before[i];
            assert(walked[k] == front[k]);
        } else {
            assert(walked[walked.len() - 1] == walked.last());
        }
    }
}

/// Every file that the index lists is contributed, whatever its path: where the
/// path is text, a regular file is there and the rules do not ignore it. And
/// nothing else is.
pub proof fn every_listed_file_is_contributed(
    entries: Seq<IndexEntry>,
    workdir: Seq<char>,
    rules: IgnoreRules,
    p: Seq<char>,
)
    ensures
        index_paths(entries, workdir, rules).contains(p) <==> exists|i: int|
            0 <= i < entries.len() && valid_utf8((#[trigger] entries[i]).path@)
                && entries[i].is_file && p == join_text(workdir, decode_utf8(entries[i].path@))
                && !rules.ignore(p),
    decreases entries.len(),
{
    let all = index_paths(entries, workdir, rules);
    if entries.len() == 0 {
        assert(!all.contains(p));
    } else {
        let front = entries.drop_last();
        every_listed_file_is_contributed(front, workdir, rules, p);
        let before = index_paths(front, workdir, rules);
        let e = entries.last();
        let at = join_text(workdir, decode_utf8(e.path@));
        assert(entries[entries.len() - 1] == e);
        if is_listed_file(e, workdir, rules) {
            vstd::seq_lib::lemma_seq_contains_after_push(before, at, p);
        }
        if before.contains(p) {
            let i = choose|i: int|
                0 <= i < front.len() && valid_utf8((#[trigger] front[i]).path@) && front[i].is_file
                    && p == join_text(workdir, decode_utf8(front[i].path@)) && !rules.ignore(p);
            assert(entries[i] == front[i]);
        }
        if exists|i: int|
            0 <= i < entries.len() && valid_utf8((#[trigger] entries[i]).path@)
                && entries[i].is_file && p == join_text(workdir, decode_utf8(entries[i].path@))
                && !rules.ignore(p) {
            let i = choose|i: int|
                0 <= i < entries.len() && valid_utf8((#[trigger] entries[i]).path@)
                    && entries[i].is_file && p == join_text(workdir, decode_utf8(entries[i].path@))
                    && !rules.ignore(p);
            if i < front.len() {
                assert(front[i] == entries[i]);
            }
        }
    }
}

/// One moment is not earlier than another.
pub open spec fn not_earlier(a: Moment, b: Moment) -> bool {
    a.secs > b.secs || (a.secs == b.secs && a.nanos >= b.nanos)
}

/// A walked path that counts as recently modified: a regular file of at most
/// sixteen mebibytes under the root, whose time is known, that the rules do not
/// ignore and with no name on the way that is passed over.
pub open spec fn counts_as_recent(
    w: Walked,
    root: Seq<char>,
    rules: IgnoreRules,
    include_hidden: bool,
) -> bool {
    &&& w.is_file
    &&& is_under(w.path@, root)
    &&& forall|i: int|
        0 <= i < below(w.path@, root).len() ==> !is_passed_over(
            #[trigger] below(w.path@, root)[i],
            include_hidden,
        )
    &&& !rules.ignore(w.path@)
    &&& w.size matches Some(n) && n <= 16_777_216
    &&& w.modified is Some
}

/// The search for recent files passes over what has this name: repository
/// internals, what is always in motion and, unless asked for, hidden entries.
pub open spec fn is_passed_over(name: Seq<char>, include_hidden: bool) -> bool {
    ||| name == ".git"@
    ||| !include_hidden && name.len() > 0 && name[0] == '.'
    ||| name == "node_modules"@
    ||| name == "target"@
    ||| name == "Pods"@
    ||| name == "dist"@
    ||| name == "build"@
    ||| name == "out"@
    ||| name == "vendor"@
    ||| name == "__pycache__"@
    ||| name == ".venv"@
    ||| name == "venv"@
}

/// A scan passes over repository internals and, unless asked for, hidden
/// entries, and over nothing else. The search for recent files passes over
/// what is always in motion besides.
pub proof fn names_decide_what_is_passed_over(name: Seq<char>, include_hidden: bool)
    ensures
        name_in_scan(name, include_hidden) <==> name != ".git"@ && (include_hidden || name.len()
            == 0 || name[0] != '.'),
        name_in_recent(name, include_hidden) <==> !is_passed_over(name, include_hidden),
{
}

/// The hundred files that were modified last are taken, the latest first. What
/// is taken counts as recent; and where something that counts is not taken, a
/// hundred others are, and none of them is older. Of files of the same time the
/// one that the walk met first goes first.
pub proof fn the_hundred_latest_files_are_taken(
    walked: Seq<Walked>,
    root: Seq<char>,
    rules: IgnoreRules,
    include_hidden: bool,
)
    ensures
        ({
            let recent = recent_paths(walked, root, rules, include_hidden);
            exists|ks: Seq<int>|
                recent.len() == ks.len() && ks.len() <= 100 && (forall|i: int|
                    0 <= i < ks.len() ==> 0 <= #[trigger] ks[i] < walked.len() && recent[i]
                        == walked[ks[i]].path@ && counts_as_recent(
                        walked[ks[i]],
                        root,
                        rules,
                        include_hidden,
                    )) && (forall|i: int, j: int|
                    0 <= i < j < ks.len() ==> #[trigger] ks[i] != #[trigger] ks[j] && not_earlier(
                        walked[ks[i]].modified->0,
                        walked[ks[j]].modified->0,
                    ) && (walked[ks[i]].modified->0 == walked[ks[j]].modified->0 ==> ks[i]
                        < ks[j])) && (forall|k: int|
                    0 <= k < walked.len() && counts_as_recent(
                        #[trigger] walked[k],
                        root,
                        rules,
                        include_hidden,
                    ) && !ks.contains(k) ==> ks.len() == 100 && forall|i: int|
                        0 <= i < ks.len() ==> not_earlier(
                            walked[#[trigger] ks[i]].modified->0,
                            walked[k].modified->0,
                        ) && (walked[ks[i]].modified->0 == walked[k].modified->0 ==> ks[i] < k))
        }),
{
    most_recent_exists(walked, root, rules, include_hidden);
    let ks = choose|ks: Seq<int>| are_most_recent(walked, root, rules, include_hidden, ks);
    let recent = recent_paths(walked, root, rules, include_hidden);
    assert forall|k: int| 0 <= k < walked.len() implies is_candidate(
        #[trigger] walked[k],
        root,
        rules,
        include_hidden,
    ) == counts_as_recent(walked[k], root, rules, include_hidden) by {
        let names = below(walked[k].path@, root);
        assert forall|i: int| 0 <= i < names.len() implies name_in_recent(
            #[trigger] names[i],
            include_hidden,
        ) == !is_passed_over(names[i], include_hidden) by {
            names_decide_what_is_passed_over(names[i], include_hidden);
        }
    }
    assert(recent.len() == ks.len());
    assert forall|i: int, j: int| 0 <= i < j < ks.len() implies #[trigger] ks[i]
        != #[trigger] ks[j] && not_earlier(walked[ks[i]].modified->0, walked[ks[j]].modified->0) && (
    walked[ks[i]].modified->0 == walked[ks[j]].modified->0 ==> ks[i] < ks[j]) by {
        assert(goes_before(walked, ks[i], ks[j]));
    }
    assert forall|k: int|
        0 <= k < walked.len() && counts_as_recent(
            #[trigger] walked[k],
            root,
            rules,
            include_hidden,
        ) && !ks.contains(k) implies ks.len() == 100 && forall|i: int|
        0 <= i < ks.len() ==> not_earlier(
            walked[#[trigger] ks[i]].modified->0,
            walked[k].modified->0,
        ) && (walked[ks[i]].modified->0 == walked[k].modified->0 ==> ks[i] < k) by {
        assert(is_candidate(walked[k], root, rules, include_hidden));
        assert forall|i: int| 0 <= i < ks.len() implies not_earlier(
            walked[#[trigger] ks[i]].modified->0,
            walked[k].modified->0,
        ) && (walked[ks[i]].modified->0 == walked[k].modified->0 ==> ks[i] < k) by {
            assert(goes_before(walked, ks[i], k));
        }
    }
}

/// A root contributes what its index lists and what was modified last, and a
/// capture has the contributions of every root.
proof fn roots_contribute(
    scans: Seq<RootScan>,
    rules: Seq<IgnoreRules>,
    include_hidden: bool,
    k: int,
    p: Seq<char>,
)
    requires
        rules.len() == scans.len(),
        0 <= k < scans.len(),
        index_paths(scans[k].index@, scans[k].workdir@, rules[k]).contains(p) || recent_paths(
            scans[k].walked@,
            scans[k].root@,
            rules[k],
            include_hidden,
        ).contains(p),
    ensures
        all_root_paths(scans, rules, include_hidden).contains(p),
    decreases scans.len(),
{
    let before = all_root_paths(scans.drop_last(), rules.drop_last(), include_hidden);
    let own = root_paths(scans.last(), rules.last(), include_hidden);
    let all = before + own;
    if k < scans.len() - 1 {
        assert(scans.drop_last()[k] == scans[k]);
        assert(rules.drop_last()[k] == rules[k]);
        roots_contribute(scans.drop_last(), rules.drop_last(), include_hidden, k, p);
        assert(all[before.index_of(p)] == p);
    } else {
        let listed = index_paths(scans[k].index@, scans[k].workdir@, rules[k]);
        let recent = recent_paths(scans[k].walked@, scans[k].root@, rules[k], include_hidden);
        if listed.contains(p) {
            assert(all[before.len() + listed.index_of(p)] == p);
        } else {
            assert(all[before.len() + listed.len() + recent.index_of(p)] == p);
        }
    }
}

/// Some path of the list is the same as `p`, as far as keys go.
pub open spec fn holds_path(list: Seq<Seq<char>>, p: Seq<char>) -> bool {
    exists|j: int|
        0 <= j < list.len() && path_key_text(#[trigger] list[j]) == path_key_text(p)
}

/// The order of paths keeps every path once, as it was first spelled, adds
/// none, and goes by the keys.
pub proof fn the_order_keeps_every_path_once(paths: Seq<Seq<char>>, i: int)
    requires
        0 <= i < paths.len(),
    ensures
        holds_path(in_path_order(paths), paths[i]),
        (forall|k: int| 0 <= k < i ==> path_key_text(#[trigger] paths[k]) != path_key_text(paths[i]))
            ==> in_path_order(paths).contains(paths[i]),
        forall|j: int|
            0 <= j < in_path_order(paths).len() ==> paths.contains(
                #[trigger] in_path_order(paths)[j],
            ),
        forall|a: int, b: int|
            0 <= a < b < in_path_order(paths).len() ==> lex_lt(
                path_key_text(#[trigger] in_path_order(paths)[a]),
                path_key_text(#[trigger] in_path_order(paths)[b]),
            ),
{
    let out = in_path_order(paths);
    let found = first_spellings(paths);
    spellings_come_from_the_run(paths);
    spellings_have_their_keys(paths);
    sorted_lists(found.dom());
    let keys = sorted(found.dom());
    every_path_has_a_spelling(paths, i);
    let key = path_key_text(paths[i]);
    assert(found.dom().contains(key));
    let at = keys.index_of(key);
    assert(keys[at] == key);
    assert(out[at] == found[key]);
    assert forall|j: int| 0 <= j < out.len() implies paths.contains(#[trigger] out[j])
        && path_key_text(out[j]) == keys[j] by {
        order_adds_nothing(paths, j);
        assert(keys.contains(keys[j]));
        assert(found.dom().contains(keys[j]));
    }
    if forall|k: int| 0 <= k < i ==> path_key_text(#[trigger] paths[k]) != path_key_text(paths[i]) {
        the_first_spelling_stays(paths, i);
    }
}

proof fn spellings_have_their_keys(paths: Seq<Seq<char>>)
    ensures
        forall|k: Seq<char>| #[trigger]
            first_spellings(paths).contains_key(k) ==> path_key_text(first_spellings(paths)[k])
                == k,
    decreases paths.len(),
{
    if paths.len() > 0 {
        let before = first_spellings(paths.drop_last());
        spellings_have_their_keys(paths.drop_last());
        assert forall|k: Seq<char>| #[trigger]
            first_spellings(paths).contains_key(k) implies path_key_text(first_spellings(paths)[k])
            == k by {
            if before.contains_key(k) {
                assert(first_spellings(paths)[k] == before[k]);
            }
        }
    }
}

proof fn the_first_spelling_stays(paths: Seq<Seq<char>>, i: int)
    requires
        0 <= i < paths.len(),
        forall|k: int| 0 <= k < i ==> path_key_text(#[trigger] paths[k]) != path_key_text(paths[i]),
    ensures
        first_spellings(paths).contains_key(path_key_text(paths[i])),
        first_spellings(paths)[path_key_text(paths[i])] == paths[i],
    decreases paths.len(),
{
    let front = paths.drop_last();
    if i < front.len() {
        assert forall|k: int| 0 <= k < i implies path_key_text(#[trigger] front[k])
            != path_key_text(front[i]) by {
            assert(front[k] == paths[k]);
        }
        the_first_spelling_stays(front, i);
        assert(front[i] == paths[i]);
    } else {
        let key = path_key_text(paths[i]);
        if first_spellings(front).contains_key(key) {
            spellings_come_from_the_run(front);
            spellings_have_their_keys(front);
            let q = first_spellings(front)[key];
            let k = front.index_of(q);
            assert(paths[k] == q);
        }
    }
}

/// What is contributed or known is looked at, unless some rules ignore it.
proof fn what_counts_is_looked_at(
    scans: Seq<RootScan>,
    rules: Seq<IgnoreRules>,
    known: Seq<Seq<char>>,
    include_hidden: bool,
    p: Seq<char>,
)
    requires
        all_root_paths(scans, rules, include_hidden).contains(p) || known.contains(p),
        !any_ignore(rules, p),
    ensures
        holds_path(looked_at(scans, rules, known, include_hidden), p),
{
    let found = all_root_paths(scans, rules, include_hidden);
    let all = found + known;
    let i = if found.contains(p) {
        found.index_of(p)
    } else {
        found.len() + known.index_of(p)
    };
    assert(all[i] == p);
    all.lemma_filter_contains(|q: Seq<char>| !any_ignore(rules, q), i);
    let kept = not_ignored(all, rules);
    let k = kept.index_of(p);
    assert(kept[k] == p);
    the_order_keeps_every_path_once(kept, k);
}

/// A capture looks at every file that the index of a root lists: where its path
/// is text, a regular file is there and no root's rules ignore it.
pub proof fn a_listed_file_is_looked_at(
    scans: Seq<RootScan>,
    rules: Seq<IgnoreRules>,
    known: Seq<Seq<char>>,
    include_hidden: bool,
    k: int,
    i: int,
)
    requires
        rules.len() == scans.len(),
        0 <= k < scans.len(),
        0 <= i < scans[k].index@.len(),
        valid_utf8(scans[k].index@[i].path@),
        scans[k].index@[i].is_file,
        forall|j: int|
            0 <= j < rules.len() ==> !(#[trigger] rules[j]).ignore(
                join_text(scans[k].workdir@, decode_utf8(scans[k].index@[i].path@)),
            ),
    ensures
        holds_path(
            looked_at(scans, rules, known, include_hidden),
            join_text(scans[k].workdir@, decode_utf8(scans[k].index@[i].path@)),
        ),
{
    let e = scans[k].index@[i];
    let p = join_text(scans[k].workdir@, decode_utf8(e.path@));
    assert(!rules[k].ignore(p));
    every_listed_file_is_contributed(scans[k].index@, scans[k].workdir@, rules[k], p);
    roots_contribute(scans, rules, include_hidden, k, p);
    what_counts_is_looked_at(scans, rules, known, include_hidden, p);
}

/// A capture looks at every recently modified file of every root, and at every
/// path that is known already, unless some root's rules ignore it.
pub proof fn recent_and_known_files_are_looked_at(
    scans: Seq<RootScan>,
    rules: Seq<IgnoreRules>,
    known: Seq<Seq<char>>,
    include_hidden: bool,
    k: int,
    p: Seq<char>,
)
    requires
        rules.len() == scans.len(),
        known.contains(p) || (0 <= k < scans.len() && recent_paths(
            scans[k].walked@,
            scans[k].root@,
            rules[k],
            include_hidden,
        ).contains(p)),
        forall|j: int| 0 <= j < rules.len() ==> !(#[trigger] rules[j]).ignore(p),
    ensures
        holds_path(looked_at(scans, rules, known, include_hidden), p),
{
    if !known.contains(p) {
        roots_contribute(scans, rules, include_hidden, k, p);
    }
    what_counts_is_looked_at(scans, rules, known, include_hidden, p);
}

/// What all roots contribute goes back to one of them.
proof fn contributions_come_from_a_root(
    scans: Seq<RootScan>,
    rules: Seq<IgnoreRules>,
    include_hidden: bool,
    p: Seq<char>,
) -> (k: int)
    requires
        rules.len() == scans.len(),
        all_root_paths(scans, rules, include_hidden).contains(p),
    ensures
        0 <= k < scans.len(),
        root_paths(scans[k], rules[k], include_hidden).contains(p),
    decreases scans.len(),
{
    let before = all_root_paths(scans.drop_last(), rules.drop_last(), include_hidden);
    let all = all_root_paths(scans, rules, include_hidden);
    if scans.len() == 0 {
        assert(!all.contains(p));
        0
    } else if before.contains(p) {
        let k = contributions_come_from_a_root(
            scans.drop_last(),
            rules.drop_last(),
            include_hidden,
            p,
        );
        assert(scans.drop_last()[k] == scans[k]);
        assert(rules.drop_last()[k] == rules[k]);
        k
    } else {
        let own = root_paths(scans.last(), rules.last(), include_hidden);
        let i = all.index_of(p);
        assert(all[i] == p);
        if i < before.len() {
            assert(before[i] == p);
        } else {
            assert(own[i - before.len()] == p);
        }
        scans.len() - 1
    }
}

/// Whatever a filter lets through was there.
pub proof fn filtering_adds_nothing(s: Seq<Seq<char>>, pred: spec_fn(Seq<char>) -> bool, i: int)
    requires
        0 <= i < s.filter(pred).len(),
    ensures
        s.contains(s.filter(pred)[i]),
    decreases s.len(),
{
    reveal(Seq::filter);
    if s.len() > 0 {
        let front = s.drop_last();
        let kept = front.filter(pred);
        if i < kept.len() {
            filtering_adds_nothing(front, pred, i);
            let k = front.index_of(kept[i]);
            assert(s[k] == front[k]);
        } else {
            assert(s[s.len() - 1] == s.filter(pred)[i]);
        }
    }
}

/// A capture looks at nothing else: what it looks at is known already, or is
/// listed by the index of a root, or was walked under a root and counts as
/// recent; and no rules ignore it.
pub proof fn nothing_else_is_looked_at(
    scans: Seq<RootScan>,
    rules: Seq<IgnoreRules>,
    known: Seq<Seq<char>>,
    include_hidden: bool,
    j: int,
)
    requires
        rules.len() == scans.len(),
        0 <= j < looked_at(scans, rules, known, include_hidden).len(),
    ensures
        ({
            let p = looked_at(scans, rules, known, include_hidden)[j];
            &&& forall|i: int| 0 <= i < rules.len() ==> !(#[trigger] rules[i]).ignore(p)
            &&& known.contains(p) || (exists|k: int, i: int|
                0 <= k < scans.len() && 0 <= i < scans[k].index@.len() && p == join_text(
                    scans[k].workdir@,
                    decode_utf8((#[trigger] scans[k].index@[i]).path@),
                ) && scans[k].index@[i].is_file) || (exists|k: int, i: int|
                0 <= k < scans.len() && 0 <= i < scans[k].walked@.len() && p == (
                #[trigger] scans[k].walked@[i]).path@ && counts_as_recent(
                    scans[k].walked@[i],
                    scans[k].root@,
                    rules[k],
                    include_hidden,
                ))
        }),
{
    let found = all_root_paths(scans, rules, include_hidden);
    let all = found + known;
    let kept = not_ignored(all, rules);
    let p = looked_at(scans, rules, known, include_hidden)[j];
    order_adds_nothing(kept, j);
    let i = kept.index_of(p);
    assert(kept[i] == p);
    all.lemma_filter_pred(|q: Seq<char>| !any_ignore(rules, q), i);
    filtering_adds_nothing(all, |q: Seq<char>| !any_ignore(rules, q), i);
    let at = all.index_of(p);
    assert(all[at] == p);
    if at >= found.len() {
        assert(known[at - found.len()] == p);
    } else {
        assert(found[at] == p);
        let k = contributions_come_from_a_root(scans, rules, include_hidden, p);
        let scan = scans[k];
        let listed = index_paths(scan.index@, scan.workdir@, rules[k]);
        let recent = recent_paths(scan.walked@, scan.root@, rules[k], include_hidden);
        let own = root_paths(scan, rules[k], include_hidden);
        let n = own.index_of(p);
        assert(own[n] == p);
        if n < listed.len() {
            assert(listed[n] == p);
            every_listed_file_is_contributed(scan.index@, scan.workdir@, rules[k], p);
            let e = choose|e: int|
                0 <= e < scan.index@.len() && valid_utf8((#[trigger] scan.index@[e]).path@)
                    && scan.index@[e].is_file && p == join_text(
                    scan.workdir@,
                    decode_utf8(scan.index@[e].path@),
                ) && !rules[k].ignore(p);
            assert(scans[k].index@[e].is_file);
        } else {
            assert(recent[n - listed.len()] == p);
            most_recent_exists(scan.walked@, scan.root@, rules[k], include_hidden);
            let ks = choose|ks: Seq<int>|
                are_most_recent(scan.walked@, scan.root@, rules[k], include_hidden, ks);
            let w = ks[n - listed.len()];
            let names = below(scan.walked@[w].path@, scan.root@);
            assert forall|a: int| 0 <= a < names.len() implies !is_passed_over(
                #[trigger] names[a],
                include_hidden,
            ) by {
                names_decide_what_is_passed_over(names[a], include_hidden);
            }
            assert(scans[k].walked@[w].path@ == p);
        }
    }
}

/// A scan of a workspace tracks every regular file under the root that the
/// rules do not ignore and that has no repository internals and, unless they
/// are asked for, no hidden names below the root.
pub proof fn every_file_of_a_workspace_is_tracked(
    walked: Seq<Walked>,
    root: Seq<char>,
    rules: IgnoreRules,
    include_hidden: bool,
    i: int,
)
    requires
        0 <= i < walked.len(),
        walked[i].is_file,
        is_under(walked[i].path@, root),
        forall|j: int|
            0 <= j < below(walked[i].path@, root).len() ==> {
                let name = #[trigger] below(walked[i].path@, root)[j];
                name != ".git"@ && (include_hidden || name.len() == 0 || name[0] != '.')
            },
        !rules.ignore(walked[i].path@),
    ensures
        holds_path(
            in_path_order(workspace_paths(walked, root, rules, include_hidden)),
            walked[i].path@,
        ),
{
    a_tracked_file_is_found(walked, root, rules, include_hidden, i);
    let all = workspace_paths(walked, root, rules, include_hidden);
    let k = all.index_of(walked[i].path@);
    assert(all[k] == walked[i].path@);
    the_order_keeps_every_path_once(all, k);
}

proof fn a_tracked_file_is_found(
    walked: Seq<Walked>,
    root: Seq<char>,
    rules: IgnoreRules,
    include_hidden: bool,
    i: int,
)
    requires
        0 <= i < walked.len(),
        walked[i].is_file,
        is_under(walked[i].path@, root),
        forall|j: int|
            0 <= j < below(walked[i].path@, root).len() ==> {
                let name = #[trigger] below(walked[i].path@, root)[j];
                name != ".git"@ && (include_hidden || name.len() == 0 || name[0] != '.')
            },
        !rules.ignore(walked[i].path@),
    ensures
        workspace_paths(walked, root, rules, include_hidden).contains(walked[i].path@),
    decreases walked.len(),
{
    let front = walked.drop_last();
    let before = workspace_paths(front, root, rules, include_hidden);
    let all = workspace_paths(walked, root, rules, include_hidden);
    let p = walked[i].path@;
    if i < front.len() {
        assert(front[i] == walked[i]);
        a_tracked_file_is_found(front, root, rules, include_hidden, i);
        assert(all[before.index_of(p)] == p);
    } else {
        let names = below(p, root);
        assert forall|j: int| 0 <= j < names.len() implies name_in_scan(
            #[trigger] names[j],
            include_hidden,
        ) by {
            names_decide_what_is_passed_over(names[j], include_hidden);
        }
        assert(is_workspace_file(walked.last(), root, rules, include_hidden));
        assert(all[before.len() as int] == p);
    }
}

/// What a scan of a workspace tracks was walked, is a regular file under the
/// root, has no name below it that is passed over, and is not ignored.
pub proof fn a_scan_tracks_nothing_else(
    walked: Seq<Walked>,
    root: Seq<char>,
    rules: IgnoreRules,
    include_hidden: bool,
    j: int,
)
    requires
        0 <= j < in_path_order(workspace_paths(walked, root, rules, include_hidden)).len(),
    ensures
        ({
            let p = in_path_order(workspace_paths(walked, root, rules, include_hidden))[j];
            &&& exists|i: int|
                0 <= i < walked.len() && (#[trigger] walked[i]).path@ == p && walked[i].is_file
            &&& is_under(p, root)
            &&& !rules.ignore(p)
            &&& forall|i: int|
                0 <= i < below(p, root).len() ==> {
                    let name = #[trigger] below(p, root)[i];
                    name != ".git"@ && (include_hidden || name.len() == 0 || name[0] != '.')
                }
        }),
{
    let all = workspace_paths(walked, root, rules, include_hidden);
    let p = in_path_order(all)[j];
    order_adds_nothing(all, j);
    let i = all.index_of(p);
    assert(all[i] == p);
    a_scan_tracks_what_is_in_it(walked, root, rules, include_hidden, i);
    let k = choose|k: int|
        0 <= k < walked.len() && is_workspace_file(
            #[trigger] walked[k],
            root,
            rules,
            include_hidden,
        ) && walked[k].path@ == all[i];
    let names = below(p, root);
    assert forall|a: int| 0 <= a < names.len() implies {
        let name = #[trigger] names[a];
        name != ".git"@ && (include_hidden || name.len() == 0 || name[0] != '.')
    } by {
        assert(name_in_scan(names[a], include_hidden));
        names_decide_what_is_passed_over(names[a], include_hidden);
    }
}

/// A search upward passes the directory itself and then every directory that
/// holds it, each with one component less, up to the root or to nothing.
pub proof fn a_search_goes_up_one_by_one(start: Seq<char>, k: int)
    requires
        0 <= k < ancestor_count(start),
    ensures
        ancestor_text(start, 0) == start,
        components(ancestor_text(start, k)) == components(start).take(components(start).len() - k),
        ancestor_count(start) >= 1,
        is_absolute(start) ==> components(ancestor_text(start, ancestor_count(start) - 1)) == seq![
            seq!['/'],
        ],
        !is_absolute(start) ==> components(ancestor_text(start, ancestor_count(start) - 1)).len()
            == 0,
{
    components_are_names(start);
    an_ancestor_has_fewer(start, k);
    an_ancestor_has_fewer(start, ancestor_count(start) - 1);
    let cs = components(start);
    if is_absolute(start) {
        assert(cs.take(1) =~= seq![seq!['/']]);
    }
}

proof fn an_ancestor_has_fewer(start: Seq<char>, k: int)
    requires
        0 <= k < ancestor_count(start),
    ensures
        components(ancestor_text(start, k)) == components(start).take(components(start).len() - k),
{
    components_are_names(start);
    components_are_proper(start);
    let cs = components(start);
    let front = cs.take(cs.len() - k);
    if k == 0 {
        assert(front =~= cs);
    } else {
        assert(proper(front)) by {
            assert forall|i: int| 0 <= i < front.len() implies (is_name(#[trigger] front[i])
                && front[i] != seq!['.']) || (i == 0 && (front[i] == seq!['/'] || front[i] == seq![
                '.',
            ])) by {
                assert(front[i] == cs[i]);
            }
        }
        a_spelled_path_has_its_components(front);
    }
}

/// Where the probe always says the same of a path, a directory that is found
/// holds a marker, and one that was passed holds none.
pub proof fn a_steady_probe_finds_markers<F: Fn(&str) -> bool>(
    probe: F,
    there: Set<Seq<char>>,
    dir: Seq<char>,
    markers: Seq<Seq<char>>,
)
    requires
        forall|p: Seq<char>, answer: bool| #[trigger]
            may_answer(probe, p, answer) ==> answer == there.contains(p),
    ensures
        may_hold_marker(probe, dir, markers) ==> exists|i: int|
            0 <= i < markers.len() && there.contains(join_text(dir, #[trigger] markers[i])),
        may_lack_markers(probe, dir, markers) ==> forall|i: int|
            0 <= i < markers.len() ==> !there.contains(join_text(dir, #[trigger] markers[i])),
{
    if may_hold_marker(probe, dir, markers) {
        let i = choose|i: int|
            0 <= i < markers.len() && may_answer(probe, join_text(dir, #[trigger] markers[i]), true)
                && may_lack_markers(probe, dir, markers.take(i));
        assert(there.contains(join_text(dir, markers[i])));
    }
    if may_lack_markers(probe, dir, markers) {
        assert forall|i: int| 0 <= i < markers.len() implies !there.contains(
            join_text(dir, #[trigger] markers[i]),
        ) by {
            assert(may_answer(probe, join_text(dir, markers[i]), false));
        }
    }
}

/// The rules of a scanned root are for that root, and are what compiling the
/// lines of its own ignore file came to.
pub proof fn every_root_has_its_own_rules(
    scans: Seq<RootScan>,
    rules: Seq<IgnoreRules>,
    i: int,
)
    requires
        are_all_rules(scans, rules),
        0 <= i < scans.len(),
    ensures
        rules.len() == scans.len(),
        rules[i].root() == scans[i].root@,
        compiled_from(
            rule_lines(
                match scans[i].ignore_file {
                    Some(bytes) => Some(bytes@),
                    None => None,
                },
            ),
            rules[i].lines(),
        ),
{
}

} // verus!
