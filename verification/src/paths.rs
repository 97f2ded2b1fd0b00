//! Paths as text: their components, and what is built from them.
//!
//! Components are compared, never prefixes of the text, so `/work` contains
//! `/work/a` and not `/workshop`.

use vstd::prelude::*;

use crate::text::{a_common_beginning_does_not_decide, chars_of, joined, lex_lt, same};

verus! {

/// The stretches of `s` between its separators, from left to right.
pub open spec fn pieces(s: Seq<char>) -> Seq<Seq<char>>
    decreases s.len(),
{
    if s.len() == 0 {
        seq![Seq::empty()]
    } else {
        let before = pieces(s.drop_last());
        if s.last() == '/' {
            before.push(Seq::empty())
        } else {
            before.drop_last().push(before.last().push(s.last()))
        }
    }
}

/// The pieces that count: empty ones and dots do not, but for a dot in front.
pub open spec fn counted(ps: Seq<Seq<char>>) -> Seq<Seq<char>>
    decreases ps.len(),
{
    if ps.len() == 0 {
        Seq::empty()
    } else {
        let p = ps.last();
        let before = counted(ps.drop_last());
        if p.len() == 0 || (p == seq!['.'] && ps.len() > 1) {
            before
        } else {
            before.push(p)
        }
    }
}

pub open spec fn is_absolute(s: Seq<char>) -> bool {
    s.len() > 0 && s[0] == '/'
}

/// The components of a path: its root, where it has one, then its names.
pub open spec fn components(s: Seq<char>) -> Seq<Seq<char>> {
    if is_absolute(s) {
        seq![seq!['/']] + counted(pieces(s))
    } else {
        counted(pieces(s))
    }
}

/// Whether the components of `base` come first among those of `path`.
pub open spec fn is_under(path: Seq<char>, base: Seq<char>) -> bool {
    components(base).is_prefix_of(components(path))
}

/// `name` taken relative to `base`; a rooted name stands for itself.
pub open spec fn join_text(base: Seq<char>, name: Seq<char>) -> Seq<char> {
    if is_absolute(name) {
        name
    } else if base.len() == 0 || base.last() == '/' {
        base + name
    } else {
        base + seq!['/'] + name
    }
}

/// The text of a run of components.
pub open spec fn path_text(cs: Seq<Seq<char>>) -> Seq<char>
    decreases cs.len(),
{
    if cs.len() == 0 {
        Seq::empty()
    } else {
        join_text(path_text(cs.drop_last()), cs.last())
    }
}

/// The views of a run of strings.
pub open spec fn texts(v: Seq<String>) -> Seq<Seq<char>> {
    Seq::new(v.len(), |i: int| v[i]@)
}

/// Splits text at every separator.
fn split(s: &str) -> (v: Vec<String>)
    ensures
        texts(v@) == pieces(s@),
{
    let chars = chars_of(s);
    let mut done: Vec<String> = Vec::new();
    let mut cur = String::new();
    assert(chars@.take(0) =~= Seq::empty());
    assert(texts(done@).push(cur@) =~= pieces(chars@.take(0)));
    for i in 0..chars.len()
        invariant
            texts(done@).push(cur@) == pieces(chars@.take(i as int)),
    {
        let c = chars[i];
        let ghost now = chars@.take(i + 1);
        let ghost was = done@;
        proof {
            assert(now.drop_last() =~= chars@.take(i as int));
            assert(now.last() == c);
            assert(texts(was).push(cur@).drop_last() =~= texts(was));
        }
        if c == '/' {
            let ghost piece = cur@;
            done.push(cur);
            cur = String::new();
            assert(texts(done@) =~= texts(was).push(piece));
        } else {
            cur.push(c);
        }
    }
    assert(chars@.take(chars@.len() as int) =~= s@);
    let ghost last = cur@;
    let ghost was = done@;
    done.push(cur);
    assert(texts(done@) =~= texts(was).push(last));
    done
}

/// The components of `path`.
pub fn parts(path: &str) -> (v: Vec<String>)
    ensures
        texts(v@) == components(path@),
{
    let all = split(path);
    let mut out: Vec<String> = Vec::new();
    assert(counted(texts(all@).take(0)) =~= Seq::empty());
    assert(texts(out@) =~= Seq::empty());
    let chars = chars_of(path);
    let rooted = chars.len() > 0 && chars[0] == '/';
    let ghost head: Seq<Seq<char>> = if rooted {
        seq![seq!['/']]
    } else {
        Seq::empty()
    };
    if rooted {
        let mut root = String::new();
        root.push('/');
        assert(root@ =~= seq!['/']);
        out.push(root);
        assert(texts(out@) =~= head);
    }
    assert(texts(out@) =~= head + counted(texts(all@).take(0)));
    for i in 0..all.len()
        invariant
            texts(out@) == head + counted(texts(all@).take(i as int)),
    {
        let piece = chars_of(all[i].as_str());
        let skip = piece.len() == 0 || (piece.len() == 1 && piece[0] == '.' && i > 0);
        let ghost now = texts(all@).take(i + 1);
        let ghost was = out@;
        proof {
            assert(now.drop_last() =~= texts(all@).take(i as int));
            assert(now.last() == piece@);
            if piece@.len() == 1 && piece@[0] == '.' {
                assert(piece@ =~= seq!['.']);
            }
        }
        if !skip {
            out.push(all[i].clone());
            proof {
                assert(texts(out@) =~= texts(was).push(piece@));
                assert(head + counted(now.drop_last()).push(piece@) =~= (head + counted(
                    now.drop_last(),
                )).push(piece@));
            }
        }
    }
    assert(texts(all@).take(all@.len() as int) =~= pieces(path@));
    assert(head + counted(pieces(path@)) =~= components(path@));
    out
}

/// Whether `path` is `base` or lies below it.
pub fn starts_with(path: &str, base: &str) -> (r: bool)
    ensures
        r == is_under(path@, base@),
{
    let whole = parts(path);
    let front = parts(base);
    if front.len() > whole.len() {
        return false;
    }
    for i in 0..front.len()
        invariant
            front@.len() <= whole@.len(),
            texts(whole@) == components(path@),
            texts(front@) == components(base@),
            forall|j: int| 0 <= j < i ==> texts(front@)[j] == texts(whole@)[j],
    {
        if !same(front[i].as_str(), whole[i].as_str()) {
            assert(texts(front@)[i as int] != texts(whole@)[i as int]);
            assert(!components(base@).is_prefix_of(components(path@))) by {
                if components(base@).is_prefix_of(components(path@)) {
                    assert(components(base@)[i as int] == components(path@).subrange(
                        0,
                        components(base@).len() as int,
                    )[i as int]);
                }
            }
            return false;
        }
    }
    assert(components(base@) =~= components(path@).subrange(0, components(base@).len() as int));
    true
}

/// `name` relative to `base`.
pub fn join(base: &str, name: &str) -> (r: String)
    ensures
        r@ == join_text(base@, name@),
{
    let front = chars_of(base);
    let back = chars_of(name);
    if back.len() > 0 && back[0] == '/' {
        name.to_owned()
    } else if front.len() == 0 || front[front.len() - 1] == '/' {
        joined(base, name)
    } else {
        let mut r = base.to_owned();
        r.push('/');
        assert(base@.push('/') =~= base@ + seq!['/']);
        r.append(name);
        r
    }
}

/// The text of the first `n` of a run of components.
pub fn spell(cs: &Vec<String>, n: usize) -> (r: String)
    requires
        n <= cs@.len(),
    ensures
        r@ == path_text(texts(cs@).take(n as int)),
{
    let mut r = String::new();
    assert(texts(cs@).take(0) =~= Seq::empty());
    assert(r@ =~= path_text(texts(cs@).take(0)));
    for i in 0..n
        invariant
            n <= cs@.len(),
            r@ == path_text(texts(cs@).take(i as int)),
    {
        r = join(r.as_str(), cs[i].as_str());
        assert(texts(cs@).take(i + 1).drop_last() =~= texts(cs@).take(i as int));
    }
    r
}

/// The path that holds `s`, where there is one.
pub open spec fn parent_text(s: Seq<char>) -> Option<Seq<char>> {
    let cs = components(s);
    if cs.len() == 0 || cs == seq![seq!['/']] {
        None
    } else {
        Some(path_text(cs.drop_last()))
    }
}

/// The last name of `s`, where it ends in one.
pub open spec fn file_name_text(s: Seq<char>) -> Option<Seq<char>> {
    let cs = components(s);
    if cs.len() == 0 || cs.last() == seq!['/'] || cs.last() == seq!['.'] || cs.last() == seq![
        '.',
        '.',
    ] {
        None
    } else {
        Some(cs.last())
    }
}

/// The view of a string that may not be there.
pub open spec fn text_if(s: Option<String>) -> Option<Seq<char>> {
    match s {
        Some(t) => Some(t@),
        None => None,
    }
}

/// The path that holds `path`, where there is one.
pub fn parent(path: &str) -> (r: Option<String>)
    ensures
        text_if(r) == parent_text(path@),
{
    let cs = parts(path);
    let n = cs.len();
    proof {
        reveal_strlit("/");
        assert("/"@ =~= seq!['/']);
        assert(n == 1 ==> (components(path@) =~= seq![seq!['/']]) == (cs@[0]@ == seq!['/'])) by {
            if n == 1 {
                assert(components(path@)[0] == cs@[0]@);
            }
        }
    }
    if n == 0 || (n == 1 && same(cs[0].as_str(), "/")) {
        None
    } else {
        assert(texts(cs@).take(n - 1) =~= components(path@).drop_last());
        Some(spell(&cs, n - 1))
    }
}

/// The last name of `path`, where it ends in one.
pub fn file_name(path: &str) -> (r: Option<String>)
    ensures
        text_if(r) == file_name_text(path@),
{
    let cs = parts(path);
    let n = cs.len();
    proof {
        reveal_strlit("/");
        reveal_strlit(".");
        reveal_strlit("..");
        assert("/"@ =~= seq!['/']);
        assert("."@ =~= seq!['.']);
        assert(".."@ =~= seq!['.', '.']);
    }
    if n == 0 {
        return None;
    }
    assert(components(path@).last() == cs@[n - 1]@);
    let last = cs[n - 1].as_str();
    if same(last, "/") || same(last, ".") || same(last, "..") {
        None
    } else {
        Some(last.to_owned())
    }
}

/// Text without a separator.
pub open spec fn no_separator(s: Seq<char>) -> bool {
    forall|i: int| 0 <= i < s.len() ==> #[trigger] s[i] != '/'
}

/// A name holds no separator, and something.
pub open spec fn is_name(s: Seq<char>) -> bool {
    s.len() > 0 && no_separator(s)
}

proof fn pieces_hold_no_separator(s: Seq<char>)
    ensures
        pieces(s).len() > 0,
        forall|i: int| 0 <= i < pieces(s).len() ==> no_separator(#[trigger] pieces(s)[i]),
    decreases s.len(),
{
    if s.len() > 0 {
        pieces_hold_no_separator(s.drop_last());
        let before = pieces(s.drop_last());
        let after = pieces(s);
        assert forall|i: int| 0 <= i < after.len() implies no_separator(#[trigger] after[i]) by {
            if i < before.len() - 1 || s.last() == '/' {
                if i < before.len() {
                    assert(after[i] == before[i]);
                }
            } else {
                assert(no_separator(before[before.len() - 1]));
            }
        }
    }
}

proof fn counted_are_names(ps: Seq<Seq<char>>)
    requires
        forall|i: int| 0 <= i < ps.len() ==> no_separator(#[trigger] ps[i]),
    ensures
        forall|i: int| 0 <= i < counted(ps).len() ==> is_name(#[trigger] counted(ps)[i]),
    decreases ps.len(),
{
    if ps.len() > 0 {
        let front = ps.drop_last();
        assert forall|i: int| 0 <= i < front.len() implies no_separator(#[trigger] front[i]) by {
            assert(front[i] == ps[i]);
        }
        counted_are_names(front);
        assert(no_separator(ps[ps.len() - 1]));
        let before = counted(front);
        assert forall|i: int| 0 <= i < counted(ps).len() implies is_name(
            #[trigger] counted(ps)[i],
        ) by {
            if i < before.len() {
                assert(counted(ps)[i] == before[i]);
            }
        }
    }
}

/// Every component is a name, but for the root in front.
pub proof fn components_are_names(s: Seq<char>)
    ensures
        forall|i: int|
            0 <= i < components(s).len() && !(i == 0 && is_absolute(s)) ==> is_name(
                #[trigger] components(s)[i],
            ),
        is_absolute(s) ==> components(s).len() > 0 && components(s)[0] == seq!['/'],
{
    pieces_hold_no_separator(s);
    counted_are_names(pieces(s));
}

/// The components of `path` below `base`, which comes first among them.
pub open spec fn below(path: Seq<char>, base: Seq<char>) -> Seq<Seq<char>> {
    let rest = components(path).skip(components(base).len() as int);
    if rest.len() > 0 && rest[0] == seq!['/'] {
        rest.drop_first()
    } else {
        rest
    }
}

/// `path` as it is spelled from `base`.
pub open spec fn relative_text(path: Seq<char>, base: Seq<char>) -> Seq<char> {
    path_text(below(path, base))
}

/// The names of `path` below `base`, if it is under it.
pub fn names_below(path: &str, base: &str) -> (r: Option<Vec<String>>)
    ensures
        r is Some <==> is_under(path@, base@),
        r matches Some(v) ==> texts(v@) == below(path@, base@),
{
    if !starts_with(path, base) {
        return None;
    }
    let whole = parts(path);
    let front = parts(base);
    let mut from = front.len();
    let ghost rest = components(path@).skip(front@.len() as int);
    assert(front@.len() <= whole@.len());
    proof {
        reveal_strlit("/");
        assert("/"@ =~= seq!['/']);
        if from < whole@.len() {
            assert(rest[0] == whole@[from as int]@);
        }
    }
    if from < whole.len() && same(whole[from].as_str(), "/") {
        from = from + 1;
    }
    let mut out: Vec<String> = Vec::new();
    let ghost start = from as int;
    for i in from..whole.len()
        invariant
            start == from,
            from <= i <= whole@.len(),
            texts(out@) == texts(whole@).subrange(start, i as int),
    {
        let ghost was = texts(out@);
        out.push(whole[i].clone());
        assert(texts(out@) =~= was.push(whole@[i as int]@));
        assert(texts(out@) =~= texts(whole@).subrange(start, i + 1));
    }
    assert(texts(out@) =~= below(path@, base@));
    Some(out)
}

/// `path` as it is spelled from `base`, if it is under it.
pub fn relative_to(path: &str, base: &str) -> (r: Option<String>)
    ensures
        r is Some <==> is_under(path@, base@),
        r matches Some(t) ==> t@ == relative_text(path@, base@),
{
    match names_below(path, base) {
        None => None,
        Some(names) => {
            let r = spell(&names, names.len());
            assert(texts(names@).take(names@.len() as int) =~= texts(names@));
            Some(r)
        },
    }
}

/// The text of names starts as its first name does, and no separator follows
/// another.
proof fn names_text_shape(cs: Seq<Seq<char>>)
    requires
        forall|i: int| 0 <= i < cs.len() ==> is_name(#[trigger] cs[i]),
    ensures
        cs.len() == 0 ==> path_text(cs).len() == 0,
        cs.len() > 0 ==> path_text(cs).len() > 0 && path_text(cs)[0] != '/'
            && path_text(cs).last() != '/',
        forall|i: int|
            0 <= i < path_text(cs).len() - 1 && #[trigger] path_text(cs)[i] == '/'
                ==> path_text(cs)[i + 1] != '/',
    decreases cs.len(),
{
    if cs.len() > 0 {
        let front = cs.drop_last();
        assert forall|i: int| 0 <= i < front.len() implies is_name(#[trigger] front[i]) by {
            assert(front[i] == cs[i]);
        }
        names_text_shape(front);
        let last = cs[cs.len() - 1];
        assert(is_name(last));
        assert(last[0] != '/');
        let t = path_text(front);
        let whole = path_text(cs);
        if front.len() == 0 {
            assert(whole =~= last);
        } else {
            assert(whole =~= t + seq!['/'] + last);
            assert(whole[0] == t[0]);
            assert forall|i: int|
                0 <= i < whole.len() - 1 && #[trigger] whole[i] == '/' implies whole[i + 1]
                != '/' by {
                if i < t.len() - 1 {
                    assert(t[i] == '/');
                    assert(t[i + 1] == whole[i + 1]);
                } else if i > t.len() {
                    assert(last[i - t.len() - 1] == '/');
                }
            }
        }
    }
}

/// A path spelled from its base is not rooted, nor is what is left of it
/// without a dot in front.
pub proof fn relative_text_is_not_rooted(path: Seq<char>, base: Seq<char>)
    requires
        is_under(path, base),
    ensures
        ({
            let t = relative_text(path, base);
            &&& !is_absolute(t)
            &&& !(t.len() > 2 && t[0] == '.' && t[1] == '/' && t[2] == '/')
        }),
{
    components_are_names(path);
    let n = components(base).len() as int;
    let rest = components(path).skip(n);
    let names = below(path, base);
    assert forall|i: int| 0 <= i < names.len() implies is_name(#[trigger] names[i]) by {
        let j = if rest.len() > 0 && rest[0] == seq!['/'] {
            n + i + 1
        } else {
            n + i
        };
        assert(names[i] == components(path)[j]);
        if j == 0 && is_absolute(path) {
            assert(components(path)[0] == seq!['/']);
            assert(rest[0] == seq!['/']);
        }
    }
    names_text_shape(names);
}

/// How a component stands in the order of paths: the root first, then a dot,
/// then two dots, then names.
pub open spec fn component_mark(c: Seq<char>) -> char {
    if c == seq!['/'] {
        '\u{1}'
    } else if c == seq!['.'] {
        '\u{2}'
    } else if c == seq!['.', '.'] {
        '\u{3}'
    } else {
        '\u{4}'
    }
}

/// The text by which a run of components is ordered: component by component,
/// and a shorter one before those it begins.
pub open spec fn order_text(cs: Seq<Seq<char>>) -> Seq<char>
    decreases cs.len(),
{
    if cs.len() == 0 {
        Seq::empty()
    } else {
        order_text(cs.drop_last()) + (seq![component_mark(cs.last())] + cs.last() + seq!['\u{0}'])
    }
}

/// The key under which a path is ordered and found again. Spellings with the
/// same components share it.
pub open spec fn path_key_text(s: Seq<char>) -> Seq<char> {
    order_text(components(s))
}

/// The key under which a path is ordered and found again.
pub fn path_key(path: &str) -> (r: String)
    ensures
        r@ == path_key_text(path@),
{
    let cs = parts(path);
    let mut r = String::new();
    let ghost all = texts(cs@);
    proof {
        reveal_strlit("/");
        reveal_strlit(".");
        reveal_strlit("..");
        assert("/"@ =~= seq!['/']);
        assert("."@ =~= seq!['.']);
        assert(".."@ =~= seq!['.', '.']);
        assert(all.take(0) =~= Seq::<Seq<char>>::empty());
        assert(r@ =~= order_text(all.take(0)));
    }
    for i in 0..cs.len()
        invariant
            all == texts(cs@),
            "/"@ == seq!['/'],
            "."@ == seq!['.'],
            ".."@ == seq!['.', '.'],
            r@ == order_text(all.take(i as int)),
    {
        let c = cs[i].as_str();
        let mark = if same(c, "/") {
            '\u{1}'
        } else if same(c, ".") {
            '\u{2}'
        } else if same(c, "..") {
            '\u{3}'
        } else {
            '\u{4}'
        };
        let ghost was = r@;
        r.push(mark);
        r.append(c);
        r.push('\u{0}');
        proof {
            let next = all.take(i + 1);
            assert(next.drop_last() =~= all.take(i as int));
            assert(next.last() == c@);
            assert(r@ =~= was + (seq![mark] + c@ + seq!['\u{0}']));
        }
    }
    assert(all.take(cs@.len() as int) =~= components(path@));
    r
}

/// No component holds the character that no file name can hold.
pub open spec fn nul_free(cs: Seq<Seq<char>>) -> bool {
    forall|i: int, j: int|
        0 <= i < cs.len() && 0 <= j < cs[i].len() ==> #[trigger] cs[i][j] != '\u{0}'
}

/// Two paths share a key only if they have the same components.
pub proof fn a_key_stands_for_its_components(a: Seq<Seq<char>>, b: Seq<Seq<char>>)
    requires
        nul_free(a),
        nul_free(b),
        order_text(a) == order_text(b),
    ensures
        a == b,
    decreases a.len(),
{
    let k = order_text(a);
    if a.len() == 0 || b.len() == 0 {
        if a.len() > 0 {
            assert(order_text(a).len() > 0);
        }
        if b.len() > 0 {
            assert(order_text(b).len() > 0);
        }
        assert(a =~= b);
    } else {
        let c = a.last();
        let d = b.last();
        let fa = order_text(a.drop_last());
        let fb = order_text(b.drop_last());
        assert(a[a.len() - 1] == c && b[b.len() - 1] == d);
        assert(k =~= fa + (seq![component_mark(c)] + c + seq!['\u{0}']));
        assert(k =~= fb + (seq![component_mark(d)] + d + seq!['\u{0}']));
        order_text_ends(a.drop_last());
        order_text_ends(b.drop_last());
        last_is_as_long(a, b);
        last_is_as_long(b, a);
        let n = c.len() as int;
        assert(k.subrange(k.len() - 1 - n, k.len() - 1) =~= c);
        assert(k.subrange(k.len() - 1 - n, k.len() - 1) =~= d);
        assert(k.take(k.len() - 2 - n) =~= fa);
        assert(k.take(k.len() - 2 - n) =~= fb);
        assert forall|i: int, j: int|
            0 <= i < a.drop_last().len() && 0 <= j
                < a.drop_last()[i].len() implies #[trigger] a.drop_last()[i][j] != '\u{0}' by {
            assert(a[i][j] != '\u{0}');
        }
        assert forall|i: int, j: int|
            0 <= i < b.drop_last().len() && 0 <= j
                < b.drop_last()[i].len() implies #[trigger] b.drop_last()[i][j] != '\u{0}' by {
            assert(b[i][j] != '\u{0}');
        }
        a_key_stands_for_its_components(a.drop_last(), b.drop_last());
        assert(a =~= a.drop_last().push(c));
        assert(b =~= b.drop_last().push(d));
    }
}

proof fn order_text_ends(cs: Seq<Seq<char>>)
    ensures
        cs.len() > 0 ==> order_text(cs).len() > 0 && order_text(cs).last() == '\u{0}',
{
}

proof fn last_is_as_long(a: Seq<Seq<char>>, b: Seq<Seq<char>>)
    requires
        a.len() > 0,
        b.len() > 0,
        nul_free(b),
        order_text(a) == order_text(b),
    ensures
        a.last().len() >= b.last().len(),
{
    let k = order_text(a);
    let c = a.last();
    let d = b.last();
    let fa = order_text(a.drop_last());
    let fb = order_text(b.drop_last());
    assert(k =~= fa + (seq![component_mark(c)] + c + seq!['\u{0}']));
    assert(k =~= fb + (seq![component_mark(d)] + d + seq!['\u{0}']));
    order_text_ends(a.drop_last());
    if c.len() < d.len() && a.drop_last().len() > 0 {
        let at = k.len() - c.len() - 3;
        assert(k[at] == fa.last());
        let first = k.len() - 1 - d.len();
        if at >= first {
            assert(k[at] == d[at - first]);
            assert(b[b.len() - 1][at - first] != '\u{0}');
        } else {
            assert(k[at] == component_mark(d));
        }
    }
}

/// What stands behind the last separator is the last piece.
proof fn pieces_end(front: Seq<char>, name: Seq<char>)
    requires
        front.len() == 0 || front.last() == '/',
        no_separator(name),
    ensures
        pieces(front + name).len() > 0,
        pieces(front + name).last() == name,
        front.len() > 0 ==> pieces(front + name).len() > 1,
    decreases name.len(),
{
    let s = front + name;
    if name.len() == 0 {
        assert(s =~= front);
        if front.len() > 0 {
            pieces_hold_no_separator(front.drop_last());
        }
    } else {
        let rest = name.drop_last();
        assert forall|i: int| 0 <= i < rest.len() implies #[trigger] rest[i] != '/' by {
            assert(rest[i] == name[i]);
        }
        pieces_end(front, rest);
        assert(s.drop_last() =~= front + rest);
        assert(s.last() == name[name.len() - 1]);
        assert(rest.push(name.last()) =~= name);
    }
}

/// The last component of a joined path is the name that was joined.
pub proof fn a_joined_name_comes_last(base: Seq<char>, name: Seq<char>)
    requires
        is_name(name),
        name != seq!['.'],
    ensures
        components(join_text(base, name)).len() > 0,
        components(join_text(base, name)).last() == name,
{
    assert(name[0] != '/');
    let front = if base.len() == 0 || base.last() == '/' {
        base
    } else {
        base + seq!['/']
    };
    let s = join_text(base, name);
    assert(s =~= front + name);
    pieces_end(front, name);
    assert(counted(pieces(s)).last() == name);
}

/// What stands behind the last separator is the last piece, and the pieces
/// before it are those of the front.
proof fn pieces_of_joined(front: Seq<char>, name: Seq<char>)
    requires
        front.len() == 0 || front.last() == '/',
        no_separator(name),
    ensures
        pieces(front + name) == pieces(front).drop_last().push(name),
        pieces(front).len() > 0,
        pieces(front).last().len() == 0,
        pieces(front).len() > 1 <==> front.len() > 0,
    decreases name.len(),
{
    let s = front + name;
    if name.len() == 0 {
        assert(s =~= front);
        if front.len() > 0 {
            pieces_hold_no_separator(front.drop_last());
        }
        assert(pieces(front).last() =~= name);
        assert(pieces(front) =~= pieces(front).drop_last().push(name));
    } else {
        let rest = name.drop_last();
        assert forall|i: int| 0 <= i < rest.len() implies #[trigger] rest[i] != '/' by {
            assert(rest[i] == name[i]);
        }
        pieces_of_joined(front, rest);
        assert(s.drop_last() =~= front + rest);
        assert(s.last() == name[name.len() - 1]);
        assert(rest.push(name.last()) =~= name);
        let before = pieces(front).drop_last().push(rest);
        assert(before.drop_last() =~= pieces(front).drop_last());
    }
}

/// A separator at the end of a path changes none of its components, nor does a
/// second one.
pub proof fn a_separator_at_the_end_is_nothing(s: Seq<char>)
    requires
        s.len() > 0,
    ensures
        components(s.push('/')) == components(s),
{
    let t = s.push('/');
    assert(t.drop_last() =~= s);
    assert(t[0] == s[0]);
    let ps = pieces(s);
    assert(pieces(t) =~= ps.push(Seq::empty()));
    assert(ps.push(Seq::<char>::empty()).drop_last() =~= ps);
}

/// Nothing has no components, and the root is its own.
pub proof fn the_root_is_one_component()
    ensures
        components(Seq::<char>::empty()) == Seq::<Seq<char>>::empty(),
        components(seq!['/']) == seq![seq!['/']],
{
    let e = Seq::<char>::empty();
    reveal_with_fuel(pieces, 3);
    reveal_with_fuel(counted, 4);
    assert(pieces(e) =~= seq![e]);
    assert(seq!['/'].drop_last() =~= e);
    assert(pieces(seq!['/']) =~= seq![e, e]);
    assert(seq![e, e].drop_last() =~= seq![e]);
    assert(seq![e].drop_last() =~= Seq::<Seq<char>>::empty());
    assert(counted(seq![e, e]) =~= Seq::<Seq<char>>::empty());
    assert(components(seq!['/']) =~= seq![seq!['/']]);
    assert(components(e) =~= Seq::<Seq<char>>::empty());
}

/// Joining a name to a path adds that component and changes no other; a dot
/// adds nothing.
pub proof fn a_joined_name_is_one_more_component(base: Seq<char>, name: Seq<char>)
    requires
        is_name(name),
    ensures
        components(join_text(base, name)) == if name == seq!['.'] && base.len() > 0 {
            components(base)
        } else {
            components(base).push(name)
        },
{
    assert(name[0] != '/');
    let front = if base.len() == 0 || base.last() == '/' {
        base
    } else {
        base + seq!['/']
    };
    let s = join_text(base, name);
    assert(s =~= front + name);
    if front != base {
        assert(front =~= base.push('/'));
        a_separator_at_the_end_is_nothing(base);
    }
    pieces_of_joined(front, name);
    let ps = pieces(front).drop_last();
    assert(pieces(front) =~= ps.push(pieces(front).last()));
    assert(counted(pieces(front)) == counted(ps));
    assert(ps.push(name).drop_last() =~= ps);
    if front.len() > 0 {
        assert(is_absolute(s) == is_absolute(front)) by {
            assert(s[0] == front[0]);
        }
    } else {
        assert(!is_absolute(s)) by {
            assert(s[0] == name[0]);
        }
        the_root_is_one_component();
        assert(components(base) =~= Seq::<Seq<char>>::empty());
        assert(ps =~= Seq::<Seq<char>>::empty());
    }
    let r = components(s);
    if name == seq!['.'] && base.len() > 0 {
        assert(r =~= components(front));
    } else {
        assert(counted(ps.push(name)) == counted(ps).push(name));
        assert(r =~= components(front).push(name));
    }
}

/// Components as a path has them: names, but for a root or a dot in front.
pub open spec fn proper(cs: Seq<Seq<char>>) -> bool {
    forall|i: int|
        0 <= i < cs.len() ==> (is_name(#[trigger] cs[i]) && cs[i] != seq!['.']) || (i == 0 && (cs[i]
            == seq!['/'] || cs[i] == seq!['.']))
}

proof fn counted_are_proper(ps: Seq<Seq<char>>)
    requires
        forall|i: int| 0 <= i < ps.len() ==> no_separator(#[trigger] ps[i]),
    ensures
        proper(counted(ps)),
        ps.len() > 0 && ps[0].len() == 0 ==> forall|i: int|
            0 <= i < counted(ps).len() ==> #[trigger] counted(ps)[i] != seq!['.'],
    decreases ps.len(),
{
    if ps.len() > 0 {
        let front = ps.drop_last();
        assert forall|i: int| 0 <= i < front.len() implies no_separator(#[trigger] front[i]) by {
            assert(front[i] == ps[i]);
        }
        counted_are_proper(front);
        assert(no_separator(ps[ps.len() - 1]));
        let before = counted(front);
        if front.len() > 0 {
            assert(front[0] == ps[0]);
        }
        let all = counted(ps);
        assert forall|i: int| 0 <= i < all.len() implies (is_name(#[trigger] all[i]) && all[i]
            != seq!['.']) || (i == 0 && (all[i] == seq!['/'] || all[i] == seq!['.'])) by {
            if i < before.len() {
                assert(all[i] == before[i]);
            }
        }
        assert forall|i: int|
            ps[0].len() == 0 && 0 <= i < all.len() implies #[trigger] all[i] != seq!['.'] by {
            if i < before.len() {
                assert(all[i] == before[i]);
            }
        }
    }
}

/// Every path has components of that form.
pub proof fn components_are_proper(s: Seq<char>)
    ensures
        proper(components(s)),
{
    pieces_hold_no_separator(s);
    counted_are_proper(pieces(s));
    if is_absolute(s) {
        first_piece_of_rooted(s);
        let cs = components(s);
        let names = counted(pieces(s));
        assert forall|i: int| 0 <= i < cs.len() implies (is_name(#[trigger] cs[i]) && cs[i] != seq![
            '.',
        ]) || (i == 0 && (cs[i] == seq!['/'] || cs[i] == seq!['.'])) by {
            if i > 0 {
                assert(cs[i] == names[i - 1]);
                counted_are_names(pieces(s));
            }
        }
    }
}

/// Nothing stands before the first separator of a rooted path.
proof fn first_piece_of_rooted(s: Seq<char>)
    requires
        is_absolute(s),
    ensures
        pieces(s).len() > 1,
        pieces(s)[0].len() == 0,
    decreases s.len(),
{
    let front = s.drop_last();
    if s.len() == 1 {
        reveal_with_fuel(pieces, 3);
    } else {
        assert(front[0] == s[0]);
        first_piece_of_rooted(front);
    }
}

/// A path that is spelled from components has them.
pub proof fn a_spelled_path_has_its_components(cs: Seq<Seq<char>>)
    requires
        proper(cs),
    ensures
        components(path_text(cs)) == cs,
        path_text(cs).len() == 0 <==> cs.len() == 0,
    decreases cs.len(),
{
    the_root_is_one_component();
    if cs.len() == 0 {
        assert(cs =~= Seq::<Seq<char>>::empty());
    } else {
        let front = cs.drop_last();
        assert forall|i: int| 0 <= i < front.len() implies (is_name(#[trigger] front[i])
            && front[i] != seq!['.']) || (i == 0 && (front[i] == seq!['/'] || front[i] == seq![
            '.',
        ])) by {
            assert(front[i] == cs[i]);
        }
        a_spelled_path_has_its_components(front);
        let last = cs[cs.len() - 1];
        assert(last == cs.last());
        if last == seq!['/'] {
            assert(cs.len() == 1);
            assert(is_absolute(last));
            assert(cs =~= seq![last]);
        } else {
            if last == seq!['.'] {
                assert(is_name(last));
                assert(cs.len() == 1);
            }
            a_joined_name_is_one_more_component(path_text(front), last);
            assert(front.push(last) =~= cs);
            assert(last.len() > 0);
        }
    }
}

/// Where a path ends in a name, the path that holds it is the one that the name
/// was joined to, and the name is its file name.
pub proof fn a_joined_name_is_taken_off_again(base: Seq<char>, name: Seq<char>)
    requires
        is_name(name),
        name != seq!['.'],
    ensures
        parent_text(join_text(base, name)) is Some,
        components(parent_text(join_text(base, name))->0) == components(base),
        name != seq!['.', '.'] ==> file_name_text(join_text(base, name)) == Some(name),
{
    a_joined_name_is_one_more_component(base, name);
    components_are_proper(base);
    a_spelled_path_has_its_components(components(base));
    let cs = components(base).push(name);
    assert(cs.drop_last() =~= components(base));
    assert(name[0] != '/');
    if cs == seq![seq!['/']] {
        assert(cs[0] == name);
    }
}

/// The path that holds another has all its components but the last. Only a path
/// without components, and the root, are held by none.
pub proof fn a_parent_has_all_but_the_last(s: Seq<char>)
    ensures
        parent_text(s) is None <==> components(s).len() == 0 || components(s) == seq![seq!['/']],
        parent_text(s) matches Some(dir) ==> components(dir) == components(s).drop_last()
            && is_under(s, dir),
{
    components_are_proper(s);
    let cs = components(s);
    if parent_text(s) is Some {
        let front = cs.drop_last();
        assert forall|i: int| 0 <= i < front.len() implies (is_name(#[trigger] front[i])
            && front[i] != seq!['.']) || (i == 0 && (front[i] == seq!['/'] || front[i] == seq![
            '.',
        ])) by {
            assert(front[i] == cs[i]);
        }
        a_spelled_path_has_its_components(front);
        assert(front =~= cs.subrange(0, front.len() as int));
    }
}

/// A path lies under another where names can be added to the other to get it,
/// and nowhere else. So `/work` holds `/work/a` and not `/workshop`.
pub proof fn under_means_names_were_added(path: Seq<char>, base: Seq<char>)
    ensures
        is_under(path, base) <==> exists|names: Seq<Seq<char>>| #[trigger]
            (components(base) + names) == components(path),
        is_under(path, path),
{
    let n = components(base).len() as int;
    if is_under(path, base) {
        let names = components(path).skip(n);
        assert(components(base) + names =~= components(path));
    }
    if exists|names: Seq<Seq<char>>| #[trigger] (components(base) + names) == components(path) {
        let names = choose|names: Seq<Seq<char>>| #[trigger]
            (components(base) + names) == components(path);
        assert(components(base) =~= components(path).subrange(0, n));
    }
    assert(components(path) =~= components(path).subrange(0, components(path).len() as int));
}

/// The components below a path are what has to be added to it. Only from
/// nothing at all a root is not counted.
pub proof fn what_is_below_completes_the_path(path: Seq<char>, base: Seq<char>)
    requires
        is_under(path, base),
    ensures
        components(base).len() > 0 || !is_absolute(path) ==> components(base) + below(path, base)
            == components(path),
        components(relative_text(path, base)) == below(path, base),
{
    components_are_proper(path);
    components_are_names(path);
    let cs = components(path);
    let n = components(base).len() as int;
    let rest = cs.skip(n);
    let names = below(path, base);
    assert(components(base) + rest =~= cs);
    let off: int = if rest.len() > 0 && rest[0] == seq!['/'] {
        n + 1
    } else {
        n
    };
    if rest.len() > 0 && rest[0] == seq!['/'] {
        assert(cs[n] == seq!['/']);
        if n > 0 {
            assert(is_name(cs[n]));
            assert(cs[n][0] == '/');
        } else if !is_absolute(path) {
            assert(is_name(cs[0]));
            assert(cs[0][0] == '/');
        }
    }
    assert forall|i: int| 0 <= i < names.len() implies (is_name(#[trigger] names[i]) && names[i]
        != seq!['.']) || (i == 0 && (names[i] == seq!['/'] || names[i] == seq!['.'])) by {
        assert(names[i] == cs[off + i]);
    }
    a_spelled_path_has_its_components(names);
}

/// Two paths share a key exactly if they have the same components: whatever
/// their spelling, one file has one key and two files have two.
pub proof fn one_key_for_one_file(a: Seq<char>, b: Seq<char>)
    requires
        forall|i: int| 0 <= i < a.len() ==> #[trigger] a[i] != '\u{0}',
        forall|i: int| 0 <= i < b.len() ==> #[trigger] b[i] != '\u{0}',
    ensures
        path_key_text(a) == path_key_text(b) <==> components(a) == components(b),
{
    nul_free_components(a);
    nul_free_components(b);
    if path_key_text(a) == path_key_text(b) {
        a_key_stands_for_its_components(components(a), components(b));
    }
}

proof fn nul_free_pieces(s: Seq<char>)
    requires
        forall|i: int| 0 <= i < s.len() ==> #[trigger] s[i] != '\u{0}',
    ensures
        nul_free(pieces(s)),
    decreases s.len(),
{
    if s.len() > 0 {
        let front = s.drop_last();
        assert forall|i: int| 0 <= i < front.len() implies #[trigger] front[i] != '\u{0}' by {
            assert(front[i] == s[i]);
        }
        nul_free_pieces(front);
        pieces_hold_no_separator(front);
        let before = pieces(front);
        let ps = pieces(s);
        assert(s[s.len() - 1] != '\u{0}');
        assert forall|i: int, j: int|
            0 <= i < ps.len() && 0 <= j < ps[i].len() implies #[trigger] ps[i][j] != '\u{0}' by {
            if s.last() == '/' {
                assert(i < before.len() ==> ps[i] == before[i]);
                if i < before.len() {
                    assert(before[i][j] != '\u{0}');
                }
            } else if i < before.len() - 1 {
                assert(ps[i] == before[i]);
                assert(before[i][j] != '\u{0}');
            } else {
                assert(ps[i] == before.last().push(s.last()));
                if j < before.last().len() {
                    assert(before[before.len() - 1][j] != '\u{0}');
                }
            }
        }
    }
}

proof fn nul_free_counted(ps: Seq<Seq<char>>)
    requires
        nul_free(ps),
    ensures
        nul_free(counted(ps)),
    decreases ps.len(),
{
    if ps.len() > 0 {
        let front = ps.drop_last();
        assert forall|i: int, j: int|
            0 <= i < front.len() && 0 <= j < front[i].len() implies #[trigger] front[i][j]
            != '\u{0}' by {
            assert(ps[i][j] != '\u{0}');
        }
        nul_free_counted(front);
        let before = counted(front);
        let all = counted(ps);
        assert forall|i: int, j: int|
            0 <= i < all.len() && 0 <= j < all[i].len() implies #[trigger] all[i][j] != '\u{0}' by {
            if i < before.len() {
                assert(before[i][j] != '\u{0}');
            } else {
                assert(ps[ps.len() - 1][j] != '\u{0}');
            }
        }
    }
}

proof fn nul_free_components(s: Seq<char>)
    requires
        forall|i: int| 0 <= i < s.len() ==> #[trigger] s[i] != '\u{0}',
    ensures
        nul_free(components(s)),
{
    nul_free_pieces(s);
    nul_free_counted(pieces(s));
    let cs = components(s);
    let names = counted(pieces(s));
    assert forall|i: int, j: int|
        0 <= i < cs.len() && 0 <= j < cs[i].len() implies #[trigger] cs[i][j] != '\u{0}' by {
        if is_absolute(s) {
            if i > 0 {
                assert(cs[i] == names[i - 1]);
                assert(names[i - 1][j] != '\u{0}');
            }
        } else {
            assert(names[i][j] != '\u{0}');
        }
    }
}

/// A rooted name stands for itself, wherever it is taken from. Any other is
/// spelled behind its base, with one separator between them unless the base
/// ends in one or is empty.
pub proof fn a_rooted_name_stands_for_itself(base: Seq<char>, name: Seq<char>)
    ensures
        name.len() > 0 && name[0] == '/' ==> join_text(base, name) == name,
        name.len() == 0 || name[0] != '/' ==> ({
            let whole = join_text(base, name);
            &&& whole.take(base.len() as int) == base
            &&& whole.skip(whole.len() - name.len()) == name
            &&& base.len() == 0 || base.last() == '/' ==> whole.len() == base.len() + name.len()
            &&& base.len() > 0 && base.last() != '/' ==> whole.len() == base.len() + 1
                + name.len() && whole[base.len() as int] == '/'
        }),
{
    let whole = join_text(base, name);
    if name.len() == 0 || name[0] != '/' {
        assert(whole.take(base.len() as int) =~= base);
        assert(whole.skip(whole.len() - name.len()) =~= name);
    }
}

/// A component that is a name, not the root, a dot or two dots.
pub open spec fn is_ordinary(c: Seq<char>) -> bool {
    c != seq!['/'] && c != seq!['.'] && c != seq!['.', '.']
}

/// One component goes before another: the root first, then a dot, then two
/// dots, then names by their characters.
pub open spec fn component_goes_first(x: Seq<char>, y: Seq<char>) -> bool {
    ||| x == seq!['/'] && y != seq!['/']
    ||| x == seq!['.'] && (y == seq!['.', '.'] || is_ordinary(y))
    ||| x == seq!['.', '.'] && is_ordinary(y)
    ||| is_ordinary(x) && is_ordinary(y) && lex_lt(x, y)
}

/// Paths go component by component: of two that are alike up to some place, the
/// one that ends there, or whose component there goes first, comes first.
pub proof fn paths_go_component_by_component(a: Seq<char>, b: Seq<char>, k: int)
    requires
        forall|i: int| 0 <= i < a.len() ==> #[trigger] a[i] != '\u{0}',
        forall|i: int| 0 <= i < b.len() ==> #[trigger] b[i] != '\u{0}',
        0 <= k <= components(a).len(),
        k < components(b).len(),
        components(a).take(k) == components(b).take(k),
        k == components(a).len() || component_goes_first(components(a)[k], components(b)[k]),
    ensures
        lex_lt(path_key_text(a), path_key_text(b)),
{
    let ca = components(a);
    let cb = components(b);
    nul_free_components(a);
    nul_free_components(b);
    order_text_splits(ca, k);
    order_text_splits(cb, k);
    let front = order_text(ca.take(k));
    let ra = ca.skip(k);
    let rb = cb.skip(k);
    order_text_starts(rb);
    a_common_beginning_does_not_decide(front, order_text(ra), order_text(rb));
    assert(rb[0] == cb[k]);
    if k < ca.len() {
        order_text_starts(ra);
        let x = ca[k];
        let y = cb[k];
        assert(ra[0] == x);
        let ta = order_text(ra);
        let tb = order_text(rb);
        assert(seq!['/'].len() == 1 && seq!['.'].len() == 1 && seq!['.', '.'].len() == 2);
        assert(seq!['/'][0] == '/' && seq!['.'][0] == '.');
        assert(ta[0] == component_mark(x));
        assert(tb[0] == component_mark(y));
        if is_ordinary(x) && is_ordinary(y) {
            let xs = order_text(ra.drop_first());
            let ys = order_text(rb.drop_first());
            assert forall|j: int| 0 <= j < y.len() implies #[trigger] y[j] != '\u{0}' by {
                assert(cb[k][j] != '\u{0}');
            }
            a_lesser_name_stays_lesser(x, y, xs, ys);
            let mark = seq![component_mark(x)];
            assert(ta =~= mark + (x + seq!['\u{0}'] + xs));
            assert(tb =~= mark + (y + seq!['\u{0}'] + ys));
            a_common_beginning_does_not_decide(
                mark,
                x + seq!['\u{0}'] + xs,
                y + seq!['\u{0}'] + ys,
            );
        }
    }
}

proof fn a_character_is_above_nul(c: char)
    requires
        c != '\u{0}',
    ensures
        c as int > '\u{0}' as int,
{
    assert(c as u32 >= 0);
    if c as u32 == 0 {
        assert(c == '\u{0}');
    }
}

proof fn a_lesser_name_stays_lesser(x: Seq<char>, y: Seq<char>, xs: Seq<char>, ys: Seq<char>)
    requires
        lex_lt(x, y),
        forall|j: int| 0 <= j < y.len() ==> #[trigger] y[j] != '\u{0}',
    ensures
        lex_lt(x + seq!['\u{0}'] + xs, y + seq!['\u{0}'] + ys),
    decreases x.len(),
{
    let a = x + seq!['\u{0}'] + xs;
    let b = y + seq!['\u{0}'] + ys;
    assert(b[0] == y[0]);
    if x.len() == 0 {
        assert(a[0] == '\u{0}');
        assert(y[0] != '\u{0}');
        a_character_is_above_nul(y[0]);
    } else {
        assert(a[0] == x[0]);
        if x[0] == y[0] {
            let less = y.drop_first();
            assert forall|j: int| 0 <= j < less.len() implies #[trigger] less[j] != '\u{0}' by {
                assert(less[j] == y[j + 1]);
            }
            a_lesser_name_stays_lesser(x.drop_first(), less, xs, ys);
            assert(a.drop_first() =~= x.drop_first() + seq!['\u{0}'] + xs);
            assert(b.drop_first() =~= less + seq!['\u{0}'] + ys);
        }
    }
}

proof fn order_text_splits(cs: Seq<Seq<char>>, k: int)
    requires
        0 <= k <= cs.len(),
    ensures
        order_text(cs) == order_text(cs.take(k)) + order_text(cs.skip(k)),
    decreases cs.len(),
{
    if k == cs.len() {
        assert(cs.take(k) =~= cs);
        assert(order_text(cs.skip(k)) =~= Seq::<char>::empty());
        assert(order_text(cs) =~= order_text(cs.take(k)) + order_text(cs.skip(k)));
    } else {
        let front = cs.drop_last();
        order_text_splits(front, k);
        assert(front.take(k) =~= cs.take(k));
        assert(cs.skip(k).drop_last() =~= front.skip(k));
        assert(cs.skip(k).last() == cs.last());
        assert(order_text(cs) =~= order_text(cs.take(k)) + order_text(cs.skip(k)));
    }
}

proof fn order_text_starts(cs: Seq<Seq<char>>)
    requires
        cs.len() > 0,
    ensures
        order_text(cs) == seq![component_mark(cs[0])] + cs[0] + seq!['\u{0}'] + order_text(
            cs.drop_first(),
        ),
{
    order_text_splits(cs, 1);
    let one = cs.take(1);
    assert(one.drop_last() =~= Seq::<Seq<char>>::empty());
    assert(one.last() == cs[0]);
    assert(order_text(Seq::<Seq<char>>::empty()) =~= Seq::<char>::empty());
    assert(order_text(one) =~= seq![component_mark(cs[0])] + cs[0] + seq!['\u{0}']);
    assert(cs.skip(1) =~= cs.drop_first());
}

} // verus!
