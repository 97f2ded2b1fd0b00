//! The snapshot ignore file: what it excludes is invisible to snapshots, in
//! both directions.
//!
//! The file has the syntax of a gitignore file, and is matched by the `ignore`
//! crate. It is deliberately separate from `.gitignore`: the history of a
//! session may track files that git ignores.

use vstd::prelude::*;
use vstd::utf8::{decode_utf8, valid_utf8};

use crate::paths::{
    below, components, components_are_names, is_absolute, is_name, is_under, path_text, relative_text, relative_text_is_not_rooted, relative_to, texts,
};
use crate::text::{chars_of, string_of};

verus! {

/// The name of the snapshot ignore file.
pub const SNAPSHOT_IGNORE_FILENAME: &'static str = ".codexsnapignore";

/// `ignore::gitignore::GitignoreBuilder`, a list of rules in the making.
#[verifier::external_type_specification]
#[verifier::external_body]
pub struct ExGitignoreBuilder(ignore::gitignore::GitignoreBuilder);

/// `ignore::gitignore::Gitignore`, a compiled list of rules.
#[verifier::external_type_specification]
#[verifier::external_body]
pub struct ExGitignore(ignore::gitignore::Gitignore);

/// The lines that have been added to a builder, in order.
pub uninterp spec fn builder_lines(
    builder: ignore::gitignore::GitignoreBuilder,
) -> Seq<Seq<char>>;

/// The lines that a compiled list was made from, in order.
pub uninterp spec fn matcher_lines(matcher: ignore::gitignore::Gitignore) -> Seq<Seq<char>>;

/// The builder is for the directory `.`, and its options are those of a new one.
pub uninterp spec fn builder_is_here(builder: ignore::gitignore::GitignoreBuilder) -> bool;

/// The list was compiled by such a builder, or holds no rule at all. It takes
/// nothing off the front of a path but `./`.
pub uninterp spec fn matcher_is_here(matcher: ignore::gitignore::Gitignore) -> bool;

/// Whether a list of lines, compiled for its own directory, ignores the file at
/// a path that is spelled from that directory.
pub uninterp spec fn lines_ignore(lines: Seq<Seq<char>>, path: Seq<char>) -> bool;

/// `GitignoreBuilder::new`, for the directory `.`: a builder without lines.
#[verifier::external_body]
fn new_builder() -> (r: ignore::gitignore::GitignoreBuilder)
    ensures
        builder_lines(r) == Seq::<Seq<char>>::empty(),
        builder_is_here(r),
{
    ignore::gitignore::GitignoreBuilder::new(".")
}

/// `GitignoreBuilder::add_line`: one more line. A line that is no rule, or that
/// is not a valid one, counts as a line like any other; it adds no rule. The
/// directory of the builder stays, and so do its options.
#[verifier::external_body]
fn add_line(builder: &mut ignore::gitignore::GitignoreBuilder, line: &str)
    ensures
        builder_lines(*final(builder)) == builder_lines(*old(builder)).push(line@),
        builder_is_here(*final(builder)) == builder_is_here(*old(builder)),
{
    let _ = builder.add_line(None, line);
}

/// `GitignoreBuilder::build`: compiles the lines that have been added, for the
/// directory of the builder. That works out where there is none. Otherwise
/// there is a limit on the memory that the compiled rules take, which is not
/// the same on every machine, so nothing is said of which lines are over it.
#[verifier::external_body]
fn build(builder: &ignore::gitignore::GitignoreBuilder) -> (r: Option<ignore::gitignore::Gitignore>)
    ensures
        r matches Some(m) ==> matcher_lines(m) == builder_lines(*builder),
        r matches Some(m) ==> builder_is_here(*builder) ==> matcher_is_here(m),
        builder_lines(*builder).len() == 0 ==> r is Some,
{
    builder.build().ok()
}

/// `Gitignore::empty`: the compiled list without lines.
#[verifier::external_body]
fn no_rules() -> (r: ignore::gitignore::Gitignore)
    ensures
        matcher_lines(r) == Seq::<Seq<char>>::empty(),
        matcher_is_here(r),
{
    ignore::gitignore::Gitignore::empty()
}

/// `Gitignore::matched_path_or_any_parents`, for a path that is not a
/// directory: whether the path, or a directory above it, matches a rule that
/// ignores it. Without lines nothing is ignored. With a list for the directory
/// `.` it panics where the path is rooted once a `./` in front has been taken
/// off; with a list for another directory it takes more off, and neither the
/// lines nor that condition would tell what it does.
#[verifier::external_body]
fn matches_ignore(matcher: &ignore::gitignore::Gitignore, path: &str) -> (r: bool)
    requires
        matcher_is_here(*matcher),
        !is_absolute(path@),
        !(path@.len() > 2 && path@[0] == '.' && path@[1] == '/' && path@[2] == '/'),
    ensures
        r == lines_ignore(matcher_lines(*matcher), path@),
        matcher_lines(*matcher).len() == 0 ==> !r,
{
    matcher.matched_path_or_any_parents(path, false).is_ignore()
}

/// `String::from_utf8`: the text that the bytes encode, if they are valid
/// UTF-8.
#[verifier::external_body]
pub(crate) fn text_of(bytes: Vec<u8>) -> (r: Option<String>)
    ensures
        r is Some <==> valid_utf8(bytes@),
        r matches Some(s) ==> s@ == decode_utf8(bytes@),
{
    String::from_utf8(bytes).ok()
}

/// Where the first line of `bytes` ends: at a newline, or at the end.
pub open spec fn line_end(bytes: Seq<u8>) -> int
    decreases bytes.len(),
{
    if bytes.len() == 0 || bytes[0] == 10 {
        0
    } else {
        1 + line_end(bytes.drop_first())
    }
}

/// The first line of `bytes`, without the newline and the return before it.
pub open spec fn first_line(bytes: Seq<u8>) -> Seq<u8> {
    let n = line_end(bytes);
    if 0 < n < bytes.len() && bytes[n - 1] == 13 {
        bytes.take(n - 1)
    } else {
        bytes.take(n)
    }
}

/// What follows the first line of `bytes`.
pub open spec fn after_line(bytes: Seq<u8>) -> Seq<u8> {
    if line_end(bytes) < bytes.len() {
        bytes.skip(line_end(bytes) + 1)
    } else {
        Seq::empty()
    }
}

/// The lines of a file, up to the first that is not text.
pub open spec fn text_lines(bytes: Seq<u8>) -> Seq<Seq<char>>
    decreases bytes.len(),
    via text_lines_end
{
    if bytes.len() == 0 || !valid_utf8(first_line(bytes)) {
        Seq::empty()
    } else {
        seq![decode_utf8(first_line(bytes))] + text_lines(after_line(bytes))
    }
}

#[via_fn]
proof fn text_lines_end(bytes: Seq<u8>) {
    line_end_is_inside(bytes);
}

/// Text without the byte order marks in front.
pub open spec fn unmarked(s: Seq<char>) -> Seq<char>
    decreases s.len(),
{
    if s.len() > 0 && s[0] == '\u{feff}' {
        unmarked(s.drop_first())
    } else {
        s
    }
}

/// The lines of an ignore file; none where there is no file.
pub open spec fn rule_lines(content: Option<Seq<u8>>) -> Seq<Seq<char>> {
    match content {
        None => Seq::empty(),
        Some(bytes) => {
            let lines = text_lines(bytes);
            if lines.len() == 0 {
                lines
            } else {
                lines.update(0, unmarked(lines[0]))
            }
        },
    }
}

proof fn line_end_is_inside(bytes: Seq<u8>)
    ensures
        0 <= line_end(bytes) <= bytes.len(),
        line_end(bytes) < bytes.len() ==> bytes[line_end(bytes)] == 10,
        forall|i: int| 0 <= i < line_end(bytes) ==> #[trigger] bytes[i] != 10,
    decreases bytes.len(),
{
    if bytes.len() > 0 && bytes[0] != 10 {
        line_end_is_inside(bytes.drop_first());
        let n = line_end(bytes);
        assert(n < bytes.len() ==> bytes[n] == bytes.drop_first()[n - 1]);
        assert forall|i: int| 0 <= i < n implies #[trigger] bytes[i] != 10 by {
            if i > 0 {
                assert(bytes.drop_first()[i - 1] == bytes[i]);
            }
        }
    }
}

/// The first newline is where the first line ends.
proof fn line_ends_at(bytes: Seq<u8>, n: int)
    requires
        0 <= n <= bytes.len(),
        n < bytes.len() ==> bytes[n] == 10,
        forall|i: int| 0 <= i < n ==> #[trigger] bytes[i] != 10,
    ensures
        line_end(bytes) == n,
{
    line_end_is_inside(bytes);
    let m = line_end(bytes);
    if m < n {
        assert(bytes[m] != 10);
    }
}

/// Part of some bytes.
fn part(bytes: &[u8], from: usize, to: usize) -> (r: Vec<u8>)
    requires
        from <= to <= bytes@.len(),
    ensures
        r@ == bytes@.subrange(from as int, to as int),
{
    let mut r: Vec<u8> = Vec::new();
    for i in from..to
        invariant
            from <= i <= to <= bytes@.len(),
            r@ == bytes@.subrange(from as int, i as int),
    {
        r.push(bytes[i]);
        assert(r@ =~= bytes@.subrange(from as int, i + 1));
    }
    r
}

/// The lines of a file, up to the first that is not text.
fn lines_of(bytes: &[u8]) -> (r: Vec<String>)
    ensures
        texts(r@) == text_lines(bytes@),
{
    let mut out: Vec<String> = Vec::new();
    let mut at: usize = 0;
    assert(bytes@.skip(0) =~= bytes@);
    assert(texts(out@) + text_lines(bytes@) =~= text_lines(bytes@));
    while at < bytes.len()
        invariant
            at <= bytes@.len(),
            texts(out@) + text_lines(bytes@.skip(at as int)) == text_lines(bytes@),
        decreases bytes@.len() - at,
    {
        let ghost rest = bytes@.skip(at as int);
        let mut end: usize = at;
        while end < bytes.len() && bytes[end] != 10
            invariant
                at <= end <= bytes@.len(),
                forall|i: int| at <= i < end ==> #[trigger] bytes@[i] != 10,
            decreases bytes@.len() - end,
        {
            end = end + 1;
        }
        proof {
            assert forall|i: int| 0 <= i < end - at implies #[trigger] rest[i] != 10 by {
                assert(rest[i] == bytes@[at + i]);
            }
            line_ends_at(rest, end - at);
        }
        let to: usize = if at < end && end < bytes.len() && bytes[end - 1] == 13 {
            end - 1
        } else {
            end
        };
        let line = part(bytes, at, to);
        assert(line@ =~= first_line(rest));
        let next: usize = if end < bytes.len() {
            end + 1
        } else {
            end
        };
        assert(bytes@.skip(next as int) =~= after_line(rest));
        match text_of(line) {
            None => {
                assert(text_lines(rest) =~= Seq::<Seq<char>>::empty());
                assert(texts(out@) + text_lines(rest) =~= texts(out@));
                return out;
            },
            Some(text) => {
                let ghost was = texts(out@);
                out.push(text);
                at = next;
                proof {
                    assert(texts(out@) =~= was.push(decode_utf8(first_line(rest))));
                    assert(texts(out@) + text_lines(after_line(rest)) =~= was + text_lines(rest));
                }
            },
        }
    }
    assert(bytes@.skip(at as int) =~= Seq::<u8>::empty());
    assert(texts(out@) + text_lines(bytes@.skip(at as int)) =~= texts(out@));
    out
}

/// Text without the byte order marks in front.
fn without_marks(s: &str) -> (r: String)
    ensures
        r@ == unmarked(s@),
{
    let chars = chars_of(s);
    let mut from: usize = 0;
    assert(s@.skip(0) =~= s@);
    while from < chars.len() && chars[from] == '\u{feff}'
        invariant
            chars@ == s@,
            from <= chars@.len(),
            unmarked(s@.skip(from as int)) == unmarked(s@),
        decreases chars@.len() - from,
    {
        assert(s@.skip(from as int).drop_first() =~= s@.skip(from + 1));
        from = from + 1;
    }
    let mut kept: Vec<char> = Vec::new();
    let ghost start = from as int;
    for i in from..chars.len()
        invariant
            start == from,
            from <= i <= chars@.len(),
            chars@ == s@,
            kept@ == chars@.subrange(start, i as int),
    {
        kept.push(chars[i]);
        assert(kept@ =~= chars@.subrange(start, i + 1));
    }
    assert(kept@ =~= s@.skip(start));
    string_of(&kept)
}

/// The lines of an ignore file; none where there is no file.
pub fn ignore_lines(content: Option<&[u8]>) -> (r: Vec<String>)
    ensures
        texts(r@) == rule_lines(
            match content {
                Some(bytes) => Some(bytes@),
                None => None,
            },
        ),
{
    match content {
        None => {
            let r: Vec<String> = Vec::new();
            assert(texts(r@) =~= Seq::<Seq<char>>::empty());
            r
        },
        Some(bytes) => {
            let mut lines = lines_of(bytes);
            let ghost was = texts(lines@);
            if lines.len() > 0 {
                let first = without_marks(lines[0].as_str());
                lines.set(0, first);
                assert(texts(lines@) =~= was.update(0, unmarked(was[0])));
            }
            lines
        },
    }
}

/// A compiled list of rules, for paths that are spelled from the directory of
/// the list.
pub struct Matcher {
    list: ignore::gitignore::Gitignore,
}

impl Matcher {
    #[verifier::type_invariant]
    spec fn well_formed(self) -> bool {
        matcher_is_here(self.list)
    }

    /// The lines that the list was made from.
    pub closed spec fn lines(self) -> Seq<Seq<char>> {
        matcher_lines(self.list)
    }

    /// The list without rules.
    pub fn empty() -> (r: Self)
        ensures
            r.lines() == Seq::<Seq<char>>::empty(),
    {
        Matcher { list: no_rules() }
    }

    /// Whether the list ignores the file at a path that is spelled from its
    /// directory.
    fn ignores(&self, path: &str) -> (r: bool)
        requires
            !is_absolute(path@),
            !(path@.len() > 2 && path@[0] == '.' && path@[1] == '/' && path@[2] == '/'),
        ensures
            r == (self.lines().len() > 0 && lines_ignore(self.lines(), path@)),
    {
        proof {
            use_type_invariant(self);
        }
        matches_ignore(&self.list, path)
    }
}

/// A list of rules in the making, with these lines.
pub fn builder_of(lines: &Vec<String>) -> (r: ignore::gitignore::GitignoreBuilder)
    ensures
        builder_lines(r) == texts(lines@),
        builder_is_here(r),
{
    let mut builder = new_builder();
    let ghost all = texts(lines@);
    assert(all.take(0) =~= Seq::<Seq<char>>::empty());
    for i in 0..lines.len()
        invariant
            all == texts(lines@),
            builder_lines(builder) == all.take(i as int),
            builder_is_here(builder),
    {
        add_line(&mut builder, lines[i].as_str());
        assert(all.take(i + 1) =~= all.take(i as int).push(all[i as int]));
    }
    assert(all.take(lines@.len() as int) =~= all);
    builder
}

/// `list` is what the builder gave when it was asked to compile its lines: a
/// list, or none.
pub closed spec fn given_by(
    builder: ignore::gitignore::GitignoreBuilder,
    list: Option<Matcher>,
) -> bool {
    exists|b: Option<ignore::gitignore::Gitignore>| #[trigger]
        call_ensures(build, (&builder,), b) && b == match list {
            Some(m) => Some(m.list),
            None => None,
        }
}

/// Compiles a list of rules. Where that does not work out there is no list; an
/// empty one always works out.
pub fn compile(builder: &ignore::gitignore::GitignoreBuilder) -> (r: Option<Matcher>)
    requires
        builder_is_here(*builder),
    ensures
        r matches Some(m) ==> m.lines() == builder_lines(*builder),
        builder_lines(*builder).len() == 0 ==> r is Some,
        given_by(*builder, r),
{
    let b = build(builder);
    assert(call_ensures(build, (builder,), b));
    match b {
        Some(list) => Some(Matcher { list }),
        None => None,
    }
}

/// The ignore rules of a directory.
pub struct IgnoreRules {
    root: String,
    matcher: Matcher,
}

/// What some ignore rules say of a path. A path that is not under the
/// directory of the rules is not theirs to ignore.
pub open spec fn ignores(root: Seq<char>, lines: Seq<Seq<char>>, path: Seq<char>) -> bool {
    is_under(path, root) && lines.len() > 0 && lines_ignore(lines, relative_text(path, root))
}

/// The lines of a list, if there is one. Lines that could not be compiled
/// degrade to no rules at all.
pub open spec fn lines_if(built: Option<Matcher>) -> Seq<Seq<char>> {
    match built {
        Some(m) => m.lines(),
        None => Seq::empty(),
    }
}

/// The lines in force are what compiling exactly the given ones came to: all
/// of them, or none where they could not be compiled.
pub open spec fn compiled_from(lines: Seq<Seq<char>>, in_force: Seq<Seq<char>>) -> bool {
    exists|builder: ignore::gitignore::GitignoreBuilder, built: Option<Matcher>|
        builder_lines(builder) == lines && builder_is_here(builder) && #[trigger] call_ensures(
            compile,
            (&builder,),
            built,
        ) && in_force == lines_if(built)
}

/// The lines in force are all of those that were compiled, or none.
pub proof fn rules_are_in_force_together(lines: Seq<Seq<char>>, in_force: Seq<Seq<char>>)
    requires
        compiled_from(lines, in_force),
    ensures
        in_force == lines || in_force == Seq::<Seq<char>>::empty(),
{
}

impl IgnoreRules {
    /// The directory of the rules.
    pub closed spec fn root(self) -> Seq<char> {
        self.root@
    }

    /// The lines that are in force.
    pub closed spec fn lines(self) -> Seq<Seq<char>> {
        self.matcher.lines()
    }

    /// The rules ignore `path`.
    pub open spec fn ignore(self, path: Seq<char>) -> bool {
        ignores(self.root(), self.lines(), path)
    }
}

/// The rules that were compiled. Lines that could not be compiled degrade to
/// no rules at all: a checkpoint does not fail for them, and restores stay
/// conservative either way.
pub fn rules_if_built(root: &str, built: Option<Matcher>) -> (r: IgnoreRules)
    ensures
        r.root() == root@,
        r.lines() == lines_if(built),
{
    let matcher = match built {
        Some(m) => m,
        None => Matcher::empty(),
    };
    IgnoreRules { root: root.to_owned(), matcher }
}

/// The rules with these lines.
pub fn compile_rules(root: &str, lines: &Vec<String>) -> (r: IgnoreRules)
    ensures
        r.root() == root@,
        compiled_from(texts(lines@), r.lines()),
{
    let builder = builder_of(lines);
    let built = compile(&builder);
    assert(call_ensures(compile, (&builder,), built));
    rules_if_built(root, built)
}

/// The rules of the ignore file of `root`, whose content is given. A missing
/// file yields no rules.
pub fn load_ignore(root: &str, content: Option<&[u8]>) -> (r: IgnoreRules)
    ensures
        r.root() == root@,
        compiled_from(
            rule_lines(
                match content {
                    Some(bytes) => Some(bytes@),
                    None => None,
                },
            ),
            r.lines(),
        ),
{
    let lines = ignore_lines(content);
    compile_rules(root, &lines)
}

/// Symmetric protection: is `path` invisible to snapshots?
pub fn is_ignored(rules: &IgnoreRules, path: &str) -> (r: bool)
    ensures
        r == rules.ignore(path@),
{
    match relative_to(path, rules.root.as_str()) {
        None => false,
        Some(rel) => {
            proof {
                relative_text_is_not_rooted(path@, rules.root@);
            }
            rules.matcher.ignores(rel.as_str())
        },
    }
}

/// Whether any of several sets of rules ignores `path`.
pub open spec fn any_ignore(rules: Seq<IgnoreRules>, path: Seq<char>) -> bool {
    exists|i: int| 0 <= i < rules.len() && (#[trigger] rules[i]).ignore(path)
}

/// Whether any of several sets of rules ignores `path`.
pub fn is_ignored_by_any(rules: &Vec<IgnoreRules>, path: &str) -> (r: bool)
    ensures
        r == any_ignore(rules@, path@),
{
    for i in 0..rules.len()
        invariant
            forall|j: int| 0 <= j < i ==> !(#[trigger] rules@[j]).ignore(path@),
    {
        if is_ignored(&rules[i], path) {
            return true;
        }
    }
    false
}

/// Rules say nothing of what is not under their directory.
pub proof fn rules_stop_at_their_directory(root: Seq<char>, lines: Seq<Seq<char>>, path: Seq<char>)
    requires
        !is_under(path, root),
    ensures
        !ignores(root, lines, path),
{
}

/// A directory without an ignore file ignores nothing.
pub proof fn no_file_ignores_nothing(root: Seq<char>, in_force: Seq<Seq<char>>, path: Seq<char>)
    requires
        compiled_from(rule_lines(None), in_force),
    ensures
        !ignores(root, in_force, path),
{
    rules_are_in_force_together(rule_lines(None), in_force);
}

/// Nothing in `bytes` ends a line.
pub open spec fn is_one_line(bytes: Seq<u8>) -> bool {
    forall|i: int| 0 <= i < bytes.len() ==> #[trigger] bytes[i] != 10
}

/// A file is read line by line. What stands before a newline is a line, without
/// the return that may stand before the newline; what follows is read in the
/// same way. A line that is not text ends the reading.
pub proof fn a_file_is_read_line_by_line(line: Seq<u8>, rest: Seq<u8>)
    requires
        is_one_line(line),
    ensures
        valid_utf8(line) && !(line.len() > 0 && line.last() == 13) ==> text_lines(
            line + seq![10u8] + rest,
        ) == seq![decode_utf8(line)] + text_lines(rest),
        valid_utf8(line) ==> text_lines(line + seq![13u8, 10u8] + rest) == seq![decode_utf8(line)]
            + text_lines(rest),
        !valid_utf8(line) && !(line.len() > 0 && line.last() == 13) ==> text_lines(
            line + seq![10u8] + rest,
        ) == Seq::<Seq<char>>::empty(),
        line.len() > 0 && valid_utf8(line) ==> text_lines(line) == seq![decode_utf8(line)],
        line.len() > 0 && !valid_utf8(line) ==> text_lines(line) == Seq::<Seq<char>>::empty(),
        text_lines(Seq::empty()) == Seq::<Seq<char>>::empty(),
{
    let n = line.len() as int;
    let a = line + seq![10u8] + rest;
    assert forall|i: int| 0 <= i < n implies #[trigger] a[i] != 10 by {
        assert(a[i] == line[i]);
    }
    line_ends_at(a, n);
    assert(a.take(n) =~= line);
    assert(a.skip(n + 1) =~= rest);
    if n > 0 {
        assert(a[n - 1] == line.last());
    }
    let b = line + seq![13u8, 10u8] + rest;
    assert forall|i: int| 0 <= i < n + 1 implies #[trigger] b[i] != 10 by {
        if i < n {
            assert(b[i] == line[i]);
        }
    }
    assert(b[n + 1] == 10);
    line_ends_at(b, n + 1);
    assert(b.take(n) =~= line);
    assert(b.skip(n + 2) =~= rest);
    if n > 0 {
        line_ends_at(line, n);
        assert(line.take(n) =~= line);
        assert(text_lines(after_line(line)) =~= Seq::<Seq<char>>::empty());
        assert(seq![decode_utf8(line)] + Seq::<Seq<char>>::empty() =~= seq![decode_utf8(line)]);
    }
}

/// The rules of a file are all its lines, but that the marks of byte order in
/// front of the first are left out. Without a file there are none.
pub proof fn the_rules_are_the_lines_of_the_file(bytes: Seq<u8>, i: int)
    ensures
        rule_lines(None) == Seq::<Seq<char>>::empty(),
        rule_lines(Some(bytes)).len() == text_lines(bytes).len(),
        0 < i < text_lines(bytes).len() ==> rule_lines(Some(bytes))[i] == text_lines(bytes)[i],
        text_lines(bytes).len() > 0 ==> {
            let first = text_lines(bytes)[0];
            let kept = rule_lines(Some(bytes))[0];
            &&& kept.len() == 0 || kept[0] != '\u{feff}'
            &&& exists|n: int|
                0 <= n <= first.len() && kept == #[trigger] first.skip(n) && forall|j: int|
                    0 <= j < n ==> #[trigger] first[j] == '\u{feff}'
        },
{
    if text_lines(bytes).len() > 0 {
        marks_are_taken_off(text_lines(bytes)[0]);
    }
}

proof fn marks_are_taken_off(s: Seq<char>)
    ensures
        unmarked(s).len() == 0 || unmarked(s)[0] != '\u{feff}',
        exists|n: int|
            0 <= n <= s.len() && unmarked(s) == #[trigger] s.skip(n) && forall|j: int|
                0 <= j < n ==> #[trigger] s[j] == '\u{feff}',
    decreases s.len(),
{
    if s.len() > 0 && s[0] == '\u{feff}' {
        let t = s.drop_first();
        marks_are_taken_off(t);
        let n = choose|n: int|
            0 <= n <= t.len() && unmarked(t) == #[trigger] t.skip(n) && forall|j: int|
                0 <= j < n ==> #[trigger] t[j] == '\u{feff}';
        assert(s.skip(n + 1) =~= t.skip(n));
        assert forall|j: int| 0 <= j < n + 1 implies #[trigger] s[j] == '\u{feff}' by {
            if j > 0 {
                assert(t[j - 1] == s[j]);
            }
        }
        assert(unmarked(s) == s.skip(n + 1));
    } else {
        assert(s.skip(0) =~= s);
    }
}

/// Rules judge a path by the names that lead to it from their directory: where
/// names are added to the directory, the path is ignored exactly if the lines
/// ignore it as spelled by these names.
pub proof fn rules_judge_by_the_names_below_their_directory(
    rules: IgnoreRules,
    path: Seq<char>,
    names: Seq<Seq<char>>,
)
    requires
        components(rules.root()).len() > 0,
        components(path) == components(rules.root()) + names,
    ensures
        rules.ignore(path) <==> rules.lines().len() > 0 && lines_ignore(
            rules.lines(),
            path_text(names),
        ),
{
    let root = rules.root();
    let n = components(root).len() as int;
    assert(components(root) =~= components(path).subrange(0, n));
    let rest = components(path).skip(n);
    assert(rest =~= names);
    components_are_names(path);
    if rest.len() > 0 {
        assert(rest[0] == components(path)[n]);
        assert(is_name(components(path)[n]));
        assert(rest[0][0] != '/');
    }
    assert(below(path, root) == names);
}

/// Where any root's rules ignore a path it is ignored, and nowhere else.
pub proof fn every_set_of_rules_counts(rules: Seq<IgnoreRules>, path: Seq<char>, i: int)
    ensures
        0 <= i < rules.len() && rules[i].ignore(path) ==> any_ignore(rules, path),
        any_ignore(rules, path) ==> exists|j: int|
            0 <= j < rules.len() && (#[trigger] rules[j]).ignore(path),
{
}

/// The lines in force are what some compiling of exactly these lines gave, and
/// a list that was given is in force with all its lines.
pub proof fn rules_in_force_were_compiled(lines: Seq<Seq<char>>, in_force: Seq<Seq<char>>)
    requires
        compiled_from(lines, in_force),
    ensures
        exists|builder: ignore::gitignore::GitignoreBuilder, built: Option<Matcher>|
            builder_lines(builder) == lines && #[trigger] call_ensures(
                compile,
                (&builder,),
                built,
            ) && (built matches Some(m) ==> in_force == m.lines()) && (built is None ==> in_force
                == Seq::<Seq<char>>::empty()),
        lines.len() == 0 ==> in_force.len() == 0,
{
    let (builder, built) = choose|
        builder: ignore::gitignore::GitignoreBuilder,
        built: Option<Matcher>,
    |
        builder_lines(builder) == lines && builder_is_here(builder) && #[trigger] call_ensures(
            compile,
            (&builder,),
            built,
        ) && in_force == lines_if(built);
    assert(call_ensures(compile, (&builder,), built));
    rules_are_in_force_together(lines, in_force);
}

} // verus!
