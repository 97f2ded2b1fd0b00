//! Text: the order of strings, and the few operations on them that the rest
//! of the library builds on.

use vstd::prelude::*;
use vstd::std_specs::iter::IteratorSpec;

verus! {

/// Appends one character to the end of a string (`String::push`).
pub assume_specification[ String::push ](s: &mut String, c: char)
    ensures
        final(s)@ == old(s)@.push(c),
;

/// Lexicographic order on code points: the order in which path keys are kept.
pub open spec fn lex_lt(a: Seq<char>, b: Seq<char>) -> bool
    decreases a.len(),
{
    if b.len() == 0 {
        false
    } else if a.len() == 0 {
        true
    } else if a[0] != b[0] {
        (a[0] as int) < (b[0] as int)
    } else {
        lex_lt(a.drop_first(), b.drop_first())
    }
}

/// How one string stands to another.
#[derive(Debug, Clone, Copy, PartialEq, Eq, Structural)]
pub enum Rank {
    Before,
    Same,
    After,
}

/// Compares two strings in lexicographic order.
pub fn rank(a: &str, b: &str) -> (r: Rank)
    ensures
        r == Rank::Before <==> lex_lt(a@, b@),
        r == Rank::Same <==> a@ == b@,
        r == Rank::After <==> lex_lt(b@, a@),
{
    let mut left = a.chars();
    let mut right = b.chars();
    let ghost mut i: int = 0;
    proof {
        lex_total(a@, b@);
        assert(a@.skip(0) =~= a@);
        assert(b@.skip(0) =~= b@);
    }
    loop
        invariant
            0 <= i <= a@.len(),
            i <= b@.len(),
            left.remaining() == a@.skip(i),
            right.remaining() == b@.skip(i),
            lex_lt(a@, b@) == lex_lt(a@.skip(i), b@.skip(i)),
            lex_lt(b@, a@) == lex_lt(b@.skip(i), a@.skip(i)),
            (a@ == b@) == (a@.skip(i) == b@.skip(i)),
            lex_lt(a@, b@) || a@ == b@ || lex_lt(b@, a@),
            !(lex_lt(a@, b@) && lex_lt(b@, a@)),
            a@ == b@ ==> !lex_lt(a@, b@),
        decreases a@.len() - i,
    {
        proof {
            if i < a@.len() {
                assert(a@.skip(i) =~= seq![a@[i]] + a@.skip(i + 1));
                assert(a@.skip(i).drop_first() =~= a@.skip(i + 1));
            }
            if i < b@.len() {
                assert(b@.skip(i) =~= seq![b@[i]] + b@.skip(i + 1));
                assert(b@.skip(i).drop_first() =~= b@.skip(i + 1));
            }
            if i == a@.len() && i == b@.len() {
                assert(a@.skip(i) =~= b@.skip(i));
            }
        }
        match (left.next(), right.next()) {
            (None, None) => {
                return Rank::Same;
            },
            (None, Some(_)) => {
                return Rank::Before;
            },
            (Some(_), None) => {
                return Rank::After;
            },
            (Some(x), Some(y)) => {
                if x < y {
                    return Rank::Before;
                }
                if y < x {
                    return Rank::After;
                }
                proof {
                    i = i + 1;
                }
            },
        }
    }
}

/// Exactly one of before, same and after holds.
pub proof fn lex_total(a: Seq<char>, b: Seq<char>)
    ensures
        lex_lt(a, b) || a == b || lex_lt(b, a),
        !(lex_lt(a, b) && lex_lt(b, a)),
        a == b ==> !lex_lt(a, b),
    decreases a.len(),
{
    if a.len() > 0 && b.len() > 0 && a[0] == b[0] {
        lex_total(a.drop_first(), b.drop_first());
        if a.drop_first() == b.drop_first() {
            assert(a =~= seq![a[0]] + a.drop_first());
            assert(b =~= seq![b[0]] + b.drop_first());
        }
    } else if a.len() == 0 && b.len() == 0 {
        assert(a =~= b);
    }
}

/// The order is transitive.
pub proof fn lex_trans(a: Seq<char>, b: Seq<char>, c: Seq<char>)
    requires
        lex_lt(a, b),
        lex_lt(b, c),
    ensures
        lex_lt(a, c),
    decreases a.len(),
{
    if a.len() > 0 && b.len() > 0 && c.len() > 0 && a[0] == b[0] && b[0] == c[0] {
        lex_trans(a.drop_first(), b.drop_first(), c.drop_first());
    }
}

/// Whether two strings hold the same characters.
pub fn same(a: &str, b: &str) -> (r: bool)
    ensures
        r == (a@ == b@),
{
    rank(a, b) == Rank::Same
}

/// The characters of a string, one by one.
pub fn chars_of(s: &str) -> (v: Vec<char>)
    ensures
        v@ == s@,
{
    let mut v: Vec<char> = Vec::new();
    let mut rest = s.chars();
    assert(s@.skip(0) =~= s@);
    loop
        invariant
            v@.len() <= s@.len(),
            v@ == s@.take(v@.len() as int),
            rest.remaining() == s@.skip(v@.len() as int),
        decreases s@.len() - v@.len(),
    {
        assert(v@.len() < s@.len() ==> s@.skip(v@.len() as int).drop_first() =~= s@.skip(
            (v@.len() + 1) as int,
        ));
        match rest.next() {
            Some(c) => v.push(c),
            None => {
                assert(v@ =~= s@);
                return v;
            },
        }
    }
}

/// The string made of the given characters.
pub fn string_of(chars: &Vec<char>) -> (s: String)
    ensures
        s@ == chars@,
{
    let mut s = String::new();
    for i in 0..chars.len()
        invariant
            s@ == chars@.take(i as int),
    {
        s.push(chars[i]);
        assert(chars@.take(i + 1) =~= chars@.take(i as int).push(chars@[i as int]));
    }
    assert(chars@.take(chars@.len() as int) =~= chars@);
    s
}

/// One string after another.
pub fn joined(a: &str, b: &str) -> (s: String)
    ensures
        s@ == a@ + b@,
{
    let mut s = a.to_owned();
    s.append(b);
    s
}

/// The digit for a number under ten.
pub open spec fn decimal_digit(n: int) -> char {
    ('0' as int + n) as char
}

/// A number in decimal notation.
pub open spec fn decimal(n: nat) -> Seq<char>
    decreases n,
{
    if n < 10 {
        seq![decimal_digit(n as int)]
    } else {
        decimal(n / 10).push(decimal_digit((n % 10) as int))
    }
}

/// A number in decimal notation is made of digits.
pub proof fn decimal_is_digits(n: nat)
    ensures
        decimal(n).len() > 0,
        forall|i: int| 0 <= i < decimal(n).len() ==> '0' <= #[trigger] decimal(n)[i] <= '9',
    decreases n,
{
    if n >= 10 {
        decimal_is_digits(n / 10);
        let front = decimal(n / 10);
        assert forall|i: int| 0 <= i < decimal(n).len() implies '0' <= #[trigger] decimal(n)[i]
            <= '9' by {
            if i < front.len() {
                assert(decimal(n)[i] == front[i]);
            }
        }
    }
}

/// A number in decimal notation.
pub fn decimal_of(n: u64) -> (s: String)
    ensures
        s@ == decimal(n as nat),
    decreases n,
{
    let last = (48u8 + (n % 10) as u8) as char;
    let mut s = if n < 10 {
        String::new()
    } else {
        decimal_of(n / 10)
    };
    s.push(last);
    assert(n < 10 ==> s@ =~= decimal(n as nat));
    s
}

/// Strictly increasing in lexicographic order.
pub open spec fn increasing(s: Seq<Seq<char>>) -> bool {
    forall|i: int, j: int| 0 <= i < j < s.len() ==> lex_lt(#[trigger] s[i], #[trigger] s[j])
}

/// `s` lists the members of `d`, each once, in increasing order.
pub open spec fn lists(s: Seq<Seq<char>>, d: Set<Seq<char>>) -> bool {
    &&& increasing(s)
    &&& forall|k: Seq<char>| #[trigger] d.contains(k) <==> s.contains(k)
}

/// A listing is as long as the set it lists.
pub proof fn lists_len(s: Seq<Seq<char>>, d: Set<Seq<char>>)
    requires
        lists(s, d),
    ensures
        d.finite(),
        d.len() == s.len(),
        s.no_duplicates(),
{
    assert(s.no_duplicates()) by {
        assert forall|i: int, j: int| 0 <= i < s.len() && 0 <= j < s.len() && i != j implies s[i]
            != s[j] by {
            if i < j {
                lex_total(s[i], s[j]);
            } else {
                lex_total(s[j], s[i]);
            }
        }
    }
    s.unique_seq_to_set();
    assert(s.to_set() =~= d);
}

/// A set has one listing.
pub proof fn lists_unique(s: Seq<Seq<char>>, t: Seq<Seq<char>>, d: Set<Seq<char>>)
    requires
        lists(s, d),
        lists(t, d),
    ensures
        s == t,
    decreases s.len(),
{
    lists_len(s, d);
    lists_len(t, d);
    if s.len() > 0 {
        let a = s.last();
        let b = t.last();
        assert(d.contains(a) && d.contains(b)) by {
            assert(s[s.len() - 1] == a);
            assert(t[t.len() - 1] == b);
        }
        assert(a == b) by {
            if a != b {
                let i = choose|i: int| 0 <= i < t.len() && t[i] == a;
                let j = choose|j: int| 0 <= j < s.len() && s[j] == b;
                assert(lex_lt(t[i], t[t.len() - 1]));
                assert(lex_lt(s[j], s[s.len() - 1]));
                lex_total(a, b);
            }
        }
        assert forall|k: Seq<char>| #[trigger] d.remove(a).contains(k)
            <==> s.drop_last().contains(k) by {
            if s.contains(k) && k != a {
                let i = choose|i: int| 0 <= i < s.len() && s[i] == k;
                assert(s.drop_last()[i] == k);
            }
        }
        assert forall|k: Seq<char>| #[trigger] d.remove(a).contains(k)
            <==> t.drop_last().contains(k) by {
            if t.contains(k) && k != a {
                let i = choose|i: int| 0 <= i < t.len() && t[i] == k;
                assert(t.drop_last()[i] == k);
            }
        }
        lists_unique(s.drop_last(), t.drop_last(), d.remove(a));
        assert(s =~= s.drop_last().push(a));
        assert(t =~= t.drop_last().push(b));
    } else {
        assert(s =~= t);
    }
}

/// The members of `d` in increasing order.
pub open spec fn sorted(d: Set<Seq<char>>) -> Seq<Seq<char>> {
    choose|s: Seq<Seq<char>>| lists(s, d)
}

/// A listing of `d` is the members of `d` in increasing order.
pub proof fn lists_sorted(s: Seq<Seq<char>>, d: Set<Seq<char>>)
    requires
        lists(s, d),
    ensures
        sorted(d) == s,
{
    lists_unique(sorted(d), s, d);
}

/// `a` put in its place among the members of an increasing sequence.
spec fn placed(s: Seq<Seq<char>>, a: Seq<char>) -> Seq<Seq<char>>
    decreases s.len(),
{
    if s.len() == 0 || lex_lt(s.last(), a) {
        s.push(a)
    } else {
        placed(s.drop_last(), a).push(s.last())
    }
}

proof fn placed_is_listed(s: Seq<Seq<char>>, a: Seq<char>)
    requires
        increasing(s),
        !s.contains(a),
    ensures
        increasing(placed(s, a)),
        forall|k: Seq<char>| #[trigger] placed(s, a).contains(k) <==> s.contains(k) || k == a,
    decreases s.len(),
{
    if s.len() == 0 || lex_lt(s.last(), a) {
        let t = placed(s, a);
        assert forall|k: Seq<char>| #[trigger] t.contains(k) <==> s.contains(k) || k == a by {
            vstd::seq_lib::lemma_seq_contains_after_push(s, a, k);
        }
        assert forall|i: int, j: int| 0 <= i < j < t.len() implies lex_lt(
            #[trigger] t[i],
            #[trigger] t[j],
        ) by {
            if j == s.len() && i < s.len() - 1 {
                lex_trans(s[i], s.last(), a);
            }
        }
    } else {
        let front = s.drop_last();
        let last = s.last();
        assert(s[s.len() - 1] == last);
        lex_total(last, a);
        assert(lex_lt(a, last));
        assert(!front.contains(a)) by {
            if front.contains(a) {
                let i = front.index_of(a);
                assert(s[i] == a);
            }
        }
        placed_is_listed(front, a);
        let u = placed(front, a);
        let t = placed(s, a);
        assert(s =~= front.push(last));
        assert forall|k: Seq<char>| #[trigger] t.contains(k) <==> s.contains(k) || k == a by {
            vstd::seq_lib::lemma_seq_contains_after_push(u, last, k);
            vstd::seq_lib::lemma_seq_contains_after_push(front, last, k);
        }
        assert forall|i: int, j: int| 0 <= i < j < t.len() implies lex_lt(
            #[trigger] t[i],
            #[trigger] t[j],
        ) by {
            if j == u.len() {
                assert(u.contains(u[i]));
                if u[i] != a {
                    let k = front.index_of(u[i]);
                    assert(lex_lt(s[k], s[s.len() - 1]));
                }
            } else {
                assert(lex_lt(u[i], u[j]));
            }
        }
    }
}

/// Every finite set has a listing.
pub proof fn sorted_lists(d: Set<Seq<char>>)
    requires
        d.finite(),
    ensures
        lists(sorted(d), d),
    decreases d.len(),
{
    if d.len() == 0 {
        let s = Seq::<Seq<char>>::empty();
        assert(lists(s, d)) by {
            assert forall|k: Seq<char>| #[trigger] d.contains(k) <==> s.contains(k) by {
                if d.contains(k) {
                    assert(d.remove(k).len() < d.len());
                }
            }
        }
        lists_sorted(s, d);
    } else {
        let a = d.choose();
        assert(d.contains(a)) by {
            if forall|k: Seq<char>| !d.contains(k) {
                assert(d =~= Set::empty());
            }
        }
        let rest = d.remove(a);
        sorted_lists(rest);
        let s = sorted(rest);
        assert(!s.contains(a)) by {
            if s.contains(a) {
                assert(rest.contains(a));
            }
        }
        placed_is_listed(s, a);
        let t = placed(s, a);
        assert forall|k: Seq<char>| #[trigger] d.contains(k) <==> t.contains(k) by {
            assert(rest.contains(k) <==> s.contains(k));
            assert(d.contains(k) <==> rest.contains(k) || k == a);
        }
        lists_sorted(t, d);
    }
}

/// A set with no member has no listing but the empty one.
pub proof fn sorted_of_nothing(d: Set<Seq<char>>)
    requires
        forall|k: Seq<char>| !d.contains(k),
    ensures
        sorted(d) == Seq::<Seq<char>>::empty(),
{
    lists_sorted(Seq::empty(), d);
}

/// The first difference decides: of two texts that are alike up to some place,
/// the one that ends there, or that has the lesser character there, comes
/// first.
pub proof fn the_first_difference_decides(a: Seq<char>, b: Seq<char>, i: int)
    requires
        0 <= i <= a.len(),
        i < b.len(),
        a.take(i) == b.take(i),
        i == a.len() || (a[i] as int) < (b[i] as int),
    ensures
        lex_lt(a, b),
        !lex_lt(b, a),
        a != b,
    decreases i,
{
    if i > 0 {
        assert(a.take(i)[0] == a[0]);
        assert(b.take(i)[0] == b[0]);
        let x = a.drop_first();
        let y = b.drop_first();
        assert(x.take(i - 1) =~= a.take(i).drop_first());
        assert(y.take(i - 1) =~= b.take(i).drop_first());
        the_first_difference_decides(x, y, i - 1);
    }
    lex_total(a, b);
}

/// The number that digits stand for.
pub open spec fn number(digits: Seq<char>) -> int
    decreases digits.len(),
{
    if digits.len() == 0 {
        0
    } else {
        number(digits.drop_last()) * 10 + (digits.last() as int - '0' as int)
    }
}

/// A number can be read back from its decimal notation, which has no zero in
/// front.
pub proof fn decimal_reads_back(n: nat)
    ensures
        number(decimal(n)) == n,
        decimal(n).len() > 1 ==> decimal(n)[0] != '0',
    decreases n,
{
    reveal_with_fuel(number, 2);
    if n < 10 {
        assert(decimal(n).drop_last() =~= Seq::<char>::empty());
    } else {
        decimal_reads_back(n / 10);
        decimal_is_digits(n / 10);
        assert(decimal(n).drop_last() =~= decimal(n / 10));
        assert(decimal(n)[0] == decimal(n / 10)[0]);
        if decimal(n / 10).len() == 1 {
            assert(n / 10 > 0);
            assert(decimal(n / 10).drop_last() =~= Seq::<char>::empty());
        }
    }
}

/// Two numbers between dots can be told apart by what follows the first dot.
pub proof fn dotted_numbers_are_distinct(
    a: nat,
    b: nat,
    c: nat,
    d: nat,
    tail: Seq<char>,
)
    requires
        seq!['.'] + decimal(a) + seq!['.'] + decimal(b) + tail == seq!['.'] + decimal(c) + seq!['.']
            + decimal(d) + tail,
    ensures
        a == c,
        b == d,
{
    let x = seq!['.'] + decimal(a) + seq!['.'] + decimal(b) + tail;
    let y = seq!['.'] + decimal(c) + seq!['.'] + decimal(d) + tail;
    decimal_is_digits(a);
    decimal_is_digits(c);
    let n = decimal(a).len() as int;
    let m = decimal(c).len() as int;
    if n < m {
        assert(x[n + 1] == '.');
        assert(y[n + 1] == decimal(c)[n]);
    } else if m < n {
        assert(y[m + 1] == '.');
        assert(x[m + 1] == decimal(a)[m]);
    }
    assert(decimal(a) =~= x.subrange(1, n + 1));
    assert(decimal(c) =~= y.subrange(1, n + 1));
    let k = decimal(b).len() as int;
    assert(x.len() == n + 2 + k + tail.len());
    assert(y.len() == n + 2 + decimal(d).len() + tail.len());
    assert(decimal(d).len() == k);
    assert(decimal(b) =~= x.subrange(n + 2, n + 2 + k));
    assert(decimal(d) =~= y.subrange(n + 2, n + 2 + k));
    decimal_reads_back(a);
    decimal_reads_back(b);
    decimal_reads_back(c);
    decimal_reads_back(d);
}

/// What texts begin with alike does not decide between them.
pub proof fn a_common_beginning_does_not_decide(front: Seq<char>, a: Seq<char>, b: Seq<char>)
    ensures
        lex_lt(front + a, front + b) == lex_lt(a, b),
    decreases front.len(),
{
    if front.len() == 0 {
        assert(front + a =~= a);
        assert(front + b =~= b);
    } else {
        let less = front.drop_first();
        assert((front + a).drop_first() =~= less + a);
        assert((front + b).drop_first() =~= less + b);
        a_common_beginning_does_not_decide(less, a, b);
    }
}

} // verus!
