//! Ordered collections keyed by text: a set of names, and a table from names
//! to values. Both keep their keys in increasing order, so that what is built
//! from them comes out the same every time.

use vstd::prelude::*;

use crate::text::{increasing, lex_lt, lex_total, lex_trans, lists, rank, Rank};

verus! {

/// A value that can be copied without changing what it stands for.
pub trait Duplicate: View + Sized {
    fn duplicate(&self) -> (r: Self)
        ensures
            r@ == self@,
    ;
}

impl Duplicate for String {
    fn duplicate(&self) -> (r: Self) {
        self.clone()
    }
}

impl Duplicate for () {
    fn duplicate(&self) -> (r: Self) {
    }
}

impl Duplicate for Vec<u8> {
    fn duplicate(&self) -> (r: Self) {
        let r = self.clone();
        assert(r@ =~= self@);
        r
    }
}

/// A table from names to values, in the order of the names.
#[derive(Debug, PartialEq, Eq)]
pub struct Table<V> {
    rows: Vec<(String, V)>,
}

/// The names of a run of rows.
spec fn names_of<V>(rows: Seq<(String, V)>) -> Seq<Seq<char>> {
    Seq::new(rows.len(), |i: int| rows[i].0@)
}

/// What a run of rows maps each of its names to.
spec fn map_of<V: View>(rows: Seq<(String, V)>) -> Map<Seq<char>, V::V> {
    Map::new(
        |k: Seq<char>| names_of(rows).contains(k),
        |k: Seq<char>| rows[names_of(rows).index_of(k)].1@,
    )
}

impl<V> Table<V> {
    #[verifier::type_invariant]
    spec fn sorted(self) -> bool {
        increasing(names_of(self.rows@))
    }

    /// The names, in order.
    pub closed spec fn order(self) -> Seq<Seq<char>> {
        names_of(self.rows@)
    }
}

impl<V: View> View for Table<V> {
    type V = Map<Seq<char>, V::V>;

    closed spec fn view(&self) -> Map<Seq<char>, V::V> {
        map_of(self.rows@)
    }
}

/// A name in increasing rows stands in one place only.
proof fn row_is_mapped<V: View>(rows: Seq<(String, V)>, i: int)
    requires
        increasing(names_of(rows)),
        0 <= i < rows.len(),
    ensures
        map_of(rows).contains_key(rows[i].0@),
        map_of(rows)[rows[i].0@] == rows[i].1@,
{
    let names = names_of(rows);
    let k = rows[i].0@;
    assert(names[i] == k);
    let j = names.index_of(k);
    assert(names.contains(k));
    assert(0 <= j < names.len() && names[j] == k);
    if j < i {
        lex_total(names[j], names[i]);
    } else if i < j {
        lex_total(names[i], names[j]);
    }
}

impl<V: View> Table<V> {
    /// An empty table.
    pub fn new() -> (r: Self)
        ensures
            r@ == Map::<Seq<char>, V::V>::empty(),
            r.order() == Seq::<Seq<char>>::empty(),
    {
        let r = Table { rows: Vec::new() };
        assert(r@ =~= Map::<Seq<char>, V::V>::empty());
        assert(r.order() =~= Seq::<Seq<char>>::empty());
        r
    }

    /// How many names the table holds.
    pub fn len(&self) -> (r: usize)
        ensures
            r == self.order().len(),
            lists(self.order(), self@.dom()),
    {
        proof {
            use_type_invariant(self);
        }
        self.rows.len()
    }

    pub fn is_empty(&self) -> (r: bool)
        ensures
            r == (self@ == Map::<Seq<char>, V::V>::empty()),
    {
        proof {
            use_type_invariant(self);
        }
        let r = self.rows.len() == 0;
        proof {
            if r {
                assert(self@ =~= Map::<Seq<char>, V::V>::empty());
            } else {
                row_is_mapped(self.rows@, 0);
            }
        }
        r
    }

    /// The name at place `i` of the order.
    pub fn key_at(&self, i: usize) -> (r: &String)
        requires
            i < self.order().len(),
        ensures
            r@ == self.order()[i as int],
            self@.contains_key(r@),
    {
        proof {
            use_type_invariant(self);
            row_is_mapped(self.rows@, i as int);
        }
        &self.rows[i].0
    }

    /// The value at place `i` of the order.
    pub fn value_at(&self, i: usize) -> (r: &V)
        requires
            i < self.order().len(),
        ensures
            self@.contains_key(self.order()[i as int]),
            r@ == self@[self.order()[i as int]],
    {
        proof {
            use_type_invariant(self);
            row_is_mapped(self.rows@, i as int);
        }
        &self.rows[i].1
    }

    /// The names, as a set.
    pub fn keys(&self) -> (r: NameSet)
        ensures
            r@ == self@.dom(),
    {
        let n = self.len();
        let mut out = NameSet::new();
        for i in 0..n
            invariant
                n == self.order().len(),
                forall|k: Seq<char>| #[trigger]
                    out@.contains(k) <==> self.order().take(i as int).contains(k),
        {
            let ghost was = out@;
            out.insert(self.key_at(i).clone());
            proof {
                let front = self.order().take(i as int);
                let name = self.order()[i as int];
                assert(self.order().take(i + 1) =~= front.push(name));
                assert forall|k: Seq<char>| #[trigger] out@.contains(k) <==> front.push(
                    name,
                ).contains(k) by {
                    vstd::seq_lib::lemma_seq_contains_after_push(front, name, k);
                    assert(out@.contains(k) <==> was.contains(k) || k == name);
                }
            }
        }
        proof {
            assert(self.order().take(n as int) =~= self.order());
            assert(out@ =~= self@.dom());
        }
        out
    }

    /// The first place whose name is not before `key`.
    fn place(&self, key: &str) -> (r: usize)
        ensures
            r <= self.rows@.len(),
            forall|j: int| 0 <= j < r ==> lex_lt(#[trigger] self.rows@[j].0@, key@),
            forall|j: int| r <= j < self.rows@.len() ==> !lex_lt(#[trigger] self.rows@[j].0@, key@),
    {
        proof {
            use_type_invariant(self);
        }
        let mut lo: usize = 0;
        let mut hi: usize = self.rows.len();
        while lo < hi
            invariant
                lo <= hi <= self.rows@.len(),
                increasing(names_of(self.rows@)),
                forall|j: int| 0 <= j < lo ==> lex_lt(#[trigger] self.rows@[j].0@, key@),
                forall|j: int|
                    hi <= j < self.rows@.len() ==> !lex_lt(#[trigger] self.rows@[j].0@, key@),
            decreases hi - lo,
        {
            let mid: usize = lo + (hi - lo) / 2;
            let ghost names = names_of(self.rows@);
            if rank(self.rows[mid].0.as_str(), key) == Rank::Before {
                assert forall|j: int| 0 <= j < mid + 1 implies lex_lt(
                    #[trigger] self.rows@[j].0@,
                    key@,
                ) by {
                    if j < mid {
                        assert(lex_lt(names[j], names[mid as int]));
                        lex_trans(names[j], names[mid as int], key@);
                    }
                }
                lo = mid + 1;
            } else {
                assert forall|j: int| mid <= j < self.rows@.len() implies !lex_lt(
                    #[trigger] self.rows@[j].0@,
                    key@,
                ) by {
                    if mid < j {
                        assert(lex_lt(names[mid as int], names[j]));
                        if lex_lt(names[j], key@) {
                            lex_trans(names[mid as int], names[j], key@);
                        }
                    }
                }
                hi = mid;
            }
        }
        lo
    }

    /// What the table maps `key` to.
    pub fn get(&self, key: &str) -> (r: Option<&V>)
        ensures
            r is Some <==> self@.contains_key(key@),
            r matches Some(v) ==> v@ == self@[key@],
    {
        let at = self.place(key);
        proof {
            use_type_invariant(self);
        }
        if at < self.rows.len() && rank(self.rows[at].0.as_str(), key) == Rank::Same {
            proof {
                row_is_mapped(self.rows@, at as int);
            }
            Some(&self.rows[at].1)
        } else {
            proof {
                let names = names_of(self.rows@);
                if names.contains(key@) {
                    let j = names.index_of(key@);
                    assert(names[j] == key@);
                    assert(self.rows@[j].0@ == key@);
                    lex_total(key@, key@);
                    if j < at {
                    } else if at < j {
                        assert(lex_lt(names[at as int], names[j]));
                    }
                }
            }
            None
        }
    }

    pub fn contains_key(&self, key: &str) -> (r: bool)
        ensures
            r == self@.contains_key(key@),
    {
        self.get(key).is_some()
    }

    /// Maps `key` to `value`, in place of what it was mapped to before, which
    /// is returned.
    pub fn insert(&mut self, key: String, value: V) -> (r: Option<V>)
        ensures
            final(self)@ == old(self)@.insert(key@, value@),
            r is Some <==> old(self)@.contains_key(key@),
            r matches Some(v) ==> v@ == old(self)@[key@],
    {
        let at = self.place(key.as_str());
        proof {
            use_type_invariant(&*self);
        }
        let mut rows: Vec<(String, V)> = Vec::new();
        std::mem::swap(&mut self.rows, &mut rows);
        let ghost before = rows@;
        let ghost names = names_of(before);
        let ghost k = key@;
        let ghost v = value@;
        let found = at < rows.len() && rank(rows[at].0.as_str(), key.as_str()) == Rank::Same;
        if found {
            let old_row = rows.remove(at);
            rows.insert(at, (key, value));
            proof {
                let now = names_of(rows@);
                assert(now =~= names);
                row_is_mapped(before, at as int);
                assert(rows@ =~= before.update(at as int, rows@[at as int]));
                assert(map_of(rows@) =~= map_of(before).insert(k, v)) by {
                    assert forall|x: Seq<char>| names.contains(x) implies map_of(rows@)[x] == (
                    map_of(before).insert(k, v))[x] by {
                        let j = names.index_of(x);
                        row_is_mapped(rows@, j);
                        row_is_mapped(before, j);
                        if j != at {
                            if j < at {
                                lex_total(names[j], names[at as int]);
                            } else {
                                lex_total(names[at as int], names[j]);
                            }
                        } else {
                            row_is_mapped(rows@, at as int);
                        }
                    }
                }
            }
            self.rows = rows;
            Some(old_row.1)
        } else {
            rows.insert(at, (key, value));
            proof {
                let now = names_of(rows@);
                assert(now =~= names.insert(at as int, k));
                assert(!names.contains(k)) by {
                    if names.contains(k) {
                        let j = names.index_of(k);
                        assert(names[j] == k);
                        assert(before[j].0@ == k);
                        lex_total(k, k);
                        if at < j {
                            assert(lex_lt(names[at as int], names[j]));
                        }
                    }
                }
                assert forall|i: int, j: int| 0 <= i < j < now.len() implies lex_lt(
                    #[trigger] now[i],
                    #[trigger] now[j],
                ) by {
                    let i0 = if i < at { i } else { i - 1 };
                    let j0 = if j < at { j } else { j - 1 };
                    if i == at {
                        assert(now[j] == before[j0].0@);
                        lex_total(k, now[j]);
                        if now[j] == k {
                            assert(names[j0] == k);
                        }
                    } else if j == at {
                        assert(now[i] == before[i0].0@);
                    } else {
                        assert(lex_lt(names[i0], names[j0]));
                    }
                }
                assert(map_of(rows@) =~= map_of(before).insert(k, v)) by {
                    assert(now[at as int] == k);
                    row_is_mapped(rows@, at as int);
                    assert forall|x: Seq<char>| now.contains(x) <==> (names.contains(x) || x
                        == k) by {
                        if names.contains(x) {
                            let j = names.index_of(x);
                            assert(now[if j < at { j } else { j + 1 }] == x);
                        }
                        if now.contains(x) {
                            let j = now.index_of(x);
                            if j != at {
                                assert(names[if j < at { j } else { j - 1 }] == x);
                            }
                        }
                    }
                    assert forall|x: Seq<char>| names.contains(x) implies map_of(rows@)[x]
                        == map_of(before)[x] by {
                        let j = names.index_of(x);
                        row_is_mapped(before, j);
                        let j1 = if j < at { j } else { j + 1 };
                        row_is_mapped(rows@, j1);
                        assert(rows@[j1] == before[j]);
                    }
                }
            }
            self.rows = rows;
            None
        }
    }

    /// Takes `key` out of the table.
    pub fn remove(&mut self, key: &str) -> (r: Option<V>)
        ensures
            final(self)@ == old(self)@.remove(key@),
            r is Some <==> old(self)@.contains_key(key@),
            r matches Some(v) ==> v@ == old(self)@[key@],
    {
        if !self.contains_key(key) {
            assert(self@.remove(key@) =~= self@);
            return None;
        }
        let at = self.place(key);
        proof {
            use_type_invariant(&*self);
        }
        let mut rows: Vec<(String, V)> = Vec::new();
        std::mem::swap(&mut self.rows, &mut rows);
        let ghost before = rows@;
        let ghost names = names_of(before);
        let ghost k = key@;
        proof {
            let j = names.index_of(k);
            assert(names[j] == k);
            assert(before[j].0@ == k);
            lex_total(k, k);
            if at < j {
                assert(lex_lt(names[at as int], names[j]));
            }
            assert(j == at);
            row_is_mapped(before, at as int);
        }
        let old_row = rows.remove(at);
        proof {
            let now = names_of(rows@);
            assert(now =~= names.remove(at as int));
            assert forall|i: int, j: int| 0 <= i < j < now.len() implies lex_lt(
                #[trigger] now[i],
                #[trigger] now[j],
            ) by {
                let i0 = if i < at { i } else { i + 1 };
                let j0 = if j < at { j } else { j + 1 };
                assert(lex_lt(names[i0], names[j0]));
            }
            assert(map_of(rows@) =~= map_of(before).remove(k)) by {
                assert forall|x: Seq<char>| now.contains(x) <==> (names.contains(x) && x != k) by {
                    if names.contains(x) && x != k {
                        let j = names.index_of(x);
                        assert(now[if j < at { j } else { j - 1 }] == x);
                    }
                    if now.contains(x) {
                        let j = now.index_of(x);
                        let j0 = if j < at { j } else { j + 1 };
                        assert(names[j0] == x);
                        if x == k {
                            if j0 < at {
                                lex_total(names[j0], names[at as int]);
                            } else {
                                lex_total(names[at as int], names[j0]);
                            }
                        }
                    }
                }
                assert forall|x: Seq<char>| now.contains(x) implies map_of(rows@)[x] == map_of(
                    before,
                )[x] by {
                    let j = now.index_of(x);
                    row_is_mapped(rows@, j);
                    let j0 = if j < at { j } else { j + 1 };
                    row_is_mapped(before, j0);
                    assert(rows@[j] == before[j0]);
                }
            }
        }
        self.rows = rows;
        Some(old_row.1)
    }
}

impl<V: Duplicate> Duplicate for Table<V> {
    fn duplicate(&self) -> (r: Self) {
        proof {
            use_type_invariant(self);
        }
        let mut rows: Vec<(String, V)> = Vec::new();
        for i in 0..self.rows.len()
            invariant
                rows@.len() == i,
                forall|j: int|
                    0 <= j < i ==> (#[trigger] rows@[j]).0@ == self.rows@[j].0@ && rows@[j].1@
                        == self.rows@[j].1@,
        {
            rows.push((self.rows[i].0.clone(), self.rows[i].1.duplicate()));
        }
        proof {
            assert(names_of(rows@) =~= names_of(self.rows@));
            assert(map_of(rows@) =~= map_of(self.rows@));
        }
        Table { rows }
    }
}

impl<V: Duplicate> Clone for Table<V> {
    fn clone(&self) -> (r: Self)
        ensures
            r@ == self@,
    {
        self.duplicate()
    }
}

/// A set of names, in order.
#[derive(Debug, PartialEq, Eq)]
pub struct NameSet {
    table: Table<()>,
}

impl View for NameSet {
    type V = Set<Seq<char>>;

    closed spec fn view(&self) -> Set<Seq<char>> {
        self.table@.dom()
    }
}

impl NameSet {
    /// The names, in order.
    pub closed spec fn order(self) -> Seq<Seq<char>> {
        self.table.order()
    }

    /// An empty set.
    pub fn new() -> (r: Self)
        ensures
            r@ == Set::<Seq<char>>::empty(),
    {
        let r = NameSet { table: Table::new() };
        assert(r@ =~= Set::<Seq<char>>::empty());
        r
    }

    /// How many names the set holds.
    pub fn len(&self) -> (r: usize)
        ensures
            r == self.order().len(),
            lists(self.order(), self@),
    {
        self.table.len()
    }

    pub fn is_empty(&self) -> (r: bool)
        ensures
            r == (self@ == Set::<Seq<char>>::empty()),
    {
        let r = self.table.is_empty();
        proof {
            if self@ == Set::<Seq<char>>::empty() {
                assert(self.table@ =~= Map::<Seq<char>, ()>::empty());
            }
        }
        r
    }

    /// The name at place `i` of the order.
    pub fn at(&self, i: usize) -> (r: &String)
        requires
            i < self.order().len(),
        ensures
            r@ == self.order()[i as int],
            self@.contains(r@),
    {
        self.table.key_at(i)
    }

    pub fn contains(&self, name: &str) -> (r: bool)
        ensures
            r == self@.contains(name@),
    {
        self.table.contains_key(name)
    }

    /// Puts `name` into the set; says whether it was new.
    pub fn insert(&mut self, name: String) -> (r: bool)
        ensures
            final(self)@ == old(self)@.insert(name@),
            r == !old(self)@.contains(name@),
    {
        let r = self.table.insert(name, ());
        r.is_none()
    }

    /// Takes `name` out of the set; says whether it was there.
    pub fn remove(&mut self, name: &str) -> (r: bool)
        ensures
            final(self)@ == old(self)@.remove(name@),
            r == old(self)@.contains(name@),
    {
        let r = self.table.remove(name);
        r.is_some()
    }
}

impl Duplicate for NameSet {
    fn duplicate(&self) -> (r: Self) {
        NameSet { table: self.table.duplicate() }
    }
}

impl Clone for NameSet {
    fn clone(&self) -> (r: Self)
        ensures
            r@ == self@,
    {
        self.duplicate()
    }
}

} // verus!
