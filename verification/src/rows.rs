//! Rows found by key: a table in which no key occurs twice.

use crate::scan::same_bytes;
use vstd::prelude::*;


verus! {

/// What rows can be found by.
pub trait RowKey: Sized {
    /// What a caller looks a row up with.
    type Query: ?Sized;

    /// What a key is, as a value.
    type Id;

    /// The key as a value.
    spec fn id(&self) -> Self::Id;

    /// The key that a query asks for.
    spec fn asked(query: &Self::Query) -> Self::Id;

    /// Whether this is the key that is asked for.
    fn is(&self, query: &Self::Query) -> (r: bool)
        ensures
            r == (self.id() == Self::asked(query)),
    ;

    /// Whether two keys are the same.
    fn same(&self, other: &Self) -> (r: bool)
        ensures
            r == (self.id() == other.id()),
    ;
}

impl RowKey for Vec<u8> {
    type Query = [u8];

    type Id = Seq<u8>;

    open spec fn id(&self) -> Seq<u8> {
        self@
    }

    open spec fn asked(query: &[u8]) -> Seq<u8> {
        query@
    }

    fn is(&self, query: &[u8]) -> (r: bool) {
        same_bytes(self.as_slice(), query)
    }

    fn same(&self, other: &Vec<u8>) -> (r: bool) {
        same_bytes(self.as_slice(), other.as_slice())
    }
}

impl RowKey for String {
    type Query = str;

    type Id = Seq<char>;

    open spec fn id(&self) -> Seq<char> {
        self@
    }

    open spec fn asked(query: &str) -> Seq<char> {
        query@
    }

    fn is(&self, query: &str) -> (r: bool) {
        proof {
            vstd::utf8::encode_utf8_decode_utf8(self@);
            vstd::utf8::encode_utf8_decode_utf8(query@);
        }
        same_bytes(self.as_str().as_bytes(), query.as_bytes())
    }

    fn same(&self, other: &String) -> (r: bool) {
        *self == *other
    }
}

/// Rows of a value each, found by key.
pub struct Rows<K, V> {
    rows: Vec<(K, V)>,
}

impl<K: RowKey, V> Rows<K, V> {
    /// The rows in the order in which they stand.
    pub closed spec fn seq(&self) -> Seq<(K, V)> {
        self.rows@
    }

    /// No key occurs twice.
    pub open spec fn wf(&self) -> bool {
        forall|i: int, j: int|
            0 <= i < j < self.seq().len() ==> (#[trigger] self.seq()[i]).0.id()
                != (#[trigger] self.seq()[j]).0.id()
    }

    /// Where the row with this key stands.
    pub open spec fn at(&self, id: K::Id, i: int) -> bool {
        0 <= i < self.seq().len() && self.seq()[i].0.id() == id
    }

    /// Whether a row has this key.
    pub open spec fn has(&self, id: K::Id) -> bool {
        exists|i: int| #[trigger] self.at(id, i)
    }

    /// The value in the row with this key.
    pub open spec fn value(&self, id: K::Id) -> V {
        self.seq()[choose|i: int| #[trigger] self.at(id, i)].1
    }

    /// The rows as a map from key to value.
    pub open spec fn map(&self) -> Map<K::Id, V> {
        Map::new(|id: K::Id| self.has(id), |id: K::Id| self.value(id))
    }

    /// No rows.
    pub fn new() -> (r: Rows<K, V>)
        ensures
            r.wf(),
            r.seq().len() == 0,
            r.map() == Map::<K::Id, V>::empty(),
    {
        let r = Rows { rows: Vec::new() };
        assert(r.map() =~= Map::<K::Id, V>::empty());
        r
    }

    /// How many rows there are.
    pub fn len(&self) -> (n: usize)
        ensures
            n == self.seq().len(),
    {
        self.rows.len()
    }

    fn find(&self, query: &K::Query) -> (r: usize)
        ensures
            r <= self.seq().len(),
            r < self.seq().len() ==> self.at(K::asked(query), r as int),
            r == self.seq().len() ==> !self.has(K::asked(query)),
    {
        let mut i: usize = 0;
        while i < self.rows.len()
            invariant
                i <= self.seq().len(),
                self.seq() == self.rows@,
                forall|j: int| 0 <= j < i ==> !#[trigger] self.at(K::asked(query), j),
            decreases self.seq().len() - i,
        {
            if self.rows[i].0.is(query) {
                return i;
            }
            i += 1;
        }
        i
    }

    /// A row that stands at `i` is the row of its key.
    pub proof fn lemma_row(&self, i: int)
        requires
            self.wf(),
            0 <= i < self.seq().len(),
        ensures
            self.has(self.seq()[i].0.id()),
            self.value(self.seq()[i].0.id()) == self.seq()[i].1,
            self.map().contains_pair(self.seq()[i].0.id(), self.seq()[i].1),
    {
        let id = self.seq()[i].0.id();
        assert(self.at(id, i));
        let j = choose|j: int| #[trigger] self.at(id, j);
        assert(self.at(id, j));
        if j < i {
            assert(self.seq()[j].0.id() != self.seq()[i].0.id());
        } else if i < j {
            assert(self.seq()[i].0.id() != self.seq()[j].0.id());
        }
    }

    /// The value in the row with this key.
    pub fn get(&self, query: &K::Query) -> (r: Option<&V>)
        requires
            self.wf(),
        ensures
            r is Some == self.map().contains_key(K::asked(query)),
            r matches Some(v) ==> *v == self.map()[K::asked(query)],
    {
        let i = self.find(query);
        if i < self.rows.len() {
            proof {
                self.lemma_row(i as int);
            }
            Some(&self.rows[i].1)
        } else {
            None
        }
    }

    /// Whether a row has this key.
    pub fn contains(&self, query: &K::Query) -> (r: bool)
        requires
            self.wf(),
        ensures
            r == self.map().contains_key(K::asked(query)),
    {
        self.get(query).is_some()
    }

    /// The value in the row with this key, to be changed.
    pub fn get_mut(&mut self, query: &K::Query) -> (r: Option<&mut V>)
        requires
            old(self).wf(),
        ensures
            final(self).wf(),
            match r {
                Some(v) => {
                    &&& old(self).map().contains_pair(K::asked(query), *v)
                    &&& final(self).map() == old(self).map().insert(K::asked(query), *final(v))
                },
                None => {
                    &&& !old(self).map().contains_key(K::asked(query))
                    &&& final(self).map() == old(self).map()
                },
            },
    {
        let i = self.find(query);
        if i < self.rows.len() {
            proof {
                self.lemma_row(i as int);
                let before = *self;
                assert forall|after: Self|
                    #[trigger] after.seq() == before.seq().update(
                        i as int,
                        (before.seq()[i as int].0, after.seq()[i as int].1),
                    ) implies after.wf() && after.map() == before.map().insert(
                    before.seq()[i as int].0.id(),
                    after.seq()[i as int].1,
                ) by {
                    Self::lemma_replaced(before, after, i as int);
                }
            }
            Some(&mut self.rows[i].1)
        } else {
            None
        }
    }

    /// Puts a value under a key, in place of the one that was there. Whether
    /// there was one.
    pub fn insert(&mut self, key: K, value: V) -> (replaced: bool)
        requires
            old(self).wf(),
        ensures
            final(self).wf(),
            final(self).map() == old(self).map().insert(key.id(), value),
            replaced == old(self).map().contains_key(key.id()),
            final(self).seq().len() == if replaced {
                old(self).seq().len()
            } else {
                old(self).seq().len() + 1
            },
    {
        let ghost before = *self;
        let mut i: usize = 0;
        while i < self.rows.len()
            invariant
                *self == before,
                before.wf(),
                before == *old(self),
                i <= self.seq().len(),
                self.seq() == self.rows@,
                forall|j: int| 0 <= j < i ==> !#[trigger] before.at(key.id(), j),
            decreases self.seq().len() - i,
        {
            if self.rows[i].0.same(&key) {
                proof {
                    assert(before.at(key.id(), i as int));
                }
                self.rows.set(i, (key, value));
                proof {
                    Self::lemma_replaced(before, *self, i as int);
                    before.lemma_row(i as int);
                }
                return true;
            }
            i += 1;
        }
        assert(!before.has(key.id()));
        self.rows.push((key, value));
        proof {
            assert(self.seq().drop_last() =~= before.seq());
            Self::lemma_pushed(before, *self);
        }
        false
    }

    proof fn lemma_replaced(before: Self, after: Self, i: int)
        requires
            before.wf(),
            0 <= i < before.seq().len(),
            after.seq().len() == before.seq().len(),
            after.seq()[i].0.id() == before.seq()[i].0.id(),
            forall|j: int| 0 <= j < before.seq().len() && j != i ==> after.seq()[j] == before.seq()[j],
        ensures
            after.wf(),
            after.map() == before.map().insert(after.seq()[i].0.id(), after.seq()[i].1),
    {
        let id = before.seq()[i].0.id();
        assert forall|j: int, k: int| 0 <= j < k < after.seq().len() implies (
        #[trigger] after.seq()[j]).0.id() != (#[trigger] after.seq()[k]).0.id() by {
            assert(before.seq()[j].0.id() != before.seq()[k].0.id());
        }
        after.lemma_row(i);
        before.lemma_row(i);
        assert forall|other: K::Id| other != id implies after.has(other) == before.has(other) && (
        after.has(other) ==> after.value(other) == before.value(other)) by {
            if before.has(other) {
                let j = choose|j: int| #[trigger] before.at(other, j);
                assert(after.at(other, j));
                after.lemma_row(j);
                before.lemma_row(j);
            }
            if after.has(other) {
                let j = choose|j: int| #[trigger] after.at(other, j);
                assert(before.at(other, j));
            }
        }
        assert(after.map() =~= before.map().insert(id, after.seq()[i].1));
    }

    proof fn lemma_pushed(before: Self, after: Self)
        requires
            before.wf(),
            after.seq().len() == before.seq().len() + 1,
            after.seq().drop_last() == before.seq(),
            !before.has(after.seq().last().0.id()),
        ensures
            after.wf(),
            after.map() == before.map().insert(after.seq().last().0.id(), after.seq().last().1),
    {
        let n = before.seq().len() as int;
        let id = after.seq().last().0.id();
        assert forall|j: int| 0 <= j < n implies after.seq()[j] == before.seq()[j] by {
            assert(after.seq().drop_last()[j] == after.seq()[j]);
        }
        assert forall|j: int, k: int| 0 <= j < k < after.seq().len() implies (
        #[trigger] after.seq()[j]).0.id() != (#[trigger] after.seq()[k]).0.id() by {
            if k == n {
                assert(!before.at(id, j));
            } else {
                assert(before.seq()[j].0.id() != before.seq()[k].0.id());
            }
        }
        after.lemma_row(n);
        assert forall|other: K::Id| other != id implies after.has(other) == before.has(other) && (
        after.has(other) ==> after.value(other) == before.value(other)) by {
            if before.has(other) {
                let j = choose|j: int| #[trigger] before.at(other, j);
                assert(after.at(other, j));
                after.lemma_row(j);
                before.lemma_row(j);
            }
            if after.has(other) {
                let j = choose|j: int| #[trigger] after.at(other, j);
                assert(before.at(other, j));
            }
        }
        assert(after.map() =~= before.map().insert(id, after.seq().last().1));
    }

    /// Removes the row with this key: its value, if there was one.
    pub fn remove(&mut self, query: &K::Query) -> (r: Option<V>)
        requires
            old(self).wf(),
        ensures
            final(self).wf(),
            final(self).map() == old(self).map().remove(K::asked(query)),
            r is Some == old(self).map().contains_key(K::asked(query)),
            r matches Some(v) ==> v == old(self).map()[K::asked(query)],
            final(self).seq().len() == old(self).seq().len() - if r is Some { 1int } else { 0 },
    {
        let ghost before = *self;
        let i = self.find(query);
        if i == self.rows.len() {
            assert(self.map() =~= before.map().remove(K::asked(query)));
            return None;
        }
        let (key, value) = self.rows.remove(i);
        proof {
            before.lemma_row(i as int);
            Self::lemma_removed(before, *self, i as int);
        }
        Some(value)
    }

    proof fn lemma_removed(before: Self, after: Self, i: int)
        requires
            before.wf(),
            0 <= i < before.seq().len(),
            after.seq() == before.seq().remove(i),
        ensures
            after.wf(),
            after.map() == before.map().remove(before.seq()[i].0.id()),
    {
        let id = before.seq()[i].0.id();
        assert forall|j: int, k: int| 0 <= j < k < after.seq().len() implies (
        #[trigger] after.seq()[j]).0.id() != (#[trigger] after.seq()[k]).0.id() by {
            let bj = if j < i { j } else { j + 1 };
            let bk = if k < i { k } else { k + 1 };
            assert(before.seq()[bj].0.id() != before.seq()[bk].0.id());
        }
        assert forall|other: K::Id|
            after.has(other) == (before.has(other) && other != id) && (after.has(other)
                ==> after.value(other) == before.value(other)) by {
            if before.has(other) && other != id {
                let j = choose|j: int| #[trigger] before.at(other, j);
                let aj = if j < i { j } else { j - 1 };
                assert(after.at(other, aj));
                after.lemma_row(aj);
                before.lemma_row(j);
            }
            if after.has(other) {
                let j = choose|j: int| #[trigger] after.at(other, j);
                let bj = if j < i { j } else { j + 1 };
                assert(before.at(other, bj));
                if other == id {
                    if bj < i {
                        assert(before.seq()[bj].0.id() != before.seq()[i].0.id());
                    } else {
                        assert(before.seq()[i].0.id() != before.seq()[bj].0.id());
                    }
                }
            }
        }
        assert(after.map() =~= before.map().remove(id));
    }

    /// Keeps the rows whose value `keep` picks.
    pub fn retain<F: Fn(&V) -> bool>(&mut self, keep: F, Ghost(kept): Ghost<spec_fn(V) -> bool>)
        requires
            old(self).wf(),
            forall|v: &V| keep.requires((v,)),
            forall|v: &V, b: bool| keep.ensures((v,), b) ==> b == kept(*v),
        ensures
            final(self).wf(),
            final(self).map() == retained(old(self).map(), kept),
            final(self).seq().len() <= old(self).seq().len(),
    {
        let ghost before = *self;
        let mut i: usize = 0;
        assert(retained(self.map(), kept) =~= retained(before.map(), kept));
        while i < self.rows.len()
            invariant
                self.wf(),
                i <= self.seq().len() <= before.seq().len(),
                self.seq() == self.rows@,
                forall|v: &V| keep.requires((v,)),
                forall|v: &V, b: bool| keep.ensures((v,), b) ==> b == kept(*v),
                retained(self.map(), kept) == retained(before.map(), kept),
                forall|j: int| 0 <= j < i ==> kept((#[trigger] self.seq()[j]).1),
            decreases self.seq().len() - i,
        {
            if keep(&self.rows[i].1) {
                i += 1;
            } else {
                let ghost now = *self;
                let removed = self.rows.remove(i);
                proof {
                    now.lemma_row(i as int);
                    Self::lemma_removed(now, *self, i as int);
                    assert(retained(self.map(), kept) =~= retained(now.map(), kept));
                }
            }
        }
        proof {
            assert forall|id: K::Id| self.map().contains_key(id) implies kept(self.map()[id]) by {
                let j = choose|j: int| #[trigger] self.at(id, j);
                self.lemma_row(j);
            }
            assert(self.map() =~= retained(self.map(), kept));
        }
    }

    /// The value of the row at `i`, to be changed.
    pub fn value_at_mut(&mut self, i: usize) -> (r: &mut V)
        requires
            old(self).wf(),
            i < old(self).seq().len(),
        ensures
            *r == old(self).seq()[i as int].1,
            final(self).seq() == old(self).seq().update(
                i as int,
                (old(self).seq()[i as int].0, *final(r)),
            ),
            final(self).wf(),
    {
        proof {
            let before = *self;
            assert forall|after: Self|
                #[trigger] after.seq() == before.seq().update(
                    i as int,
                    (before.seq()[i as int].0, after.seq()[i as int].1),
                ) implies after.wf() by {
                Self::lemma_replaced(before, after, i as int);
            }
        }
        &mut self.rows[i].1
    }

    /// The key of the row at `i`.
    pub fn key_at(&self, i: usize) -> (r: &K)
        requires
            i < self.seq().len(),
        ensures
            *r == self.seq()[i as int].0,
    {
        &self.rows[i].0
    }

    /// The value of the row at `i`.
    pub fn value_at(&self, i: usize) -> (r: &V)
        requires
            i < self.seq().len(),
        ensures
            *r == self.seq()[i as int].1,
    {
        &self.rows[i].1
    }

    /// There are as many rows as keys.
    pub proof fn lemma_len(&self)
        requires
            self.wf(),
        ensures
            self.map().dom().finite(),
            self.map().dom().len() == self.seq().len(),
        decreases self.seq().len(),
    {
        let ids = self.seq().map_values(|row: (K, V)| row.0.id());
        assert(ids.no_duplicates()) by {
            assert forall|i: int, j: int| 0 <= i < ids.len() && 0 <= j < ids.len() && i
                != j implies ids[i] != ids[j] by {
                if i < j {
                    assert(self.seq()[i].0.id() != self.seq()[j].0.id());
                } else {
                    assert(self.seq()[j].0.id() != self.seq()[i].0.id());
                }
            }
        }
        ids.unique_seq_to_set();
        assert(ids.to_set() =~= self.map().dom()) by {
            assert forall|id: K::Id| ids.to_set().contains(id) == self.map().dom().contains(id) by {
                if self.has(id) {
                    let i = choose|i: int| #[trigger] self.at(id, i);
                    assert(ids[i] == id);
                }
                if ids.contains(id) {
                    let i = choose|i: int| 0 <= i < ids.len() && ids[i] == id;
                    assert(self.at(id, i));
                }
            }
        }
    }
}

/// The entries of a map whose value `kept` picks.
pub open spec fn retained<I, V>(map: Map<I, V>, kept: spec_fn(V) -> bool) -> Map<I, V> {
    Map::new(|id: I| map.contains_key(id) && kept(map[id]), |id: I| map[id])
}

} // verus!
