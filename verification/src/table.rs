//! A small keyed table that keeps its entries in the order in which their
//! keys first came in, so that nothing read from it depends on hashing.

use vstd::prelude::*;

verus! {

/// A key that can be compared by what it stands for.
pub trait TableKey: View + Sized {
    /// Whether two keys stand for the same value.
    fn same(&self, other: &Self) -> (equal: bool)
        ensures
            equal == (self@ == other@),
    ;
}

impl TableKey for String {
    fn same(&self, other: &Self) -> (equal: bool) {
        *self == *other
    }
}

impl TableKey for Vec<u8> {
    fn same(&self, other: &Self) -> (equal: bool) {
        if self.len() != other.len() {
            return false;
        }
        let mut i: usize = 0;
        while i < self.len()
            invariant
                i <= self@.len(),
                self@.len() == other@.len(),
                forall|k: int| 0 <= k < i ==> self@[k] == other@[k],
            decreases self@.len() - i,
        {
            if self[i] != other[i] {
                return false;
            }
            i = i + 1;
        }
        assert(self@ =~= other@);
        true
    }
}

impl TableKey for u64 {
    fn same(&self, other: &Self) -> (equal: bool) {
        *self == *other
    }
}

/// A value that can be copied with what it stands for.
pub trait Replica: View + Sized {
    /// A copy that stands for the same value.
    fn replica(&self) -> (copy: Self)
        ensures
            copy@ == self@,
    ;
}

impl Replica for String {
    fn replica(&self) -> (copy: Self) {
        self.clone()
    }
}

impl Replica for Vec<u8> {
    fn replica(&self) -> (copy: Self) {
        let mut copy: Vec<u8> = Vec::with_capacity(self.len());
        let mut i: usize = 0;
        while i < self.len()
            invariant
                i <= self@.len(),
                copy@ == self@.take(i as int),
            decreases self@.len() - i,
        {
            copy.push(self[i]);
            assert(self@.take(i + 1) =~= self@.take(i as int).push(self@[i as int]));
            i = i + 1;
        }
        assert(self@.take(i as int) =~= self@);
        copy
    }
}

impl Replica for u128 {
    fn replica(&self) -> (copy: Self) {
        *self
    }
}

impl Replica for u64 {
    fn replica(&self) -> (copy: Self) {
        *self
    }
}

/// Where `key` stands in `entries`, if it stands there.
pub open spec fn position<A, B>(entries: Seq<(A, B)>, key: A) -> Option<int>
    decreases entries.len(),
{
    if entries.len() == 0 {
        None
    } else if entries.last().0 == key {
        Some(entries.len() - 1)
    } else {
        position(entries.drop_last(), key)
    }
}

/// The value stored under `key`, if there is one.
pub open spec fn lookup<A, B>(entries: Seq<(A, B)>, key: A) -> Option<B> {
    match position(entries, key) {
        Some(i) => Some(entries[i].1),
        None => None,
    }
}

/// `entries` with `value` stored under `key`: in the place of the value
/// that was stored there, or at the end.
pub open spec fn put<A, B>(entries: Seq<(A, B)>, key: A, value: B) -> Seq<(A, B)> {
    match position(entries, key) {
        Some(i) => entries.update(i, (key, value)),
        None => entries.push((key, value)),
    }
}

/// `entries` without the entry of `key`.
pub open spec fn delete<A, B>(entries: Seq<(A, B)>, key: A) -> Seq<(A, B)> {
    match position(entries, key) {
        Some(i) => entries.remove(i),
        None => entries,
    }
}

/// Whether no key stands in `entries` twice.
pub open spec fn distinct_keys<A, B>(entries: Seq<(A, B)>) -> bool {
    forall|i: int, j: int|
        0 <= i < j < entries.len() ==> (#[trigger] entries[i]).0 != (#[trigger] entries[j]).0
}

/// What `position` finds is an entry of the key, and no entry of the key
/// stands behind it.
pub proof fn lemma_position<A, B>(entries: Seq<(A, B)>, key: A)
    ensures
        match position(entries, key) {
            Some(i) => 0 <= i < entries.len() && entries[i].0 == key,
            None => true,
        },
        forall|j: int|
            0 <= j < entries.len() && (#[trigger] entries[j]).0 == key ==> position(
                entries,
                key,
            ) is Some && j <= position(entries, key)->0,
    decreases entries.len(),
{
    if entries.len() > 0 && entries.last().0 != key {
        lemma_position(entries.drop_last(), key);
        assert forall|j: int| 0 <= j < entries.len() && (#[trigger] entries[j]).0 == key implies position(
            entries,
            key,
        ) is Some && j <= position(entries, key)->0 by {
            assert(entries.drop_last()[j].0 == key);
        }
    }
}

/// After `put`, the key holds the new value and every other key holds what
/// it held. Keys stay distinct.
pub proof fn lemma_put<A, B>(entries: Seq<(A, B)>, key: A, value: B, other: A)
    ensures
        lookup(put(entries, key, value), other) == if other == key {
            Some(value)
        } else {
            lookup(entries, other)
        },
        distinct_keys(entries) ==> distinct_keys(put(entries, key, value)),
{
    let after = put(entries, key, value);
    lemma_position(entries, key);
    lemma_position(entries, other);
    lemma_position(after, other);
    match position(entries, key) {
        Some(i) => {
            assert forall|j: int| 0 <= j < after.len() implies (#[trigger] after[j]).0
                == entries[j].0 by {}
            if other != key {
                match position(entries, other) {
                    Some(j) => {
                        assert(after[j].0 == other);
                        let found = position(after, other)->0;
                        assert(entries[found].0 == other);
                    },
                    None => {
                        if position(after, other) is Some {
                            let found = position(after, other)->0;
                            assert(entries[found].0 == other);
                        }
                    },
                }
            } else {
                assert(after[i].0 == key);
                let found = position(after, key)->0;
                assert(entries[found].0 == key);
            }
            if distinct_keys(entries) {
                assert forall|a: int, b: int| 0 <= a < b < after.len() implies (#[trigger] after[a]).0
                    != (#[trigger] after[b]).0 by {
                    assert(entries[a].0 != entries[b].0);
                }
            }
        },
        None => {
            assert(after.drop_last() =~= entries);
            if distinct_keys(entries) {
                assert forall|a: int, b: int| 0 <= a < b < after.len() implies (#[trigger] after[a]).0
                    != (#[trigger] after[b]).0 by {
                    if b < entries.len() {
                        assert(entries[a].0 != entries[b].0);
                    } else {
                        assert(entries[a].0 != key);
                    }
                }
            }
        },
    }
}

/// After `delete`, the key holds nothing and every other key holds what it
/// held, where keys are distinct. Keys stay distinct.
pub proof fn lemma_delete<A, B>(entries: Seq<(A, B)>, key: A, other: A)
    requires
        distinct_keys(entries),
    ensures
        lookup(delete(entries, key), other) == if other == key {
            None
        } else {
            lookup(entries, other)
        },
        distinct_keys(delete(entries, key)),
{
    let after = delete(entries, key);
    lemma_position(entries, key);
    lemma_position(entries, other);
    lemma_position(after, other);
    match position(entries, key) {
        Some(i) => {
            assert forall|a: int, b: int| 0 <= a < b < after.len() implies (#[trigger] after[a]).0
                != (#[trigger] after[b]).0 by {
                let a0 = if a < i {
                    a
                } else {
                    a + 1
                };
                let b0 = if b < i {
                    b
                } else {
                    b + 1
                };
                assert(entries[a0].0 != entries[b0].0);
            }
            if position(after, other) is Some {
                let found = position(after, other)->0;
                let origin = if found < i {
                    found
                } else {
                    found + 1
                };
                assert(entries[origin].0 == other);
                if other == key {
                    if origin < i {
                        assert(entries[origin].0 != entries[i].0);
                    } else {
                        assert(entries[i].0 != entries[origin].0);
                    }
                } else {
                    let j = position(entries, other)->0;
                    if j < origin {
                        assert(entries[j].0 != entries[origin].0);
                    }
                    if origin < j {
                        assert(entries[origin].0 != entries[j].0);
                    }
                }
            } else if other != key {
                if position(entries, other) is Some {
                    let j = position(entries, other)->0;
                    let moved = if j < i {
                        j
                    } else {
                        j - 1
                    };
                    assert(after[moved].0 == other);
                }
            }
        },
        None => {},
    }
}

/// A table from keys to values.
pub struct Table<K, V> {
    entries: Vec<(K, V)>,
}

impl<K: TableKey, V: View> View for Table<K, V> {
    type V = Seq<(K::V, V::V)>;

    closed spec fn view(&self) -> Seq<(K::V, V::V)> {
        Seq::new(self.entries@.len(), |i: int| (self.entries@[i].0@, self.entries@[i].1@))
    }
}

impl<K: TableKey, V: View> Table<K, V> {
    /// The invariant that every method keeps: no key stands in the table
    /// twice.
    pub open spec fn wf(&self) -> bool {
        distinct_keys(self@)
    }

    /// The empty table.
    pub fn new() -> (table: Self)
        ensures
            table@ == Seq::<(K::V, V::V)>::empty(),
            table.wf(),
    {
        let table = Table { entries: Vec::new() };
        assert(table@ =~= Seq::empty());
        table
    }

    /// Number of entries.
    pub fn len(&self) -> (n: usize)
        ensures
            n == self@.len(),
    {
        self.entries.len()
    }

    /// The key of the entry at `i`.
    pub fn key_at(&self, i: usize) -> (key: &K)
        requires
            i < self@.len(),
        ensures
            key@ == self@[i as int].0,
    {
        &self.entries[i].0
    }

    /// The value of the entry at `i`.
    pub fn value_at(&self, i: usize) -> (value: &V)
        requires
            i < self@.len(),
        ensures
            value@ == self@[i as int].1,
    {
        &self.entries[i].1
    }

    /// Where the entry of `key` stands.
    fn find(&self, key: &K) -> (found: Option<usize>)
        ensures
            match found {
                Some(i) => position(self@, key@) == Some(i as int) && i < self@.len(),
                None => position(self@, key@) is None,
            },
    {
        let mut i: usize = self.entries.len();
        proof {
            assert(self@.take(i as int) =~= self@);
        }
        while i > 0
            invariant
                i <= self@.len(),
                self@.len() == self.entries@.len(),
                position(self@, key@) == position(self@.take(i as int), key@),
            decreases i,
        {
            if self.entries[i - 1].0.same(key) {
                return Some(i - 1);
            }
            proof {
                assert(self@.take(i as int).drop_last() =~= self@.take(i - 1));
            }
            i = i - 1;
        }
        None
    }

    /// The value stored under `key`, if there is one.
    pub fn get(&self, key: &K) -> (value: Option<&V>)
        ensures
            match value {
                Some(v) => lookup(self@, key@) == Some(v@),
                None => lookup(self@, key@) is None,
            },
    {
        match self.find(key) {
            Some(i) => Some(&self.entries[i].1),
            None => None,
        }
    }

    /// The value stored under `key`, to be changed in place.
    pub fn get_mut(&mut self, key: &K) -> (value: Option<&mut V>)
        ensures
            match value {
                Some(v) => {
                    &&& position(old(self)@, key@) is Some
                    &&& lookup(old(self)@, key@) == Some(v@)
                    &&& final(self)@ == old(self)@.update(
                        position(old(self)@, key@)->0,
                        (key@, final(v)@),
                    )
                },
                None => lookup(old(self)@, key@) is None && final(self)@ == old(self)@,
            },
    {
        proof {
            lemma_position(self@, key@);
        }
        match self.find(key) {
            Some(i) => {
                let value = &mut self.entries[i].1;
                Some(value)
            },
            None => None,
        }
    }

    /// Stores `value` under `key`, in the place of the value that was stored
    /// there, or at the end.
    pub fn put(&mut self, key: K, value: V)
        ensures
            final(self)@ == put(old(self)@, key@, value@),
            old(self).wf() ==> final(self).wf(),
    {
        proof {
            lemma_put(self@, key@, value@, key@);
        }
        match self.find(&key) {
            Some(i) => {
                self.entries.set(i, (key, value));
                assert(self@ =~= put(old(self)@, key@, value@));
            },
            None => {
                self.entries.push((key, value));
                assert(self@ =~= put(old(self)@, key@, value@));
            },
        }
    }

    /// Removes the entry of `key`, if there is one.
    pub fn delete(&mut self, key: &K)
        ensures
            final(self)@ == delete(old(self)@, key@),
            old(self).wf() ==> final(self).wf(),
    {
        proof {
            if self.wf() {
                lemma_delete(self@, key@, key@);
            }
        }
        match self.find(key) {
            Some(i) => {
                self.entries.remove(i);
                assert(self@ =~= delete(old(self)@, key@));
            },
            None => {},
        }
    }
}

impl<K: TableKey + Replica, V: Replica> Replica for Table<K, V> {
    fn replica(&self) -> (copy: Self) {
        let mut entries: Vec<(K, V)> = Vec::with_capacity(self.entries.len());
        let mut i: usize = 0;
        while i < self.entries.len()
            invariant
                i <= self.entries@.len(),
                entries@.len() == i,
                forall|k: int|
                    0 <= k < i ==> (#[trigger] entries@[k]).0@ == self.entries@[k].0@
                        && entries@[k].1@ == self.entries@[k].1@,
            decreases self.entries@.len() - i,
        {
            entries.push((self.entries[i].0.replica(), self.entries[i].1.replica()));
            i = i + 1;
        }
        let copy = Table { entries };
        assert(copy@ =~= self@);
        copy
    }
}

} // verus!
