//! Finite maps keyed by hashed keys or by storage keys.
//!
//! A map keeps its entries in a vector in which no key occurs twice, and is
//! viewed as the mathematical map that the entries spell.

use crate::basic_types::H256;
use crate::storage::StorageKey;
use vstd::prelude::*;

verus! {

/// A key that can be told from another key of its type.
pub trait MapKey: Sized + Copy {
    /// Whether `self` and `other` are the same key.
    fn same(&self, other: &Self) -> (r: bool)
        ensures
            r == (*self == *other),
    ;
}

impl MapKey for H256 {
    fn same(&self, other: &H256) -> (r: bool) {
        *self == *other
    }
}

impl MapKey for StorageKey {
    fn same(&self, other: &StorageKey) -> (r: bool) {
        *self == *other
    }
}

/// Whether no key occurs twice among `entries`.
pub open spec fn distinct_keys<K, T>(entries: Seq<(K, T)>) -> bool {
    forall|i: int, j: int| 0 <= i < j < entries.len() ==> entries[i].0 != entries[j].0
}

/// Whether some entry has the key `key`.
pub open spec fn has_key<K, T>(entries: Seq<(K, T)>, key: K) -> bool {
    exists|i: int| 0 <= i < entries.len() && entries[i].0 == key
}

/// The place of an entry with the key `key`, where there is one.
pub open spec fn index_of_key<K, T>(entries: Seq<(K, T)>, key: K) -> int {
    choose|i: int| 0 <= i < entries.len() && entries[i].0 == key
}

/// The map that `entries` spell: each key that occurs, with the value that
/// stands beside it.
pub open spec fn map_of<K, T>(entries: Seq<(K, T)>) -> Map<K, T> {
    Map::new(|key: K| has_key(entries, key), |key: K| entries[index_of_key(entries, key)].1)
}

/// Each entry of a list without repeated keys is an entry of the map.
pub proof fn lemma_map_of_entry<K, T>(entries: Seq<(K, T)>, i: int)
    requires
        distinct_keys(entries),
        0 <= i < entries.len(),
    ensures
        map_of(entries).dom().contains(entries[i].0),
        map_of(entries)[entries[i].0] == entries[i].1,
{
    let key = entries[i].0;
    assert(has_key(entries, key));
    let j = index_of_key(entries, key);
    assert(i == j);
}

/// Appending an entry with a new key inserts it into the map.
pub proof fn lemma_map_of_push<K, T>(entries: Seq<(K, T)>, key: K, value: T)
    requires
        distinct_keys(entries),
        !has_key(entries, key),
    ensures
        distinct_keys(entries.push((key, value))),
        map_of(entries.push((key, value))) == map_of(entries).insert(key, value),
{
    let after = entries.push((key, value));
    assert forall|i: int, j: int| 0 <= i < j < after.len() implies after[i].0 != after[j].0 by {
        if j == entries.len() {
            assert(entries[i].0 != key);
        }
    }
    assert forall|k: K| has_key(after, k) <==> (k == key || has_key(entries, k)) by {
        if has_key(after, k) {
            let i = index_of_key(after, k);
            if i < entries.len() {
                assert(entries[i].0 == k);
            }
        }
        if has_key(entries, k) {
            let i = index_of_key(entries, k);
            assert(after[i].0 == k);
        }
        if k == key {
            assert(after[entries.len() as int].0 == k);
        }
    }
    assert forall|k: K| has_key(after, k) implies #[trigger] map_of(after)[k] == map_of(
        entries,
    ).insert(key, value)[k] by {
        let i = index_of_key(after, k);
        lemma_map_of_entry(after, i);
        if i < entries.len() {
            assert(entries[i] == after[i]);
            lemma_map_of_entry(entries, i);
        }
    }
    assert(map_of(after) =~= map_of(entries).insert(key, value));
}

/// Replacing the value of an entry replaces it in the map.
pub proof fn lemma_map_of_update<K, T>(entries: Seq<(K, T)>, i: int, value: T)
    requires
        distinct_keys(entries),
        0 <= i < entries.len(),
    ensures
        distinct_keys(entries.update(i, (entries[i].0, value))),
        map_of(entries.update(i, (entries[i].0, value))) == map_of(entries).insert(
            entries[i].0,
            value,
        ),
{
    let key = entries[i].0;
    let after = entries.update(i, (key, value));
    assert forall|a: int, b: int| 0 <= a < b < after.len() implies after[a].0 != after[b].0 by {
        assert(after[a].0 == entries[a].0);
        assert(after[b].0 == entries[b].0);
    }
    assert forall|k: K| has_key(after, k) <==> has_key(entries, k) by {
        if has_key(after, k) {
            let j = index_of_key(after, k);
            assert(entries[j].0 == k);
        }
        if has_key(entries, k) {
            let j = index_of_key(entries, k);
            assert(after[j].0 == k);
        }
    }
    assert(has_key(entries, key));
    assert forall|k: K| has_key(after, k) implies #[trigger] map_of(after)[k] == map_of(
        entries,
    ).insert(key, value)[k] by {
        let j = index_of_key(after, k);
        lemma_map_of_entry(after, j);
        if j != i {
            assert(entries[j] == after[j]);
            lemma_map_of_entry(entries, j);
        }
    }
    assert(map_of(after) =~= map_of(entries).insert(key, value));
}

/// A list without repeated keys spells a finite map with one key for each
/// entry.
pub proof fn lemma_map_of_len<K, T>(entries: Seq<(K, T)>)
    requires
        distinct_keys(entries),
    ensures
        map_of(entries).dom().finite(),
        map_of(entries).dom().len() == entries.len(),
    decreases entries.len(),
{
    if entries.len() == 0 {
        assert(map_of(entries).dom() =~= Set::<K>::empty());
    } else {
        let front = entries.drop_last();
        let last = entries.last();
        lemma_map_of_len(front);
        assert(!has_key(front, last.0)) by {
            if has_key(front, last.0) {
                let i = index_of_key(front, last.0);
                assert(entries[i].0 == entries[entries.len() - 1].0);
            }
        }
        lemma_map_of_push(front, last.0, last.1);
        assert(front.push((last.0, last.1)) =~= entries);
    }
}

/// A finite map from keys of the type `K`.
#[derive(Debug)]
pub struct KeyedMap<K: MapKey, T> {
    entries: Vec<(K, T)>,
}

/// A finite map keyed by hashed keys.
pub type HashedKeyMap<T> = KeyedMap<H256, T>;

/// A finite map keyed by storage keys.
pub type StorageKeyMap<T> = KeyedMap<StorageKey, T>;

impl<K: MapKey, T> View for KeyedMap<K, T> {
    type V = Map<K, T>;

    closed spec fn view(&self) -> Map<K, T> {
        map_of(self.entries@)
    }
}

impl<K: MapKey, T> KeyedMap<K, T> {
    #[verifier::type_invariant]
    spec fn keys_are_distinct(self) -> bool {
        distinct_keys(self.entries@)
    }

    /// The empty map.
    pub fn new() -> (r: KeyedMap<K, T>)
        ensures
            r@ == Map::<K, T>::empty(),
    {
        let r = KeyedMap { entries: Vec::new() };
        assert(r@ =~= Map::<K, T>::empty());
        r
    }

    /// The number of keys.
    pub fn len(&self) -> (r: usize)
        ensures
            self@.dom().finite(),
            r == self@.dom().len(),
    {
        proof {
            use_type_invariant(self);
            lemma_map_of_len(self.entries@);
        }
        self.entries.len()
    }

    /// Whether the map has no key.
    pub fn is_empty(&self) -> (r: bool)
        ensures
            r == (self@ == Map::<K, T>::empty()),
    {
        proof {
            use_type_invariant(self);
            lemma_map_of_len(self.entries@);
            if self.entries@.len() == 0 {
                assert(self@ =~= Map::<K, T>::empty());
            }
        }
        self.entries.len() == 0
    }

    /// The place of the entry with the key `key`.
    fn position(&self, key: &K) -> (r: Option<usize>)
        ensures
            match r {
                Some(i) => i < self.entries@.len() && self.entries@[i as int].0 == *key,
                None => !has_key(self.entries@, *key),
            },
    {
        let mut i: usize = 0;
        while i < self.entries.len()
            invariant
                i <= self.entries@.len(),
                forall|j: int| 0 <= j < i ==> self.entries@[j].0 != *key,
            decreases self.entries@.len() - i,
        {
            if self.entries[i].0.same(key) {
                return Some(i);
            }
            i += 1;
        }
        None
    }

    /// Whether `key` is a key of the map.
    pub fn contains_key(&self, key: &K) -> (r: bool)
        ensures
            r == self@.dom().contains(*key),
    {
        self.position(key).is_some()
    }

    /// The value at `key`, if `key` is a key of the map.
    pub fn get(&self, key: &K) -> (r: Option<&T>)
        ensures
            match r {
                Some(value) => self@.dom().contains(*key) && *value == self@[*key],
                None => !self@.dom().contains(*key),
            },
    {
        match self.position(key) {
            Some(i) => {
                proof {
                    use_type_invariant(self);
                    lemma_map_of_entry(self.entries@, i as int);
                }
                Some(&self.entries[i].1)
            },
            None => None,
        }
    }

    /// Sets the value at `key` to `value`, whether or not `key` was a key
    /// before.
    pub fn insert(&mut self, key: K, value: T)
        ensures
            final(self)@ == old(self)@.insert(key, value),
            final(self)@.dom().finite(),
    {
        proof {
            use_type_invariant(&*self);
            lemma_map_of_len(self.entries@);
        }
        let found = self.position(&key);
        let mut entries: Vec<(K, T)> = Vec::new();
        std::mem::swap(&mut entries, &mut self.entries);
        match found {
            Some(i) => {
                proof {
                    lemma_map_of_update(entries@, i as int, value);
                }
                entries[i] = (key, value);
            },
            None => {
                proof {
                    lemma_map_of_push(entries@, key, value);
                }
                entries.push((key, value));
            },
        }
        self.entries = entries;
    }

    /// The entries of the map, each key once.
    pub fn entries(&self) -> (r: &Vec<(K, T)>)
        ensures
            distinct_keys(r@),
            map_of(r@) == self@,
            self@.dom().finite(),
    {
        proof {
            use_type_invariant(self);
            lemma_map_of_len(self.entries@);
        }
        &self.entries
    }
}

} // verus!
