//! An insertion-ordered map from text keys to values.
//!
//! vstd states what the standard maps do only for keys whose hashing or
//! ordering it knows, which are the integers: of a `HashMap` or `BTreeMap`
//! keyed by `String`, Verus proves nothing, not even the length after one
//! insertion. Hence this map. Lookup walks the entries, so filling a map with
//! n keys takes in the order of n² comparisons.
//!
//! The map keeps its entries in the order in which their keys first arrived,
//! so that everything computed from it is a function of its contents alone.
//! Contracts speak of it in two ways: as the ordered sequences `keys()` and
//! `values()`, and as the `Map` that `@` gives.

use vstd::prelude::*;

verus! {

/// A map from text keys to values of type `V`, in insertion order.
#[derive(Debug)]
pub struct StrMap<V> {
    entries: Vec<(String, V)>,
}

impl<V> View for StrMap<V> {
    type V = Map<Seq<char>, V>;

    open spec fn view(&self) -> Map<Seq<char>, V> {
        Map::new(
            |k: Seq<char>| self.keys().contains(k),
            |k: Seq<char>| self.values()[self.keys().index_of(k)],
        )
    }
}

/// The keys of a run of entries.
spec fn entry_keys<V>(entries: Seq<(String, V)>) -> Seq<Seq<char>> {
    entries.map_values(|e: (String, V)| e.0@)
}

/// The values of a run of entries.
spec fn entry_values<V>(entries: Seq<(String, V)>) -> Seq<V> {
    entries.map_values(|e: (String, V)| e.1)
}

impl<V> StrMap<V> {
    /// The keys, in insertion order.
    pub closed spec fn keys(&self) -> Seq<Seq<char>> {
        entry_keys(self.entries@)
    }

    /// The values, each at the position of its key.
    pub closed spec fn values(&self) -> Seq<V> {
        entry_values(self.entries@)
    }

    /// No key occurs twice, and every key has its value.
    #[verifier::type_invariant]
    pub open spec fn wf(&self) -> bool {
        self.keys().no_duplicates() && self.keys().len() == self.values().len()
    }

    /// How the `Map` view reads off the ordered one.
    pub proof fn lemma_view(&self)
        requires
            self.wf(),
        ensures
            self@.dom() == self.keys().to_set(),
            self@.dom().finite(),
            self@.dom().len() == self.keys().len(),
            forall|i: int|
                0 <= i < self.keys().len() ==> self@.contains_key(#[trigger] self.keys()[i])
                    && self@[self.keys()[i]] == self.values()[i],
    {
        let keys = self.keys();
        assert(self@.dom() =~= keys.to_set());
        vstd::seq_lib::seq_to_set_is_finite(keys);
        keys.unique_seq_to_set();
        assert forall|i: int| 0 <= i < keys.len() implies self@.contains_key(#[trigger] keys[i])
            && self@[keys[i]] == self.values()[i] by {
            assert(keys.contains(keys[i]));
            let j = keys.index_of(keys[i]);
            assert(keys[j] == keys[i]);
        }
    }

    /// An empty map.
    pub fn new() -> (m: Self)
        ensures
            m.keys() == Seq::<Seq<char>>::empty(),
            m.values() == Seq::<V>::empty(),
            m@ == Map::<Seq<char>, V>::empty(),
    {
        let entries: Vec<(String, V)> = Vec::new();
        assert(entry_keys(entries@) =~= Seq::<Seq<char>>::empty());
        assert(entry_values(entries@) =~= Seq::<V>::empty());
        let m = StrMap { entries };
        assert(m.keys() =~= Seq::<Seq<char>>::empty());
        assert(m.values() =~= Seq::<V>::empty());
        assert(m@ =~= Map::<Seq<char>, V>::empty());
        m
    }

    /// The number of entries.
    pub fn len(&self) -> (n: usize)
        ensures
            n == self.keys().len(),
            n == self@.dom().len(),
    {
        proof {
            use_type_invariant(self);
            self.lemma_view();
        }
        self.entries.len()
    }

    /// Whether the map has no entry.
    pub fn is_empty(&self) -> (r: bool)
        ensures
            r == (self.keys().len() == 0),
            r == (self@ == Map::<Seq<char>, V>::empty()),
    {
        proof {
            use_type_invariant(self);
            self.lemma_view();
            if self.keys().len() == 0 {
                assert(self@ =~= Map::<Seq<char>, V>::empty());
            } else {
                assert(self@.contains_key(self.keys()[0]));
            }
        }
        self.entries.len() == 0
    }

    /// The position of `key`, if the map holds it.
    pub fn index_of(&self, key: &str) -> (r: Option<usize>)
        ensures
            match r {
                Some(i) => i < self.keys().len() && self.keys()[i as int] == key@,
                None => !self.keys().contains(key@),
            },
    {
        let wanted = key.to_owned();
        let mut i: usize = 0;
        while i < self.entries.len()
            invariant
                i <= self.entries.len(),
                wanted@ == key@,
                forall|j: int| 0 <= j < i ==> self.keys()[j] != key@,
            decreases self.entries.len() - i,
        {
            if self.entries[i].0 == wanted {
                return Some(i);
            }
            i += 1;
        }
        None
    }

    /// Whether the map holds `key`.
    pub fn contains_key(&self, key: &str) -> (r: bool)
        ensures
            r == self@.contains_key(key@),
    {
        self.index_of(key).is_some()
    }

    /// The value of `key`, if the map holds it.
    pub fn get(&self, key: &str) -> (r: Option<&V>)
        ensures
            match r {
                Some(v) => self@.contains_key(key@) && *v == self@[key@],
                None => !self@.contains_key(key@),
            },
    {
        proof {
            use_type_invariant(self);
            self.lemma_view();
        }
        match self.index_of(key) {
            Some(i) => Some(&self.entries[i].1),
            None => None,
        }
    }

    /// The key at position `i`.
    pub fn key_at(&self, i: usize) -> (r: &String)
        requires
            i < self.keys().len(),
        ensures
            r@ == self.keys()[i as int],
    {
        &self.entries[i].0
    }

    /// The value at position `i`.
    pub fn value_at(&self, i: usize) -> (r: &V)
        requires
            i < self.keys().len(),
        ensures
            *r == self.values()[i as int],
            *r == self@[self.keys()[i as int]],
    {
        proof {
            use_type_invariant(self);
            self.lemma_view();
        }
        &self.entries[i].1
    }

    /// Binds `key` to `value`. A key that the map already holds keeps its
    /// position and hands back the value it had; a new key goes to the end.
    pub fn insert(&mut self, key: String, value: V) -> (previous: Option<V>)
        ensures
            final(self)@ == old(self)@.insert(key@, value),
            match previous {
                Some(v) => old(self)@.contains_key(key@) && v == old(self)@[key@],
                None => !old(self)@.contains_key(key@),
            },
            old(self).keys().contains(key@) ==> final(self).keys() == old(self).keys()
                && final(self).values() == old(self).values().update(
                old(self).keys().index_of(key@),
                value,
            ),
            !old(self).keys().contains(key@) ==> final(self).keys() == old(self).keys().push(key@)
                && final(self).values() == old(self).values().push(value),
    {
        proof {
            use_type_invariant(&*self);
            self.lemma_view();
        }
        let ghost before = *self;
        let found = self.index_of(key.as_str());
        let mut entries: Vec<(String, V)> = Vec::new();
        std::mem::swap(&mut entries, &mut self.entries);
        assert(self.keys() =~= Seq::<Seq<char>>::empty());
        assert(self.values() =~= Seq::<V>::empty());
        let previous = match found {
            Some(i) => {
                entries.push((key, value));
                let (_, v) = entries.swap_remove(i);
                proof {
                    let j = before.keys().index_of(key@);
                    assert(before.keys()[j] == key@);
                    assert(j == i);
                    assert(entry_keys(entries@) =~= before.keys());
                    assert(entry_values(entries@) =~= before.values().update(i as int, value));
                }
                Some(v)
            },
            None => {
                entries.push((key, value));
                proof {
                    assert(entry_keys(entries@) =~= before.keys().push(key@));
                    assert(entry_values(entries@) =~= before.values().push(value));
                }
                None
            },
        };
        proof {
            let after = StrMap { entries };
            after.lemma_insert_view(before, key@, value);
        }
        self.entries = entries;
        previous
    }

    /// What an insertion into the ordered view does to the `Map` view.
    proof fn lemma_insert_view(&self, before: Self, key: Seq<char>, value: V)
        requires
            before.wf(),
            before.keys().contains(key) ==> self.keys() == before.keys() && self.values()
                == before.values().update(before.keys().index_of(key), value),
            !before.keys().contains(key) ==> self.keys() == before.keys().push(key)
                && self.values() == before.values().push(value),
        ensures
            self.wf(),
            self@ == before@.insert(key, value),
    {
        before.lemma_view();
        if before.keys().contains(key) {
            let i = before.keys().index_of(key);
            assert(before.keys()[i] == key);
        } else {
            assert forall|a: int, b: int|
                0 <= a < self.keys().len() && 0 <= b < self.keys().len() && a != b implies self.keys()[a]
                != self.keys()[b] by {
                if a < before.keys().len() {
                    assert(before.keys().contains(self.keys()[a]));
                }
                if b < before.keys().len() {
                    assert(before.keys().contains(self.keys()[b]));
                }
            }
        }
        self.lemma_view();
        assert forall|k: Seq<char>| self@.contains_key(k) <==> before@.insert(
            key,
            value,
        ).contains_key(k) by {
            if self.keys().contains(k) {
                let i = self.keys().index_of(k);
                assert(self.keys()[i] == k);
                if i < before.keys().len() {
                    assert(before.keys().contains(before.keys()[i]));
                }
            }
            if before.keys().contains(k) {
                let i = before.keys().index_of(k);
                assert(before.keys()[i] == k);
                assert(self.keys()[i] == k);
            }
            if k == key {
                if before.keys().contains(key) {
                    let i = before.keys().index_of(key);
                    assert(self.keys()[i] == key);
                } else {
                    assert(self.keys()[before.keys().len() as int] == key);
                }
            }
        }
        assert forall|k: Seq<char>| self@.contains_key(k) implies self@[k] == before@.insert(
            key,
            value,
        )[k] by {
            let i = self.keys().index_of(k);
            assert(self.keys()[i] == k);
            assert(self@[self.keys()[i]] == self.values()[i]);
            if k != key {
                assert(i < before.keys().len());
                assert(before@[before.keys()[i]] == before.values()[i]);
            } else if before.keys().contains(key) {
                let j = before.keys().index_of(key);
                assert(before.keys()[j] == key);
                assert(self.keys()[j] == key);
            }
        }
        assert(self@ =~= before@.insert(key, value));
    }
}

impl<V: Clone> Clone for StrMap<V> {
    /// A map with the same keys in the same order, each with a clone of its
    /// value.
    fn clone(&self) -> (r: Self)
        ensures
            r.keys() == self.keys(),
            r.values().len() == self.values().len(),
            forall|i: int|
                0 <= i < self.values().len() ==> cloned::<V>(
                    #[trigger] self.values()[i],
                    r.values()[i],
                ),
    {
        proof {
            use_type_invariant(self);
        }
        let mut entries: Vec<(String, V)> = Vec::new();
        let mut i: usize = 0;
        while i < self.entries.len()
            invariant
                i <= self.entries.len(),
                entry_keys(entries@) == entry_keys(self.entries@).take(i as int),
                entries@.len() == i,
                forall|j: int|
                    0 <= j < i ==> cloned::<V>(
                        #[trigger] entry_values(self.entries@)[j],
                        entry_values(entries@)[j],
                    ),
            decreases self.entries.len() - i,
        {
            let key = self.entries[i].0.clone();
            let value = self.entries[i].1.clone();
            let ghost before = entries@;
            entries.push((key, value));
            proof {
                assert(entry_keys(entries@) =~= entry_keys(before).push(key@));
                assert(entry_keys(self.entries@).take(i + 1) =~= entry_keys(self.entries@).take(
                    i as int,
                ).push(key@));
                assert forall|j: int| 0 <= j < i + 1 implies cloned::<V>(
                    #[trigger] entry_values(self.entries@)[j],
                    entry_values(entries@)[j],
                ) by {
                    if j < i {
                        assert(entry_values(entries@)[j] == entry_values(before)[j]);
                    }
                }
            }
            i += 1;
        }
        assert(entry_keys(self.entries@).take(i as int) =~= entry_keys(self.entries@));
        StrMap { entries }
    }
}

} // verus!
