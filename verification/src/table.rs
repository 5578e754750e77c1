//! A table from texts to values, kept as a list without repeated keys.

use vstd::prelude::*;

use crate::text::same_text;

verus! {

/// Values under keys that are texts. Its view is the map from keys to the
/// views of the values.
pub struct Table<T> {
    entries: Vec<(String, T)>,
}

impl<T: View> View for Table<T> {
    type V = Map<Seq<char>, T::V>;

    closed spec fn view(&self) -> Map<Seq<char>, T::V> {
        Map::new(
            |k: Seq<char>| self.keys().contains(k),
            |k: Seq<char>| self.entries@[self.keys().index_of(k)].1@,
        )
    }
}

impl<T: View> Table<T> {
    /// The keys in the order in which the table holds them.
    pub closed spec fn keys(&self) -> Seq<Seq<char>> {
        self.entries@.map_values(|e: (String, T)| e.0@)
    }

    /// No key occurs twice.
    pub open spec fn wf(&self) -> bool {
        self.keys().no_duplicates()
    }

    /// The keys are those of the map.
    pub proof fn lemma_keys(&self)
        requires
            self.wf(),
        ensures
            self@.dom() =~= self.keys().to_set(),
            self@.dom().len() == self.keys().len(),
            self@.dom().finite(),
    {
        assert(self@.dom() =~= self.keys().to_set());
        self.keys().unique_seq_to_set();
        vstd::seq_lib::seq_to_set_is_finite(self.keys());
    }

    proof fn lemma_entry(&self, i: int)
        requires
            self.wf(),
            0 <= i < self.entries@.len(),
        ensures
            self.keys()[i] == self.entries@[i].0@,
            self@.contains_key(self.entries@[i].0@),
            self@[self.entries@[i].0@] == self.entries@[i].1@,
    {
        let k = self.keys()[i];
        assert(self.keys().contains(k));
        assert(self.keys()[self.keys().index_of(k)] == k);
    }

    proof fn lemma_is(&self, m: Map<Seq<char>, T::V>)
        requires
            self.wf(),
            forall|i: int|
                0 <= i < self.entries@.len() ==> #[trigger] m.contains_key(self.entries@[i].0@)
                    && m[self.entries@[i].0@] == self.entries@[i].1@,
            forall|k: Seq<char>| #[trigger] m.contains_key(k) ==> self.keys().contains(k),
        ensures
            self@ == m,
    {
        assert forall|k: Seq<char>| self@.contains_key(k) implies m.contains_key(k) && m[k]
            == self@[k] by {
            let i = self.keys().index_of(k);
            self.lemma_entry(i);
            assert(m.contains_key(self.entries@[i].0@));
        }
        assert(self@ =~= m);
    }

    /// A table without entries.
    pub fn new() -> (table: Self)
        ensures
            table.wf(),
            table@ == Map::<Seq<char>, T::V>::empty(),
    {
        let table = Table { entries: Vec::new() };
        assert(table@ =~= Map::<Seq<char>, T::V>::empty());
        table
    }

    /// The number of entries.
    pub fn len(&self) -> (n: usize)
        requires
            self.wf(),
        ensures
            n == self@.dom().len(),
            n == self.keys().len(),
    {
        proof {
            self.lemma_keys();
        }
        self.entries.len()
    }

    fn find(&self, key: &str) -> (at: Option<usize>)
        requires
            self.wf(),
        ensures
            at is Some <==> self@.contains_key(key@),
            at matches Some(i) ==> i < self.entries@.len() && self.entries@[i as int].0@ == key@
                && self.entries@[i as int].1@ == self@[key@],
    {
        for i in 0..self.entries.len()
            invariant
                self.wf(),
                forall|j: int| 0 <= j < i ==> #[trigger] self.keys()[j] != key@,
        {
            proof {
                self.lemma_entry(i as int);
            }
            if same_text(self.entries[i].0.as_str(), key) {
                return Some(i);
            }
        }
        None
    }

    /// Whether there is an entry under a key.
    pub fn contains_key(&self, key: &str) -> (found: bool)
        requires
            self.wf(),
        ensures
            found == self@.contains_key(key@),
    {
        self.find(key).is_some()
    }

    /// The value under a key.
    pub fn get(&self, key: &str) -> (value: Option<&T>)
        requires
            self.wf(),
        ensures
            value is Some <==> self@.contains_key(key@),
            value matches Some(v) ==> v@ == self@[key@],
    {
        match self.find(key) {
            Some(i) => Some(&self.entries[i].1),
            None => None,
        }
    }

    /// The key at a place.
    pub fn key_at(&self, i: usize) -> (key: &String)
        requires
            self.wf(),
            i < self.keys().len(),
        ensures
            key@ == self.keys()[i as int],
            self@.contains_key(key@),
    {
        proof {
            self.lemma_entry(i as int);
        }
        &self.entries[i].0
    }

    /// The value at a place.
    pub fn value_at(&self, i: usize) -> (value: &T)
        requires
            self.wf(),
            i < self.keys().len(),
        ensures
            value@ == self@[self.keys()[i as int]],
    {
        proof {
            self.lemma_entry(i as int);
        }
        &self.entries[i].1
    }

    /// Puts a value under a key, in place of the one that was there.
    pub fn insert(&mut self, key: String, value: T)
        requires
            old(self).wf(),
        ensures
            final(self).wf(),
            final(self)@ == old(self)@.insert(key@, value@),
    {
        let ghost before = *self;
        let ghost m = before@.insert(key@, value@);
        match self.find(key.as_str()) {
            Some(i) => {
                self.entries.set(i, (key, value));
                proof {
                    assert(self.keys() =~= before.keys());
                    assert forall|j: int| 0 <= j < self.entries@.len() implies #[trigger]
                        m.contains_key(self.entries@[j].0@) && m[self.entries@[j].0@]
                        == self.entries@[j].1@ by {
                        before.lemma_entry(j);
                        before.lemma_entry(i as int);
                    }
                    self.lemma_is(m);
                }
            },
            None => {
                self.entries.push((key, value));
                proof {
                    assert(self.keys() =~= before.keys().push(key@));
                    assert(self.keys().last() == key@);
                    assert forall|j: int| 0 <= j < self.entries@.len() implies #[trigger]
                        m.contains_key(self.entries@[j].0@) && m[self.entries@[j].0@]
                        == self.entries@[j].1@ by {
                        if j < before.entries@.len() {
                            before.lemma_entry(j);
                        }
                    }
                    assert forall|k: Seq<char>| #[trigger] m.contains_key(k) implies self.keys().contains(
                        k,
                    ) by {
                        if k != key@ {
                            let j = before.keys().index_of(k);
                            assert(self.keys()[j] == k);
                        } else {
                            assert(self.keys()[self.keys().len() - 1] == k);
                        }
                    }
                    self.lemma_is(m);
                }
            },
        }
    }

    /// The entries of the table, in the order in which it holds them.
    pub fn into_entries(self) -> (entries: Vec<(String, T)>)
        requires
            self.wf(),
        ensures
            entries@.len() == self.keys().len(),
            forall|i: int|
                0 <= i < entries@.len() ==> (#[trigger] entries@[i]).0@ == self.keys()[i]
                    && entries@[i].1@ == self@[self.keys()[i]] && self@.contains_key(
                    self.keys()[i],
                ),
    {
        proof {
            assert forall|i: int| 0 <= i < self.entries@.len() implies (#[trigger]
            self.entries@[i]).0@ == self.keys()[i] && self.entries@[i].1@ == self@[self.keys()[i]]
                && self@.contains_key(self.keys()[i]) by {
                self.lemma_entry(i);
            }
        }
        self.entries
    }

    /// Takes the value under a key out of the table.
    pub fn remove(&mut self, key: &str) -> (taken: bool)
        requires
            old(self).wf(),
        ensures
            final(self).wf(),
            final(self)@ == old(self)@.remove(key@),
            taken == old(self)@.contains_key(key@),
    {
        let ghost before = *self;
        let ghost m = before@.remove(key@);
        match self.find(key) {
            Some(i) => {
                self.entries.remove(i);
                proof {
                    assert(self.keys() =~= before.keys().remove(i as int));
                    assert forall|j: int| 0 <= j < self.entries@.len() implies #[trigger]
                        m.contains_key(self.entries@[j].0@) && m[self.entries@[j].0@]
                        == self.entries@[j].1@ by {
                        let b = if j < i { j } else { j + 1 };
                        before.lemma_entry(b);
                        before.lemma_entry(i as int);
                        assert(self.entries@[j] == before.entries@[b]);
                        assert(before.keys()[b] != before.keys()[i as int]);
                    }
                    assert forall|k: Seq<char>| #[trigger] m.contains_key(k) implies self.keys().contains(
                        k,
                    ) by {
                        let b = before.keys().index_of(k);
                        before.lemma_entry(b);
                        before.lemma_entry(i as int);
                        let j = if b < i { b } else { b - 1 };
                        assert(self.keys()[j] == k);
                    }
                    self.lemma_is(m);
                }
                true
            },
            None => {
                assert(m =~= before@);
                false
            },
        }
    }
}

} // verus!
