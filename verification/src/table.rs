//! A small map: entries in a vector, no key twice.

use vstd::prelude::*;

verus! {

/// A key that can be told from any other.
pub trait Key: Copy {
    fn same(&self, other: &Self) -> (r: bool)
        ensures
            r == (*self == *other),
    ;
}

/// A map from `K` to `V`. Its view is that map.
pub struct Table<K, V> {
    entries: Vec<(K, V)>,
}

/// The keys of a list of entries, in order.
pub open spec fn keys_of<K, V>(entries: Seq<(K, V)>) -> Seq<K> {
    entries.map_values(|e: (K, V)| e.0)
}

/// Whether no key occurs twice.
pub open spec fn distinct<K, V>(entries: Seq<(K, V)>) -> bool {
    forall|i: int, j: int|
        #![trigger entries[i], entries[j]]
        0 <= i < j < entries.len() ==> entries[i].0 != entries[j].0
}

/// The map that a list of entries holds.
pub open spec fn map_of<K, V>(entries: Seq<(K, V)>) -> Map<K, V> {
    Map::new(
        |k: K| exists|i: int| 0 <= i < entries.len() && (#[trigger] entries[i]).0 == k,
        |k: K| entries[choose|i: int| 0 <= i < entries.len() && (#[trigger] entries[i]).0 == k].1,
    )
}

/// An entry's key has the entry's value.
pub proof fn lemma_map_of_entry<K, V>(entries: Seq<(K, V)>, i: int)
    requires
        distinct(entries),
        0 <= i < entries.len(),
    ensures
        map_of(entries).dom().contains(entries[i].0),
        map_of(entries)[entries[i].0] == entries[i].1,
{
    let j = choose|j: int| 0 <= j < entries.len() && (#[trigger] entries[j]).0 == entries[i].0;
    assert(entries[i].0 == entries[i].0);
    assert(0 <= j < entries.len() && entries[j].0 == entries[i].0);
    if j < i {
        assert(entries[j].0 != entries[i].0);
    } else if i < j {
        assert(entries[i].0 != entries[j].0);
    }
}

/// There are as many keys as entries.
pub proof fn lemma_map_of_len<K, V>(entries: Seq<(K, V)>)
    requires
        distinct(entries),
    ensures
        map_of(entries).dom().finite(),
        map_of(entries).len() == entries.len(),
{
    let keys = keys_of(entries);
    assert(keys.no_duplicates()) by {
        assert forall|i: int, j: int| 0 <= i < keys.len() && 0 <= j < keys.len() && i != j implies keys[i]
            != keys[j] by {
            if i < j {
                assert(entries[i].0 != entries[j].0);
            } else {
                assert(entries[j].0 != entries[i].0);
            }
        }
    }
    keys.unique_seq_to_set();
    assert(map_of(entries).dom() =~= keys.to_set()) by {
        assert forall|k: K| map_of(entries).dom().contains(k) implies keys.to_set().contains(k) by {
            let i = choose|i: int| 0 <= i < entries.len() && (#[trigger] entries[i]).0 == k;
            assert(keys[i] == k);
        }
        assert forall|k: K| keys.to_set().contains(k) implies map_of(entries).dom().contains(k) by {
            let i = choose|i: int| 0 <= i < keys.len() && keys[i] == k;
            assert(entries[i].0 == k);
        }
    }
    vstd::seq_lib::seq_to_set_is_finite(keys);
}

/// Two lists that agree on every key hold the same map.
proof fn lemma_map_of_ext<K, V>(entries: Seq<(K, V)>, m: Map<K, V>)
    requires
        distinct(entries),
        forall|i: int| 0 <= i < entries.len() ==> m.dom().contains((#[trigger] entries[i]).0) && m[entries[i].0]
            == entries[i].1,
        forall|k: K| #[trigger] m.dom().contains(k) ==> exists|i: int|
            0 <= i < entries.len() && (#[trigger] entries[i]).0 == k,
    ensures
        map_of(entries) == m,
{
    assert forall|k: K| #[trigger] map_of(entries).dom().contains(k) implies m.dom().contains(k) && m[k]
        == map_of(entries)[k] by {
        let i = choose|i: int| 0 <= i < entries.len() && (#[trigger] entries[i]).0 == k;
        lemma_map_of_entry(entries, i);
    }
    assert(map_of(entries) =~= m);
}

impl<K, V> View for Table<K, V> {
    type V = Map<K, V>;

    closed spec fn view(&self) -> Map<K, V> {
        map_of(self.entries@)
    }
}

impl<K, V> Table<K, V> {
    /// No key occurs twice.
    pub closed spec fn wf(&self) -> bool {
        distinct(self.entries@)
    }

    /// The entries, in the order in which they are kept.
    pub closed spec fn listed(&self) -> Seq<(K, V)> {
        self.entries@
    }

    /// The listed entries are the map.
    pub proof fn lemma_listed(&self)
        requires
            self.wf(),
        ensures
            distinct(self.listed()),
            map_of(self.listed()) == self@,
            self@.dom().finite(),
            self@.len() == self.listed().len(),
    {
        lemma_map_of_len(self.entries@);
    }
}

impl<K: Key, V> Table<K, V> {
    pub fn new() -> (t: Self)
        ensures
            t.wf(),
            t@ == Map::<K, V>::empty(),
            t.listed().len() == 0,
    {
        let t = Table { entries: Vec::new() };
        assert(t@ =~= Map::<K, V>::empty());
        t
    }

    pub fn len(&self) -> (n: usize)
        requires
            self.wf(),
        ensures
            n == self@.len(),
            n == self.listed().len(),
            self@.dom().finite(),
    {
        proof {
            lemma_map_of_len(self.entries@);
        }
        self.entries.len()
    }

    fn find(&self, key: &K) -> (r: Option<usize>)
        requires
            self.wf(),
        ensures
            match r {
                Some(i) => i < self.entries@.len() && self.entries@[i as int].0 == *key && self@.dom().contains(
                    *key,
                ) && self@[*key] == self.entries@[i as int].1,
                None => !self@.dom().contains(*key),
            },
    {
        let mut i: usize = 0;
        while i < self.entries.len()
            invariant
                self.wf(),
                i <= self.entries@.len(),
                forall|j: int| 0 <= j < i ==> (#[trigger] self.entries@[j]).0 != *key,
            decreases self.entries@.len() - i,
        {
            if self.entries[i].0.same(key) {
                proof {
                    lemma_map_of_entry(self.entries@, i as int);
                }
                return Some(i);
            }
            i = i + 1;
        }
        None
    }

    pub fn contains_key(&self, key: &K) -> (r: bool)
        requires
            self.wf(),
        ensures
            r == self@.dom().contains(*key),
    {
        self.find(key).is_some()
    }

    pub fn get(&self, key: &K) -> (r: Option<&V>)
        requires
            self.wf(),
        ensures
            match r {
                Some(v) => self@.dom().contains(*key) && *v == self@[*key],
                None => !self@.dom().contains(*key),
            },
    {
        match self.find(key) {
            Some(i) => Some(&self.entries[i].1),
            None => None,
        }
    }

    pub fn get_mut(&mut self, key: &K) -> (r: Option<&mut V>)
        requires
            old(self).wf(),
        ensures
            final(self).wf(),
            match r {
                Some(v) => old(self)@.dom().contains(*key) && *v == old(self)@[*key] && final(self)@ == old(
                    self,
                )@.insert(*key, *final(v)),
                None => !old(self)@.dom().contains(*key) && final(self)@ == old(self)@,
            },
    {
        match self.find(key) {
            Some(i) => {
                let ghost before = self.entries@;
                let ghost m = self@;
                let r = &mut self.entries[i].1;
                proof {
                    let after = before.update(i as int, (*key, *final(r)));
                    assert(distinct(after));
                    assert forall|k: K| #[trigger] m.insert(*key, *final(r)).dom().contains(k) implies exists|j: int|
                        0 <= j < after.len() && (#[trigger] after[j]).0 == k by {
                        if k == *key {
                            assert(after[i as int].0 == k);
                        } else {
                            let j = choose|j: int| 0 <= j < before.len() && (#[trigger] before[j]).0 == k;
                            assert(after[j].0 == k);
                        }
                    }
                    assert forall|j: int| 0 <= j < after.len() implies m.insert(*key, *final(r)).dom().contains(
                        (#[trigger] after[j]).0,
                    ) && m.insert(*key, *final(r))[after[j].0] == after[j].1 by {
                        lemma_map_of_entry(before, j);
                        if j < i {
                            assert(before[j].0 != before[i as int].0);
                        } else if j > i {
                            assert(before[i as int].0 != before[j].0);
                        }
                    }
                    lemma_map_of_ext(after, m.insert(*key, *final(r)));
                }
                Some(r)
            },
            None => None,
        }
    }

    /// Adds a key that is not there yet.
    pub fn insert(&mut self, key: K, value: V)
        requires
            old(self).wf(),
            !old(self)@.dom().contains(key),
        ensures
            final(self).wf(),
            final(self)@ == old(self)@.insert(key, value),
            final(self).listed() == old(self).listed().push((key, value)),
    {
        let ghost before = self.entries@;
        let ghost m = self@;
        self.entries.push((key, value));
        proof {
            let after = self.entries@;
            assert forall|i: int| 0 <= i < before.len() implies (#[trigger] before[i]).0 != key by {
                lemma_map_of_entry(before, i);
            }
            assert(distinct(after)) by {
                assert forall|i: int, j: int|
                    #![trigger after[i], after[j]]
                    0 <= i < j < after.len() implies after[i].0 != after[j].0 by {
                    assert(after[i] == before[i]);
                    if j < before.len() {
                        assert(after[j] == before[j]);
                    }
                }
            }
            assert forall|i: int| 0 <= i < after.len() implies m.insert(key, value).dom().contains(
                (#[trigger] after[i]).0,
            ) && m.insert(key, value)[after[i].0] == after[i].1 by {
                if i < before.len() {
                    assert(after[i] == before[i]);
                    lemma_map_of_entry(before, i);
                }
            }
            assert forall|k: K| #[trigger] m.insert(key, value).dom().contains(k) implies exists|i: int|
                0 <= i < after.len() && (#[trigger] after[i]).0 == k by {
                if k == key {
                    assert(after[before.len() as int].0 == k);
                } else {
                    let i = choose|i: int| 0 <= i < before.len() && (#[trigger] before[i]).0 == k;
                    assert(after[i].0 == k);
                }
            }
            lemma_map_of_ext(after, m.insert(key, value));
        }
    }

    /// Takes a key out, with its value.
    pub fn remove(&mut self, key: &K) -> (r: Option<V>)
        requires
            old(self).wf(),
        ensures
            final(self).wf(),
            final(self)@ == old(self)@.remove(*key),
            match r {
                Some(v) => old(self)@.dom().contains(*key) && v == old(self)@[*key],
                None => !old(self)@.dom().contains(*key),
            },
    {
        match self.find(key) {
            Some(at) => {
                let ghost before = self.entries@;
                let ghost m = self@;
                let (_, value) = self.entries.remove(at);
                proof {
                    let after = self.entries@;
                    let i = at as int;
                    assert(after =~= before.take(i) + before.skip(i + 1));
                    assert forall|a: int, b: int|
                        #![trigger after[a], after[b]]
                        0 <= a < b < after.len() implies after[a].0 != after[b].0 by {
                        let x = if a < i {
                            a
                        } else {
                            a + 1
                        };
                        let y = if b < i {
                            b
                        } else {
                            b + 1
                        };
                        assert(after[a] == before[x] && after[b] == before[y]);
                    }
                    assert forall|a: int| 0 <= a < after.len() implies m.remove(*key).dom().contains(
                        (#[trigger] after[a]).0,
                    ) && m.remove(*key)[after[a].0] == after[a].1 by {
                        let x = if a < i {
                            a
                        } else {
                            a + 1
                        };
                        assert(after[a] == before[x]);
                        lemma_map_of_entry(before, x);
                        if x < i {
                            assert(before[x].0 != before[i].0);
                        } else {
                            assert(before[i].0 != before[x].0);
                        }
                    }
                    assert forall|k: K| #[trigger] m.remove(*key).dom().contains(k) implies exists|a: int|
                        0 <= a < after.len() && (#[trigger] after[a]).0 == k by {
                        let x = choose|x: int| 0 <= x < before.len() && (#[trigger] before[x]).0 == k;
                        if x < i {
                            assert(after[x] == before[x]);
                        } else {
                            assert(after[x - 1] == before[x]);
                        }
                    }
                    lemma_map_of_ext(after, m.remove(*key));
                }
                Some(value)
            },
            None => {
                assert(self@ =~= self@.remove(*key));
                None
            },
        }
    }

    /// The entry kept at a place.
    pub fn entry(&self, at: usize) -> (r: (&K, &V))
        requires
            self.wf(),
            at < self.listed().len(),
        ensures
            *r.0 == self.listed()[at as int].0,
            *r.1 == self.listed()[at as int].1,
            self@.dom().contains(*r.0),
            self@[*r.0] == *r.1,
    {
        proof {
            lemma_map_of_entry(self.entries@, at as int);
        }
        (&self.entries[at].0, &self.entries[at].1)
    }
}

} // verus!
