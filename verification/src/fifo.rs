//! A bounded memo: a map that forgets its oldest entry at capacity.

use vstd::prelude::*;

verus! {

/// What a value is remembered by.
pub trait MemoKey {
    type Id;

    /// What tells one key from another.
    spec fn id(&self) -> Self::Id;

    fn same(&self, other: &Self) -> (r: bool)
        ensures
            r == (self.id() == other.id()),
    ;
}

impl MemoKey for u32 {
    type Id = u32;

    open spec fn id(&self) -> u32 {
        *self
    }

    fn same(&self, other: &Self) -> (r: bool) {
        *self == *other
    }
}

impl MemoKey for String {
    type Id = Seq<char>;

    open spec fn id(&self) -> Seq<char> {
        self@
    }

    fn same(&self, other: &Self) -> (r: bool) {
        *self == *other
    }
}

/// Whether a value is remembered for `key`.
pub open spec fn held<K: MemoKey, V>(entries: Seq<(K, V)>, key: K) -> bool {
    exists|i: int| 0 <= i < entries.len() && (#[trigger] entries[i]).0.id() == key.id()
}

/// The entries with one more, without the oldest where they were too many.
pub open spec fn remembered<K, V>(
    entries: Seq<(K, V)>,
    capacity: int,
    key: K,
    value: V,
) -> Seq<(K, V)> {
    if entries.len() >= capacity {
        entries.skip(1).push((key, value))
    } else {
        entries.push((key, value))
    }
}

/// A memo of at most `capacity` entries, oldest first.
pub struct BoundedFifo<K, V> {
    entries: Vec<(K, V)>,
    capacity: usize,
}

impl<K, V> View for BoundedFifo<K, V> {
    type V = Seq<(K, V)>;

    closed spec fn view(&self) -> Seq<(K, V)> {
        self.entries@
    }
}

impl<K: MemoKey, V> BoundedFifo<K, V> {
    pub closed spec fn capacity(&self) -> int {
        self.capacity as int
    }

    /// No more entries than the capacity, and no key twice.
    pub open spec fn wf(&self) -> bool {
        &&& self.capacity() > 0
        &&& self@.len() <= self.capacity()
        &&& forall|i: int, j: int|
            0 <= i < j < self@.len() ==> (#[trigger] self@[i]).0.id() != (#[trigger] self@[j]).0.id()
    }

    pub fn new(capacity: usize) -> (r: Self)
        requires
            capacity > 0,
        ensures
            r.wf(),
            r.capacity() == capacity,
            r@.len() == 0,
    {
        BoundedFifo { entries: Vec::new(), capacity }
    }

    fn find(&self, key: &K) -> (r: Option<usize>)
        ensures
            match r {
                Some(i) => i < self@.len() && self@[i as int].0.id() == key.id(),
                None => !held(self@, *key),
            },
    {
        let n: usize = self.entries.len();
        let mut i: usize = 0;
        while i < n
            invariant
                i <= n,
                n == self@.len(),
                forall|j: int| 0 <= j < i ==> (#[trigger] self@[j]).0.id() != key.id(),
            decreases n - i,
        {
            if self.entries[i].0.same(key) {
                return Some(i);
            }
            i += 1;
        }
        None
    }

    /// The value that is remembered for `key`.
    pub fn get(&self, key: &K) -> (r: Option<&V>)
        ensures
            match r {
                Some(v) => exists|i: int|
                    0 <= i < self@.len() && (#[trigger] self@[i]).0.id() == key.id() && self@[i].1 == *v,
                None => !held(self@, *key),
            },
    {
        match self.find(key) {
            Some(i) => Some(&self.entries[i].1),
            None => None,
        }
    }

    /// The value that is remembered for `key`; on a miss the one that `make`
    /// gives, which is remembered in place of the oldest at capacity.
    pub fn get_or_insert_with(&mut self, key: K, make: impl FnOnce() -> V) -> (r: &V)
        requires
            old(self).wf(),
            make.requires(()),
        ensures
            final(self).wf(),
            final(self).capacity() == old(self).capacity(),
            held(old(self)@, key) ==> final(self)@ == old(self)@ && exists|i: int|
                0 <= i < old(self)@.len() && (#[trigger] old(self)@[i]).0.id() == key.id() && old(self)@[i].1
                    == *r,
            !held(old(self)@, key) ==> make.ensures((), *r) && final(self)@ == remembered(
                old(self)@,
                old(self).capacity(),
                key,
                *r,
            ),
    {
        match self.find(&key) {
            Some(i) => &self.entries[i].1,
            None => {
                let value: V = make();
                if self.entries.len() >= self.capacity {
                    self.entries.remove(0);
                    assert(self.entries@ =~= old(self)@.skip(1));
                }
                let ghost before = self.entries@;
                assert forall|j: int| 0 <= j < before.len() implies (#[trigger] before[j]).0.id()
                    != key.id() by {
                    if before.len() < old(self)@.len() {
                        assert(before[j] == old(self)@[j + 1]);
                    } else {
                        assert(before[j] == old(self)@[j]);
                    }
                }
                self.entries.push((key, value));
                let last: usize = self.entries.len() - 1;
                &self.entries[last].1
            },
        }
    }

    pub fn len(&self) -> (n: usize)
        ensures
            n == self@.len(),
    {
        self.entries.len()
    }
}

/// A miss at capacity forgets exactly the oldest entry; below it, none.
pub proof fn only_the_oldest_is_forgotten<K, V>(
    entries: Seq<(K, V)>,
    capacity: int,
    key: K,
    value: V,
)
    requires
        0 < capacity,
        entries.len() <= capacity,
    ensures
        remembered(entries, capacity, key, value).len() <= capacity,
        remembered(entries, capacity, key, value).last() == (key, value),
        forall|i: int|
            (if entries.len() == capacity {
                1int
            } else {
                0
            }) <= i < entries.len() ==> remembered(entries, capacity, key, value).contains(
                #[trigger] entries[i],
            ),
{
    let after = remembered(entries, capacity, key, value);
    let from = if entries.len() == capacity {
        1int
    } else {
        0
    };
    assert forall|i: int| from <= i < entries.len() implies after.contains(
        #[trigger] entries[i],
    ) by {
        assert(after[i - from] == entries[i]);
    }
}

} // verus!
