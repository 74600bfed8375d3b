//! Small tables of stored entries.
use crate::address::Address;
use vstd::prelude::*;

verus! {

/// What a table can be keyed by.
pub trait Key: Sized {
    /// Whether the two keys are the same.
    fn same(&self, other: &Self) -> (r: bool)
        ensures
            r == (*self == *other),
    ;
}

impl Key for u64 {
    fn same(&self, other: &u64) -> (r: bool) {
        *self == *other
    }
}

impl Key for (u64, Address) {
    fn same(&self, other: &(u64, Address)) -> (r: bool) {
        self.0 == other.0 && self.1 == other.1
    }
}

impl Key for (u64, Address, Address) {
    fn same(&self, other: &(u64, Address, Address)) -> (r: bool) {
        self.0 == other.0 && self.1 == other.1 && self.2 == other.2
    }
}

/// What the pairs say, where a later pair overrides an earlier one with the same key.
pub open spec fn entries_map<K, V: View>(entries: Seq<(K, V)>) -> Map<K, V::V>
    decreases entries.len(),
{
    if entries.len() == 0 {
        Map::empty()
    } else {
        entries_map(entries.drop_last()).insert(entries.last().0, entries.last().1@)
    }
}

/// Both maps have the same at the key.
pub open spec fn same_at<K, V>(a: Map<K, V>, b: Map<K, V>, k: K) -> bool {
    &&& a.contains_key(k) == b.contains_key(k)
    &&& a.contains_key(k) ==> a[k] == b[k]
}

/// A key that no pair has is not in the map.
proof fn lemma_absent<K, V: View>(entries: Seq<(K, V)>, k: K)
    requires
        forall|j: int| 0 <= j < entries.len() ==> (#[trigger] entries[j]).0 != k,
    ensures
        !entries_map(entries).contains_key(k),
    decreases entries.len(),
{
    if entries.len() > 0 {
        assert(entries.last() == entries[entries.len() - 1]);
        assert forall|j: int| 0 <= j < entries.drop_last().len() implies (
        #[trigger] entries.drop_last()[j]).0 != k by {
            assert(entries.drop_last()[j] == entries[j]);
        }
        lemma_absent(entries.drop_last(), k);
    }
}

/// The last pair with a key decides what the key maps to, and replacing it is an insertion.
proof fn lemma_last_decides<K, V: View>(entries: Seq<(K, V)>, i: int, k: K, v: V)
    requires
        0 <= i < entries.len(),
        entries[i].0 == k,
        forall|j: int| i < j < entries.len() ==> (#[trigger] entries[j]).0 != k,
    ensures
        entries_map(entries).contains_key(k),
        entries_map(entries)[k] == entries[i].1@,
        entries_map(entries.update(i, (k, v))) =~= entries_map(entries).insert(k, v@),
    decreases entries.len(),
{
    let rest = entries.drop_last();
    let new = entries.update(i, (k, v));
    if i == entries.len() - 1 {
        assert(new.drop_last() =~= rest);
    } else {
        assert(entries[entries.len() - 1].0 != k);
        assert forall|j: int| i < j < rest.len() implies (#[trigger] rest[j]).0 != k by {
            assert(rest[j] == entries[j]);
        }
        lemma_last_decides(rest, i, k, v);
        assert(new.drop_last() =~= rest.update(i, (k, v)));
        assert(new.last() == entries.last());
    }
}

/// The stored entries of one kind.
pub struct Table<K, V> {
    entries: Vec<(K, V)>,
}

impl<K, V: View> View for Table<K, V> {
    type V = Map<K, V::V>;

    closed spec fn view(&self) -> Map<K, V::V> {
        entries_map(self.entries@)
    }
}

impl<K: Key, V: View> Table<K, V> {
    /// A table without entries.
    pub fn new() -> (r: Table<K, V>)
        ensures
            r@ == Map::<K, V::V>::empty(),
    {
        Table { entries: Vec::new() }
    }

    /// The position after that of the last pair with the key, or 0 where there is none.
    fn find(&self, k: &K) -> (i: usize)
        ensures
            i <= self.entries.len(),
            i > 0 ==> self.entries@[i - 1].0 == *k,
            forall|j: int| i <= j < self.entries.len() ==> (#[trigger] self.entries@[j]).0 != *k,
    {
        let mut i: usize = self.entries.len();
        while i > 0
            invariant
                i <= self.entries.len(),
                forall|j: int|
                    i <= j < self.entries.len() ==> (#[trigger] self.entries@[j]).0 != *k,
            decreases i,
        {
            if self.entries[i - 1].0.same(k) {
                return i;
            }
            i -= 1;
        }
        0
    }

    /// The entry stored under the key.
    pub fn get(&self, k: &K) -> (r: Option<&V>)
        ensures
            r is Some <==> self@.contains_key(*k),
            r matches Some(v) ==> v@ == self@[*k],
    {
        let i: usize = self.find(k);
        if i == 0 {
            proof {
                lemma_absent(self.entries@, *k);
            }
            None
        } else {
            proof {
                lemma_last_decides(self.entries@, i - 1, *k, self.entries@[i - 1].1);
            }
            Some(&self.entries[i - 1].1)
        }
    }

    /// Whether there is an entry under the key.
    pub fn has(&self, k: &K) -> (r: bool)
        ensures
            r == self@.contains_key(*k),
    {
        self.get(k).is_some()
    }

    /// Stores the entry under the key, in place of one that was there.
    pub fn set(&mut self, k: K, v: V)
        ensures
            final(self)@ == old(self)@.insert(k, v@),
    {
        let i: usize = self.find(&k);
        if i == 0 {
            self.entries.push((k, v));
            assert(self.entries@.drop_last() =~= old(self).entries@);
        } else {
            proof {
                lemma_last_decides(self.entries@, i - 1, k, v);
            }
            self.entries.set(i - 1, (k, v));
        }
    }
}

} // verus!
