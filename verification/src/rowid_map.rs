use vstd::prelude::*;

use crate::has_rowid::HasRowID;
use crate::id_seq::find_by_id;
use crate::id_seq::has_id;
use crate::id_seq::id_index;
use crate::id_seq::insert_by_id;
use crate::id_seq::lemma_id_index_unique;
use crate::id_seq::lemma_insert_by_id;
use crate::id_seq::unique_ids;

verus! {

/// A map keyed by the identity of its key element, relieving the key type
/// from any equality or hashing requirement. At most one entry per identity
/// is held; inserting under an identity that is already present overwrites
/// the whole `(key, value)` pair.
///
/// Entries are kept in insertion order; callers that iterate must not rely
/// on any particular order.
pub struct RowIDMap<K, V> {
    entries: Vec<(K, V)>,
}

impl<K: HasRowID, V> RowIDMap<K, V> {
    /// The sequence of `(key, value)` entries, the map's mathematical model.
    pub closed spec fn view(&self) -> Seq<(K, V)> {
        self.entries@
    }

    /// Every key identity appears at most once.
    pub open spec fn wf(&self) -> bool {
        unique_ids(self@)
    }

    /// Whether an entry with the given identity is present.
    pub open spec fn spec_contains_id(&self, id: i64) -> bool {
        has_id(self@, id)
    }

    /// The entry stored under the given identity, if any.
    pub open spec fn spec_get_id(&self, id: i64) -> Option<(K, V)> {
        find_by_id(self@, id)
    }

    /// Create an empty map.
    pub fn new() -> (r: Self)
        ensures
            r@ == Seq::<(K, V)>::empty(),
            r.wf(),
    {
        RowIDMap { entries: Vec::new() }
    }

    /// The number of entries.
    pub fn len(&self) -> (n: usize)
        ensures
            n == self@.len(),
    {
        self.entries.len()
    }

    /// Whether the map holds no entry.
    pub fn is_empty(&self) -> (r: bool)
        ensures
            r == (self@.len() == 0),
    {
        self.entries.is_empty()
    }

    /// Find the position of the entry whose key has the given identity.
    pub(crate) fn find_index(&self, id: i64) -> (r: Option<usize>)
        requires
            self.wf(),
        ensures
            match r {
                Some(i) => i < self@.len() && self@[i as int].0.id() == id
                    && self.spec_contains_id(id) && id_index(self@, id) == i,
                None => !self.spec_contains_id(id),
            },
    {
        let n = self.entries.len();
        let mut i: usize = 0;
        while i < n
            invariant
                i <= n,
                n == self@.len(),
                self.wf(),
                forall|j: int| 0 <= j < i ==> self@[j].0.id() != id,
            decreases n - i,
        {
            if self.entries[i].0.rowid() == id {
                proof {
                    lemma_id_index_unique(self@, id, i as int);
                }
                return Some(i);
            }
            i = i + 1;
        }
        None
    }

    /// Store `value` under `key`'s identity, overwriting any previous entry
    /// with that identity.
    pub fn insert(&mut self, key: K, value: V)
        requires
            old(self).wf(),
        ensures
            final(self).wf(),
            final(self)@ == insert_by_id(old(self)@, (key, value)),
            final(self).spec_get_id(key.id()) == Some::<(K, V)>((key, value)),
            forall|id: i64| id != key.id()
                ==> final(self).spec_get_id(id) == old(self).spec_get_id(id),
    {
        let id = key.rowid();
        proof {
            lemma_insert_by_id(old(self)@, (key, value));
        }
        match self.find_index(id) {
            Some(i) => {
                self.entries[i] = (key, value);
            }
            None => {
                self.entries.push((key, value));
            }
        }
    }

    /// Look up the value stored under the given identity.
    pub fn get_by_id(&self, id: i64) -> (r: Option<&V>)
        requires
            self.wf(),
        ensures
            match r {
                Some(v) => self.spec_contains_id(id)
                    && Some(*v) == match self.spec_get_id(id) {
                        Some(e) => Some(e.1),
                        None => None,
                    },
                None => !self.spec_contains_id(id),
            },
    {
        match self.find_index(id) {
            Some(i) => Some(&self.entries[i].1),
            None => None,
        }
    }

    /// Look up the value stored under the identity of `key`.
    pub fn get(&self, key: &K) -> (r: Option<&V>)
        requires
            self.wf(),
        ensures
            match r {
                Some(v) => self.spec_contains_id(key.id())
                    && Some(*v) == match self.spec_get_id(key.id()) {
                        Some(e) => Some(e.1),
                        None => None,
                    },
                None => !self.spec_contains_id(key.id()),
            },
    {
        self.get_by_id(key.rowid())
    }

    /// Whether the map holds an entry under the identity of `key`.
    pub fn contains_key(&self, key: &K) -> (r: bool)
        requires
            self.wf(),
        ensures
            r == self.spec_contains_id(key.id()),
    {
        self.contains_id(key.rowid())
    }

    /// Whether the map holds an entry under the given identity.
    pub fn contains_id(&self, id: i64) -> (r: bool)
        requires
            self.wf(),
        ensures
            r == self.spec_contains_id(id),
    {
        self.find_index(id).is_some()
    }

    /// Look up the value stored under the given identity, for mutation.
    pub fn get_mut_by_id(&mut self, id: i64) -> (r: Option<&mut V>)
        requires
            old(self).wf(),
        ensures
            match r {
                Some(v) => old(self).spec_contains_id(id)
                    && *v == old(self)@[id_index(old(self)@, id)].1
                    && final(self)@ == old(self)@.update(
                        id_index(old(self)@, id),
                        (old(self)@[id_index(old(self)@, id)].0, *final(v)),
                    ),
                None => !old(self).spec_contains_id(id) && final(self)@ == old(self)@,
            },
            final(self).wf(),
    {
        match self.find_index(id) {
            Some(i) => Some(&mut self.entries[i].1),
            None => None,
        }
    }

    /// Look up the value stored under the identity of `key`, for mutation.
    pub fn get_mut(&mut self, key: &K) -> (r: Option<&mut V>)
        requires
            old(self).wf(),
        ensures
            match r {
                Some(v) => old(self).spec_contains_id(key.id())
                    && *v == old(self)@[id_index(old(self)@, key.id())].1
                    && final(self)@ == old(self)@.update(
                        id_index(old(self)@, key.id()),
                        (old(self)@[id_index(old(self)@, key.id())].0, *final(v)),
                    ),
                None => !old(self).spec_contains_id(key.id()) && final(self)@ == old(self)@,
            },
            final(self).wf(),
    {
        self.get_mut_by_id(key.rowid())
    }

    /// Consume the map and hand out its entries.
    pub fn into_entries(self) -> (r: Vec<(K, V)>)
        ensures
            r@ == self@,
    {
        self.entries
    }
}

impl<K: HasRowID, V> Default for RowIDMap<K, V> {
    /// An empty map.
    fn default() -> (r: Self)
        ensures
            r@ == Seq::<(K, V)>::empty(),
            r.wf(),
    {
        RowIDMap { entries: Vec::new() }
    }
}

} // verus!
