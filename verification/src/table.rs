use vstd::prelude::*;

use crate::has_rowid::HasRowID;
use crate::id_seq::find_by_id;
use crate::id_seq::has_id;
use crate::id_seq::id_index;
use crate::id_seq::insert_all;
use crate::id_seq::insert_by_id;
use crate::id_seq::lemma_id_index_unique;
use crate::id_seq::lemma_insert_all_wf;
use crate::id_seq::lemma_insert_by_id;
use crate::id_seq::lemma_remove_by_id;
use crate::id_seq::remove_by_id;
use crate::id_seq::unique_ids;

verus! {

/// A table of self-identified rows, at most one row per identity. Inserting
/// a row whose identity is already present replaces the previous row.
///
/// Rows are kept in insertion order; callers that iterate must not rely on
/// any particular order.
pub struct Table<R> {
    rows: Vec<R>,
}

impl<R: HasRowID> Table<R> {
    /// The sequence of rows, the table's mathematical model.
    pub closed spec fn view(&self) -> Seq<R> {
        self.rows@
    }

    /// Every row identity appears at most once.
    pub open spec fn wf(&self) -> bool {
        unique_ids(self@)
    }

    /// Whether a row with the given identity is present.
    pub open spec fn spec_contains_id(&self, id: i64) -> bool {
        has_id(self@, id)
    }

    /// The row stored under the given identity, if any.
    pub open spec fn spec_get(&self, id: i64) -> Option<R> {
        find_by_id(self@, id)
    }

    /// Create an empty table.
    pub fn new() -> (r: Self)
        ensures
            r@ == Seq::<R>::empty(),
            r.wf(),
    {
        Table { rows: Vec::new() }
    }

    /// The number of rows.
    pub fn len(&self) -> (n: usize)
        ensures
            n == self@.len(),
    {
        self.rows.len()
    }

    /// Insert a row, overwriting any row already present under the same
    /// identity.
    pub fn insert(&mut self, value: R)
        requires
            old(self).wf(),
        ensures
            final(self).wf(),
            final(self)@ == insert_by_id(old(self)@, value),
            final(self).spec_get(value.id()) == Some(value),
            forall|id: i64| id != value.id()
                ==> final(self).spec_get(id) == old(self).spec_get(id),
    {
        proof {
            lemma_insert_by_id(old(self)@, value);
        }
        match self.find_index(value.rowid()) {
            Some(i) => {
                self.rows[i] = value;
            }
            None => {
                self.rows.push(value);
            }
        }
    }

    /// Find the position of the row with the given identity.
    fn find_index(&self, id: i64) -> (r: Option<usize>)
        requires
            self.wf(),
        ensures
            match r {
                Some(i) => i < self@.len() && self@[i as int].id() == id
                    && self.spec_contains_id(id) && id_index(self@, id) == i,
                None => !self.spec_contains_id(id),
            },
    {
        let n = self.rows.len();
        let mut i: usize = 0;
        while i < n
            invariant
                i <= n,
                n == self@.len(),
                self.wf(),
                forall|j: int| 0 <= j < i ==> self@[j].id() != id,
            decreases n - i,
        {
            if self.rows[i].rowid() == id {
                proof {
                    lemma_id_index_unique(self@, id, i as int);
                }
                return Some(i);
            }
            i = i + 1;
        }
        None
    }

    /// Get a row by its identity.
    pub fn get(&self, key: &i64) -> (r: Option<&R>)
        requires
            self.wf(),
        ensures
            match r {
                Some(row) => self.spec_get(*key) == Some(*row),
                None => self.spec_get(*key) == None::<R>,
            },
    {
        match self.find_index(*key) {
            Some(i) => Some(&self.rows[i]),
            None => None,
        }
    }

    /// Get a row by its identity, for mutation. A caller that changes the
    /// row's identity through the reference is responsible for keeping the
    /// identities unique, as the contract records the rewritten row.
    pub fn get_mut(&mut self, key: &i64) -> (r: Option<&mut R>)
        requires
            old(self).wf(),
        ensures
            match r {
                Some(row) => old(self).spec_contains_id(*key)
                    && *row == old(self)@[id_index(old(self)@, *key)]
                    && final(self)@ == old(self)@.update(
                        id_index(old(self)@, *key),
                        *final(row),
                    ),
                None => !old(self).spec_contains_id(*key) && final(self)@ == old(self)@,
            },
    {
        match self.find_index(*key) {
            Some(i) => Some(&mut self.rows[i]),
            None => None,
        }
    }

    /// Remove and return the row with the given identity, if present.
    pub fn remove(&mut self, key: &i64) -> (r: Option<R>)
        requires
            old(self).wf(),
        ensures
            final(self).wf(),
            final(self)@ == remove_by_id(old(self)@, *key),
            r == old(self).spec_get(*key),
            final(self).spec_get(*key) == None::<R>,
            forall|id: i64| id != *key ==> final(self).spec_get(id) == old(self).spec_get(id),
    {
        proof {
            lemma_remove_by_id(old(self)@, *key);
        }
        match self.find_index(*key) {
            Some(i) => Some(self.rows.remove(i)),
            None => None,
        }
    }

    /// The rows, for read-only iteration in unspecified order.
    pub fn iter(&self) -> (r: &Vec<R>)
        ensures
            r@ == self@,
    {
        &self.rows
    }

    /// Consume the table and hand out its rows.
    pub fn into_rows(self) -> (r: Vec<R>)
        ensures
            r@ == self@,
    {
        self.rows
    }
}

/// Law: inserting a row and then looking its identity up returns exactly
/// that row; inserting a second row with the same identity afterwards
/// replaces the first entirely, which is then no longer retrievable.
pub proof fn lemma_insert_then_get<R: HasRowID>(rows: Seq<R>, first: R, second: R)
    requires
        unique_ids(rows),
        second.id() == first.id(),
    ensures
        find_by_id(insert_by_id(rows, first), first.id()) == Some(first),
        find_by_id(insert_by_id(insert_by_id(rows, first), second), first.id()) == Some(second),
{
    lemma_insert_by_id(rows, first);
    lemma_insert_by_id(insert_by_id(rows, first), second);
}

impl<R: HasRowID> Default for Table<R> {
    /// An empty table.
    fn default() -> (r: Self)
        ensures
            r@ == Seq::<R>::empty(),
            r.wf(),
    {
        Table { rows: Vec::new() }
    }
}

impl<R: HasRowID> From<Vec<R>> for Table<R> {
    /// Build a table by inserting each row in order; a later row replaces an
    /// earlier one with the same identity.
    fn from(value: Vec<R>) -> (r: Self)
        ensures
            r@ == insert_all(Seq::<R>::empty(), value@),
            r.wf(),
    {
        let ghost orig = value@;
        let mut items = value;
        let mut table = Table::new();
        let ghost mut i: int = 0;
        // The rows are inserted front to back; the model folds from the
        // right over ever longer prefixes.
        while items.len() > 0
            invariant
                0 <= i <= orig.len(),
                items@ == orig.skip(i),
                table.wf(),
                table@ == insert_all(Seq::<R>::empty(), orig.take(i)),
            decreases items@.len(),
        {
            let row = items.remove(0);
            proof {
                assert(row == orig[i]);
                assert(items@ =~= orig.skip(i + 1));
                assert(orig.take(i + 1).drop_last() =~= orig.take(i));
                assert(orig.take(i + 1).last() == orig[i]);
                lemma_insert_all_wf(Seq::<R>::empty(), orig.take(i));
                i = i + 1;
            }
            table.insert(row);
        }
        proof {
            assert(orig.take(i) =~= orig);
        }
        table
    }
}

impl<R: HasRowID> vstd::std_specs::convert::FromSpecImpl<Vec<R>> for Table<R> {
    // The table's model does not determine the value of its backing vector,
    // so no exact `from_spec` is claimed; callers rely on the `ensures` of
    // `from` instead.
    open spec fn obeys_from_spec() -> bool {
        false
    }

    open spec fn from_spec(v: Vec<R>) -> Table<R> {
        choose|t: Table<R>| t@ == insert_all(Seq::<R>::empty(), v@)
    }
}

} // verus!
