use vstd::prelude::*;

use crate::adjacency::AdjacencyMap;
use crate::has_rowid::HasRowID;
use crate::id_seq::find_by_id;
use crate::id_seq::has_id;
use crate::id_seq::insert_by_id;
use crate::id_seq::lemma_id_index_unique;
use crate::id_seq::remove_by_id;
use crate::id_seq::unique_ids;
use crate::seq_count::count_of;
use crate::seq_count::lemma_count_contains;
use crate::seq_count::lemma_count_push;
use crate::seq_count::lemma_count_remove_all;
use crate::seq_count::lemma_count_take_step;
use crate::seq_count::remove_all;
use crate::table::Table;
use crate::zero_to_many_join::ZeroToManyJoin;

verus! {

/// The rows of `rows` reached by following `ids` in order, skipping
/// identities with no row. This is what resolving one adjacency bucket
/// against a table returns.
pub open spec fn associated_rows<T: HasRowID>(ids: Seq<i64>, rows: Seq<T>) -> Seq<T>
    decreases ids.len(),
{
    if ids.len() == 0 {
        Seq::empty()
    } else {
        let rest = associated_rows(ids.drop_last(), rows);
        match find_by_id(rows, ids.last()) {
            Some(row) => rest.push(row),
            None => rest,
        }
    }
}

/// Walking a bucket from the front, the resolved rows over the prefix grow
/// at the identity just passed, when its row exists.
pub proof fn lemma_associated_rows_take_step<T: HasRowID>(ids: Seq<i64>, rows: Seq<T>, i: int)
    requires
        0 <= i < ids.len(),
    ensures
        associated_rows(ids.take(i + 1), rows) == match find_by_id(rows, ids[i]) {
            Some(row) => associated_rows(ids.take(i), rows).push(row),
            None => associated_rows(ids.take(i), rows),
        },
{
    assert(ids.take(i + 1).drop_last() =~= ids.take(i));
    assert(ids.take(i + 1).last() == ids[i]);
}

/// A bidirectional many-to-many join: a table of rows on each side, plus one
/// adjacency index per direction. The two indices always agree: a relation
/// `(l, r)` occurs in the left-to-right bucket of `l` exactly as often as in
/// the right-to-left bucket of `r`. Adjacency entries may name identities
/// with no row in the corresponding table; lookups skip those.
pub struct ManyToManyJoin<L, R> {
    left_table: Table<L>,
    right_table: Table<R>,
    left_to_right: AdjacencyMap,
    right_to_left: AdjacencyMap,
}

impl<L: HasRowID, R: HasRowID> ManyToManyJoin<L, R> {
    /// The left table's model.
    pub closed spec fn spec_left_table(&self) -> Table<L> {
        self.left_table
    }

    /// The right table's model.
    pub closed spec fn spec_right_table(&self) -> Table<R> {
        self.right_table
    }

    /// The left-to-right adjacency index's model.
    pub closed spec fn spec_left_to_right(&self) -> AdjacencyMap {
        self.left_to_right
    }

    /// The right-to-left adjacency index's model.
    pub closed spec fn spec_right_to_left(&self) -> AdjacencyMap {
        self.right_to_left
    }

    /// The identities related to left identity `l`, in insertion order.
    pub open spec fn rights_of(&self, l: i64) -> Seq<i64> {
        self.spec_left_to_right().seq_at(l)
    }

    /// The identities related to right identity `r`, in insertion order.
    pub open spec fn lefts_of(&self, r: i64) -> Seq<i64> {
        self.spec_right_to_left().seq_at(r)
    }

    /// The bidirectional consistency invariant: both directions record every
    /// relation with the same multiplicity, and each part is well formed.
    pub open spec fn wf(&self) -> bool {
        &&& self.spec_left_table().wf()
        &&& self.spec_right_table().wf()
        &&& self.spec_left_to_right().wf()
        &&& self.spec_right_to_left().wf()
        &&& forall|l: i64, r: i64|
            (#[trigger] count_of(self.rights_of(l), r)) == count_of(self.lefts_of(r), l)
    }

    /// Create an empty join.
    pub fn new() -> (r: Self)
        ensures
            r.wf(),
            r.spec_left_table()@ == Seq::<L>::empty(),
            r.spec_right_table()@ == Seq::<R>::empty(),
            r.spec_left_to_right()@ == Seq::<(i64, Seq<i64>)>::empty(),
            r.spec_right_to_left()@ == Seq::<(i64, Seq<i64>)>::empty(),
    {
        ManyToManyJoin {
            left_table: Table::new(),
            right_table: Table::new(),
            left_to_right: AdjacencyMap::new(),
            right_to_left: AdjacencyMap::new(),
        }
    }

    /// Add a row to the left table, overwriting any row with the same
    /// identity. The adjacency indices are untouched.
    pub fn add_left(&mut self, left: L)
        requires
            old(self).wf(),
        ensures
            final(self).wf(),
            final(self).spec_left_table()@ == insert_by_id(old(self).spec_left_table()@, left),
            final(self).spec_right_table() == old(self).spec_right_table(),
            final(self).spec_left_to_right() == old(self).spec_left_to_right(),
            final(self).spec_right_to_left() == old(self).spec_right_to_left(),
    {
        self.left_table.insert(left);
        proof {
            assert forall|l: i64, r: i64|
                (#[trigger] count_of(self.rights_of(l), r)) == count_of(self.lefts_of(r), l) by {
                assert(count_of(old(self).rights_of(l), r) == count_of(old(self).lefts_of(r), l));
                assert(self.rights_of(l) == old(self).rights_of(l));
                assert(self.lefts_of(r) == old(self).lefts_of(r));
            }
        }
    }

    /// Add a row to the right table, overwriting any row with the same
    /// identity. The adjacency indices are untouched.
    pub fn add_right(&mut self, right: R)
        requires
            old(self).wf(),
        ensures
            final(self).wf(),
            final(self).spec_right_table()@ == insert_by_id(old(self).spec_right_table()@, right),
            final(self).spec_left_table() == old(self).spec_left_table(),
            final(self).spec_left_to_right() == old(self).spec_left_to_right(),
            final(self).spec_right_to_left() == old(self).spec_right_to_left(),
    {
        self.right_table.insert(right);
        proof {
            assert forall|l: i64, r: i64|
                (#[trigger] count_of(self.rights_of(l), r)) == count_of(self.lefts_of(r), l) by {
                assert(count_of(old(self).rights_of(l), r) == count_of(old(self).lefts_of(r), l));
                assert(self.rights_of(l) == old(self).rights_of(l));
                assert(self.lefts_of(r) == old(self).lefts_of(r));
            }
        }
    }

    /// Record one relation between the identities `left` and `right`: each is
    /// appended to the other's bucket. The tables are untouched; duplicates
    /// are allowed and tracked symmetrically.
    pub fn add_relation_ids(&mut self, left: i64, right: i64)
        requires
            old(self).wf(),
        ensures
            final(self).wf(),
            final(self).spec_left_table() == old(self).spec_left_table(),
            final(self).spec_right_table() == old(self).spec_right_table(),
            final(self).rights_of(left) == old(self).rights_of(left).push(right),
            final(self).lefts_of(right) == old(self).lefts_of(right).push(left),
            forall|l: i64| l != left ==> final(self).rights_of(l) == old(self).rights_of(l),
            forall|r: i64| r != right ==> final(self).lefts_of(r) == old(self).lefts_of(r),
            final(self).spec_left_to_right()@ == insert_by_id(
                old(self).spec_left_to_right()@,
                (left, old(self).rights_of(left).push(right)),
            ),
            final(self).spec_right_to_left()@ == insert_by_id(
                old(self).spec_right_to_left()@,
                (right, old(self).lefts_of(right).push(left)),
            ),
    {
        self.left_to_right.push_to(left, right);
        self.right_to_left.push_to(right, left);
        proof {
            assert forall|l: i64, r: i64|
                (#[trigger] count_of(final(self).rights_of(l), r))
                    == count_of(final(self).lefts_of(r), l) by {
                if l == left {
                    lemma_count_push(old(self).rights_of(l), right, r);
                }
                if r == right {
                    lemma_count_push(old(self).lefts_of(r), left, l);
                }
                assert(count_of(old(self).rights_of(l), r) == count_of(old(self).lefts_of(r), l));
            }
        }
    }

    /// Record one relation between two rows, by their identities.
    pub fn add_relation(&mut self, left: &L, right: &R)
        requires
            old(self).wf(),
        ensures
            final(self).wf(),
            final(self).spec_left_table() == old(self).spec_left_table(),
            final(self).spec_right_table() == old(self).spec_right_table(),
            final(self).rights_of(left.id()) == old(self).rights_of(left.id()).push(right.id()),
            final(self).lefts_of(right.id()) == old(self).lefts_of(right.id()).push(left.id()),
            forall|l: i64| l != left.id() ==> final(self).rights_of(l) == old(self).rights_of(l),
            forall|r: i64| r != right.id() ==> final(self).lefts_of(r) == old(self).lefts_of(r),
    {
        self.add_relation_ids(left.rowid(), right.rowid());
    }

    /// Insert both rows and record the relation between them in one call.
    pub fn add_relation_and_insert(&mut self, left: L, right: R)
        requires
            old(self).wf(),
        ensures
            final(self).wf(),
            final(self).spec_left_table()@ == insert_by_id(old(self).spec_left_table()@, left),
            final(self).spec_right_table()@ == insert_by_id(old(self).spec_right_table()@, right),
            final(self).rights_of(left.id()) == old(self).rights_of(left.id()).push(right.id()),
            final(self).lefts_of(right.id()) == old(self).lefts_of(right.id()).push(left.id()),
            forall|l: i64| l != left.id() ==> final(self).rights_of(l) == old(self).rights_of(l),
            forall|r: i64| r != right.id() ==> final(self).lefts_of(r) == old(self).lefts_of(r),
    {
        let l_id = left.rowid();
        let r_id = right.rowid();
        self.add_relation_ids(l_id, r_id);
        self.add_left(left);
        self.add_right(right);
    }

    /// Delete every occurrence of the relation `(left, right)`, in both
    /// directions at once. The tables are untouched; other relations of
    /// either identity stay.
    pub fn remove_relation_ids(&mut self, left: i64, right: i64)
        requires
            old(self).wf(),
        ensures
            final(self).wf(),
            final(self).spec_left_table() == old(self).spec_left_table(),
            final(self).spec_right_table() == old(self).spec_right_table(),
            final(self).rights_of(left) == remove_all(old(self).rights_of(left), right),
            final(self).lefts_of(right) == remove_all(old(self).lefts_of(right), left),
            !final(self).rights_of(left).contains(right),
            !final(self).lefts_of(right).contains(left),
            forall|l: i64| l != left ==> final(self).rights_of(l) == old(self).rights_of(l),
            forall|r: i64| r != right ==> final(self).lefts_of(r) == old(self).lefts_of(r),
    {
        self.left_to_right.remove_values(left, right);
        self.right_to_left.remove_values(right, left);
        proof {
            lemma_count_remove_all(old(self).rights_of(left), right, right);
            lemma_count_contains(final(self).rights_of(left), right);
            lemma_count_remove_all(old(self).lefts_of(right), left, left);
            lemma_count_contains(final(self).lefts_of(right), left);
            assert forall|l: i64, r: i64|
                (#[trigger] count_of(final(self).rights_of(l), r))
                    == count_of(final(self).lefts_of(r), l) by {
                if l == left {
                    lemma_count_remove_all(old(self).rights_of(l), right, r);
                }
                if r == right {
                    lemma_count_remove_all(old(self).lefts_of(r), left, l);
                }
                assert(count_of(old(self).rights_of(l), r) == count_of(old(self).lefts_of(r), l));
            }
        }
    }

    /// Delete every occurrence of the relation between two rows, by their
    /// identities.
    pub fn remove_relation(&mut self, left: &L, right: &R)
        requires
            old(self).wf(),
        ensures
            final(self).wf(),
            final(self).spec_left_table() == old(self).spec_left_table(),
            final(self).spec_right_table() == old(self).spec_right_table(),
            final(self).rights_of(left.id()) == remove_all(
                old(self).rights_of(left.id()),
                right.id(),
            ),
            final(self).lefts_of(right.id()) == remove_all(
                old(self).lefts_of(right.id()),
                left.id(),
            ),
            !final(self).rights_of(left.id()).contains(right.id()),
            !final(self).lefts_of(right.id()).contains(left.id()),
            forall|l: i64| l != left.id() ==> final(self).rights_of(l) == old(self).rights_of(l),
            forall|r: i64| r != right.id() ==> final(self).lefts_of(r) == old(self).lefts_of(r),
    {
        self.remove_relation_ids(left.rowid(), right.rowid());
    }

    /// Evict the left row with identity `id` and purge every adjacency
    /// reference to it, in both directions; return the row if present.
    pub fn remove_left_row_id(&mut self, id: &i64) -> (r: Option<L>)
        requires
            old(self).wf(),
        ensures
            final(self).wf(),
            r == old(self).spec_left_table().spec_get(*id),
            final(self).spec_left_table()@ == remove_by_id(old(self).spec_left_table()@, *id),
            final(self).spec_right_table() == old(self).spec_right_table(),
            final(self).rights_of(*id) == Seq::<i64>::empty(),
            !final(self).spec_left_to_right().spec_contains_key(*id),
            forall|l: i64| l != *id ==> final(self).rights_of(l) == old(self).rights_of(l),
            forall|r: i64| (#[trigger] final(self).lefts_of(r))
                == remove_all(old(self).lefts_of(r), *id),
            forall|r: i64| !(#[trigger] final(self).lefts_of(r)).contains(*id),
    {
        self.left_to_right.remove_key(*id);
        self.right_to_left.purge_value(*id);
        let removed = self.left_table.remove(id);
        proof {
            assert forall|r: i64| !(#[trigger] self.lefts_of(r)).contains(*id) by {
                lemma_count_remove_all(old(self).lefts_of(r), *id, *id);
                lemma_count_contains(self.lefts_of(r), *id);
            }
            assert forall|l: i64, r: i64|
                (#[trigger] count_of(self.rights_of(l), r))
                    == count_of(self.lefts_of(r), l) by {
                lemma_count_remove_all(old(self).lefts_of(r), *id, l);
                if l == *id {
                    assert(self.rights_of(l) == Seq::<i64>::empty());
                    assert(count_of(self.rights_of(l), r) == 0);
                } else {
                    assert(count_of(old(self).rights_of(l), r)
                        == count_of(old(self).lefts_of(r), l));
                }
            }
        }
        removed
    }

    /// Evict the right row with identity `id` and purge every adjacency
    /// reference to it, in both directions; return the row if present.
    pub fn remove_right_row_id(&mut self, id: &i64) -> (r: Option<R>)
        requires
            old(self).wf(),
        ensures
            final(self).wf(),
            r == old(self).spec_right_table().spec_get(*id),
            final(self).spec_right_table()@ == remove_by_id(old(self).spec_right_table()@, *id),
            final(self).spec_left_table() == old(self).spec_left_table(),
            final(self).lefts_of(*id) == Seq::<i64>::empty(),
            !final(self).spec_right_to_left().spec_contains_key(*id),
            forall|r: i64| r != *id ==> final(self).lefts_of(r) == old(self).lefts_of(r),
            forall|l: i64| (#[trigger] final(self).rights_of(l))
                == remove_all(old(self).rights_of(l), *id),
            forall|l: i64| !(#[trigger] final(self).rights_of(l)).contains(*id),
    {
        self.right_to_left.remove_key(*id);
        self.left_to_right.purge_value(*id);
        let removed = self.right_table.remove(id);
        proof {
            assert forall|l: i64| !(#[trigger] self.rights_of(l)).contains(*id) by {
                lemma_count_remove_all(old(self).rights_of(l), *id, *id);
                lemma_count_contains(self.rights_of(l), *id);
            }
            assert forall|l: i64, r: i64|
                (#[trigger] count_of(self.rights_of(l), r))
                    == count_of(self.lefts_of(r), l) by {
                lemma_count_remove_all(old(self).rights_of(l), *id, r);
                if r == *id {
                    assert(self.lefts_of(r) == Seq::<i64>::empty());
                    assert(count_of(self.lefts_of(r), l) == 0);
                } else {
                    assert(count_of(old(self).rights_of(l), r)
                        == count_of(old(self).lefts_of(r), l));
                }
            }
        }
        removed
    }

    /// Evict a left row and purge every adjacency reference to it.
    pub fn remove_left_row(&mut self, val: &L) -> (r: Option<L>)
        requires
            old(self).wf(),
        ensures
            final(self).wf(),
            r == old(self).spec_left_table().spec_get(val.id()),
            final(self).spec_left_table()@ == remove_by_id(
                old(self).spec_left_table()@,
                val.id(),
            ),
            final(self).spec_right_table() == old(self).spec_right_table(),
            final(self).rights_of(val.id()) == Seq::<i64>::empty(),
            forall|r2: i64| !(#[trigger] final(self).lefts_of(r2)).contains(val.id()),
    {
        self.remove_left_row_id(&val.rowid())
    }

    /// Evict a right row and purge every adjacency reference to it.
    pub fn remove_right_row(&mut self, val: &R) -> (r: Option<R>)
        requires
            old(self).wf(),
        ensures
            final(self).wf(),
            r == old(self).spec_right_table().spec_get(val.id()),
            final(self).spec_right_table()@ == remove_by_id(
                old(self).spec_right_table()@,
                val.id(),
            ),
            final(self).spec_left_table() == old(self).spec_left_table(),
            final(self).lefts_of(val.id()) == Seq::<i64>::empty(),
            forall|l2: i64| !(#[trigger] final(self).rights_of(l2)).contains(val.id()),
    {
        self.remove_right_row_id(&val.rowid())
    }

    /// Get a left row by its identity.
    pub fn get_left(&self, key: &i64) -> (r: Option<&L>)
        requires
            self.wf(),
        ensures
            match r {
                Some(row) => self.spec_left_table().spec_get(*key) == Some(*row),
                None => self.spec_left_table().spec_get(*key) == None::<L>,
            },
    {
        self.left_table.get(key)
    }

    /// Get a right row by its identity.
    pub fn get_right(&self, key: &i64) -> (r: Option<&R>)
        requires
            self.wf(),
        ensures
            match r {
                Some(row) => self.spec_right_table().spec_get(*key) == Some(*row),
                None => self.spec_right_table().spec_get(*key) == None::<R>,
            },
    {
        self.right_table.get(key)
    }

    /// All right rows related to the left identity `left`, in relation
    /// order, skipping related identities whose row is absent.
    pub fn get_associated_rights_by_id(&self, left: i64) -> (r: Vec<&R>)
        requires
            self.wf(),
        ensures
            r@.len() == associated_rows(self.rights_of(left), self.spec_right_table()@).len(),
            forall|i: int| 0 <= i < r@.len() ==> *r@[i]
                == associated_rows(self.rights_of(left), self.spec_right_table()@)[i],
    {
        let ghost goal = associated_rows(self.rights_of(left), self.spec_right_table()@);
        let mut out: Vec<&R> = Vec::new();
        match self.left_to_right.get(left) {
            None => {
                proof {
                    assert(self.rights_of(left) == Seq::<i64>::empty());
                }
            }
            Some(ids) => {
                let n = ids.len();
                let mut i: usize = 0;
                while i < n
                    invariant
                        i <= n,
                        n == ids@.len(),
                        ids@ == self.rights_of(left),
                        self.wf(),
                        goal == associated_rows(self.rights_of(left), self.spec_right_table()@),
                        ({
                            let part = associated_rows(
                                ids@.take(i as int),
                                self.spec_right_table()@,
                            );
                            out@.len() == part.len() && forall|k: int| 0 <= k < out@.len()
                                ==> *out@[k] == part[k]
                        }),
                    decreases n - i,
                {
                    proof {
                        lemma_associated_rows_take_step(
                            ids@,
                            self.spec_right_table()@,
                            i as int,
                        );
                    }
                    match self.right_table.get(&ids[i]) {
                        Some(row) => {
                            out.push(row);
                        }
                        None => {}
                    }
                    i = i + 1;
                }
                proof {
                    assert(ids@.take(n as int) =~= ids@);
                }
            }
        }
        out
    }

    /// All right rows related to `left`.
    pub fn get_associated_rights(&self, left: &L) -> (r: Vec<&R>)
        requires
            self.wf(),
        ensures
            r@.len() == associated_rows(
                self.rights_of(left.id()),
                self.spec_right_table()@,
            ).len(),
            forall|i: int| 0 <= i < r@.len() ==> *r@[i]
                == associated_rows(self.rights_of(left.id()), self.spec_right_table()@)[i],
    {
        self.get_associated_rights_by_id(left.rowid())
    }

    /// All left rows related to the right identity `right`, in relation
    /// order, skipping related identities whose row is absent.
    pub fn get_associated_lefts_by_id(&self, right: i64) -> (r: Vec<&L>)
        requires
            self.wf(),
        ensures
            r@.len() == associated_rows(self.lefts_of(right), self.spec_left_table()@).len(),
            forall|i: int| 0 <= i < r@.len() ==> *r@[i]
                == associated_rows(self.lefts_of(right), self.spec_left_table()@)[i],
    {
        let ghost goal = associated_rows(self.lefts_of(right), self.spec_left_table()@);
        let mut out: Vec<&L> = Vec::new();
        match self.right_to_left.get(right) {
            None => {
                proof {
                    assert(self.lefts_of(right) == Seq::<i64>::empty());
                }
            }
            Some(ids) => {
                let n = ids.len();
                let mut i: usize = 0;
                while i < n
                    invariant
                        i <= n,
                        n == ids@.len(),
                        ids@ == self.lefts_of(right),
                        self.wf(),
                        goal == associated_rows(self.lefts_of(right), self.spec_left_table()@),
                        ({
                            let part = associated_rows(
                                ids@.take(i as int),
                                self.spec_left_table()@,
                            );
                            out@.len() == part.len() && forall|k: int| 0 <= k < out@.len()
                                ==> *out@[k] == part[k]
                        }),
                    decreases n - i,
                {
                    proof {
                        lemma_associated_rows_take_step(
                            ids@,
                            self.spec_left_table()@,
                            i as int,
                        );
                    }
                    match self.left_table.get(&ids[i]) {
                        Some(row) => {
                            out.push(row);
                        }
                        None => {}
                    }
                    i = i + 1;
                }
                proof {
                    assert(ids@.take(n as int) =~= ids@);
                }
            }
        }
        out
    }

    /// All left rows related to `right`.
    pub fn get_associated_lefts(&self, right: &R) -> (r: Vec<&L>)
        requires
            self.wf(),
        ensures
            r@.len() == associated_rows(
                self.lefts_of(right.id()),
                self.spec_left_table()@,
            ).len(),
            forall|i: int| 0 <= i < r@.len() ==> *r@[i]
                == associated_rows(self.lefts_of(right.id()), self.spec_left_table()@)[i],
    {
        self.get_associated_lefts_by_id(right.rowid())
    }

    /// The left table.
    pub fn left_table(&self) -> (r: &Table<L>)
        ensures
            *r == self.spec_left_table(),
    {
        &self.left_table
    }

    /// The right table.
    pub fn right_table(&self) -> (r: &Table<R>)
        ensures
            *r == self.spec_right_table(),
    {
        &self.right_table
    }

    /// The mapping from one left identity to its related right identities.
    pub fn left_join_table(&self) -> (r: &AdjacencyMap)
        ensures
            *r == self.spec_left_to_right(),
    {
        &self.left_to_right
    }

    /// The mapping from one right identity to its related left identities.
    pub fn right_join_table(&self) -> (r: &AdjacencyMap)
        ensures
            *r == self.spec_right_to_left(),
    {
        &self.right_to_left
    }
}

/// The pairs owed for one left row and its adjacency bucket: the left row
/// beside each resolved right row, in bucket order.
pub open spec fn pairs_for<L, R: HasRowID>(l_row: L, bucket: Seq<i64>, rt: Seq<R>) -> Seq<(L, R)>
    decreases bucket.len(),
{
    if bucket.len() == 0 {
        Seq::empty()
    } else {
        let rest = pairs_for(l_row, bucket.drop_last(), rt);
        match find_by_id(rt, bucket.last()) {
            Some(row) => rest.push((l_row, row)),
            None => rest,
        }
    }
}

/// Every `(left row, right row)` pair implied by the left-to-right adjacency
/// entries, in entry order then bucket order.
pub open spec fn relation_pairs<L: HasRowID, R: HasRowID>(
    entries: Seq<(i64, Seq<i64>)>,
    lt: Seq<L>,
    rt: Seq<R>,
) -> Seq<(L, R)>
    decreases entries.len(),
{
    if entries.len() == 0 {
        Seq::empty()
    } else {
        let rest = relation_pairs(entries.drop_last(), lt, rt);
        match find_by_id(lt, entries.last().0) {
            Some(lrow) => rest + pairs_for(lrow, entries.last().1, rt),
            None => rest,
        }
    }
}

proof fn lemma_pairs_for_take_step<L, R: HasRowID>(l_row: L, bucket: Seq<i64>, rt: Seq<R>, k: int)
    requires
        0 <= k < bucket.len(),
    ensures
        pairs_for(l_row, bucket.take(k + 1), rt) == match find_by_id(rt, bucket[k]) {
            Some(row) => pairs_for(l_row, bucket.take(k), rt).push((l_row, row)),
            None => pairs_for(l_row, bucket.take(k), rt),
        },
{
    assert(bucket.take(k + 1).drop_last() =~= bucket.take(k));
    assert(bucket.take(k + 1).last() == bucket[k]);
}

proof fn lemma_relation_pairs_take_step<L: HasRowID, R: HasRowID>(
    entries: Seq<(i64, Seq<i64>)>,
    lt: Seq<L>,
    rt: Seq<R>,
    j: int,
)
    requires
        0 <= j < entries.len(),
    ensures
        relation_pairs(entries.take(j + 1), lt, rt) == match find_by_id(lt, entries[j].0) {
            Some(lrow) => relation_pairs(entries.take(j), lt, rt)
                + pairs_for(lrow, entries[j].1, rt),
            None => relation_pairs(entries.take(j), lt, rt),
        },
{
    assert(entries.take(j + 1).drop_last() =~= entries.take(j));
    assert(entries.take(j + 1).last() == entries[j]);
}

impl<L: HasRowID, R: HasRowID> ManyToManyJoin<L, R> {
    /// Whether every adjacency reference resolves to a stored row: the state
    /// in which materializing all relations is meaningful. Mutation through
    /// `add_relation_and_insert` keeps it; `add_relation_ids` alone may not.
    pub open spec fn relations_complete(&self) -> bool {
        &&& forall|j: int| 0 <= j < self.spec_left_to_right()@.len()
            ==> self.spec_left_table().spec_contains_id(
                (#[trigger] self.spec_left_to_right()@[j]).0,
            )
        &&& forall|j: int, k: int|
            0 <= j < self.spec_left_to_right()@.len() && 0 <= k
                < self.spec_left_to_right()@[j].1.len()
                ==> self.spec_right_table().spec_contains_id(
                (#[trigger] self.spec_left_to_right()@[j].1[k]),
            )
    }

    /// Materialize every `(left row, right row)` pair implied by the
    /// left-to-right adjacency, in entry order then bucket order. The join
    /// must be complete: an adjacency entry pointing at a missing row is a
    /// broken invariant, not an input, so it is excluded here rather than
    /// detected at run time.
    pub fn relations(&self) -> (r: Vec<(&L, &R)>)
        requires
            self.wf(),
            self.relations_complete(),
        ensures
            ({
                let pairs = relation_pairs(
                    self.spec_left_to_right()@,
                    self.spec_left_table()@,
                    self.spec_right_table()@,
                );
                r@.len() == pairs.len() && forall|i: int| 0 <= i < pairs.len()
                    ==> (*(#[trigger] r@[i]).0, *r@[i].1) == pairs[i]
            }),
    {
        let ghost l2r = self.spec_left_to_right()@;
        let ghost lt = self.spec_left_table()@;
        let ghost rt = self.spec_right_table()@;
        let mut out: Vec<(&L, &R)> = Vec::new();
        let entries = self.left_to_right.entries();
        let n = entries.len();
        let mut j: usize = 0;
        while j < n
            invariant
                j <= n,
                n == l2r.len(),
                self.wf(),
                self.relations_complete(),
                l2r == self.spec_left_to_right()@,
                lt == self.spec_left_table()@,
                rt == self.spec_right_table()@,
                entries@.len() == l2r.len(),
                forall|q: int| 0 <= q < l2r.len() ==> (#[trigger] entries@[q]).0 == l2r[q].0
                    && entries@[q].1@ == l2r[q].1,
                ({
                    let part = relation_pairs(l2r.take(j as int), lt, rt);
                    out@.len() == part.len() && forall|i: int| 0 <= i < part.len()
                        ==> (*(#[trigger] out@[i]).0, *out@[i].1) == part[i]
                }),
            decreases n - j,
        {
            proof {
                lemma_relation_pairs_take_step(l2r, lt, rt, j as int);
            }
            let l_id = entries[j].0;
            let l_row = match self.left_table.get(&l_id) {
                Some(row) => row,
                None => unreached(),
            };
            let bucket = &entries[j].1;
            let m = bucket.len();
            let mut k: usize = 0;
            while k < m
                invariant
                    k <= m,
                    0 <= j < l2r.len(),
                    m == bucket@.len(),
                    bucket@ == l2r[j as int].1,
                    self.wf(),
                    self.relations_complete(),
                    l2r == self.spec_left_to_right()@,
                    lt == self.spec_left_table()@,
                    rt == self.spec_right_table()@,
                    *l_row == find_by_id(lt, l2r[j as int].0)->Some_0,
                    ({
                        let part = relation_pairs(l2r.take(j as int), lt, rt) + pairs_for(
                            *l_row,
                            bucket@.take(k as int),
                            rt,
                        );
                        out@.len() == part.len() && forall|i: int| 0 <= i < part.len()
                            ==> (*(#[trigger] out@[i]).0, *out@[i].1) == part[i]
                    }),
                decreases m - k,
            {
                proof {
                    lemma_pairs_for_take_step(*l_row, bucket@, rt, k as int);
                    assert(self.spec_right_table().spec_contains_id(l2r[j as int].1[k as int]));
                }
                let r_id = bucket[k];
                let r_row = match self.right_table.get(&r_id) {
                    Some(row) => row,
                    None => unreached(),
                };
                out.push((l_row, r_row));
                k = k + 1;
            }
            proof {
                assert(bucket@.take(m as int) =~= bucket@);
            }
            j = j + 1;
        }
        proof {
            assert(l2r.take(n as int) =~= l2r);
        }
        out
    }
}

/// When an identity occurs in a bucket and its row is stored, the resolved
/// rows contain that row.
proof fn lemma_associated_contains<T: HasRowID>(ids: Seq<i64>, rows: Seq<T>, x: i64)
    requires
        ids.contains(x),
        has_id(rows, x),
    ensures
        associated_rows(ids, rows).contains(find_by_id(rows, x)->Some_0),
    decreases ids.len(),
{
    let row = find_by_id(rows, x)->Some_0;
    if ids.last() == x {
        assert(associated_rows(ids, rows) == associated_rows(ids.drop_last(), rows).push(row));
        assert(associated_rows(ids, rows).last() == row);
    } else {
        assert(ids.drop_last().contains(x)) by {
            let i = choose|i: int| 0 <= i < ids.len() && ids[i] == x;
            assert(ids.drop_last()[i] == x);
        }
        lemma_associated_contains(ids.drop_last(), rows, x);
        let rest = associated_rows(ids.drop_last(), rows);
        let i = choose|i: int| 0 <= i < rest.len() && rest[i] == row;
        match find_by_id(rows, ids.last()) {
            Some(other) => {
                assert(associated_rows(ids, rows)[i] == row);
            }
            None => {}
        }
    }
}

/// Law: in a well-formed join, every relation is visible from both sides
/// with the same multiplicity; when the rows themselves are stored, each
/// side's associated lookup yields the other side's row.
pub proof fn lemma_bidirectional_symmetry<L: HasRowID, R: HasRowID>(
    j: ManyToManyJoin<L, R>,
    l: i64,
    r: i64,
)
    requires
        j.wf(),
    ensures
        count_of(j.rights_of(l), r) == count_of(j.lefts_of(r), l),
        j.rights_of(l).contains(r) <==> j.lefts_of(r).contains(l),
        j.rights_of(l).contains(r) && j.spec_right_table().spec_contains_id(r)
            ==> associated_rows(j.rights_of(l), j.spec_right_table()@).contains(
            find_by_id(j.spec_right_table()@, r)->Some_0,
        ),
        j.lefts_of(r).contains(l) && j.spec_left_table().spec_contains_id(l)
            ==> associated_rows(j.lefts_of(r), j.spec_left_table()@).contains(
            find_by_id(j.spec_left_table()@, l)->Some_0,
        ),
{
    lemma_count_contains(j.rights_of(l), r);
    lemma_count_contains(j.lefts_of(r), l);
    if j.rights_of(l).contains(r) && j.spec_right_table().spec_contains_id(r) {
        lemma_associated_contains(j.rights_of(l), j.spec_right_table()@, r);
    }
    if j.lefts_of(r).contains(l) && j.spec_left_table().spec_contains_id(l) {
        lemma_associated_contains(j.lefts_of(r), j.spec_left_table()@, l);
    }
}

/// The row `row`, `n` times over.
pub open spec fn repeat_row<R>(row: R, n: nat) -> Seq<R> {
    Seq::new(n, |k: int| row)
}

/// Pointwise clone relation between two row sequences: same length, and each
/// element of `b` is a possible clone of the element of `a` at its position.
pub open spec fn cloned_seq<R: Clone>(a: Seq<R>, b: Seq<R>) -> bool {
    a.len() == b.len() && forall|k: int| 0 <= k < a.len() ==> cloned::<R>(a[k], (#[trigger] b[k]))
}

/// The bucket that the conversion to a zero-to-many join owes the left
/// identity `l`: each right row of `rt`, in order, as often as `l` occurs in
/// that row's adjacency bucket.
pub open spec fn expected_bucket<R: HasRowID>(rt: Seq<R>, r2l: AdjacencyMap, l: i64) -> Seq<R>
    decreases rt.len(),
{
    if rt.len() == 0 {
        Seq::empty()
    } else {
        expected_bucket(rt.drop_last(), r2l, l) + repeat_row(
            rt.last(),
            count_of(r2l.seq_at(rt.last().id()), l),
        )
    }
}

/// The right rows of `rt` related to no left at all, in order: what the
/// conversion to a zero-to-many join owes the "no left" bucket.
pub open spec fn unmatched_rights<R: HasRowID>(rt: Seq<R>, r2l: AdjacencyMap) -> Seq<R>
    decreases rt.len(),
{
    if rt.len() == 0 {
        Seq::empty()
    } else if r2l.seq_at(rt.last().id()).len() == 0 {
        unmatched_rights(rt.drop_last(), r2l).push(rt.last())
    } else {
        unmatched_rights(rt.drop_last(), r2l)
    }
}

/// Walking the right rows from the front, the owed bucket over the prefix
/// grows at the row just passed.
proof fn lemma_expected_bucket_take_step<R: HasRowID>(
    rt: Seq<R>,
    r2l: AdjacencyMap,
    l: i64,
    i: int,
)
    requires
        0 <= i < rt.len(),
    ensures
        expected_bucket(rt.take(i + 1), r2l, l) == expected_bucket(rt.take(i), r2l, l)
            + repeat_row(rt[i], count_of(r2l.seq_at(rt[i].id()), l)),
{
    assert(rt.take(i + 1).drop_last() =~= rt.take(i));
    assert(rt.take(i + 1).last() == rt[i]);
}

/// Walking the right rows from the front, the owed "no left" bucket over the
/// prefix grows at the row just passed, when that row has no relations.
proof fn lemma_unmatched_take_step<R: HasRowID>(rt: Seq<R>, r2l: AdjacencyMap, i: int)
    requires
        0 <= i < rt.len(),
    ensures
        unmatched_rights(rt.take(i + 1), r2l) == if r2l.seq_at(rt[i].id()).len() == 0 {
            unmatched_rights(rt.take(i), r2l).push(rt[i])
        } else {
            unmatched_rights(rt.take(i), r2l)
        },
{
    assert(rt.take(i + 1).drop_last() =~= rt.take(i));
    assert(rt.take(i + 1).last() == rt[i]);
}

/// Consume one side's table, the other side's table and the adjacency from
/// the other side, and produce a zero-to-many join: one bucket per retained
/// row (its related rows cloned into it, in table order and with relation
/// multiplicity), plus the "no left" bucket holding every row of the other
/// side that is related to nothing. Adjacency entries naming retained
/// identities with no row are dropped silently.
fn into_zero_to_many<L: HasRowID, R: HasRowID + Clone>(
    left_table: Table<L>,
    right_table: Table<R>,
    right_to_left: AdjacencyMap,
) -> (z: ZeroToManyJoin<L, R>)
    requires
        left_table.wf(),
        right_table.wf(),
        right_to_left.wf(),
        !has_id(left_table@, 0),
        forall|rid: i64| !(#[trigger] right_to_left.seq_at(rid)).contains(0),
    ensures
        z.wf(),
        z@.len() == 1 + left_table@.len(),
        z@[0].0 == None::<L>,
        z@[0].1 == unmatched_rights(right_table@, right_to_left),
        forall|m: int| 0 <= m < left_table@.len() ==> (#[trigger] z@[m + 1]).0
            == Some(left_table@[m]),
        forall|m: int| 0 <= m < left_table@.len() ==> cloned_seq(
            expected_bucket(right_table@, right_to_left, left_table@[m].id()),
            (#[trigger] z@[m + 1]).1,
        ),
{
    let ghost lt = left_table@;
    let ghost rt = right_table@;
    let ghost r2l = right_to_left;

    let mut new_map: ZeroToManyJoin<L, R> = ZeroToManyJoin::new();
    new_map.insert_left(None);
    proof {
        assert(new_map@ =~= seq![(None::<L>, Seq::<R>::empty())]);
    }

    let mut lefts = left_table.into_rows();
    let ghost mut i: int = 0;
    while lefts.len() > 0
        invariant
            0 <= i <= lt.len(),
            lefts@ == lt.skip(i),
            unique_ids(lt),
            !has_id(lt, 0),
            new_map.wf(),
            new_map@.len() == 1 + i,
            new_map@[0] == (None::<L>, Seq::<R>::empty()),
            forall|m: int| 0 <= m < i ==> (#[trigger] new_map@[m + 1])
                == (Some(lt[m]), Seq::<R>::empty()),
        decreases lefts@.len(),
    {
        let left = lefts.remove(0);
        proof {
            assert(lefts@ =~= lt.skip(i + 1));
            assert(left == lt[i]);
            assert(!has_id(new_map@, left.id())) by {
                if has_id(new_map@, left.id()) {
                    let k = choose|k: int|
                        0 <= k < new_map@.len() && new_map@[k].id() == left.id();
                    if k == 0 {
                        assert(lt[i].id() == 0);
                    } else {
                        assert(new_map@[(k - 1) + 1] == (Some(lt[k - 1]), Seq::<R>::empty()));
                        assert(lt[k - 1].id() == lt[i].id());
                    }
                }
            }
        }
        new_map.insert_left(Some(left));
        proof {
            i = i + 1;
        }
    }
    proof {
        assert(i == lt.len());
    }

    let mut rights = right_table.into_rows();
    let ghost mut j: int = 0;
    while rights.len() > 0
        invariant
            0 <= j <= rt.len(),
            rights@ == rt.skip(j),
            unique_ids(lt),
            !has_id(lt, 0),
            right_to_left == r2l,
            right_to_left.wf(),
            forall|rid: i64| !(#[trigger] r2l.seq_at(rid)).contains(0),
            new_map.wf(),
            new_map@.len() == 1 + lt.len(),
            new_map@[0].0 == None::<L>,
            new_map@[0].1 == unmatched_rights(rt.take(j), r2l),
            forall|m: int| 0 <= m < lt.len() ==> (#[trigger] new_map@[m + 1]).0 == Some(lt[m]),
            forall|m: int| 0 <= m < lt.len() ==> cloned_seq(
                expected_bucket(rt.take(j), r2l, lt[m].id()),
                (#[trigger] new_map@[m + 1]).1,
            ),
        decreases rights@.len(),
    {
        let right = rights.remove(0);
        let ghost j_old = j;
        proof {
            assert(rights@ =~= rt.skip(j + 1));
            assert(right == rt[j]);
            lemma_unmatched_take_step(rt, r2l, j);
            j = j + 1;
        }
        let r_id = right.rowid();
        let is_unmatched = match right_to_left.get(r_id) {
            Some(ids) => ids.is_empty(),
            None => true,
        };
        if is_unmatched {
            proof {
                assert(r2l.seq_at(right.id()).len() == 0);
            }
            let ghost pre = new_map;
            new_map.push_entry(None, right);
            proof {
                assert(pre@[0].id() == 0);
                lemma_id_index_unique(pre@, 0i64, 0);
                assert(new_map@ =~= pre@.update(0, (pre@[0].0, pre@[0].1.push(right))));
                assert forall|m: int| 0 <= m < lt.len() implies cloned_seq(
                    expected_bucket(rt.take(j), r2l, lt[m].id()),
                    (#[trigger] new_map@[m + 1]).1,
                ) by {
                    lemma_expected_bucket_take_step(rt, r2l, lt[m].id(), j_old);
                    assert(count_of(r2l.seq_at(rt[j_old].id()), lt[m].id()) == 0);
                    assert(repeat_row(rt[j_old], 0nat) =~= Seq::<R>::empty());
                    assert(expected_bucket(rt.take(j), r2l, lt[m].id())
                        =~= expected_bucket(rt.take(j_old), r2l, lt[m].id()));
                    assert(new_map@[m + 1] == pre@[m + 1]);
                }
            }
        } else {
            match right_to_left.get(r_id) {
                Some(ids) => {
                    let n_ids = ids.len();
                    let mut k: usize = 0;
                    while k < n_ids
                        invariant
                            k <= n_ids,
                            n_ids == ids@.len(),
                            ids@ == r2l.seq_at(rt[j_old].id()),
                            0 <= j_old < rt.len(),
                            j == j_old + 1,
                            rt[j_old] == right,
                            unique_ids(lt),
                            !has_id(lt, 0),
                            forall|rid: i64| !(#[trigger] r2l.seq_at(rid)).contains(0),
                            new_map.wf(),
                            new_map@.len() == 1 + lt.len(),
                            new_map@[0].0 == None::<L>,
                            new_map@[0].1 == unmatched_rights(rt.take(j_old), r2l),
                            forall|m: int| 0 <= m < lt.len() ==> (#[trigger] new_map@[m + 1]).0
                                == Some(lt[m]),
                            forall|m: int| 0 <= m < lt.len() ==> cloned_seq(
                                expected_bucket(rt.take(j_old), r2l, lt[m].id()) + repeat_row(
                                    right,
                                    count_of(ids@.take(k as int), lt[m].id()),
                                ),
                                (#[trigger] new_map@[m + 1]).1,
                            ),
                        decreases n_ids - k,
                    {
                        let l_id = ids[k];
                        let copy = clone_row(&right);
                        let ghost pre = new_map;
                        new_map.push_right_by_id(l_id, copy);
                        proof {
                            lemma_count_take_step(ids@, l_id, k as int);
                            assert(ids@[k as int] == l_id);
                            assert(l_id != 0) by {
                                assert(r2l.seq_at(rt[j_old].id()).contains(0) == false);
                                if l_id == 0 {
                                    assert(r2l.seq_at(rt[j_old].id())[k as int] == 0);
                                    assert(r2l.seq_at(rt[j_old].id()).contains(0));
                                }
                            }
                            if exists|m: int| 0 <= m < lt.len() && lt[m].id() == l_id {
                                let m0 = choose|m: int| 0 <= m < lt.len() && lt[m].id() == l_id;
                                assert(pre@[m0 + 1].id() == l_id);
                                lemma_id_index_unique(pre@, l_id, m0 + 1);
                                assert(new_map@ =~= pre@.update(
                                    m0 + 1,
                                    (pre@[m0 + 1].0, pre@[m0 + 1].1.push(copy)),
                                ));
                            } else {
                                assert(!has_id(pre@, l_id)) by {
                                    if has_id(pre@, l_id) {
                                        let q = choose|q: int|
                                            0 <= q < pre@.len() && pre@[q].id() == l_id;
                                        assert(q != 0);
                                        assert(pre@[(q - 1) + 1].0 == Some(lt[q - 1]));
                                        assert(lt[q - 1].id() == l_id);
                                    }
                                }
                                assert(new_map@ == pre@);
                            }
                            assert forall|m: int| 0 <= m < lt.len() implies cloned_seq(
                                expected_bucket(rt.take(j_old), r2l, lt[m].id()) + repeat_row(
                                    right,
                                    count_of(ids@.take(k as int + 1), lt[m].id()),
                                ),
                                (#[trigger] new_map@[m + 1]).1,
                            ) by {
                                lemma_count_take_step(ids@, lt[m].id(), k as int);
                                let base = expected_bucket(rt.take(j_old), r2l, lt[m].id());
                                if lt[m].id() == l_id {
                                    let want_old = base + repeat_row(
                                        right,
                                        count_of(ids@.take(k as int), lt[m].id()),
                                    );
                                    let want_new = base + repeat_row(
                                        right,
                                        count_of(ids@.take(k as int + 1), lt[m].id()),
                                    );
                                    assert(want_new =~= want_old.push(right));
                                    assert(new_map@[m + 1].1 == pre@[m + 1].1.push(copy));
                                    assert(cloned::<R>(right, copy));
                                } else {
                                    assert(count_of(ids@.take(k as int + 1), lt[m].id())
                                        == count_of(ids@.take(k as int), lt[m].id()));
                                    assert(new_map@[m + 1].1 == pre@[m + 1].1);
                                }
                            }
                        }
                        k = k + 1;
                    }
                    proof {
                        assert(ids@.take(n_ids as int) =~= ids@);
                        assert forall|m: int| 0 <= m < lt.len() implies cloned_seq(
                            expected_bucket(rt.take(j), r2l, lt[m].id()),
                            (#[trigger] new_map@[m + 1]).1,
                        ) by {
                            lemma_expected_bucket_take_step(rt, r2l, lt[m].id(), j_old);
                        }
                        assert(new_map@[0].1 == unmatched_rights(rt.take(j), r2l));
                    }
                }
                None => {
                    // The bucket was found non-empty when probed just above,
                    // so it cannot be absent here.
                    proof {
                        assert(false);
                    }
                }
            }
        }
    }
    proof {
        assert(rt.take(j) =~= rt);
    }
    new_map
}

/// Relies on the row type's `Clone` implementation; nothing more is assumed
/// of the copy than that implementation's own contract.
fn clone_row<R: Clone>(row: &R) -> (r: R)
    ensures
        cloned::<R>(*row, r),
{
    row.clone()
}

impl<L: HasRowID, R: HasRowID> ManyToManyJoin<L, R> {
    /// Consume the join and keep the left side as the bucket keys: every
    /// right row is emitted into the bucket of each left it is related to
    /// (cloned, in right-table order, with relation multiplicity), rights
    /// related to nothing land in the "no left" bucket, and every left row
    /// keeps a bucket even when empty.
    pub fn into_many_to_zero_left(self) -> (z: ZeroToManyJoin<L, R>) where R: Clone
        requires
            self.wf(),
            !self.spec_left_table().spec_contains_id(0),
            forall|rid: i64| !(#[trigger] self.lefts_of(rid)).contains(0),
        ensures
            z.wf(),
            z@.len() == 1 + self.spec_left_table()@.len(),
            z@[0].0 == None::<L>,
            z@[0].1 == unmatched_rights(self.spec_right_table()@, self.spec_right_to_left()),
            forall|m: int| 0 <= m < self.spec_left_table()@.len() ==> (#[trigger] z@[m + 1]).0
                == Some(self.spec_left_table()@[m]),
            forall|m: int| 0 <= m < self.spec_left_table()@.len() ==> cloned_seq(
                expected_bucket(
                    self.spec_right_table()@,
                    self.spec_right_to_left(),
                    self.spec_left_table()@[m].id(),
                ),
                (#[trigger] z@[m + 1]).1,
            ),
    {
        let ghost rtl = self.spec_right_to_left();
        proof {
            assert forall|rid: i64| !(#[trigger] rtl.seq_at(rid)).contains(0) by {
                assert(!self.lefts_of(rid).contains(0));
            }
        }
        let ManyToManyJoin { left_table, right_table, left_to_right: _, right_to_left } = self;
        into_zero_to_many(left_table, right_table, right_to_left)
    }

    /// Consume the join and keep the right side as the bucket keys: the
    /// mirror image of keeping the left side.
    pub fn into_many_to_zero_right(self) -> (z: ZeroToManyJoin<R, L>) where L: Clone
        requires
            self.wf(),
            !self.spec_right_table().spec_contains_id(0),
            forall|lid: i64| !(#[trigger] self.rights_of(lid)).contains(0),
        ensures
            z.wf(),
            z@.len() == 1 + self.spec_right_table()@.len(),
            z@[0].0 == None::<R>,
            z@[0].1 == unmatched_rights(self.spec_left_table()@, self.spec_left_to_right()),
            forall|m: int| 0 <= m < self.spec_right_table()@.len() ==> (#[trigger] z@[m + 1]).0
                == Some(self.spec_right_table()@[m]),
            forall|m: int| 0 <= m < self.spec_right_table()@.len() ==> cloned_seq(
                expected_bucket(
                    self.spec_left_table()@,
                    self.spec_left_to_right(),
                    self.spec_right_table()@[m].id(),
                ),
                (#[trigger] z@[m + 1]).1,
            ),
    {
        let ghost ltr = self.spec_left_to_right();
        proof {
            assert forall|lid: i64| !(#[trigger] ltr.seq_at(lid)).contains(0) by {
                assert(!self.rights_of(lid).contains(0));
            }
        }
        let ManyToManyJoin { left_table, right_table, left_to_right, right_to_left: _ } = self;
        into_zero_to_many(right_table, left_table, left_to_right)
    }
}

impl<L: HasRowID, R: HasRowID> Default for ManyToManyJoin<L, R> {
    /// An empty join.
    fn default() -> (r: Self)
        ensures
            r.wf(),
            r.spec_left_table()@ == Seq::<L>::empty(),
            r.spec_right_table()@ == Seq::<R>::empty(),
            r.spec_left_to_right()@ == Seq::<(i64, Seq<i64>)>::empty(),
            r.spec_right_to_left()@ == Seq::<(i64, Seq<i64>)>::empty(),
    {
        ManyToManyJoin::new()
    }
}

} // verus!
