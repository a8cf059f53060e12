use vstd::prelude::*;

use crate::adjacency::AdjacencyMap;
use crate::has_rowid::HasRowID;
use crate::id_seq::find_by_id;
use crate::id_seq::has_id;
use crate::id_seq::id_index;
use crate::id_seq::insert_all;
use crate::id_seq::lemma_id_index_unique;
use crate::id_seq::lemma_insert_all_wf;
use crate::id_seq::unique_ids;
use crate::id_seq::zip_insert_all;
use crate::join_relation::JoinRelation;
use crate::many_to_many_join::expected_bucket;
use crate::many_to_many_join::repeat_row;
use crate::many_to_many_join::ManyToManyJoin;
use crate::many_to_zero_join::ManyToZeroJoin;
use crate::seq_count::count_of;
use crate::seq_count::lemma_count_push;

verus! {

/// What one relation does when folded into a many-to-zero join: the entry of
/// its external identity gets the row as its right value; a relation whose
/// identity has no entry is dropped.
pub open spec fn replace_one<L: HasRowID, T>(
    s: Seq<(L, Option<T>)>,
    id: i64,
    value: T,
) -> Seq<(L, Option<T>)> {
    if has_id(s, id) {
        s.update(id_index(s, id), (s[id_index(s, id)].0, Some(value)))
    } else {
        s
    }
}

/// Folding a whole relation list into a many-to-zero join, in order: for each
/// external identity the last relation wins.
pub open spec fn replace_all<L: HasRowID, T>(
    s: Seq<(L, Option<T>)>,
    joins: Seq<JoinRelation<T>>,
) -> Seq<(L, Option<T>)>
    decreases joins.len(),
{
    if joins.len() == 0 {
        s
    } else {
        replace_one(
            replace_all(s, joins.drop_last()),
            joins.last().original_id,
            joins.last().data,
        )
    }
}

/// The identities of the rows that the relation list associates to the left
/// identity `l`, in list order.
pub open spec fn rel_rights<T: HasRowID>(joins: Seq<JoinRelation<T>>, l: i64) -> Seq<i64>
    decreases joins.len(),
{
    if joins.len() == 0 {
        Seq::empty()
    } else if joins.last().original_id == l {
        rel_rights(joins.drop_last(), l).push(joins.last().data.id())
    } else {
        rel_rights(joins.drop_last(), l)
    }
}

/// The left identities that the relation list associates to the row identity
/// `r`, in list order.
pub open spec fn rel_lefts<T: HasRowID>(joins: Seq<JoinRelation<T>>, r: i64) -> Seq<i64>
    decreases joins.len(),
{
    if joins.len() == 0 {
        Seq::empty()
    } else if joins.last().data.id() == r {
        rel_lefts(joins.drop_last(), r).push(joins.last().original_id)
    } else {
        rel_lefts(joins.drop_last(), r)
    }
}

/// How many relations of the list pair the left identity `l` with the row
/// identity `rid`.
pub open spec fn count_relations<T: HasRowID>(joins: Seq<JoinRelation<T>>, l: i64, rid: i64) -> nat
    decreases joins.len(),
{
    if joins.len() == 0 {
        0
    } else {
        count_relations(joins.drop_last(), l, rid) + if joins.last().original_id == l
            && joins.last().data.id() == rid {
            1nat
        } else {
            0nat
        }
    }
}

/// Law: the adjacency a relation list induces records every pair with its
/// exact multiplicity, the same in both directions.
pub proof fn lemma_relation_multiplicity<T: HasRowID>(
    joins: Seq<JoinRelation<T>>,
    l: i64,
    rid: i64,
)
    ensures
        count_of(rel_rights(joins, l), rid) == count_relations(joins, l, rid),
        count_of(rel_lefts(joins, rid), l) == count_relations(joins, l, rid),
    decreases joins.len(),
{
    if joins.len() > 0 {
        lemma_relation_multiplicity(joins.drop_last(), l, rid);
        if joins.last().original_id == l {
            lemma_count_push(rel_rights(joins.drop_last(), l), joins.last().data.id(), rid);
        }
        if joins.last().data.id() == rid {
            lemma_count_push(rel_lefts(joins.drop_last(), rid), joins.last().original_id, l);
        }
    }
}

/// The right rows that a relation list owes the left identity `l` once the
/// rows of `datas` fill the right table: each row in table order, repeated
/// once per relation pairing it with `l`. A row related once appears with
/// its one partner, a row related to `l` not at all contributes nothing.
pub open spec fn owed_rows<T: HasRowID>(
    joins: Seq<JoinRelation<T>>,
    datas: Seq<T>,
    l: i64,
) -> Seq<T>
    decreases datas.len(),
{
    if datas.len() == 0 {
        Seq::empty()
    } else {
        owed_rows(joins, datas.drop_last(), l) + repeat_row(
            datas.last(),
            count_relations(joins, l, datas.last().id()),
        )
    }
}

/// Law (round trip): converting a many-to-many join whose adjacency was
/// built from a relation list hands each left identity a bucket determined
/// by the list alone: every table row as often as the list relates it to
/// that left. With the conversion's own contract this pins the bucket of
/// every left after building from a list and converting back.
pub proof fn lemma_round_trip_bucket<T: HasRowID>(
    joins: Seq<JoinRelation<T>>,
    datas: Seq<T>,
    r2l: AdjacencyMap,
    l: i64,
)
    requires
        forall|rid: i64| (#[trigger] r2l.seq_at(rid)) == rel_lefts(joins, rid),
    ensures
        expected_bucket(datas, r2l, l) == owed_rows(joins, datas, l),
    decreases datas.len(),
{
    if datas.len() > 0 {
        lemma_round_trip_bucket(joins, datas.drop_last(), r2l, l);
        lemma_relation_multiplicity(joins, l, datas.last().id());
    }
}

/// The row of the last relation in the list carrying the external identity
/// `l`, if any: the one that wins when the list is folded in.
pub open spec fn last_relation<T>(joins: Seq<JoinRelation<T>>, l: i64) -> Option<T>
    decreases joins.len(),
{
    if joins.len() == 0 {
        None
    } else if joins.last().original_id == l {
        Some(joins.last().data)
    } else {
        last_relation(joins.drop_last(), l)
    }
}

/// A collection of join relations, the flat result of a join query.
#[derive(Clone, PartialEq, Eq, Hash, Debug)]
pub struct JoinCollection<T> {
    joins: Vec<JoinRelation<T>>,
}

impl<R> JoinCollection<R> {
    /// The sequence of relations, the collection's mathematical model.
    pub closed spec fn view(&self) -> Seq<JoinRelation<R>> {
        self.joins@
    }

    /// Create an empty collection.
    pub fn new() -> (r: Self)
        ensures
            r@ == Seq::<JoinRelation<R>>::empty(),
    {
        JoinCollection { joins: Vec::new() }
    }

    /// The relations, for read-only iteration.
    pub fn joins(&self) -> (r: &Vec<JoinRelation<R>>)
        ensures
            r@ == self@,
    {
        &self.joins
    }

    /// The relations, for mutation.
    pub fn joins_mut(&mut self) -> (r: &mut Vec<JoinRelation<R>>)
        ensures
            r@ == old(self)@,
            final(self)@ == final(r)@,
    {
        &mut self.joins
    }

    /// Append one relation.
    pub fn push(&mut self, join: JoinRelation<R>)
        ensures
            final(self)@ == old(self)@.push(join),
    {
        self.joins.push(join);
    }

    /// The number of relations.
    pub fn len(&self) -> (n: usize)
        ensures
            n == self@.len(),
    {
        self.joins.len()
    }

    /// Whether the collection holds no relation.
    pub fn is_empty(&self) -> (r: bool)
        ensures
            r == (self@.len() == 0),
    {
        self.joins.is_empty()
    }

    /// Consume the relations into a many-to-zero join: the given left
    /// elements are inserted first, each with no right value, then every
    /// relation sets the right value of its external identity's entry, so
    /// that for each left the last relation wins. Relations whose identity
    /// matches no left element are dropped.
    pub fn into_many_to_zero<L: HasRowID>(self, left_elements: Vec<L>) -> (r: ManyToZeroJoin<
        L,
        R,
    >)
        ensures
            r.wf(),
            r@ == replace_all(
                zip_insert_all(
                    left_elements@,
                    left_elements@.map_values(|l: L| None::<R>),
                ),
                self@,
            ),
    {
        let ghost ls = left_elements@;
        let ghost base = zip_insert_all(ls, ls.map_values(|l: L| None::<R>));
        let ghost joins_all = self@;
        let mut smart_join: ManyToZeroJoin<L, R> = ManyToZeroJoin::new();

        let mut lefts = left_elements;
        let ghost mut i: int = 0;
        while lefts.len() > 0
            invariant
                0 <= i <= ls.len(),
                lefts@ == ls.skip(i),
                smart_join.wf(),
                smart_join@ == zip_insert_all(
                    ls.take(i),
                    ls.take(i).map_values(|l: L| None::<R>),
                ),
            decreases lefts@.len(),
        {
            let left = lefts.remove(0);
            let ghost i_old = i;
            proof {
                assert(lefts@ =~= ls.skip(i + 1));
                assert(left == ls[i]);
                i = i + 1;
            }
            smart_join.insert(left, None);
            proof {
                let ks = ls.take(i);
                let vs = ls.take(i).map_values(|l: L| None::<R>);
                assert(ks.drop_last() =~= ls.take(i_old));
                assert(vs.drop_last() =~= ls.take(i_old).map_values(|l: L| None::<R>));
                assert(vs.last() == None::<R>);
                assert(smart_join@ == zip_insert_all(ks, vs));
            }
        }
        proof {
            assert(ls.take(i) =~= ls);
            assert(ls.take(i).map_values(|l: L| None::<R>) =~= ls.map_values(|l: L| None::<R>));
            assert(smart_join@ == base);
        }

        let mut joins = self.joins;
        let ghost mut j: int = 0;
        while joins.len() > 0
            invariant
                0 <= j <= joins_all.len(),
                joins@ == joins_all.skip(j),
                smart_join.wf(),
                smart_join@ == replace_all(base, joins_all.take(j)),
            decreases joins@.len(),
        {
            let join = joins.remove(0);
            proof {
                assert(joins@ =~= joins_all.skip(j + 1));
                assert(join == joins_all[j]);
                assert(joins_all.take(j + 1).drop_last() =~= joins_all.take(j));
                assert(joins_all.take(j + 1).last() == joins_all[j]);
                j = j + 1;
            }
            let (l_id, right) = join.into_tuple();
            smart_join.replace_by_id(l_id, right);
            proof {
                assert(smart_join@ == replace_all(base, joins_all.take(j)));
            }
        }
        proof {
            assert(joins_all.take(j) =~= joins_all);
        }
        smart_join
    }

    /// Consume the relations into a many-to-many join: the given left
    /// elements fill the left table, each relation is recorded in both
    /// adjacency directions and its row inserted into the right table.
    pub fn into_many_to_many<L: HasRowID>(self, left_elements: Vec<L>) -> (r: ManyToManyJoin<
        L,
        R,
    >) where R: HasRowID
        ensures
            r.wf(),
            r.spec_left_table()@ == insert_all(Seq::<L>::empty(), left_elements@),
            r.spec_right_table()@ == insert_all(
                Seq::<R>::empty(),
                self@.map_values(|rel: JoinRelation<R>| rel.data),
            ),
            forall|l: i64| (#[trigger] r.rights_of(l)) == rel_rights(self@, l),
            forall|r2: i64| (#[trigger] r.lefts_of(r2)) == rel_lefts(self@, r2),
    {
        let ghost ls = left_elements@;
        let ghost joins_all = self@;
        let ghost datas = joins_all.map_values(|rel: JoinRelation<R>| rel.data);
        let mut smart_join: ManyToManyJoin<L, R> = ManyToManyJoin::new();

        let mut lefts = left_elements;
        let ghost mut i: int = 0;
        while lefts.len() > 0
            invariant
                0 <= i <= ls.len(),
                lefts@ == ls.skip(i),
                smart_join.wf(),
                smart_join.spec_left_table()@ == insert_all(Seq::<L>::empty(), ls.take(i)),
                smart_join.spec_right_table()@ == Seq::<R>::empty(),
                forall|l: i64| (#[trigger] smart_join.rights_of(l)) == Seq::<i64>::empty(),
                forall|r2: i64| (#[trigger] smart_join.lefts_of(r2)) == Seq::<i64>::empty(),
            decreases lefts@.len(),
        {
            let left = lefts.remove(0);
            proof {
                assert(lefts@ =~= ls.skip(i + 1));
                assert(left == ls[i]);
                assert(ls.take(i + 1).drop_last() =~= ls.take(i));
                assert(ls.take(i + 1).last() == ls[i]);
                lemma_insert_all_wf(Seq::<L>::empty(), ls.take(i));
                i = i + 1;
            }
            let ghost pre = smart_join;
            smart_join.add_left(left);
            proof {
                assert forall|l: i64| (#[trigger] smart_join.rights_of(l))
                    == Seq::<i64>::empty() by {
                    assert(pre.rights_of(l) == Seq::<i64>::empty());
                    assert(smart_join.spec_left_to_right() == pre.spec_left_to_right());
                }
                assert forall|r2: i64| (#[trigger] smart_join.lefts_of(r2))
                    == Seq::<i64>::empty() by {
                    assert(pre.lefts_of(r2) == Seq::<i64>::empty());
                    assert(smart_join.spec_right_to_left() == pre.spec_right_to_left());
                }
            }
        }
        proof {
            assert(ls.take(i) =~= ls);
        }

        let mut joins = self.joins;
        let ghost mut j: int = 0;
        while joins.len() > 0
            invariant
                0 <= j <= joins_all.len(),
                joins@ == joins_all.skip(j),
                datas == joins_all.map_values(|rel: JoinRelation<R>| rel.data),
                smart_join.wf(),
                smart_join.spec_left_table()@ == insert_all(Seq::<L>::empty(), ls),
                smart_join.spec_right_table()@ == insert_all(
                    Seq::<R>::empty(),
                    datas.take(j),
                ),
                forall|l: i64| (#[trigger] smart_join.rights_of(l))
                    == rel_rights(joins_all.take(j), l),
                forall|r2: i64| (#[trigger] smart_join.lefts_of(r2))
                    == rel_lefts(joins_all.take(j), r2),
            decreases joins@.len(),
        {
            let join = joins.remove(0);
            let ghost j_old = j;
            proof {
                assert(joins@ =~= joins_all.skip(j + 1));
                assert(join == joins_all[j]);
                assert(joins_all.take(j + 1).drop_last() =~= joins_all.take(j));
                assert(joins_all.take(j + 1).last() == joins_all[j]);
                assert(datas.take(j + 1).drop_last() =~= datas.take(j));
                assert(datas.take(j + 1).last() == datas[j]);
                assert(datas[j] == joins_all[j].data);
                lemma_insert_all_wf(Seq::<R>::empty(), datas.take(j));
                j = j + 1;
            }
            let (l_id, right) = join.into_tuple();
            let ghost pre = smart_join;
            smart_join.add_relation_ids(l_id, right.rowid());
            let ghost mid = smart_join;
            smart_join.add_right(right);
            proof {
                let rel = joins_all[j_old];
                assert(smart_join.spec_left_to_right() == mid.spec_left_to_right());
                assert(smart_join.spec_right_to_left() == mid.spec_right_to_left());
                assert forall|l: i64| (#[trigger] smart_join.rights_of(l))
                    == rel_rights(joins_all.take(j), l) by {
                    assert(pre.rights_of(l) == rel_rights(joins_all.take(j_old), l));
                    assert(smart_join.rights_of(l) == mid.rights_of(l));
                    if l == rel.original_id {
                        assert(mid.rights_of(l) == pre.rights_of(l).push(rel.data.id()));
                        assert(rel_rights(joins_all.take(j), l)
                            == rel_rights(joins_all.take(j_old), l).push(rel.data.id()));
                    } else {
                        assert(mid.rights_of(l) == pre.rights_of(l));
                        assert(rel_rights(joins_all.take(j), l)
                            == rel_rights(joins_all.take(j_old), l));
                    }
                }
                assert forall|r2: i64| (#[trigger] smart_join.lefts_of(r2))
                    == rel_lefts(joins_all.take(j), r2) by {
                    assert(pre.lefts_of(r2) == rel_lefts(joins_all.take(j_old), r2));
                    assert(smart_join.lefts_of(r2) == mid.lefts_of(r2));
                    if r2 == rel.data.id() {
                        assert(mid.lefts_of(r2) == pre.lefts_of(r2).push(rel.original_id));
                        assert(rel_lefts(joins_all.take(j), r2)
                            == rel_lefts(joins_all.take(j_old), r2).push(rel.original_id));
                    } else {
                        assert(mid.lefts_of(r2) == pre.lefts_of(r2));
                        assert(rel_lefts(joins_all.take(j), r2)
                            == rel_lefts(joins_all.take(j_old), r2));
                    }
                }
            }
        }
        proof {
            assert(joins_all.take(j) =~= joins_all);
            assert(datas.take(j) =~= datas);
        }
        smart_join
    }
}

impl<T> Default for JoinCollection<T> {
    /// An empty collection.
    fn default() -> (r: Self)
        ensures
            r@ == Seq::<JoinRelation<T>>::empty(),
    {
        JoinCollection { joins: Vec::new() }
    }
}

impl<T> From<Vec<JoinRelation<T>>> for JoinCollection<T> {
    /// Wrap an existing relation list.
    fn from(value: Vec<JoinRelation<T>>) -> (r: Self)
        ensures
            r@ == value@,
    {
        JoinCollection { joins: value }
    }
}

impl<T> vstd::std_specs::convert::FromSpecImpl<Vec<JoinRelation<T>>> for JoinCollection<T> {
    // The collection's model does not determine the value of its backing
    // vector, so no exact `from_spec` is claimed; callers rely on the
    // `ensures` of `from` instead.
    open spec fn obeys_from_spec() -> bool {
        false
    }

    open spec fn from_spec(v: Vec<JoinRelation<T>>) -> JoinCollection<T> {
        choose|c: JoinCollection<T>| c@ == v@
    }
}

/// Law: folding a relation list into a many-to-zero join leaves, for each
/// left identity present in the base, the row of the last relation carrying
/// that identity (or the base's right value when no relation carries it),
/// and drops relations whose identity is absent from the base.
pub proof fn lemma_replace_all_last_wins<L: HasRowID, T>(
    s: Seq<(L, Option<T>)>,
    joins: Seq<JoinRelation<T>>,
    l: i64,
)
    requires
        unique_ids(s),
    ensures
        unique_ids(replace_all(s, joins)),
        has_id(replace_all(s, joins), l) == has_id(s, l),
        has_id(s, l) ==> find_by_id(replace_all(s, joins), l) == Some((
            find_by_id(s, l)->Some_0.0,
            match last_relation(joins, l) {
                Some(d) => Some(d),
                None => find_by_id(s, l)->Some_0.1,
            },
        )),
        !has_id(s, l) ==> find_by_id(replace_all(s, joins), l) == find_by_id(s, l),
    decreases joins.len(),
{
    if joins.len() == 0 {
    } else {
        lemma_replace_all_last_wins(s, joins.drop_last(), l);
        let mid = replace_all(s, joins.drop_last());
        let last_id = joins.last().original_id;
        lemma_replace_one_facts(mid, last_id, joins.last().data, l);
    }
}

/// Replacing one entry's right value keeps the identities unique, rewrites
/// exactly that identity's entry (when present), and leaves every other
/// identity untouched.
proof fn lemma_replace_one_facts<L: HasRowID, T>(
    s: Seq<(L, Option<T>)>,
    id: i64,
    value: T,
    probe: i64,
)
    requires
        unique_ids(s),
    ensures
        unique_ids(replace_one(s, id, value)),
        has_id(replace_one(s, id, value), probe) == has_id(s, probe),
        probe == id && has_id(s, id) ==> find_by_id(replace_one(s, id, value), id) == Some((
            find_by_id(s, id)->Some_0.0,
            Some(value),
        )),
        probe != id || !has_id(s, id) ==> find_by_id(replace_one(s, id, value), probe)
            == find_by_id(s, probe),
{
    let t = replace_one(s, id, value);
    if has_id(s, id) {
        let i0 = id_index(s, id);
        lemma_id_index_unique(s, id, i0);
        assert(forall|i: int| 0 <= i < t.len() && i != i0 ==> t[i] == s[i]);
        assert(unique_ids(t));
        lemma_id_index_unique(t, id, i0);
        if probe != id {
            if has_id(s, probe) {
                let i = id_index(s, probe);
                lemma_id_index_unique(s, probe, i);
                assert(i != i0);
                lemma_id_index_unique(t, probe, i);
            } else {
                assert(!has_id(t, probe));
            }
        }
    }
}

} // verus!
