use vstd::prelude::*;

use crate::has_rowid::HasRowID;
use crate::id_seq::find_by_id;
use crate::id_seq::has_id;
use crate::id_seq::id_index;
use crate::id_seq::insert_by_id;
use crate::id_seq::lemma_id_index_unique;
use crate::id_seq::lemma_insert_by_id;
use crate::id_seq::unique_ids;
use crate::id_seq::zip_insert_all;
use crate::rowid_map::RowIDMap;

verus! {

/// What appending one right value under a left key does to the entry
/// sequence: the value joins the existing bucket of the key's identity (the
/// stored key payload is kept), or a fresh one-element bucket is created.
pub open spec fn push_entry_spec<L: HasRowID, R>(
    s: Seq<(Option<L>, Seq<R>)>,
    key: Option<L>,
    value: R,
) -> Seq<(Option<L>, Seq<R>)> {
    if has_id(s, key.id()) {
        let i = id_index(s, key.id());
        s.update(i, (s[i].0, s[i].1.push(value)))
    } else {
        s.push((key, seq![value]))
    }
}

/// What appending a batch of right values under a left key does to the entry
/// sequence.
pub open spec fn push_entries_spec<L: HasRowID, R>(
    s: Seq<(Option<L>, Seq<R>)>,
    key: Option<L>,
    values: Seq<R>,
) -> Seq<(Option<L>, Seq<R>)> {
    if has_id(s, key.id()) {
        let i = id_index(s, key.id());
        s.update(i, (s[i].0, s[i].1 + values))
    } else {
        s.push((key, values))
    }
}

/// Appending under a key keeps the identities unique, extends exactly that
/// key's bucket, and leaves every other entry untouched.
pub proof fn lemma_push_entries_spec<L: HasRowID, R>(
    s: Seq<(Option<L>, Seq<R>)>,
    key: Option<L>,
    values: Seq<R>,
)
    requires
        unique_ids(s),
    ensures
        ({
            let t = push_entries_spec(s, key, values);
            &&& unique_ids(t)
            &&& has_id(t, key.id())
            &&& t[id_index(t, key.id())].1 == (if has_id(s, key.id()) {
                s[id_index(s, key.id())].1
            } else {
                Seq::<R>::empty()
            }) + values
            &&& forall|id2: i64| id2 != key.id() ==> find_by_id(t, id2) == find_by_id(s, id2)
            &&& forall|id2: i64| id2 != key.id() ==> has_id(t, id2) == has_id(s, id2)
        }),
{
    let t = push_entries_spec(s, key, values);
    if has_id(s, key.id()) {
        let i0 = id_index(s, key.id());
        assert(0 <= i0 < s.len() && s[i0].id() == key.id());
        assert(forall|i: int| 0 <= i < t.len() && i != i0 ==> t[i] == s[i]);
        assert(t[i0].id() == key.id());
        assert(unique_ids(t));
        lemma_id_index_unique(t, key.id(), i0);
        assert forall|id2: i64| id2 != key.id() implies find_by_id(t, id2) == find_by_id(s, id2)
            && has_id(t, id2) == has_id(s, id2) by {
            if has_id(s, id2) {
                let i = id_index(s, id2);
                assert(i != i0);
                lemma_id_index_unique(s, id2, i);
                lemma_id_index_unique(t, id2, i);
            } else {
                assert(!has_id(t, id2));
            }
        }
    } else {
        assert(forall|i: int| 0 <= i < s.len() ==> t[i] == s[i]);
        assert(t[s.len() as int] == (key, values));
        assert(unique_ids(t));
        lemma_id_index_unique(t, key.id(), s.len() as int);
        assert(Seq::<R>::empty() + values =~= values);
        assert forall|id2: i64| id2 != key.id() implies find_by_id(t, id2) == find_by_id(s, id2)
            && has_id(t, id2) == has_id(s, id2) by {
            if has_id(s, id2) {
                let i = id_index(s, id2);
                lemma_id_index_unique(s, id2, i);
                lemma_id_index_unique(t, id2, i);
            } else {
                assert(!has_id(t, id2));
            }
        }
    }
}

/// Appending one value is the batch append of a one-element batch.
pub proof fn lemma_push_entry_spec<L: HasRowID, R>(
    s: Seq<(Option<L>, Seq<R>)>,
    key: Option<L>,
    value: R,
)
    requires
        unique_ids(s),
    ensures
        push_entry_spec(s, key, value) == push_entries_spec(s, key, seq![value]),
        ({
            let t = push_entry_spec(s, key, value);
            &&& unique_ids(t)
            &&& has_id(t, key.id())
            &&& t[id_index(t, key.id())].1 == (if has_id(s, key.id()) {
                s[id_index(s, key.id())].1
            } else {
                Seq::<R>::empty()
            }).push(value)
            &&& forall|id2: i64| id2 != key.id() ==> find_by_id(t, id2) == find_by_id(s, id2)
            &&& forall|id2: i64| id2 != key.id() ==> has_id(t, id2) == has_id(s, id2)
        }),
{
    if has_id(s, key.id()) {
        let i0 = id_index(s, key.id());
        assert(s[i0].1.push(value) =~= s[i0].1 + seq![value]);
    }
    lemma_push_entries_spec(s, key, seq![value]);
    let t = push_entries_spec(s, key, seq![value]);
    assert(((if has_id(s, key.id()) {
        s[id_index(s, key.id())].1
    } else {
        Seq::<R>::empty()
    }) + seq![value]) =~= (if has_id(s, key.id()) {
        s[id_index(s, key.id())].1
    } else {
        Seq::<R>::empty()
    }).push(value));
}

/// A join keyed by an optional left entity, whose identity is `0` when the
/// entity is absent: each bucket holds the ordered right values of one left
/// key, duplicates allowed. The bucket under identity `0` collects right
/// values that match no left entity.
pub struct ZeroToManyJoin<L, R> {
    inner: RowIDMap<Option<L>, Vec<R>>,
}

impl<L: HasRowID, R> ZeroToManyJoin<L, R> {
    /// The entry sequence, each bucket read as a sequence, the join's
    /// mathematical model.
    pub closed spec fn view(&self) -> Seq<(Option<L>, Seq<R>)> {
        self.inner@.map_values(|e: (Option<L>, Vec<R>)| (e.0, e.1@))
    }

    /// Every key identity appears at most once.
    pub open spec fn wf(&self) -> bool {
        unique_ids(self@)
    }

    /// Whether a bucket keyed by the given identity is present.
    pub open spec fn spec_contains_id(&self, id: i64) -> bool {
        has_id(self@, id)
    }

    /// The bucket stored under the given identity, or empty when absent.
    pub open spec fn bucket_at(&self, id: i64) -> Seq<R> {
        if has_id(self@, id) {
            self@[id_index(self@, id)].1
        } else {
            Seq::empty()
        }
    }

    /// The join's keys are unique exactly when the backing map's are: both
    /// read the same identities.
    proof fn lemma_wf_inner(&self)
        ensures
            unique_ids(self@) == unique_ids(self.inner@),
    {
        assert(forall|i: int| 0 <= i < self.inner@.len()
            ==> (#[trigger] self@[i]).0 == self.inner@[i].0);
        if unique_ids(self@) {
            assert forall|i: int, j: int| 0 <= i < j < self.inner@.len()
                implies self.inner@[i].id() != self.inner@[j].id() by {
                assert(self@[i].id() != self@[j].id());
            }
        }
        if unique_ids(self.inner@) {
            assert forall|i: int, j: int| 0 <= i < j < self@.len()
                implies self@[i].id() != self@[j].id() by {
                assert(self.inner@[i].id() != self.inner@[j].id());
            }
        }
    }

    /// Create an empty join.
    pub fn new() -> (r: Self)
        ensures
            r@ == Seq::<(Option<L>, Seq<R>)>::empty(),
            r.wf(),
    {
        ZeroToManyJoin { inner: RowIDMap::new() }
    }

    /// The number of buckets.
    pub fn len(&self) -> (n: usize)
        ensures
            n == self@.len(),
    {
        self.inner.len()
    }

    /// Set the bucket of `key`'s identity to exactly `value`, overwriting key
    /// payload and bucket alike.
    pub fn insert(&mut self, key: Option<L>, value: Vec<R>)
        requires
            old(self).wf(),
        ensures
            final(self).wf(),
            final(self)@ == insert_by_id(old(self)@, (key, value@)),
    {
        let ghost v = value@;
        proof {
            self.lemma_wf_inner();
            lemma_insert_by_id(old(self).inner@, (key, value));
            lemma_insert_by_id(old(self)@, (key, v));
        }
        self.inner.insert(key, value);
        proof {
            if has_id(old(self)@, key.id()) {
                let i0 = id_index(old(self)@, key.id());
                lemma_id_index_unique(old(self)@, key.id(), i0);
                assert(old(self).inner@[i0].0.id() == key.id());
                lemma_id_index_unique(old(self).inner@, key.id(), i0);
                assert(self@ =~= insert_by_id(old(self)@, (key, v)));
            } else {
                assert(!has_id(old(self).inner@, key.id())) by {
                    if has_id(old(self).inner@, key.id()) {
                        let i = id_index(old(self).inner@, key.id());
                        lemma_id_index_unique(old(self).inner@, key.id(), i);
                        assert(old(self)@[i].0.id() == key.id());
                    }
                }
                assert(self@ =~= insert_by_id(old(self)@, (key, v)));
            }
        }
    }

    /// Create an empty bucket for a left entity, so that a left with no
    /// matches still appears; overwrites any bucket under the same identity.
    pub fn insert_left(&mut self, left: Option<L>)
        requires
            old(self).wf(),
        ensures
            final(self).wf(),
            final(self)@ == insert_by_id(old(self)@, (left, Seq::<R>::empty())),
    {
        self.insert(left, Vec::new());
    }

    /// Append one right value to the bucket of `key`'s identity, creating the
    /// bucket (with the given key payload) when absent. When the bucket
    /// exists, its stored key payload is kept and `key` is dropped.
    pub fn push_entry(&mut self, key: Option<L>, value: R)
        requires
            old(self).wf(),
        ensures
            final(self).wf(),
            final(self)@ == push_entry_spec(old(self)@, key, value),
            final(self).bucket_at(key.id()) == old(self).bucket_at(key.id()).push(value),
            final(self).spec_contains_id(key.id()),
            forall|id2: i64| id2 != key.id()
                ==> final(self).bucket_at(id2) == old(self).bucket_at(id2),
    {
        proof {
            self.lemma_wf_inner();
            lemma_push_entry_spec(old(self)@, key, value);
        }
        let id = key.rowid();
        match self.inner.get_mut_by_id(id) {
            Some(bucket) => {
                bucket.push(value);
                proof {
                    let i0 = id_index(old(self).inner@, id);
                    lemma_id_index_unique(old(self).inner@, id, i0);
                    assert(old(self)@[i0].0.id() == id);
                    lemma_id_index_unique(old(self)@, id, i0);
                    assert(self@ =~= push_entry_spec(old(self)@, key, value));
                }
            }
            None => {
                proof {
                    assert(!has_id(old(self)@, id)) by {
                        if has_id(old(self)@, id) {
                            let i = id_index(old(self)@, id);
                            lemma_id_index_unique(old(self)@, id, i);
                            assert(old(self).inner@[i].0.id() == id);
                        }
                    }
                }
                let mut bucket: Vec<R> = Vec::new();
                bucket.push(value);
                self.inner.insert(key, bucket);
                proof {
                    assert(self@ =~= push_entry_spec(old(self)@, key, value));
                }
            }
        }
        proof {
            let t = final(self)@;
            let s = old(self)@;
            lemma_push_entry_spec(s, key, value);
            assert forall|id2: i64| id2 != key.id() implies final(self).bucket_at(id2)
                == old(self).bucket_at(id2) by {
                assert(find_by_id(t, id2) == find_by_id(s, id2));
                assert(has_id(t, id2) == has_id(s, id2));
                if has_id(s, id2) {
                    lemma_id_index_unique(s, id2, id_index(s, id2));
                    lemma_id_index_unique(t, id2, id_index(t, id2));
                }
            }
        }
    }

    /// Append a batch of right values to the bucket of `key`'s identity,
    /// creating the bucket when absent.
    pub fn push_entries(&mut self, key: Option<L>, values: Vec<R>)
        requires
            old(self).wf(),
        ensures
            final(self).wf(),
            final(self)@ == push_entries_spec(old(self)@, key, values@),
            final(self).bucket_at(key.id()) == old(self).bucket_at(key.id()) + values@,
            final(self).spec_contains_id(key.id()),
            forall|id2: i64| id2 != key.id()
                ==> final(self).bucket_at(id2) == old(self).bucket_at(id2),
    {
        let ghost vs = values@;
        proof {
            self.lemma_wf_inner();
            lemma_push_entries_spec(old(self)@, key, vs);
        }
        let id = key.rowid();
        let mut values = values;
        match self.inner.get_mut_by_id(id) {
            Some(bucket) => {
                bucket.append(&mut values);
                proof {
                    let i0 = id_index(old(self).inner@, id);
                    lemma_id_index_unique(old(self).inner@, id, i0);
                    assert(old(self)@[i0].0.id() == id);
                    lemma_id_index_unique(old(self)@, id, i0);
                    assert(self@ =~= push_entries_spec(old(self)@, key, vs));
                }
            }
            None => {
                proof {
                    assert(!has_id(old(self)@, id)) by {
                        if has_id(old(self)@, id) {
                            let i = id_index(old(self)@, id);
                            lemma_id_index_unique(old(self)@, id, i);
                            assert(old(self).inner@[i].0.id() == id);
                        }
                    }
                }
                self.inner.insert(key, values);
                proof {
                    assert(self@ =~= push_entries_spec(old(self)@, key, vs));
                }
            }
        }
        proof {
            let t = final(self)@;
            let s = old(self)@;
            lemma_push_entries_spec(s, key, vs);
            assert(old(self).bucket_at(key.id()) + vs == final(self).bucket_at(key.id()));
            assert forall|id2: i64| id2 != key.id() implies final(self).bucket_at(id2)
                == old(self).bucket_at(id2) by {
                assert(find_by_id(t, id2) == find_by_id(s, id2));
                assert(has_id(t, id2) == has_id(s, id2));
                if has_id(s, id2) {
                    lemma_id_index_unique(s, id2, id_index(s, id2));
                    lemma_id_index_unique(t, id2, id_index(t, id2));
                }
            }
        }
    }

    /// Append one right value to the bucket of an existing identity; when no
    /// bucket for `id` exists, nothing happens and the value is dropped.
    pub fn push_right_by_id(&mut self, id: i64, value: R)
        requires
            old(self).wf(),
        ensures
            final(self).wf(),
            old(self).spec_contains_id(id) ==> final(self)@ == old(self)@.update(
                id_index(old(self)@, id),
                (old(self)@[id_index(old(self)@, id)].0, old(self).bucket_at(id).push(value)),
            ),
            !old(self).spec_contains_id(id) ==> final(self)@ == old(self)@,
            old(self).spec_contains_id(id) ==> final(self).bucket_at(id)
                == old(self).bucket_at(id).push(value),
            forall|id2: i64| id2 != id ==> final(self).bucket_at(id2) == old(self).bucket_at(id2),
            final(self)@.len() == old(self)@.len(),
    {
        proof {
            self.lemma_wf_inner();
        }
        match self.inner.get_mut_by_id(id) {
            Some(bucket) => {
                bucket.push(value);
                proof {
                    let i0 = id_index(old(self).inner@, id);
                    lemma_id_index_unique(old(self).inner@, id, i0);
                    assert(old(self)@[i0].0.id() == id);
                    lemma_id_index_unique(old(self)@, id, i0);
                    let t = final(self)@;
                    let s = old(self)@;
                    assert(t =~= s.update(i0, (s[i0].0, old(self).bucket_at(id).push(value))));
                    assert(unique_ids(t)) by {
                        assert(forall|i: int| 0 <= i < t.len() && i != i0 ==> t[i] == s[i]);
                    }
                    lemma_id_index_unique(t, id, i0);
                    assert forall|id2: i64| id2 != id implies final(self).bucket_at(id2)
                        == old(self).bucket_at(id2) by {
                        if has_id(s, id2) {
                            let i = id_index(s, id2);
                            lemma_id_index_unique(s, id2, i);
                            assert(i != i0);
                            lemma_id_index_unique(t, id2, i);
                        } else {
                            assert(!has_id(t, id2)) by {
                                if has_id(t, id2) {
                                    let i = choose|i: int|
                                        0 <= i < t.len() && t[i].id() == id2;
                                    assert(s[i].id() == id2);
                                }
                            }
                        }
                    }
                }
            }
            None => {
                proof {
                    assert(!has_id(old(self)@, id)) by {
                        if has_id(old(self)@, id) {
                            let i = id_index(old(self)@, id);
                            lemma_id_index_unique(old(self)@, id, i);
                            assert(old(self).inner@[i].0.id() == id);
                        }
                    }
                }
            }
        }
    }

    /// Consume the join and rebuild it with every left key transformed by
    /// `f`, identities re-derived from the transformed keys. Buckets whose
    /// transformed keys share an identity collapse by the insertion rule.
    pub fn map_left<U: HasRowID, F: Fn(L) -> U>(self, f: F) -> (r: ZeroToManyJoin<U, R>)
        requires
            self.wf(),
            forall|i: int| 0 <= i < self@.len() ==> match (#[trigger] self@[i]).0 {
                Some(l) => call_requires(f, (l,)),
                None => true,
            },
        ensures
            r.wf(),
            exists|ks: Seq<Option<U>>|
                {
                    &&& ks.len() == self@.len()
                    &&& forall|i: int| 0 <= i < self@.len() ==> match (#[trigger] self@[i]).0 {
                        Some(l) => ks[i] matches Some(u) && call_ensures(f, (l,), u),
                        None => ks[i] is None,
                    }
                    &&& r@ == zip_insert_all(
                        ks,
                        self@.map_values(|e: (Option<L>, Seq<R>)| e.1),
                    )
                },
    {
        let ghost orig = self@;
        let ghost vs = orig.map_values(|e: (Option<L>, Seq<R>)| e.1);
        let mut items = self.into_entries();
        let mut out: ZeroToManyJoin<U, R> = ZeroToManyJoin::new();
        let ghost mut ks: Seq<Option<U>> = Seq::empty();
        let ghost mut i: int = 0;
        while items.len() > 0
            invariant
                0 <= i <= orig.len(),
                vs == orig.map_values(|e: (Option<L>, Seq<R>)| e.1),
                items@.len() == orig.len() - i,
                forall|k: int| 0 <= k < items@.len() ==> (#[trigger] items@[k]).0
                    == orig[i + k].0 && items@[k].1@ == orig[i + k].1,
                forall|k: int| 0 <= k < orig.len() ==> match (#[trigger] orig[k]).0 {
                    Some(l) => call_requires(f, (l,)),
                    None => true,
                },
                ks.len() == i,
                forall|k: int| 0 <= k < i ==> match (#[trigger] orig[k]).0 {
                    Some(l) => ks[k] matches Some(u) && call_ensures(f, (l,), u),
                    None => ks[k] is None,
                },
                out.wf(),
                out@ == zip_insert_all(ks, vs.take(i)),
            decreases items@.len(),
        {
            let (key, bucket) = items.remove(0);
            proof {
                assert(key == orig[i].0);
                assert(bucket@ == orig[i].1);
                assert(forall|k: int| 0 <= k < items@.len() ==> (#[trigger] items@[k]).0
                    == orig[i + 1 + k].0 && items@[k].1@ == orig[i + 1 + k].1);
            }
            let new_key = match key {
                Some(l) => Some(f(l)),
                None => None,
            };
            let ghost ks_old = ks;
            let ghost i_old = i;
            proof {
                ks = ks.push(new_key);
                i = i + 1;
            }
            out.insert(new_key, bucket);
            proof {
                assert(vs[i_old] == orig[i_old].1);
                assert(out@ == insert_by_id(zip_insert_all(ks_old, vs.take(i_old)),
                    (new_key, vs[i_old])));
                assert(ks.drop_last() =~= ks_old);
                assert(vs.take(i).drop_last() =~= vs.take(i_old));
                assert(vs.take(i).last() == vs[i_old]);
                assert(out@ == zip_insert_all(ks, vs.take(i)));
            }
        }
        proof {
            assert(i == orig.len());
            assert(vs.take(i) =~= vs);
            assert(out@ == zip_insert_all(ks, vs));
        }
        out
    }

    /// Consume the join and rebuild it with every right value transformed by
    /// `f`; keys, bucket membership and bucket order are preserved.
    pub fn map_right<U, F: Fn(R) -> U>(self, f: F) -> (r: ZeroToManyJoin<L, U>)
        requires
            self.wf(),
            forall|i: int, j: int| 0 <= i < self@.len() && 0 <= j < self@[i].1.len()
                ==> call_requires(f, ((#[trigger] self@[i].1[j]),)),
        ensures
            r.wf(),
            r@.len() == self@.len(),
            forall|i: int| 0 <= i < self@.len() ==> (#[trigger] r@[i]).0 == self@[i].0
                && r@[i].1.len() == self@[i].1.len(),
            forall|i: int, j: int| 0 <= i < self@.len() && 0 <= j < self@[i].1.len()
                ==> call_ensures(f, (self@[i].1[j],), (#[trigger] r@[i].1[j])),
    {
        let ghost orig = self@;
        let mut items = self.into_entries();
        let mut out: ZeroToManyJoin<L, U> = ZeroToManyJoin::new();
        let ghost mut i: int = 0;
        while items.len() > 0
            invariant
                0 <= i <= orig.len(),
                unique_ids(orig),
                items@.len() == orig.len() - i,
                forall|k: int| 0 <= k < items@.len() ==> (#[trigger] items@[k]).0
                    == orig[i + k].0 && items@[k].1@ == orig[i + k].1,
                forall|k: int, j: int| 0 <= k < orig.len() && 0 <= j < orig[k].1.len()
                    ==> call_requires(f, ((#[trigger] orig[k].1[j]),)),
                out.wf(),
                out@.len() == i,
                forall|k: int| 0 <= k < i ==> (#[trigger] out@[k]).0 == orig[k].0
                    && out@[k].1.len() == orig[k].1.len(),
                forall|k: int, j: int| 0 <= k < i && 0 <= j < orig[k].1.len()
                    ==> call_ensures(f, (orig[k].1[j],), (#[trigger] out@[k].1[j])),
            decreases items@.len(),
        {
            let (key, bucket) = items.remove(0);
            proof {
                assert(key == orig[i].0);
                assert(bucket@ == orig[i].1);
                assert(forall|k: int| 0 <= k < items@.len() ==> (#[trigger] items@[k]).0
                    == orig[i + 1 + k].0 && items@[k].1@ == orig[i + 1 + k].1);
            }
            // The bucket is consumed from the front so that each right value
            // can be moved into `f`.
            let mut rest = bucket;
            let mut mapped: Vec<U> = Vec::new();
            while rest.len() > 0
                invariant
                    0 <= i < orig.len(),
                    mapped@.len() + rest@.len() == orig[i].1.len(),
                    forall|k: int| 0 <= k < rest@.len() ==> (#[trigger] rest@[k])
                        == orig[i].1[mapped@.len() + k],
                    forall|k: int, j2: int| 0 <= k < orig.len() && 0 <= j2 < orig[k].1.len()
                        ==> call_requires(f, ((#[trigger] orig[k].1[j2]),)),
                    forall|j2: int| 0 <= j2 < mapped@.len()
                        ==> call_ensures(f, (orig[i].1[j2],), (#[trigger] mapped@[j2])),
                decreases rest@.len(),
            {
                let x = rest.remove(0);
                proof {
                    assert(x == orig[i].1[mapped@.len() as int]);
                    assert(forall|k: int| 0 <= k < rest@.len() ==> (#[trigger] rest@[k])
                        == orig[i].1[mapped@.len() + 1 + k]);
                }
                let y = f(x);
                mapped.push(y);
            }
            proof {
                assert(!has_id(out@, key.id())) by {
                    if has_id(out@, key.id()) {
                        let k = choose|k: int| 0 <= k < out@.len() && out@[k].id() == key.id();
                        assert(orig[k].id() == orig[i].id());
                    }
                }
                i = i + 1;
            }
            out.insert(key, mapped);
        }
        out
    }

    /// Consume the join and hand out its entries.
    pub fn into_entries(self) -> (r: Vec<(Option<L>, Vec<R>)>)
        ensures
            r@.len() == self@.len(),
            forall|i: int| 0 <= i < self@.len()
                ==> r@[i].0 == self@[i].0 && r@[i].1@ == self@[i].1,
    {
        self.inner.into_entries()
    }
}

/// Law: a key transform that maps every key to itself rebuilds exactly the
/// same buckets, so `map_left` with an identity transform (and `map_right`,
/// whose contract is already pointwise) returns a join with identical
/// contents. `ks` stands for the transformed keys of `map_left`'s contract.
pub proof fn lemma_map_left_identity<L: HasRowID, R>(
    s: Seq<(Option<L>, Seq<R>)>,
    ks: Seq<Option<L>>,
)
    requires
        unique_ids(s),
        ks.len() == s.len(),
        forall|i: int| 0 <= i < s.len() ==> ks[i] == (#[trigger] s[i]).0,
    ensures
        zip_insert_all(ks, s.map_values(|e: (Option<L>, Seq<R>)| e.1)) == s,
{
    crate::id_seq::lemma_zip_insert_all_identity(
        ks,
        s.map_values(|e: (Option<L>, Seq<R>)| e.1),
        s,
    );
}

impl<L: HasRowID, R> Default for ZeroToManyJoin<L, R> {
    /// An empty join.
    fn default() -> (r: Self)
        ensures
            r@ == Seq::<(Option<L>, Seq<R>)>::empty(),
            r.wf(),
    {
        ZeroToManyJoin::new()
    }
}

} // verus!
