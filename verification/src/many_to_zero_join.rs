use vstd::prelude::*;

use crate::has_rowid::HasRowID;
use crate::id_seq::find_by_id;
use crate::id_seq::has_id;
use crate::id_seq::id_index;
use crate::id_seq::insert_by_id;
use crate::id_seq::lemma_id_index_unique;
use crate::id_seq::unique_ids;
use crate::id_seq::zip_insert_all;
use crate::rowid_map::RowIDMap;
use crate::zero_to_many_join::push_entry_spec;
use crate::zero_to_many_join::ZeroToManyJoin;

verus! {

/// What inverting a many-to-zero entry sequence produces: every entry whose
/// right is present becomes one appended left under that right's bucket, in
/// entry order; entries with no right are dropped.
pub open spec fn invert_fold<L: HasRowID, R: HasRowID>(
    s: Seq<(L, Option<R>)>,
) -> Seq<(Option<R>, Seq<L>)>
    decreases s.len(),
{
    if s.len() == 0 {
        Seq::empty()
    } else {
        let rest = invert_fold(s.drop_last());
        match s.last().1 {
            Some(r) => push_entry_spec(rest, Some(r), s.last().0),
            None => rest,
        }
    }
}

/// Inverting keeps the result's key identities unique.
pub proof fn lemma_invert_fold_wf<L: HasRowID, R: HasRowID>(s: Seq<(L, Option<R>)>)
    ensures
        unique_ids(invert_fold(s)),
    decreases s.len(),
{
    if s.len() > 0 {
        lemma_invert_fold_wf(s.drop_last());
        match s.last().1 {
            Some(r) => {
                crate::zero_to_many_join::lemma_push_entry_spec(
                    invert_fold(s.drop_last()),
                    Some(r),
                    s.last().0,
                );
            }
            None => {}
        }
    }
}

/// Walking the entries from the front, the inversion over the prefix grows
/// at the entry just passed.
pub proof fn lemma_invert_fold_take_step<L: HasRowID, R: HasRowID>(
    s: Seq<(L, Option<R>)>,
    i: int,
)
    requires
        0 <= i < s.len(),
    ensures
        invert_fold(s.take(i + 1)) == match s[i].1 {
            Some(r) => push_entry_spec(invert_fold(s.take(i)), Some(r), s[i].0),
            None => invert_fold(s.take(i)),
        },
{
    assert(s.take(i + 1).drop_last() =~= s.take(i));
    assert(s.take(i + 1).last() == s[i]);
}

/// A join in which each left entity has at most one right entity, keyed by
/// the left entity's identity. Inserting under a present identity overwrites
/// the whole entry.
pub struct ManyToZeroJoin<L, R> {
    inner: RowIDMap<L, Option<R>>,
}

impl<L: HasRowID, R> ManyToZeroJoin<L, R> {
    /// The sequence of `(left, optional right)` entries, the join's
    /// mathematical model.
    pub closed spec fn view(&self) -> Seq<(L, Option<R>)> {
        self.inner@
    }

    /// Every left identity appears at most once.
    pub open spec fn wf(&self) -> bool {
        unique_ids(self@)
    }

    /// Whether an entry keyed by the given identity is present.
    pub open spec fn spec_contains_id(&self, id: i64) -> bool {
        has_id(self@, id)
    }

    /// The entry stored under the given identity, if any.
    pub open spec fn spec_get_id(&self, id: i64) -> Option<(L, Option<R>)> {
        find_by_id(self@, id)
    }

    /// Create an empty join.
    pub fn new() -> (r: Self)
        ensures
            r@ == Seq::<(L, Option<R>)>::empty(),
            r.wf(),
    {
        ManyToZeroJoin { inner: RowIDMap::new() }
    }

    /// The number of entries.
    pub fn len(&self) -> (n: usize)
        ensures
            n == self@.len(),
    {
        self.inner.len()
    }

    /// Set the entry of `left`'s identity to `(left, right)`, overwriting any
    /// previous entry with that identity.
    pub fn insert(&mut self, left: L, right: Option<R>)
        requires
            old(self).wf(),
        ensures
            final(self).wf(),
            final(self)@ == insert_by_id(old(self)@, (left, right)),
            final(self).spec_get_id(left.id()) == Some::<(L, Option<R>)>((left, right)),
            forall|id: i64| id != left.id()
                ==> final(self).spec_get_id(id) == old(self).spec_get_id(id),
    {
        self.inner.insert(left, right);
        proof {
            assert forall|id: i64| id != left.id() implies final(self).spec_get_id(id)
                == old(self).spec_get_id(id) by {
                assert(self.inner.spec_get_id(id) == old(self).inner.spec_get_id(id));
            }
        }
    }

    /// Replace the right value of the entry stored under `key`, returning the
    /// previous right value; nothing happens (and nothing is returned) when
    /// no entry for `key` exists.
    pub fn replace_by_id(&mut self, key: i64, value: R) -> (r: Option<R>)
        requires
            old(self).wf(),
        ensures
            final(self).wf(),
            old(self).spec_contains_id(key) ==> {
                &&& final(self)@ == old(self)@.update(
                    id_index(old(self)@, key),
                    (old(self)@[id_index(old(self)@, key)].0, Some(value)),
                )
                &&& r == old(self)@[id_index(old(self)@, key)].1
            },
            !old(self).spec_contains_id(key) ==> final(self)@ == old(self)@ && r is None,
            forall|id: i64| id != key
                ==> final(self).spec_get_id(id) == old(self).spec_get_id(id),
    {
        let result = match self.inner.get_mut_by_id(key) {
            Some(slot) => {
                let prev = slot.take();
                *slot = Some(value);
                prev
            }
            None => None,
        };
        proof {
            let s = old(self)@;
            let t = final(self)@;
            if has_id(s, key) {
                let i0 = id_index(s, key);
                assert(forall|i: int| 0 <= i < t.len() && i != i0 ==> t[i] == s[i]);
                assert forall|id: i64| id != key implies find_by_id(t, id) == find_by_id(s, id) by {
                    if has_id(s, id) {
                        let i = id_index(s, id);
                        lemma_id_index_unique(s, id, i);
                        assert(i != i0);
                        lemma_id_index_unique(t, id, i);
                    } else {
                        assert(!has_id(t, id));
                    }
                }
            }
        }
        result
    }

    /// Consume the join and produce the inverse zero-to-many join: every
    /// entry `(left, Some(right))` contributes `left` to the bucket of
    /// `right`; entries with no right are dropped.
    pub fn invert(self) -> (r: ZeroToManyJoin<R, L>) where R: HasRowID
        requires
            self.wf(),
        ensures
            r.wf(),
            r@ == invert_fold(self@),
    {
        let ghost orig = self@;
        let mut items = self.into_entries();
        let mut out: ZeroToManyJoin<R, L> = ZeroToManyJoin::new();
        let ghost mut i: int = 0;
        while items.len() > 0
            invariant
                0 <= i <= orig.len(),
                items@ == orig.skip(i),
                out.wf(),
                out@ == invert_fold(orig.take(i)),
            decreases items@.len(),
        {
            let (left, right) = items.remove(0);
            proof {
                assert(items@ =~= orig.skip(i + 1));
                assert((left, right) == orig[i]);
                lemma_invert_fold_take_step(orig, i);
                i = i + 1;
            }
            match right {
                Some(r_val) => {
                    out.push_entry(Some(r_val), left);
                }
                None => {}
            }
        }
        proof {
            assert(orig.take(i) =~= orig);
        }
        out
    }

    /// Consume the join and rebuild it with every left key transformed by
    /// `f`, identities re-derived from the transformed keys. Entries whose
    /// transformed keys share an identity collapse by the insertion rule.
    pub fn map_left<U: HasRowID, F: Fn(L) -> U>(self, f: F) -> (r: ManyToZeroJoin<U, R>)
        requires
            self.wf(),
            forall|i: int| 0 <= i < self@.len() ==> call_requires(f, ((#[trigger] self@[i]).0,)),
        ensures
            r.wf(),
            exists|ks: Seq<U>|
                {
                    &&& ks.len() == self@.len()
                    &&& forall|i: int| 0 <= i < self@.len()
                        ==> call_ensures(f, ((#[trigger] self@[i]).0,), ks[i])
                    &&& r@ == zip_insert_all(
                        ks,
                        self@.map_values(|e: (L, Option<R>)| e.1),
                    )
                },
    {
        let ghost orig = self@;
        let ghost vs = orig.map_values(|e: (L, Option<R>)| e.1);
        let mut items = self.into_entries();
        let mut out: ManyToZeroJoin<U, R> = ManyToZeroJoin::new();
        let ghost mut ks: Seq<U> = Seq::empty();
        let ghost mut i: int = 0;
        while items.len() > 0
            invariant
                0 <= i <= orig.len(),
                vs == orig.map_values(|e: (L, Option<R>)| e.1),
                items@ == orig.skip(i),
                forall|k: int| 0 <= k < orig.len()
                    ==> call_requires(f, ((#[trigger] orig[k]).0,)),
                ks.len() == i,
                forall|k: int| 0 <= k < i
                    ==> call_ensures(f, ((#[trigger] orig[k]).0,), ks[k]),
                out.wf(),
                out@ == zip_insert_all(ks, vs.take(i)),
            decreases items@.len(),
        {
            let (left, right) = items.remove(0);
            proof {
                assert(items@ =~= orig.skip(i + 1));
                assert((left, right) == orig[i]);
            }
            let new_key = f(left);
            let ghost ks_old = ks;
            let ghost i_old = i;
            proof {
                ks = ks.push(new_key);
                i = i + 1;
            }
            out.insert(new_key, right);
            proof {
                assert(vs[i_old] == orig[i_old].1);
                assert(out@ == insert_by_id(zip_insert_all(ks_old, vs.take(i_old)),
                    (new_key, vs[i_old])));
                assert(ks.drop_last() =~= ks_old);
                assert(vs.take(i).drop_last() =~= vs.take(i_old));
                assert(vs.take(i).last() == vs[i_old]);
                assert(out@ == zip_insert_all(ks, vs.take(i)));
            }
        }
        proof {
            assert(vs.take(i) =~= vs);
            assert(out@ == zip_insert_all(ks, vs));
        }
        out
    }

    /// Consume the join and rebuild it with every present right value
    /// transformed by `f`; keys, entry order and absence are preserved.
    pub fn map_right<U, F: Fn(R) -> U>(self, f: F) -> (r: ManyToZeroJoin<L, U>)
        requires
            self.wf(),
            forall|i: int| 0 <= i < self@.len() ==> match (#[trigger] self@[i]).1 {
                Some(v) => call_requires(f, (v,)),
                None => true,
            },
        ensures
            r.wf(),
            r@.len() == self@.len(),
            forall|i: int| 0 <= i < self@.len() ==> (#[trigger] r@[i]).0 == self@[i].0
                && match self@[i].1 {
                    Some(v) => r@[i].1 matches Some(u) && call_ensures(f, (v,), u),
                    None => r@[i].1 is None,
                },
    {
        let ghost orig = self@;
        let mut items = self.into_entries();
        let mut out: ManyToZeroJoin<L, U> = ManyToZeroJoin::new();
        let ghost mut i: int = 0;
        while items.len() > 0
            invariant
                0 <= i <= orig.len(),
                unique_ids(orig),
                items@ == orig.skip(i),
                forall|k: int| 0 <= k < orig.len() ==> match (#[trigger] orig[k]).1 {
                    Some(v) => call_requires(f, (v,)),
                    None => true,
                },
                out.wf(),
                out@.len() == i,
                forall|k: int| 0 <= k < i ==> (#[trigger] out@[k]).0 == orig[k].0
                    && match orig[k].1 {
                        Some(v) => out@[k].1 matches Some(u) && call_ensures(f, (v,), u),
                        None => out@[k].1 is None,
                    },
            decreases items@.len(),
        {
            let (left, right) = items.remove(0);
            proof {
                assert(items@ =~= orig.skip(i + 1));
                assert((left, right) == orig[i]);
                assert(!has_id(out@, left.id())) by {
                    if has_id(out@, left.id()) {
                        let k = choose|k: int| 0 <= k < out@.len() && out@[k].id() == left.id();
                        assert(orig[k].id() == orig[i].id());
                    }
                }
                i = i + 1;
            }
            let new_right = match right {
                Some(v) => Some(f(v)),
                None => None,
            };
            out.insert(left, new_right);
        }
        out
    }

    /// Consume the join and hand out its entries.
    pub fn into_entries(self) -> (r: Vec<(L, Option<R>)>)
        ensures
            r@ == self@,
    {
        self.inner.into_entries()
    }
}

/// Law: a key transform that maps every key to itself rebuilds exactly the
/// same entries, so `map_left` with an identity transform (and `map_right`,
/// whose contract is already pointwise) returns a join with identical
/// contents. `ks` stands for the transformed keys of `map_left`'s contract.
pub proof fn lemma_map_left_identity<L: HasRowID, R>(s: Seq<(L, Option<R>)>, ks: Seq<L>)
    requires
        unique_ids(s),
        ks.len() == s.len(),
        forall|i: int| 0 <= i < s.len() ==> ks[i] == (#[trigger] s[i]).0,
    ensures
        zip_insert_all(ks, s.map_values(|e: (L, Option<R>)| e.1)) == s,
{
    crate::id_seq::lemma_zip_insert_all_identity(
        ks,
        s.map_values(|e: (L, Option<R>)| e.1),
        s,
    );
}

impl<L: HasRowID, R> Default for ManyToZeroJoin<L, R> {
    /// An empty join.
    fn default() -> (r: Self)
        ensures
            r@ == Seq::<(L, Option<R>)>::empty(),
            r.wf(),
    {
        ManyToZeroJoin::new()
    }
}

} // verus!
