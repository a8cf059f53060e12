use vstd::prelude::*;

use crate::id_seq::has_id;
use crate::id_seq::id_index;
use crate::id_seq::insert_by_id;
use crate::id_seq::lemma_id_index_unique;
use crate::id_seq::lemma_insert_by_id;
use crate::id_seq::lemma_remove_by_id;
use crate::id_seq::remove_by_id;
use crate::id_seq::unique_ids;
use crate::seq_count::lemma_remove_all_take_step;
use crate::seq_count::lemma_take_full;
use crate::seq_count::remove_all;

verus! {

/// One direction of a join's adjacency index: for each identity, the ordered
/// sequence of identities it is related to, with duplicates allowed. An
/// identity without an entry is related to nothing.
pub struct AdjacencyMap {
    entries: Vec<(i64, Vec<i64>)>,
}

impl AdjacencyMap {
    /// The entry sequence, each bucket read as a sequence of identities.
    pub closed spec fn view(&self) -> Seq<(i64, Seq<i64>)> {
        self.entries@.map_values(|e: (i64, Vec<i64>)| (e.0, e.1@))
    }

    /// Every key appears at most once.
    pub open spec fn wf(&self) -> bool {
        unique_ids(self@)
    }

    /// Whether an entry for `id` is present.
    pub open spec fn spec_contains_key(&self, id: i64) -> bool {
        has_id(self@, id)
    }

    /// The bucket of `id`: its entry's sequence, or empty when absent.
    pub open spec fn seq_at(&self, id: i64) -> Seq<i64> {
        if has_id(self@, id) {
            self@[id_index(self@, id)].1
        } else {
            Seq::empty()
        }
    }

    /// Create an empty adjacency index.
    pub fn new() -> (r: Self)
        ensures
            r@ == Seq::<(i64, Seq<i64>)>::empty(),
            r.wf(),
    {
        AdjacencyMap { entries: Vec::new() }
    }

    /// Find the position of the entry keyed by `id`.
    fn find_index(&self, id: i64) -> (r: Option<usize>)
        requires
            self.wf(),
        ensures
            match r {
                Some(i) => i < self@.len() && self@[i as int].0 == id
                    && self.spec_contains_key(id) && id_index(self@, id) == i,
                None => !self.spec_contains_key(id),
            },
    {
        let n = self.entries.len();
        let mut i: usize = 0;
        while i < n
            invariant
                i <= n,
                n == self@.len(),
                self.wf(),
                forall|j: int| 0 <= j < i ==> self@[j].0 != id,
            decreases n - i,
        {
            if self.entries[i].0 == id {
                proof {
                    lemma_id_index_unique(self@, id, i as int);
                }
                return Some(i);
            }
            i = i + 1;
        }
        None
    }

    /// The bucket stored under `id`, if any.
    pub fn get(&self, id: i64) -> (r: Option<&Vec<i64>>)
        requires
            self.wf(),
        ensures
            match r {
                Some(v) => self.spec_contains_key(id) && v@ == self.seq_at(id),
                None => !self.spec_contains_key(id) && self.seq_at(id) == Seq::<i64>::empty(),
            },
    {
        match self.find_index(id) {
            Some(i) => Some(&self.entries[i].1),
            None => None,
        }
    }

    /// Append `val` to the bucket of `id`, creating the bucket if needed.
    pub fn push_to(&mut self, id: i64, val: i64)
        requires
            old(self).wf(),
        ensures
            final(self).wf(),
            final(self)@ == insert_by_id(old(self)@, (id, old(self).seq_at(id).push(val))),
            final(self).seq_at(id) == old(self).seq_at(id).push(val),
            final(self).spec_contains_key(id),
            forall|id2: i64| id2 != id ==> final(self).seq_at(id2) == old(self).seq_at(id2),
            forall|id2: i64| id2 != id
                ==> final(self).spec_contains_key(id2) == old(self).spec_contains_key(id2),
    {
        proof {
            lemma_insert_by_id(old(self)@, (id, old(self).seq_at(id).push(val)));
        }
        match self.find_index(id) {
            Some(i) => {
                self.entries[i].1.push(val);
                proof {
                    assert(self@ =~= insert_by_id(
                        old(self)@,
                        (id, old(self).seq_at(id).push(val)),
                    ));
                }
            }
            None => {
                let mut bucket: Vec<i64> = Vec::new();
                bucket.push(val);
                self.entries.push((id, bucket));
                proof {
                    assert(old(self).seq_at(id).push(val) =~= bucket@);
                    assert(self@ =~= insert_by_id(
                        old(self)@,
                        (id, old(self).seq_at(id).push(val)),
                    ));
                }
            }
        }
        proof {
            Self::lemma_entry_facts(final(self)@, old(self)@, id);
        }
    }

    /// After inserting a bucket under `id`, every other identity reads the
    /// same bucket as before.
    proof fn lemma_entry_facts(t: Seq<(i64, Seq<i64>)>, s: Seq<(i64, Seq<i64>)>, id: i64)
        requires
            unique_ids(s),
            exists|b: Seq<i64>| t == insert_by_id(s, (id, b)),
        ensures
            forall|id2: i64| id2 != id
                ==> (if has_id(t, id2) {
                    t[id_index(t, id2)].1
                } else {
                    Seq::<i64>::empty()
                }) == (if has_id(s, id2) {
                    s[id_index(s, id2)].1
                } else {
                    Seq::<i64>::empty()
                }) && has_id(t, id2) == has_id(s, id2),
    {
        let b = choose|b: Seq<i64>| t == insert_by_id(s, (id, b));
        lemma_insert_by_id(s, (id, b));
        assert forall|id2: i64| id2 != id implies has_id(t, id2) == has_id(s, id2) by {
            assert(crate::id_seq::find_by_id(t, id2) == crate::id_seq::find_by_id(s, id2));
        }
    }

    /// Delete every occurrence of `val` from the bucket of `id`; a no-op when
    /// no bucket for `id` exists.
    pub fn remove_values(&mut self, id: i64, val: i64)
        requires
            old(self).wf(),
        ensures
            final(self).wf(),
            old(self).spec_contains_key(id) ==> final(self)@ == insert_by_id(
                old(self)@,
                (id, remove_all(old(self).seq_at(id), val)),
            ),
            !old(self).spec_contains_key(id) ==> final(self)@ == old(self)@,
            final(self).seq_at(id) == remove_all(old(self).seq_at(id), val),
            forall|id2: i64| id2 != id ==> final(self).seq_at(id2) == old(self).seq_at(id2),
            forall|id2: i64|
                final(self).spec_contains_key(id2) == old(self).spec_contains_key(id2),
    {
        proof {
            lemma_insert_by_id(old(self)@, (id, remove_all(old(self).seq_at(id), val)));
        }
        match self.find_index(id) {
            Some(i) => {
                vec_remove_all(&mut self.entries[i].1, val);
                proof {
                    assert(self@ =~= insert_by_id(
                        old(self)@,
                        (id, remove_all(old(self).seq_at(id), val)),
                    ));
                    Self::lemma_entry_facts(self@, old(self)@, id);
                    assert(remove_all(Seq::<i64>::empty(), val) =~= Seq::<i64>::empty());
                }
            }
            None => {
                proof {
                    assert(remove_all(Seq::<i64>::empty(), val) =~= Seq::<i64>::empty());
                }
            }
        }
    }

    /// Drop the whole entry of `id`, if present.
    pub fn remove_key(&mut self, id: i64)
        requires
            old(self).wf(),
        ensures
            final(self).wf(),
            final(self)@ == remove_by_id(old(self)@, id),
            !final(self).spec_contains_key(id),
            final(self).seq_at(id) == Seq::<i64>::empty(),
            forall|id2: i64| id2 != id ==> final(self).seq_at(id2) == old(self).seq_at(id2),
            forall|id2: i64| id2 != id
                ==> final(self).spec_contains_key(id2) == old(self).spec_contains_key(id2),
    {
        proof {
            lemma_remove_by_id(old(self)@, id);
        }
        match self.find_index(id) {
            Some(i) => {
                self.entries.remove(i);
                proof {
                    assert(self@ =~= remove_by_id(old(self)@, id));
                }
            }
            None => {}
        }
        proof {
            let t = final(self)@;
            let s = old(self)@;
            assert forall|id2: i64| id2 != id implies (if has_id(t, id2) {
                t[id_index(t, id2)].1
            } else {
                Seq::<i64>::empty()
            }) == (if has_id(s, id2) {
                s[id_index(s, id2)].1
            } else {
                Seq::<i64>::empty()
            }) && has_id(t, id2) == has_id(s, id2) by {
                assert(crate::id_seq::find_by_id(t, id2) == crate::id_seq::find_by_id(s, id2));
            }
        }
    }

    /// Delete every occurrence of `val` from every bucket. Keys are kept,
    /// even when their bucket becomes empty.
    #[verifier::loop_isolation(false)]
    pub fn purge_value(&mut self, val: i64)
        requires
            old(self).wf(),
        ensures
            final(self).wf(),
            final(self)@.len() == old(self)@.len(),
            forall|j: int| 0 <= j < old(self)@.len()
                ==> final(self)@[j] == (old(self)@[j].0, remove_all(old(self)@[j].1, val)),
            forall|id: i64|
                final(self).spec_contains_key(id) == old(self).spec_contains_key(id),
            forall|id: i64| (#[trigger] final(self).seq_at(id))
                == remove_all(old(self).seq_at(id), val),
    {
        let ghost s0 = self@;
        let n = self.entries.len();
        let mut j: usize = 0;
        while j < n
            invariant
                j <= n,
                n == self.entries@.len(),
                self.entries@.len() == s0.len(),
                forall|k: int| 0 <= k < j ==> (#[trigger] self.entries@[k]).0 == s0[k].0
                    && self.entries@[k].1@ == remove_all(s0[k].1, val),
                forall|k: int| j <= k < n ==> (#[trigger] self.entries@[k]).0 == s0[k].0
                    && self.entries@[k].1@ == s0[k].1,
            decreases n - j,
        {
            let ghost pre = self.entries@;
            entry_remove_all(&mut self.entries[j], val);
            proof {
                assert(forall|k: int| 0 <= k < n && k != j ==> self.entries@[k] == pre[k]);
            }
            j = j + 1;
        }
        proof {
            let t = final(self)@;
            let s = old(self)@;
            assert(s == s0);
            assert forall|k: int| 0 <= k < s.len() implies (#[trigger] t[k])
                == (s[k].0, remove_all(s[k].1, val)) by {
                assert(t[k] == (self.entries@[k].0, self.entries@[k].1@));
            }
            assert(unique_ids(t));
            assert forall|id: i64| has_id(t, id) == has_id(s, id) by {
                if has_id(s, id) {
                    let i = id_index(s, id);
                    assert(t[i].0 == id);
                }
                if has_id(t, id) {
                    let i = choose|i: int| 0 <= i < t.len() && t[i].0 == id;
                    assert(s[i].0 == id);
                }
            }
            assert forall|id: i64| (#[trigger] final(self).seq_at(id))
                == remove_all(old(self).seq_at(id), val) by {
                if has_id(s, id) {
                    let i = id_index(s, id);
                    lemma_id_index_unique(s, id, i);
                    assert(t[i].0 == id);
                    lemma_id_index_unique(t, id, i);
                } else {
                    assert(remove_all(Seq::<i64>::empty(), val) =~= Seq::<i64>::empty());
                }
            }
        }
    }

    /// The entries, for read-only iteration in unspecified order.
    pub fn entries(&self) -> (r: &Vec<(i64, Vec<i64>)>)
        ensures
            r@.len() == self@.len(),
            forall|j: int| 0 <= j < self@.len()
                ==> r@[j].0 == self@[j].0 && r@[j].1@ == self@[j].1,
    {
        &self.entries
    }
}

impl Default for AdjacencyMap {
    /// An empty adjacency index.
    fn default() -> (r: Self)
        ensures
            r@ == Seq::<(i64, Seq<i64>)>::empty(),
            r.wf(),
    {
        AdjacencyMap { entries: Vec::new() }
    }
}

/// Delete every occurrence of `val` from the bucket of one entry, keeping
/// its key.
fn entry_remove_all(e: &mut (i64, Vec<i64>), val: i64)
    ensures
        final(e).0 == old(e).0,
        final(e).1@ == remove_all(old(e).1@, val),
{
    vec_remove_all(&mut e.1, val);
}

/// Rewrite `v` to `v` with every occurrence of `val` deleted.
fn vec_remove_all(v: &mut Vec<i64>, val: i64)
    ensures
        final(v)@ == remove_all(old(v)@, val),
{
    let n = v.len();
    let mut out: Vec<i64> = Vec::new();
    let mut i: usize = 0;
    while i < n
        invariant
            i <= n,
            n == v@.len(),
            v@ == old(v)@,
            out@ == remove_all(v@.take(i as int), val),
        decreases n - i,
    {
        proof {
            lemma_remove_all_take_step(v@, val, i as int);
        }
        let x = v[i];
        if x != val {
            out.push(x);
        }
        i = i + 1;
    }
    proof {
        lemma_take_full(v@);
    }
    *v = out;
}

} // verus!
