use vstd::prelude::*;

verus! {

/// Stable insertion of one keyed element into a key-sorted sequence: the
/// element lands after every element whose key is less than or equal to its
/// own, so equal keys keep their arrival order.
pub open spec fn sorted_insert<T>(s: Seq<(i64, T)>, p: (i64, T)) -> Seq<(i64, T)>
    decreases s.len(),
{
    if s.len() == 0 {
        seq![p]
    } else if s.last().0 <= p.0 {
        s.push(p)
    } else {
        sorted_insert(s.drop_last(), p).push(s.last())
    }
}

/// Stable sort of a keyed sequence by ascending key, by repeated stable
/// insertion.
pub open spec fn stable_sort<T>(s: Seq<(i64, T)>) -> Seq<(i64, T)>
    decreases s.len(),
{
    if s.len() == 0 {
        Seq::empty()
    } else {
        sorted_insert(stable_sort(s.drop_last()), s.last())
    }
}

/// Whether a keyed sequence is ordered by ascending key.
pub open spec fn sorted_by_key<T>(s: Seq<(i64, T)>) -> bool {
    forall|i: int, j: int| 0 <= i < j < s.len() ==> (#[trigger] s[i]).0 <= (#[trigger] s[j]).0
}

/// Stable insertion yields one element more, the same contents, and keeps
/// the sequence ordered.
proof fn lemma_sorted_insert_props<T>(s: Seq<(i64, T)>, p: (i64, T))
    ensures
        sorted_insert(s, p).len() == s.len() + 1,
        sorted_insert(s, p).to_multiset() == s.to_multiset().insert(p),
        sorted_by_key(s) ==> sorted_by_key(sorted_insert(s, p)),
    decreases s.len(),
{
    broadcast use vstd::seq_lib::group_to_multiset_ensures;

    let t = sorted_insert(s, p);
    if s.len() == 0 {
        assert(t =~= Seq::<(i64, T)>::empty().push(p));
        assert(t.to_multiset() =~= s.to_multiset().insert(p));
    } else if s.last().0 <= p.0 {
        assert(t == s.push(p));
        assert(t.to_multiset() =~= s.to_multiset().insert(p));
        if sorted_by_key(s) {
            assert(sorted_by_key(t));
        }
    } else {
        let dl = s.drop_last();
        lemma_sorted_insert_props(dl, p);
        let u = sorted_insert(dl, p);
        assert(t == u.push(s.last()));
        assert(s =~= dl.push(s.last()));
        assert(s.to_multiset() == dl.to_multiset().insert(s.last()));
        assert(t.to_multiset() =~= s.to_multiset().insert(p)) by {
            assert(t.to_multiset() == u.to_multiset().insert(s.last()));
            assert(u.to_multiset() == dl.to_multiset().insert(p));
            assert(dl.to_multiset().insert(p).insert(s.last())
                =~= dl.to_multiset().insert(s.last()).insert(p));
        }
        if sorted_by_key(s) {
            assert(sorted_by_key(dl));
            assert(sorted_by_key(u));
            assert forall|i: int| 0 <= i < u.len() implies (#[trigger] u[i]).0
                <= s.last().0 by {
                assert(u.to_multiset().count(u[i]) > 0);
                assert(u.contains(u[i]));
                if u[i] == p {
                } else {
                    assert(dl.to_multiset().count(u[i]) > 0);
                    assert(dl.contains(u[i]));
                    let k = choose|k: int| 0 <= k < dl.len() && dl[k] == u[i];
                    assert(s[k].0 <= s.last().0);
                }
            }
            assert(sorted_by_key(t));
        }
    }
}

/// Law: the sorted sequence that the ranking is assigned over is a
/// permutation of the keyed input, ordered by ascending key; stability is
/// the insertion rule itself, which puts each element after every earlier
/// element with an equal key.
pub proof fn lemma_stable_sort_props<T>(s: Seq<(i64, T)>)
    ensures
        stable_sort(s).len() == s.len(),
        stable_sort(s).to_multiset() == s.to_multiset(),
        sorted_by_key(stable_sort(s)),
    decreases s.len(),
{
    broadcast use vstd::seq_lib::group_to_multiset_ensures;

    if s.len() == 0 {
        assert(stable_sort(s).to_multiset() =~= s.to_multiset());
    } else {
        lemma_stable_sort_props(s.drop_last());
        lemma_sorted_insert_props(stable_sort(s.drop_last()), s.last());
        assert(s =~= s.drop_last().push(s.last()));
        assert(s.to_multiset() == s.drop_last().to_multiset().insert(s.last()));
    }
}

/// The dense rank of position `q` in a key-sorted sequence: `0` at the
/// front, and one more than the previous position's rank exactly where the
/// key changes, so ties share a rank and no rank is skipped.
pub open spec fn rank_at(keys: Seq<i64>, q: int) -> int
    decreases q,
{
    if q <= 0 {
        0
    } else {
        rank_at(keys, q - 1) + if keys[q] == keys[q - 1] {
            0int
        } else {
            1int
        }
    }
}

/// Dense ranks never exceed the position they stand at.
pub proof fn lemma_rank_at_bound(keys: Seq<i64>, q: int)
    requires
        0 <= q,
    ensures
        0 <= rank_at(keys, q) <= q,
    decreases q,
{
    if q > 0 {
        lemma_rank_at_bound(keys, q - 1);
    }
}

/// Where the element at `pos` belongs by the stable insertion rule, the
/// insertion is a plain splice at `pos`.
proof fn lemma_sorted_insert_at<T>(s: Seq<(i64, T)>, p: (i64, T), pos: int)
    requires
        0 <= pos <= s.len(),
        forall|q: int| pos <= q < s.len() ==> (#[trigger] s[q]).0 > p.0,
        pos == 0 || s[pos - 1].0 <= p.0,
    ensures
        sorted_insert(s, p) == s.take(pos).push(p) + s.skip(pos),
    decreases s.len(),
{
    if s.len() == 0 {
        assert(sorted_insert(s, p) =~= s.take(pos).push(p) + s.skip(pos));
    } else if s.last().0 <= p.0 {
        assert(pos == s.len());
        assert(s.take(pos) =~= s);
        assert(sorted_insert(s, p) =~= s.take(pos).push(p) + s.skip(pos));
    } else {
        assert(pos < s.len());
        lemma_sorted_insert_at(s.drop_last(), p, pos);
        assert(s.drop_last().take(pos) =~= s.take(pos));
        assert(sorted_insert(s, p) =~= s.take(pos).push(p) + s.skip(pos)) by {
            assert(sorted_insert(s, p) == sorted_insert(s.drop_last(), p).push(s.last()));
            assert(s.drop_last().skip(pos).push(s.last()) =~= s.skip(pos));
        }
    }
}

/// The keyed pairing of two sequences of equal length.
pub open spec fn keyed<T>(keys: Seq<i64>, items: Seq<T>) -> Seq<(i64, T)> {
    Seq::new(items.len(), |q: int| (keys[q], items[q]))
}

/// A collection of values awaiting dense, tie-aware ranking under a chosen
/// ordering key.
pub struct Ranking<T> {
    items: Vec<T>,
}

impl<T> Ranking<T> {
    /// The collected values, in arrival order.
    pub closed spec fn view(&self) -> Seq<T> {
        self.items@
    }

    /// Create an empty collection.
    pub fn new() -> (r: Self)
        ensures
            r@ == Seq::<T>::empty(),
    {
        Ranking { items: Vec::new() }
    }

    /// Append one value.
    pub fn push(&mut self, value: T)
        ensures
            final(self)@ == old(self)@.push(value),
    {
        self.items.push(value);
    }

    /// Consume the collection, stable-sort it by ascending `sort_by` key and
    /// assign dense zero-based ranks: equal consecutive keys share a rank,
    /// and the rank grows by exactly one at each key change.
    pub fn get_ranks<F: Fn(&T) -> i64>(self, sort_by: F) -> (r: Vec<(usize, T)>)
        requires
            forall|i: int| 0 <= i < self@.len() ==> call_requires(sort_by, (&(#[trigger] self@[i]),)),
        ensures
            exists|keys: Seq<i64>|
                {
                    &&& keys.len() == self@.len()
                    &&& forall|i: int| 0 <= i < self@.len()
                        ==> call_ensures(sort_by, (&(#[trigger] self@[i]),), keys[i])
                    &&& ({
                        let sorted = stable_sort(keyed(keys, self@));
                        &&& r@.len() == sorted.len()
                        &&& forall|q: int| 0 <= q < sorted.len() ==> (#[trigger] r@[q]).1
                            == sorted[q].1
                        &&& forall|q: int| 0 <= q < sorted.len() ==> (#[trigger] r@[q]).0 as int
                            == rank_at(sorted.map_values(|p: (i64, T)| p.0), q)
                    })
                },
    {
        let ghost orig = self@;
        let mut items = self.items;
        let ghost mut keys: Seq<i64> = Seq::empty();
        let mut pairs: Vec<(i64, T)> = Vec::new();
        let ghost mut i: int = 0;
        while items.len() > 0
            invariant
                0 <= i <= orig.len(),
                items@ == orig.skip(i),
                forall|k: int| 0 <= k < orig.len()
                    ==> call_requires(sort_by, (&(#[trigger] orig[k]),)),
                keys.len() == i,
                forall|k: int| 0 <= k < i
                    ==> call_ensures(sort_by, (&(#[trigger] orig[k]),), keys[k]),
                pairs@.len() == i,
                forall|k: int| 0 <= k < i ==> (#[trigger] pairs@[k]) == (keys[k], orig[k]),
            decreases items@.len(),
        {
            let x = items.remove(0);
            proof {
                assert(items@ =~= orig.skip(i + 1));
                assert(x == orig[i]);
            }
            let key = sort_by(&x);
            pairs.push((key, x));
            proof {
                keys = keys.push(key);
                i = i + 1;
            }
        }
        let ghost all = keyed(keys, orig);
        proof {
            assert(pairs@ =~= all);
        }

        let mut sorted: Vec<(i64, T)> = Vec::new();
        let ghost mut j: int = 0;
        let mut work = pairs;
        while work.len() > 0
            invariant
                0 <= j <= all.len(),
                work@ == all.skip(j),
                sorted@ == stable_sort(all.take(j)),
            decreases work@.len(),
        {
            let p = work.remove(0);
            proof {
                assert(work@ =~= all.skip(j + 1));
                assert(p == all[j]);
                assert(all.take(j + 1).drop_last() =~= all.take(j));
                assert(all.take(j + 1).last() == all[j]);
                j = j + 1;
            }
            // Find the stable insertion point from the back: past every
            // element with a strictly greater key.
            let mut pos = sorted.len();
            while pos > 0 && sorted[pos - 1].0 > p.0
                invariant
                    pos <= sorted@.len(),
                    forall|q: int| pos <= q < sorted@.len() ==> (#[trigger] sorted@[q]).0 > p.0,
                decreases pos,
            {
                pos = pos - 1;
            }
            proof {
                lemma_sorted_insert_at(sorted@, p, pos as int);
            }
            sorted.insert(pos, p);
            proof {
                assert(sorted@ =~= stable_sort(all.take(j)));
            }
        }
        proof {
            assert(all.take(j) =~= all);
        }
        let ghost fin = stable_sort(all);
        let ghost fin_keys = fin.map_values(|p: (i64, T)| p.0);

        let mut out: Vec<(usize, T)> = Vec::new();
        let mut rank: usize = 0;
        let mut last_key: Option<i64> = None;
        let ghost mut q: int = 0;
        let mut rest = sorted;
        while rest.len() > 0
            invariant
                0 <= q <= fin.len(),
                rest@ == fin.skip(q),
                fin_keys == fin.map_values(|p: (i64, T)| p.0),
                fin.len() == fin_keys.len(),
                out@.len() == q,
                q == 0 ==> rank == 0 && last_key is None,
                q > 0 ==> rank as int == rank_at(fin_keys, q - 1)
                    && last_key == Some(fin_keys[q - 1]),
                forall|k: int| 0 <= k < q ==> (#[trigger] out@[k]).1 == fin[k].1,
                forall|k: int| 0 <= k < q ==> (#[trigger] out@[k]).0 as int
                    == rank_at(fin_keys, k),
            decreases rest@.len(),
        {
            let (k_val, x) = rest.remove(0);
            proof {
                assert(rest@ =~= fin.skip(q + 1));
                assert((k_val, x) == fin[q]);
                assert(fin_keys[q] == k_val);
                if q > 0 {
                    lemma_rank_at_bound(fin_keys, q - 1);
                }
            }
            match last_key {
                None => {
                    last_key = Some(k_val);
                }
                Some(last) => {
                    if k_val != last {
                        let ranked_so_far = out.len();
                        proof {
                            lemma_rank_at_bound(fin_keys, q - 1);
                            assert(rank as int <= q - 1);
                            assert(ranked_so_far == q);
                        }
                        rank = rank + 1;
                        last_key = Some(k_val);
                    }
                }
            }
            out.push((rank, x));
            proof {
                q = q + 1;
            }
        }
        proof {
            assert(fin.skip(q).len() == 0);
            assert(q == fin.len());
        }
        out
    }

    /// Consume the collection and hand out its values.
    pub fn into_values(self) -> (r: Vec<T>)
        ensures
            r@ == self@,
    {
        self.items
    }
}

impl<T> Default for Ranking<T> {
    /// An empty collection.
    fn default() -> (r: Self)
        ensures
            r@ == Seq::<T>::empty(),
    {
        Ranking { items: Vec::new() }
    }
}

impl<T> From<Vec<T>> for Ranking<T> {
    /// Wrap an existing value list.
    fn from(value: Vec<T>) -> (r: Self)
        ensures
            r@ == value@,
    {
        Ranking { items: value }
    }
}

impl<T> vstd::std_specs::convert::FromSpecImpl<Vec<T>> for Ranking<T> {
    // The collection's model does not determine the value of its backing
    // vector, so no exact `from_spec` is claimed; callers rely on the
    // `ensures` of `from` instead.
    open spec fn obeys_from_spec() -> bool {
        false
    }

    open spec fn from_spec(v: Vec<T>) -> Ranking<T> {
        choose|c: Ranking<T>| c@ == v@
    }
}

} // verus!
