use vstd::prelude::*;

use crate::has_rowid::HasRowID;

verus! {

// The identity-indexed containers of this crate all model their contents as a
// sequence of self-identified elements whose identities are pairwise
// distinct. The spec functions and lemmas here describe that reading of a
// sequence and what inserting or removing one element does to it.

/// Whether some element of `s` has identity `id`.
pub open spec fn has_id<T: HasRowID>(s: Seq<T>, id: i64) -> bool {
    exists|i: int| 0 <= i < s.len() && s[i].id() == id
}

/// The index of the element with identity `id` (meaningful only when such an
/// element exists and the identities of `s` are unique).
pub open spec fn id_index<T: HasRowID>(s: Seq<T>, id: i64) -> int {
    choose|i: int| 0 <= i < s.len() && s[i].id() == id
}

/// The element of `s` with identity `id`, if any.
pub open spec fn find_by_id<T: HasRowID>(s: Seq<T>, id: i64) -> Option<T> {
    if has_id(s, id) {
        Some(s[id_index(s, id)])
    } else {
        None
    }
}

/// Every identity appears at most once in `s`.
pub open spec fn unique_ids<T: HasRowID>(s: Seq<T>) -> bool {
    forall|i: int, j: int| 0 <= i < j < s.len() ==> s[i].id() != s[j].id()
}

/// What inserting one element does to the sequence: overwrite in place when
/// its identity is already present, append otherwise.
pub open spec fn insert_by_id<T: HasRowID>(s: Seq<T>, x: T) -> Seq<T> {
    if has_id(s, x.id()) {
        s.update(id_index(s, x.id()), x)
    } else {
        s.push(x)
    }
}

/// What removing the element with identity `id` does to the sequence: the
/// element disappears, everything else keeps its relative order.
pub open spec fn remove_by_id<T: HasRowID>(s: Seq<T>, id: i64) -> Seq<T> {
    if has_id(s, id) {
        s.remove(id_index(s, id))
    } else {
        s
    }
}

/// Folding `insert_by_id` over `xs` from the left: what bulk construction
/// does to the sequence.
pub open spec fn insert_all<T: HasRowID>(s: Seq<T>, xs: Seq<T>) -> Seq<T>
    decreases xs.len(),
{
    if xs.len() == 0 {
        s
    } else {
        insert_by_id(insert_all(s, xs.drop_last()), xs.last())
    }
}

/// Folding insertion of `(key, value)` pairs, keys and values given side by
/// side: what a key- or value-transforming rebuild does to an entry sequence.
pub open spec fn zip_insert_all<K: HasRowID, V>(ks: Seq<K>, vs: Seq<V>) -> Seq<(K, V)>
    recommends
        ks.len() == vs.len(),
    decreases ks.len(),
{
    if ks.len() == 0 {
        Seq::empty()
    } else {
        insert_by_id(zip_insert_all(ks.drop_last(), vs.drop_last()), (ks.last(), vs.last()))
    }
}

/// Folding insertion of a sequence whose identities are already unique into
/// the empty sequence reproduces that sequence exactly.
pub proof fn lemma_insert_all_identity<T: HasRowID>(xs: Seq<T>)
    requires
        unique_ids(xs),
    ensures
        insert_all(Seq::<T>::empty(), xs) == xs,
    decreases xs.len(),
{
    if xs.len() == 0 {
        assert(insert_all(Seq::<T>::empty(), xs) =~= xs);
    } else {
        let pre = xs.drop_last();
        assert(unique_ids(pre));
        lemma_insert_all_identity(pre);
        assert(!has_id(pre, xs.last().id())) by {
            if has_id(pre, xs.last().id()) {
                let i = choose|i: int| 0 <= i < pre.len() && pre[i].id() == xs.last().id();
                assert(xs[i].id() == xs[xs.len() - 1].id());
            }
        }
        assert(insert_all(Seq::<T>::empty(), xs) == pre.push(xs.last()));
        assert(pre.push(xs.last()) =~= xs);
    }
}

/// Under unique identities, an index holding `id` is the `id_index`.
pub proof fn lemma_id_index_unique<T: HasRowID>(s: Seq<T>, id: i64, i: int)
    requires
        unique_ids(s),
        0 <= i < s.len(),
        s[i].id() == id,
    ensures
        has_id(s, id),
        id_index(s, id) == i,
        find_by_id(s, id) == Some(s[i]),
{
    assert(has_id(s, id));
    let j = id_index(s, id);
    assert(0 <= j < s.len() && s[j].id() == id);
    if i < j {
        assert(s[i].id() != s[j].id());
    } else if j < i {
        assert(s[j].id() != s[i].id());
    }
}

/// Inserting keeps the identities unique and acts as expected on the
/// identity-indexed reading of the sequence: the inserted element is found
/// under its identity, every other identity is untouched.
pub proof fn lemma_insert_by_id<T: HasRowID>(s: Seq<T>, x: T)
    requires
        unique_ids(s),
    ensures
        ({
            let t = insert_by_id(s, x);
            &&& unique_ids(t)
            &&& find_by_id(t, x.id()) == Some(x)
            &&& forall|id: i64| id != x.id() ==> find_by_id(t, id) == find_by_id(s, id)
            &&& t.len() == if has_id(s, x.id()) { s.len() } else { s.len() + 1 }
        }),
{
    let t = insert_by_id(s, x);
    if has_id(s, x.id()) {
        let i0 = id_index(s, x.id());
        assert(0 <= i0 < s.len() && s[i0].id() == x.id());
        assert(t == s.update(i0, x));
        assert(forall|i: int| 0 <= i < t.len() && i != i0 ==> t[i] == s[i]);
        assert(unique_ids(t));
        lemma_id_index_unique(t, x.id(), i0);
        assert forall|id: i64| id != x.id() implies find_by_id(t, id) == find_by_id(s, id) by {
            if has_id(s, id) {
                let i = id_index(s, id);
                assert(i != i0);
                lemma_id_index_unique(t, id, i);
            } else {
                assert(!has_id(t, id));
            }
        }
    } else {
        assert(t == s.push(x));
        assert(forall|i: int| 0 <= i < s.len() ==> t[i] == s[i]);
        assert(t[s.len() as int] == x);
        assert(unique_ids(t));
        lemma_id_index_unique(t, x.id(), s.len() as int);
        assert forall|id: i64| id != x.id() implies find_by_id(t, id) == find_by_id(s, id) by {
            if has_id(s, id) {
                let i = id_index(s, id);
                lemma_id_index_unique(t, id, i);
            } else {
                assert(!has_id(t, id));
            }
        }
    }
}

/// Removing keeps the identities unique, makes the identity absent, and
/// leaves every other identity untouched.
pub proof fn lemma_remove_by_id<T: HasRowID>(s: Seq<T>, id: i64)
    requires
        unique_ids(s),
    ensures
        ({
            let t = remove_by_id(s, id);
            &&& unique_ids(t)
            &&& find_by_id(t, id) == None::<T>
            &&& forall|id2: i64| id2 != id ==> find_by_id(t, id2) == find_by_id(s, id2)
            &&& t.len() == if has_id(s, id) { s.len() - 1 } else { s.len() as int }
        }),
{
    let t = remove_by_id(s, id);
    if has_id(s, id) {
        let i0 = id_index(s, id);
        assert(0 <= i0 < s.len() && s[i0].id() == id);
        assert(t == s.remove(i0));
        assert(forall|i: int| 0 <= i < i0 ==> t[i] == s[i]);
        assert(forall|i: int| i0 <= i < t.len() ==> t[i] == s[i + 1]);
        assert(unique_ids(t));
        assert(!has_id(t, id)) by {
            if has_id(t, id) {
                let i = choose|i: int| 0 <= i < t.len() && t[i].id() == id;
                if i < i0 {
                    assert(s[i].id() == s[i0].id());
                } else {
                    assert(s[i + 1].id() == s[i0].id());
                }
            }
        }
        assert forall|id2: i64| id2 != id implies find_by_id(t, id2) == find_by_id(s, id2) by {
            if has_id(s, id2) {
                let i = id_index(s, id2);
                lemma_id_index_unique(s, id2, i);
                if i < i0 {
                    lemma_id_index_unique(t, id2, i);
                } else {
                    assert(i != i0);
                    assert(t[i - 1] == s[i]);
                    lemma_id_index_unique(t, id2, i - 1);
                }
            } else {
                assert(!has_id(t, id2)) by {
                    if has_id(t, id2) {
                        let i = choose|i: int| 0 <= i < t.len() && t[i].id() == id2;
                        if i < i0 {
                            assert(s[i].id() == id2);
                        } else {
                            assert(s[i + 1].id() == id2);
                        }
                    }
                }
            }
        }
    }
}

/// Bulk construction keeps the identities unique.
pub proof fn lemma_insert_all_wf<T: HasRowID>(s: Seq<T>, xs: Seq<T>)
    requires
        unique_ids(s),
    ensures
        unique_ids(insert_all(s, xs)),
    decreases xs.len(),
{
    if xs.len() > 0 {
        lemma_insert_all_wf(s, xs.drop_last());
        lemma_insert_by_id(insert_all(s, xs.drop_last()), xs.last());
    }
}

/// Rebuilding an entry sequence from its own keys and values, when the keys'
/// identities are already unique, reproduces that sequence exactly: a rebuild
/// that changes nothing changes nothing.
pub proof fn lemma_zip_insert_all_identity<K: HasRowID, V>(ks: Seq<K>, vs: Seq<V>, s: Seq<(K, V)>)
    requires
        unique_ids(s),
        ks.len() == s.len(),
        vs.len() == s.len(),
        forall|i: int| 0 <= i < s.len() ==> ks[i] == (#[trigger] s[i]).0 && vs[i] == s[i].1,
    ensures
        zip_insert_all(ks, vs) == s,
    decreases s.len(),
{
    if s.len() == 0 {
        assert(zip_insert_all(ks, vs) =~= s);
    } else {
        let pre = s.drop_last();
        assert(unique_ids(pre));
        lemma_zip_insert_all_identity(ks.drop_last(), vs.drop_last(), pre);
        assert(!has_id(pre, ks.last().id())) by {
            if has_id(pre, ks.last().id()) {
                let i = choose|i: int| 0 <= i < pre.len() && pre[i].id() == ks.last().id();
                assert(s[i].id() == s[s.len() - 1].id());
            }
        }
        assert((ks.last(), vs.last()) == s.last());
        assert(zip_insert_all(ks, vs) == pre.push(s.last()));
        assert(pre.push(s.last()) =~= s);
    }
}

} // verus!
