use vstd::prelude::*;

verus! {

// Adjacency buckets are sequences of identities in which one identity may
// occur several times. The spec functions here count and delete occurrences;
// the lemmas relate the two and support the loop proofs of the containers.

/// How many times `x` occurs in `s`.
pub open spec fn count_of(s: Seq<i64>, x: i64) -> nat
    decreases s.len(),
{
    if s.len() == 0 {
        0
    } else {
        count_of(s.drop_last(), x) + if s.last() == x {
            1nat
        } else {
            0nat
        }
    }
}

/// `s` with every occurrence of `x` deleted, order of the rest kept.
pub open spec fn remove_all(s: Seq<i64>, x: i64) -> Seq<i64>
    decreases s.len(),
{
    if s.len() == 0 {
        Seq::empty()
    } else if s.last() == x {
        remove_all(s.drop_last(), x)
    } else {
        remove_all(s.drop_last(), x).push(s.last())
    }
}

/// Appending one element raises exactly its own count.
pub proof fn lemma_count_push(s: Seq<i64>, x: i64, y: i64)
    ensures
        count_of(s.push(x), y) == count_of(s, y) + if x == y {
            1nat
        } else {
            0nat
        },
{
    assert(s.push(x).drop_last() =~= s);
}

/// An identity occurs in a sequence exactly when its count is positive.
pub proof fn lemma_count_contains(s: Seq<i64>, x: i64)
    ensures
        s.contains(x) <==> count_of(s, x) > 0,
    decreases s.len(),
{
    if s.len() > 0 {
        lemma_count_contains(s.drop_last(), x);
        assert(s.contains(x) ==> s.last() == x || s.drop_last().contains(x)) by {
            if s.contains(x) {
                let i = choose|i: int| 0 <= i < s.len() && s[i] == x;
                if i < s.len() - 1 {
                    assert(s.drop_last()[i] == x);
                }
            }
        }
        assert(s.drop_last().contains(x) ==> s.contains(x)) by {
            if s.drop_last().contains(x) {
                let i = choose|i: int| 0 <= i < s.drop_last().len() && s.drop_last()[i] == x;
                assert(s[i] == x);
            }
        }
    }
}

/// Deleting every occurrence of `x` zeroes its count and keeps every other
/// count unchanged.
pub proof fn lemma_count_remove_all(s: Seq<i64>, x: i64, y: i64)
    ensures
        count_of(remove_all(s, x), y) == if y == x {
            0nat
        } else {
            count_of(s, y)
        },
    decreases s.len(),
{
    if s.len() > 0 {
        lemma_count_remove_all(s.drop_last(), x, y);
        if s.last() != x {
            lemma_count_push(remove_all(s.drop_last(), x), s.last(), y);
        }
    }
}

/// Walking a sequence from the front, the count over the prefix grows at the
/// element just passed.
pub proof fn lemma_count_take_step(s: Seq<i64>, x: i64, i: int)
    requires
        0 <= i < s.len(),
    ensures
        count_of(s.take(i + 1), x) == count_of(s.take(i), x) + if s[i] == x {
            1nat
        } else {
            0nat
        },
{
    assert(s.take(i + 1).drop_last() =~= s.take(i));
    assert(s.take(i + 1).last() == s[i]);
}

/// Walking a sequence from the front, the deletion over the prefix keeps or
/// drops the element just passed.
pub proof fn lemma_remove_all_take_step(s: Seq<i64>, x: i64, i: int)
    requires
        0 <= i < s.len(),
    ensures
        remove_all(s.take(i + 1), x) == if s[i] == x {
            remove_all(s.take(i), x)
        } else {
            remove_all(s.take(i), x).push(s[i])
        },
{
    assert(s.take(i + 1).drop_last() =~= s.take(i));
    assert(s.take(i + 1).last() == s[i]);
}

/// A full-length prefix is the sequence itself.
pub proof fn lemma_take_full(s: Seq<i64>)
    ensures
        s.take(s.len() as int) == s,
{
    assert(s.take(s.len() as int) =~= s);
}

} // verus!
