use vstd::prelude::*;

verus! {

/// One row of a queried table together with the identity of the external row
/// it was produced for: the raw input to join construction.
#[derive(Clone, PartialEq, Eq, Hash, Debug)]
pub struct JoinRelation<T> {
    /// The identity of the external row this row is associated to.
    pub original_id: i64,
    /// The table's row.
    pub data: T,
}

impl<T> JoinRelation<T> {
    /// Pair a row with the identity of the external row it belongs to.
    pub fn new(data: T, original_id: i64) -> (r: Self)
        ensures
            r.data == data,
            r.original_id == original_id,
    {
        JoinRelation { data, original_id }
    }

    /// Convert the relation into an `(external identity, row)` pair.
    pub fn into_tuple(self) -> (r: (i64, T))
        ensures
            r == (self.original_id, self.data),
    {
        (self.original_id, self.data)
    }
}

} // verus!
