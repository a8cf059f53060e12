use vstd::prelude::*;

verus! {

/// Capability for row types that carry their own stable identity: a 64-bit
/// integer above `0`. An identity of `0` stands for a row that has not been
/// assigned one yet, and for the absence of a row.
pub trait HasRowID: Sized {
    /// The identity of this row, as seen by specifications.
    spec fn id(&self) -> i64;

    /// Return the identity of this row.
    fn rowid(&self) -> (r: i64)
        ensures
            r == self.id(),
    ;
}

impl HasRowID for i64 {
    open spec fn id(&self) -> i64 {
        *self
    }

    fn rowid(&self) -> (r: i64)
        ensures
            r == self.id(),
    {
        *self
    }
}

/// An absent row is indexed under the reserved identity `0`.
impl<T: HasRowID> HasRowID for Option<T> {
    open spec fn id(&self) -> i64 {
        match self {
            Some(val) => val.id(),
            None => 0,
        }
    }

    fn rowid(&self) -> (r: i64)
        ensures
            r == self.id(),
    {
        match self {
            Some(val) => val.rowid(),
            None => 0,
        }
    }
}

/// A reference to a row carries the row's own identity.
impl<T: HasRowID> HasRowID for &T {
    open spec fn id(&self) -> i64 {
        T::id(*self)
    }

    fn rowid(&self) -> (r: i64)
        ensures
            r == self.id(),
    {
        T::rowid(*self)
    }
}

/// A `(key, value)` pair is identified by its key.
impl<K: HasRowID, V> HasRowID for (K, V) {
    open spec fn id(&self) -> i64 {
        self.0.id()
    }

    fn rowid(&self) -> (r: i64)
        ensures
            r == self.id(),
    {
        self.0.rowid()
    }
}

} // verus!
