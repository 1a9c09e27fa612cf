//! Identifiers of the things of one kind, with one value set aside for
//! "no such thing".

use core::marker::PhantomData;
use vstd::prelude::*;

verus! {

/// The value that stands for no identifier.
pub const INVALID_VALUE: i64 = i64::MAX;

/// An identifier of a thing of kind `T`.
#[derive(Debug)]
pub struct ID<T>(pub i64, pub PhantomData<T>);

impl<T> Clone for ID<T> {
    fn clone(&self) -> (r: Self)
        ensures
            r.spec_value() == self.spec_value(),
    {
        ID(self.0, PhantomData)
    }
}

impl<T> Copy for ID<T> {

}

impl<T> ID<T> {
    /// The number behind the identifier.
    pub open spec fn spec_value(&self) -> i64 {
        self.0
    }

    pub fn new(id: i64) -> (r: Self)
        ensures
            r.spec_value() == id,
    {
        ID(id, PhantomData)
    }

    /// The identifier of no thing.
    pub fn invalid() -> (r: Self)
        ensures
            r.spec_value() == INVALID_VALUE,
    {
        ID(INVALID_VALUE, PhantomData)
    }

    pub fn is_valid(&self) -> (r: bool)
        ensures
            r == (self.spec_value() != INVALID_VALUE),
    {
        self.0 != INVALID_VALUE
    }

    pub fn invalidate(&mut self)
        ensures
            final(self).spec_value() == INVALID_VALUE,
    {
        self.0 = INVALID_VALUE;
    }

    pub fn value(&self) -> (r: i64)
        ensures
            r == self.spec_value(),
    {
        self.0
    }
}

} // verus!
