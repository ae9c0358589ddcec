//! A numerical upper bound and the test against it.

use vstd::prelude::*;

verus! {

/// An upper bound that values are held to.
pub struct Limit {
    upperbound: usize,
}

impl Limit {
    /// The bound itself.
    pub closed spec fn bound(&self) -> usize {
        self.upperbound
    }

    /// Creates a limit with the given bound.
    pub fn new(upperbound: usize) -> (res: Self)
        ensures
            res.bound() == upperbound,
    {
        Self { upperbound }
    }

    /// Returns the bound.
    pub fn inner(&self) -> (res: usize)
        ensures
            res == self.bound(),
    {
        self.upperbound
    }

    /// Succeeds exactly when `other` does not exceed the bound.
    pub fn check(&self, other: usize) -> (res: Result<(), ()>)
        ensures
            res.is_ok() <==> other <= self.bound(),
    {
        if other > self.upperbound {
            Err(())
        } else {
            Ok(())
        }
    }
}

} // verus!
