//! The identifier generator: issues strictly increasing integers, used both
//! for node identity and for stabilization epochs.

use crate::Error;
use vstd::prelude::*;

verus! {

/// Issues strictly increasing identifiers starting at 1; the value 0 is
/// reserved as the "never"/"none" sentinel (see [`Id::none`]).
pub struct Id {
    /// The last identifier issued; 0 when none has been issued yet.
    pub last: usize,
}

impl Id {
    /// A fresh generator that has issued nothing yet.
    pub fn new() -> (r: Id)
        ensures
            r.last == 0,
    {
        Id { last: 0 }
    }

    /// The reserved sentinel meaning "no identifier"/"never".
    pub fn none() -> (r: usize)
        ensures
            r == 0,
    {
        0
    }

    /// The next identifier, strictly greater than every identifier issued so
    /// far.  Fails with `IdentifierExhausted` exactly when the counter has
    /// reached its machine limit.
    pub fn next(&mut self) -> (r: Result<usize, Error>)
        ensures
            old(self).last < usize::MAX ==> {
                &&& r == Ok::<usize, Error>((old(self).last + 1) as usize)
                &&& final(self).last == old(self).last + 1
            },
            old(self).last == usize::MAX ==> {
                &&& r == Err::<usize, Error>(Error::IdentifierExhausted)
                &&& final(self).last == old(self).last
            },
    {
        if self.last == usize::MAX {
            Err(Error::IdentifierExhausted)
        } else {
            self.last = self.last + 1;
            Ok(self.last)
        }
    }
}

} // verus!
