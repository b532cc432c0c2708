use vstd::prelude::*;
use crate::base::error::Error;

verus! {

/// The chain of blocks; building one is not supported yet.
pub struct Chain {}

impl Chain {
    /// A new chain: always `Todo`, as chains are not built yet.
    pub fn new() -> (r: Result<Self, Error>)
        ensures
            r == Err::<Self, Error>(Error::Todo),
    {
        Err(Error::Todo)
    }
}

} // verus!
