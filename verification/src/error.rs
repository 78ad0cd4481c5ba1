//! Error type returned by fallible memblock operations.
use vstd::prelude::*;

verus! {

#[derive(Debug, Clone, Copy, PartialEq, Eq, Structural)]
pub enum Error {
    /// The fixed-size region array has no free slots left.
    OverCapacity,
    /// An invariant was violated; indicates a bug in the implementation.
    InternalError,
    /// No suitable free memory could be found for an allocation.
    OutOfMemory,
}

impl Error {
    /// The text that describes an error to a user.
    pub open spec fn spec_message(self) -> &'static str {
        match self {
            Error::OverCapacity => "Over capacity",
            Error::InternalError => "Internal error",
            Error::OutOfMemory => "Out of memory",
        }
    }

    /// Returns the text that describes the error to a user.
    pub fn message(self) -> (r: &'static str)
        ensures
            r@ == self.spec_message()@,
    {
        match self {
            Error::OverCapacity => "Over capacity",
            Error::InternalError => "Internal error",
            Error::OutOfMemory => "Out of memory",
        }
    }
}

} // verus!
