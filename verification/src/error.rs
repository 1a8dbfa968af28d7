//! The single failure of the sweep: an ordering or structural invariant was violated.
use vstd::prelude::*;

verus! {

/// An unrecoverable violation of an invariant that the sweep relies on.
#[derive(Clone, Copy, Debug)]
pub enum Error {
    /// The message names the operation that found the violation.
    Unhandled(&'static str),
}

impl Error {
    /// The message carried by the error.
    pub open spec fn text(self) -> Seq<char> {
        match self {
            Error::Unhandled(msg) => msg@,
        }
    }

    /// The message as an owned string, for display.
    pub fn message(&self) -> (s: String)
        ensures
            s@ == self.text(),
    {
        match self {
            Error::Unhandled(msg) => (*msg).to_owned(),
        }
    }
}

} // verus!
