//! The one error kind this core produces.

use vstd::prelude::*;

verus! {

/// Returned by `encrypt_for` when the target peer has no crypto entry at all.
/// A registered peer without an active session is not an error.
#[derive(Debug)]
pub enum Error {
    /// No crypto session is registered for the peer; the message describes it.
    InvalidCryptoState(&'static str),
}

impl Error {
    /// The descriptive message carried by the error.
    pub fn message(&self) -> (r: &'static str)
        ensures
            r == self->InvalidCryptoState_0,
    {
        match self {
            Error::InvalidCryptoState(msg) => msg,
        }
    }
}

} // verus!
