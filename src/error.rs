use vstd::prelude::*;

verus! {

/// Failures of the library's computations and checks.
#[derive(Clone, Copy, Debug, PartialEq, Eq, Structural)]
pub enum DataError {
    /// The requested record does not exist.
    NotFound,
    /// The password does not match the stored one.
    WrongPassword,
    /// No user has the given email address.
    EmailNotFound,
    /// A ratio over sessions was asked for, but there are no sessions.
    NoSessionFound,
}

} // verus!
