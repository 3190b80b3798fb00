//! The errors of the voter login.

use vstd::prelude::*;

verus! {

/// Why a voter login failed.
#[derive(Debug, Clone, Copy, PartialEq, Eq, Structural)]
pub enum AuthFailedError {
    MissingToken,
    InvalidToken,
}

/// An error of the voter login. Failures of the database are reported by
/// the service layer itself.
#[derive(Debug, Clone, Copy, PartialEq, Eq, Structural)]
pub enum Error {
    LoginFail,
    AuthFailed(AuthFailedError),
    InternalServerError,
    VotingNotFound,
    VotingAlreadyClosed,
    InvalidInput,
    AlreadyVoted,
    CorruptDatabaseError,
}

} // verus!
