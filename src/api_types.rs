//! The errors that the service reports to its clients.

use vstd::prelude::*;

verus! {

/// Why a request could not be authenticated.
#[derive(Debug, Clone, Copy, PartialEq, Eq, Structural)]
pub enum AuthFailedError {
    MissingToken,
    InvalidToken,
    TokenUnactivated,
    TokenVoided,
    WrongAdminToken,
}

/// Why a voter alias was refused.
#[derive(Debug, Clone, Copy, PartialEq, Eq, Structural)]
pub enum InvalidAliasError {
    AliasAlreadyInUse,
    BadAlias,
}

/// An error of the service. Failures of the database and of page rendering
/// are reported by the service layer itself.
#[derive(Debug, Clone, PartialEq, Eq)]
pub enum ApiError {
    AuthFailed(AuthFailedError),
    InternalServerError,
    VotingNotFound,
    VotingAlreadyClosed,
    VotingNotOpen,
    NotAllActiveTokensHaveVoted,
    InvalidInput,
    AlreadyVoted,
    TokenNotFound,
    CorruptDatabaseError,
    VotingAlgorithmError(&'static str),
    InvalidAlias(InvalidAliasError),
}

} // verus!
