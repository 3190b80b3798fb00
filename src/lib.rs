//! Single Transferable Vote tabulation with Gregory surplus transfer, together
//! with the plain data types of the election service built around it.
//!
//! - `stv`: the entry point `calculate_stv_result`, input validation and the
//!   round loop, with the relation `follows` that its result satisfies;
//! - `round`: what one round decides and how it is recorded;
//! - `tally`: the vote ledger, counts, surplus transfer and ranking;
//! - `laws`: properties of every tabulation, proved;
//! - `token`: voter tokens;
//! - `models`, `ctx`, `api_types`, `error`: the service's data types.

pub mod api_types;
pub mod ctx;
pub mod error;
pub mod laws;
pub mod models;
pub mod round;
pub mod stv;
pub mod tally;
pub mod token;
