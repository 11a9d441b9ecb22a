//! Single transferable vote: counts ranked ballots for a number of seats.
pub mod count;
pub mod election;
pub mod laws;
pub mod outside;
pub mod poll;
pub mod routes;
pub mod tally;

pub use election::{Election, ElectionError, ElectionResults};
