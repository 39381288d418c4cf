//! The voting protocol.

pub mod counting;
pub mod cred_mix;
pub mod filter;
pub mod keys;
pub mod mix;
pub mod tally;
pub mod teller;
pub mod vote;
