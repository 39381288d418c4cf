//! Votes: choices and their encryption.

pub mod auth;
pub mod auth_proof;
pub mod ballot_encoding;
pub mod ballot_proof;
pub mod cai;
pub mod choice;
pub mod choice_proof;
pub mod vote;
