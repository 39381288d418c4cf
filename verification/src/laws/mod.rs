//! What the protocol as a whole is for, stated of what its parts accept and give.

pub mod ballots;
pub mod calls;
pub mod claims;
pub mod credentials;
pub mod decryptions;
pub mod draws;
pub mod encodings;
pub mod filters;
pub mod mixes;
pub mod parts;
pub mod proofs;
pub mod refusals;
pub mod shapes;
