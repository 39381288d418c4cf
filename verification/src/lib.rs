//! Verifiable end-to-end voting over the Ristretto group.

pub mod api;
pub mod arith;
pub mod constants;
pub mod elgamal;
pub mod encoding;
pub mod error;
pub mod group;
pub mod laws;
pub mod proofs;
pub mod protocol;
pub mod random;
pub mod text;
pub mod transcript;
