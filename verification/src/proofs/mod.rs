//! Zero-knowledge proofs.

pub mod compound;
pub mod decryption;
pub mod designated;
pub mod linkage;
pub mod relation;
pub mod shuffle;
