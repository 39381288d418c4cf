//! The interface by role.
//!
//! - `client` holds what runs on the voter's device.
//! - `server` holds the bulletin board and the tellers.

pub mod client;
pub mod prelude;
pub mod server;
