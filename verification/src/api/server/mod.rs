//! The bulletin board and the tellers, one of each.

pub mod bb;
pub mod context;
pub mod pipeline;
pub mod rt;
pub mod run;
pub mod tt;
