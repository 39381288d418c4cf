//! The types that most applications use.

pub use crate::api::client::{Ballot, BallotBuilder, Voter, VoterBuilder};
pub use crate::api::server::bb::{BulletinBoardStore, ElectionContext, InMemoryBB};
pub use crate::api::server::rt::RegistrationTeller;
pub use crate::api::server::tt::TabulationTeller;
pub use crate::protocol::keys::{ElectionParams, ElectionPublicKey};
pub use crate::protocol::teller::TTSecretKey;
pub use crate::protocol::vote::auth::ShortPublicACC;
pub use crate::protocol::vote::choice::{Choice, ChoiceParameters, EncrChoice};
