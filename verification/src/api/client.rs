//! What runs on the voter's device.

use rand::rngs::StdRng;
use vstd::prelude::*;

use crate::api::server::context::ElectionContext;
use crate::error::{CryptoError, Error};
use crate::group::same_bytes;
use crate::protocol::keys::{recovered, VoterKeyPair, VoterPublicKey};
use crate::protocol::vote::auth::{VotingCredential, VotingCredentialBuilder};
use crate::protocol::vote::choice::{Choice, ChoiceParameters};
use crate::protocol::vote::vote::{Draws, VerVote, Vote};
use crate::proofs::designated::DvWitness;

verus! {

/// A choice that is to be voted.
#[derive(Clone, Debug)]
pub struct BallotBuilder {
    choice: Choice,
}

impl BallotBuilder {
    /// The choice.
    pub closed spec fn chosen(self) -> Choice {
        self.choice
    }

    /// A builder for a choice.
    pub fn new(choice: Choice) -> (r: Self)
        ensures
            r.chosen() == choice,
    {
        BallotBuilder { choice }
    }

    /// The choice.
    pub fn choice(&self) -> (r: &Choice)
        ensures
            *r == self.chosen(),
    {
        &self.choice
    }
}

/// A ballot for an election.
#[derive(Debug, PartialEq)]
pub struct Ballot {
    pub election_ctx: [u8; 32],
    pub ver_vote: VerVote,
}

impl Clone for Ballot {
    fn clone(&self) -> (r: Self)
        ensures
            r.same(*self),
    {
        Ballot { election_ctx: self.election_ctx, ver_vote: self.ver_vote.clone() }
    }
}

impl Ballot {
    /// Whether the other is the same ballot.
    pub open spec fn same(self, other: Ballot) -> bool {
        &&& self.election_ctx == other.election_ctx
        &&& self.ver_vote.same(other.ver_vote)
    }

    /// Whether the ballot is bound to the election.
    pub open spec fn bound(self, ctx: ElectionContext) -> bool {
        self.election_ctx@ == ctx.context_hash@
    }

    /// Whether the ballot, if it is bound to the election, has the shape that
    /// belongs to it.
    pub open spec fn shaped(self, ctx: ElectionContext) -> bool {
        self.bound(ctx) ==> self.ver_vote.shaped(ctx.pk, ctx.choice)
    }

    /// Whether the ballot, if it is bound to the election, has the shape that
    /// belongs to it.
    pub fn is_shaped(&self, ctx: &ElectionContext) -> (r: bool)
        ensures
            r == self.shaped(*ctx),
    {
        !same_bytes(&self.election_ctx, &ctx.context_hash) || self.ver_vote.is_shaped(
            &ctx.pk,
            &ctx.choice,
        )
    }

    /// Whether the ballot is accepted.
    pub open spec fn accepted(self, ctx: ElectionContext) -> bool {
        self.bound(ctx) && self.ver_vote.verdict(ctx.pk, ctx.choice).is_ok()
    }

    /// Whether `e` is the error for a ballot that is not accepted.
    pub open spec fn refused_with(self, ctx: ElectionContext, e: Error) -> bool {
        if !self.bound(ctx) {
            e matches Error::Mismatch(text) && text@ == "election context hash mismatch"@
        } else {
            &&& self.ver_vote.verdict(ctx.pk, ctx.choice).is_err()
            &&& e == Error::FailedVerification(
                self.ver_vote.verdict(ctx.pk, ctx.choice)->Err_0,
            )
        }
    }

    /// Checks that the ballot is for the election and that its proof is valid;
    /// gives its vote.
    pub fn verify(&self, ctx: &ElectionContext) -> (r: Result<Vote, Error>)
        requires
            self.shaped(*ctx),
        ensures
            match r {
                Ok(vote) => self.accepted(*ctx) && vote@ == self.ver_vote.vote(),
                Err(e) => !self.accepted(*ctx) && self.refused_with(*ctx, e),
            },
    {
        if !same_bytes(&self.election_ctx, &ctx.context_hash) {
            return Err(Error::Mismatch("election context hash mismatch".to_owned()));
        }
        self.ver_vote.verify(&ctx.pk, &ctx.choice)
    }
}

/// A voter before the credential is complete.
#[derive(Clone, Debug, PartialEq)]
pub struct VoterBuilder {
    election: ElectionContext,
    credential_builder: VotingCredentialBuilder,
    voter_keys: VoterKeyPair,
}

impl VoterBuilder {
    /// The election, the credential and the keys.
    pub closed spec fn parts(self) -> (ElectionContext, VotingCredentialBuilder, VoterKeyPair) {
        (self.election, self.credential_builder, self.voter_keys)
    }

    /// A voter with fresh keys whose secret is shared with `passphrase`.
    pub fn new(
        election: &ElectionContext,
        credential_builder: VotingCredentialBuilder,
        passphrase: &str,
        rng: &mut StdRng,
    ) -> (r: Self)
        ensures
            r.parts().0.same(*election),
            r.parts().1 == credential_builder,
            r.parts().2.wf(election.pk),
            r.parts().2.sk.passphrase@ == passphrase@,
            recovered(passphrase@, r.parts().2.sk.share@) == Some(r.parts().2.sk.sk@),
    {
        let voter_keys = VoterKeyPair::new(&election.pk, passphrase, rng);
        VoterBuilder { election: election.clone(), credential_builder, voter_keys }
    }

    /// The election.
    pub fn election(&self) -> (r: &ElectionContext)
        ensures
            *r == self.parts().0,
    {
        &self.election
    }

    /// The voter's public key.
    pub fn voter_pk(&self) -> (r: VoterPublicKey)
        ensures
            r == self.parts().2.pk,
    {
        self.voter_keys.pk
    }

    /// A voter whose credential is simulated for the secret that `pin` opens.
    pub fn simulate(self, pin: usize, rng: &mut StdRng) -> (r: Result<Voter, Error>)
        ensures
            r.is_ok(),
            r->Ok_0.parts().0 == self.parts().0,
            r->Ok_0.parts().1.sign == self.parts().1.sign,
            r->Ok_0.parts().1.masked_pin == self.parts().1.masked_pin,
            self.parts().1.simulated(
                self.parts().0.pk,
                pin as int,
                self.parts().2.pk,
            ).made_by(
                DvWitness::First { x: self.parts().2.sk.sk },
                r->Ok_0.parts().1.dvnizkp,
            ),
            r->Ok_0.parts().2 == self.parts().2,
    {
        let credential = match self.credential_builder.simulate(
            &self.election.pk,
            pin,
            &self.voter_keys,
            rng,
        ) {
            Ok(credential) => credential,
            Err(e) => return Err(e),
        };
        Ok(Voter { election: self.election, credential, voter_keys: self.voter_keys })
    }

    /// The voter with a credential.
    pub fn finalize(self, credential: VotingCredential) -> (r: Voter)
        ensures
            r.parts() == (self.parts().0, credential, self.parts().2),
    {
        Voter { election: self.election, credential, voter_keys: self.voter_keys }
    }

    /// The election, the credential and the keys.
    pub fn into_inner(self) -> (r: (ElectionContext, VotingCredentialBuilder, VoterKeyPair))
        ensures
            r == self.parts(),
    {
        (self.election, self.credential_builder, self.voter_keys)
    }
}

/// A voter.
#[derive(Clone, Debug, PartialEq)]
pub struct Voter {
    election: ElectionContext,
    credential: VotingCredential,
    voter_keys: VoterKeyPair,
}

impl Voter {
    /// The election, the credential and the keys.
    pub closed spec fn parts(self) -> (ElectionContext, VotingCredential, VoterKeyPair) {
        (self.election, self.credential, self.voter_keys)
    }

    /// The election.
    pub fn election(&self) -> (r: &ElectionContext)
        ensures
            *r == self.parts().0,
    {
        &self.election
    }

    /// The voter's public key.
    pub fn voter_pk(&self) -> (r: VoterPublicKey)
        ensures
            r == self.parts().2.pk,
    {
        self.voter_keys.pk
    }

    /// Whether the choice can be voted in the election: it is one for the
    /// election's parameters, with a candidate, and with numbers for which there
    /// are codes.
    pub open spec fn votable(choice: Choice, params: ChoiceParameters) -> bool {
        &&& params.wf()
        &&& params.encodable()
        &&& choice.marks(params)
        &&& choice.l2_value@.len() > 0
        &&& choice.l1_value <= 100
        &&& choice.l2_value@[0] <= 100
    }

    /// Makes a ballot, with the right PIN or a wrong one.  With one candidate
    /// chosen, it is accepted, unless the draws are degenerate.
    #[verifier::spinoff_prover]
    #[verifier::rlimit(30)]
    pub fn vote(&self, ballot_builder: &BallotBuilder, pin: usize, rng: &mut StdRng) -> (r: Ballot)
        requires
            Self::votable(ballot_builder.chosen(), self.parts().0.choice),
        ensures
            r.election_ctx == self.parts().0.context_hash,
            r.shaped(self.parts().0),
            r.ver_vote.encrypts(
                self.parts().0.pk,
                ballot_builder.chosen(),
                self.parts().1,
                self.parts().1.masked_pin.secret(pin as int),
            ),
            exists|d: Draws|
                {
                    &&& #[trigger] r.ver_vote.made_with(
                        self.parts().0.pk,
                        ballot_builder.chosen(),
                        self.parts().0.choice,
                        self.parts().1,
                        self.parts().1.masked_pin.secret(pin as int),
                        d,
                    )
                    &&& ballot_builder.chosen().l2_value@.len() == 1
                        && self.parts().1.sign.A.log() != 0 && !d.degenerate() ==> r.accepted(
                        self.parts().0,
                    )
                },
    {
        let ver_vote = VerVote::new(
            &self.election.pk,
            ballot_builder.choice(),
            &self.election.choice,
            &self.credential,
            pin,
            rng,
        );
        let out = Ballot { election_ctx: self.election.context_hash, ver_vote };
        proof {
            let choice = ballot_builder.chosen();
            let x = self.credential.masked_pin.secret(pin as int);
            let d = choose|d: Draws|
                {
                    &&& #[trigger] ver_vote.made_with(
                        self.election.pk,
                        choice,
                        self.election.choice,
                        self.credential,
                        x,
                        d,
                    )
                    &&& choice.l2_value@.len() == 1 && self.credential.sign.A.log() != 0
                        && !d.degenerate() ==> ver_vote.verdict(
                        self.election.pk,
                        self.election.choice,
                    ) == Ok::<(), CryptoError>(())
                };
            assert(out.ver_vote.made_with(
                self.parts().0.pk,
                choice,
                self.parts().0.choice,
                self.parts().1,
                x,
                d,
            ));
        }
        out
    }

    /// Checks the credential with a PIN.
    pub fn verify_pin(&self, pin: usize) -> (r: Result<(), Error>)
        ensures
            match self.parts().1.pin_objection(
                self.parts().0.pk,
                pin as int,
                self.parts().2.pk,
            ) {
                None => r == Ok::<(), Error>(()),
                Some(e) => r == Err::<(), Error>(Error::FailedVerification(e)),
            },
    {
        self.credential.verify_pin(&self.election.pk, pin, &self.voter_keys.pk)
    }

    /// The voter without the proof of the credential.
    pub fn to_builder(self) -> (r: VoterBuilder)
        ensures
            r.parts().0 == self.parts().0,
            r.parts().1.sign == self.parts().1.sign,
            r.parts().1.masked_pin == self.parts().1.masked_pin,
            r.parts().2 == self.parts().2,
    {
        VoterBuilder {
            election: self.election,
            credential_builder: self.credential.to_builder(),
            voter_keys: self.voter_keys,
        }
    }
}

} // verus!
