//! The registration teller: it issues credentials, and controls them.

use rand::rngs::StdRng;
use vstd::prelude::*;

use crate::api::server::context::{ElectionContext, ElectionManifest};
use crate::constants::MAX_PIN;
use crate::elgamal::{ct_encrypt, SecretKey};
use crate::error::Error;
use crate::proofs::designated::DvWitness;
use crate::proofs::relation::Kind;
use crate::protocol::filter::all_encodable;
use crate::protocol::keys::{ElectionParams, ElectionPublicKey, RTKeyPair, VoterPublicKey};
use crate::protocol::mix::vote_views;
use crate::protocol::tally::{
    law_honest_control, CredentialControlProof, CredentialControlPublicBorrowed,
};
use crate::protocol::vote::auth::{
    encrypts_message, encrypts_signature, law_genuine_credential, law_masked_pin, signed, PrivateACC, PublicACC, ShortPublicACC,
    VotingCredential, VotingCredentialBuilder,
};
use crate::protocol::vote::choice::ChoiceParameters;
use crate::protocol::vote::vote::Vote;

verus! {

/// The registration teller.
#[derive(Debug)]
pub struct RegistrationTeller {
    election_pk: ElectionPublicKey,
    keypair: RTKeyPair,
}

impl RegistrationTeller {
    /// The public key of the election.
    pub closed spec fn public(self) -> ElectionPublicKey {
        self.election_pk
    }

    /// The registration keys.
    pub closed spec fn keys(self) -> RTKeyPair {
        self.keypair
    }

    /// The registration secret.
    pub open spec fn secret(self) -> int {
        self.keys().sk.secret_scalar@
    }

    /// Whether the keys belong together and to the election.
    pub open spec fn wf(self) -> bool {
        &&& self.keys().pk.belongs(self.keys().sk, self.public().params)
        &&& self.public().registration_pk == self.keys().pk.registration_pk
    }

    /// A teller with fresh keys.
    pub fn new(params: ElectionParams, rng: &mut StdRng) -> (r: Self)
        ensures
            r.wf(),
            r.public().params == params,
    {
        let meg_sk = SecretKey::new(rng);
        let keypair = RTKeyPair::new(meg_sk, &params, rng);
        let election_pk = ElectionPublicKey::new(&keypair.pk, params);
        RegistrationTeller { election_pk, keypair }
    }

    /// The public key of the election.
    pub fn election_pk(&self) -> (r: ElectionPublicKey)
        ensures
            r == self.public(),
    {
        self.election_pk
    }

    /// The public data of the election.
    pub fn election_context(&self, manifest: ElectionManifest, choice: ChoiceParameters) -> (r:
        ElectionContext)
        ensures
            r.wf(),
            r.manifest == manifest,
            r.pk == self.public(),
            r.choice == choice,
    {
        ElectionContext::new(manifest, self.election_pk, choice)
    }

    /// A fresh credential: the part for the voter, its PIN, and the public part.
    /// The PIN opens the secret that was signed, unless there was no signature.
    pub fn gen_builder(&self, rng: &mut StdRng) -> (r: (VotingCredentialBuilder, usize, PublicACC))
        ensures
            r.1 < MAX_PIN,
            red_sum(r.0, *self) != 0 ==> r.0.sign.signs(
                self.public().params,
                self.secret(),
                r.0.masked_pin.secret(r.1 as int),
            ),
            r.2.sign == r.0.sign,
            encrypts_signature(self.public().key(), r.2.enc_sign.enc_A@, r.0.sign),
            encrypts_message(
                self.keys().pk.meg_pk.key(self.public().params.elgamal),
                r.2.enc_sign.enc_r@,
                self.public().params,
                r.0.masked_pin.secret(r.1 as int),
            ),
            r.2.proof.kind() == Kind::Zero,
            r.2.objection(self.public()) is None,
    {
        let private_acc = PrivateACC::new(&self.keypair, &self.election_pk, rng);
        let public_acc = PublicACC::from_private(&self.election_pk, &private_acc, rng);
        let builder = VotingCredentialBuilder::new(&private_acc);
        let pin = private_acc.pin.get_pin_value();
        proof {
            law_masked_pin(private_acc.pin, builder.masked_pin, pin as int);
            assert(public_acc.enc_sign.enc_A@ == ct_encrypt(
                self.public().key(),
                builder.sign.A.log(),
                private_acc.enc_sign.enc_A.random_scalar@,
            ));
            assert(public_acc.enc_sign.enc_r@ == ct_encrypt(
                self.keypair.pk.meg_pk.key(self.public().params.elgamal),
                signed(self.public().params, private_acc.pin.x@),
                private_acc.enc_sign.enc_r.random_scalar@,
            ));
        }
        (builder, pin, public_acc)
    }

    /// Completes a credential for the voter with the key `voter_pk`.  The voter
    /// accepts it with each PIN that opens the secret that was signed.
    pub fn gen_credential(
        &self,
        voter_pk: &VoterPublicKey,
        builder: &VotingCredentialBuilder,
        rng: &mut StdRng,
    ) -> (r: Result<VotingCredential, Error>)
        ensures
            match r {
                Ok(credential) => {
                    &&& voter_pk.pk.log() != 0
                    &&& credential.sign == builder.sign
                    &&& credential.masked_pin == builder.masked_pin
                    &&& builder.issued(self.keys(), self.public(), *voter_pk).made_by(
                        DvWitness::Second { x: self.keys().sk.secret_scalar },
                        credential.dvnizkp,
                    )
                    &&& forall|pin: int|
                        self.wf() && builder.sign.signs(
                            self.public().params,
                            self.secret(),
                            builder.masked_pin.secret(pin),
                        ) ==> (#[trigger] credential.pin_objection(
                            self.public(),
                            pin,
                            *voter_pk,
                        )) is None
                },
                Err(e) => voter_pk.pk.log() == 0 && e == Error::DvKeysNotSet(3),
            },
    {
        let r = builder.finalize(&self.keypair, &self.election_pk, voter_pk, rng);
        proof {
            if r.is_ok() {
                let credential = r->Ok_0;
                assert forall|pin: int|
                    self.wf() && builder.sign.signs(
                        self.public().params,
                        self.secret(),
                        builder.masked_pin.secret(pin),
                    ) implies (#[trigger] credential.pin_objection(
                    self.public(),
                    pin,
                    *voter_pk,
                )) is None by {
                    law_genuine_credential(
                        *builder,
                        credential,
                        self.keys(),
                        self.public(),
                        *voter_pk,
                        pin,
                    );
                }
            }
        }
        r
    }

    /// The control proofs of votes.
    pub fn gen_controls(&self, votes: &Vec<Vote>, rng: &mut StdRng) -> (r: Vec<CredentialControlProof>)
        requires
            all_encodable(vote_views(votes@)),
        ensures
            r@.len() == votes@.len(),
            forall|i: int|
                #![trigger r@[i]]
                0 <= i < r@.len() ==> self.public().control(votes@[i]@).made_by(
                    self.secret(),
                    r@[i],
                ),
            self.wf() ==> forall|i: int|
                #![trigger r@[i]]
                0 <= i < r@.len() ==> self.public().control(votes@[i]@).accepts(r@[i]),
    {
        let ghost views = vote_views(votes@);
        let mut out: Vec<CredentialControlProof> = Vec::new();
        let mut i: usize = 0;
        while i < votes.len()
            invariant
                i <= votes@.len(),
                views == vote_views(votes@),
                all_encodable(views),
                out@.len() == i,
                forall|k: int|
                    #![trigger out@[k]]
                    0 <= k < i ==> self.public().control(votes@[k]@).made_by(
                        self.secret(),
                        out@[k],
                    ),
            decreases votes@.len() - i,
        {
            proof {
                assert(views[i as int] == votes@[i as int]@);
            }
            let vote = &votes[i];
            let public = CredentialControlPublicBorrowed::new(
                &self.election_pk.params.g3,
                &self.election_pk.registration_pk,
                vote,
                vote.auth.A_enc,
            );
            let control = CredentialControlProof::prove(
                &public,
                &self.keypair.sk.secret_scalar,
                rng,
            );
            proof {
                assert(public@ == self.public().control(vote@));
            }
            out.push(control);
            i += 1;
        }
        proof {
            if self.wf() {
                assert forall|i: int| #![trigger out@[i]] 0 <= i < out@.len() implies self.public().control(
                    votes@[i]@,
                ).accepts(out@[i]) by {
                    law_honest_control(
                        self.public().control(votes@[i]@),
                        self.secret(),
                        out@[i],
                    );
                }
            }
        }
        out
    }

    /// Checks the public part of a credential; gives its encrypted signature.
    pub fn short_public_acc(&self, public_acc: &PublicACC) -> (r: Result<ShortPublicACC, Error>)
        requires
            public_acc.proof.kind() == Kind::Zero,
        ensures
            match public_acc.objection(self.public()) {
                None => r == Ok::<ShortPublicACC, Error>(
                    ShortPublicACC { enc_A: public_acc.enc_sign.enc_A },
                ),
                Some(e) => r == Err::<ShortPublicACC, Error>(Error::FailedVerification(e)),
            },
    {
        match public_acc.verify(&self.election_pk) {
            Ok(short) => Ok(short),
            Err(e) => Err(Error::FailedVerification(e)),
        }
    }
}

/// The exponent whose inverse the signature of a credential takes.
pub open spec fn red_sum(builder: VotingCredentialBuilder, teller: RegistrationTeller) -> int {
    crate::arith::red(builder.sign.r@ + teller.secret())
}

} // verus!
