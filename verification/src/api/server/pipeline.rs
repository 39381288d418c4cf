//! The public pipeline of verification and tallying.

use merlin::Transcript;
use rand::rngs::StdRng;
use vstd::prelude::*;

use crate::api::server::bb::{BallotRecord, ValidVoteRecord, VerifiedVoteRecord};
use crate::api::server::context::ElectionContext;
use crate::constants::{lemma_labels, ACC_CHECK, MIX_CREDS, MIX_VOTES, TALLY};
use crate::elgamal::{ct_decrypt, ct_rows, law_re_encrypt, Ciphertext, CtView};
use crate::error::{CryptoError, Error};
use crate::proofs::decryption::{list_holds, DecOk};
use crate::proofs::shuffle::{shuffle_fits, Parameters};
use crate::protocol::counting::{homomorphic_sum, sum_of};
use crate::protocol::cred_mix::{
    credentials, ext_credentials, law_honest_credential_mix, MixedCredentials,
};
use crate::protocol::filter::{
    all_encodable, among, choice_views, contains_plaintext, credential_inputs, lists_match,
    neutral_positions, positions, stripped_from, vote_credentials,
};
use crate::protocol::keys::ElectionPublicKey;
use crate::protocol::mix::{
    answered, are_covering, hides, is_column, law_honest_mix, lemma_column, vote_views, votes_have,
    Column, MixedVotes,
};
use crate::protocol::tally::{CredentialControlProof, DecryptedTally, Place};
use crate::protocol::vote::auth::{ExtendedShortPublicACC, ShortPublicACC};
use crate::protocol::vote::auth_proof::re_encryption;
use crate::protocol::vote::choice::{inner_views, re_encrypts, ChoiceParameters, EncrChoice, EncrChoiceView};
use crate::protocol::vote::vote::{ExtendedVote, Vote, VoteView, VoteWithEncPubCred};
use crate::random::{is_permutation, random_permutation};
use crate::transcript::{transcript_entries, Entry};

verus! {

/// The public view of an election.
#[derive(Clone, Debug)]
pub struct PublicElection {
    pub ctx: ElectionContext,
}

impl PublicElection {
    /// The public view of an election.
    pub fn new(ctx: ElectionContext) -> (r: Self)
        ensures
            r.ctx == ctx,
    {
        PublicElection { ctx }
    }
}

/// A vote mix: the bases, the mixed votes and the proof.
pub struct VoteMixArtifact {
    pub pedersen: Parameters,
    pub shuffled: Vec<VerifiedVoteRecord>,
    pub proof: MixedVotes,
}

/// A credential mix: the bases, the mixed credentials and the proof.
pub struct CredMixArtifact {
    pub pedersen: Parameters,
    pub shuffled: Vec<ShortPublicACC>,
    pub proof: MixedCredentials,
}

/// The public pipeline.
#[derive(Clone, Debug)]
pub struct PublicPipeline {
    pub election: PublicElection,
}

/// Whether a valid vote is the mixed one at position `i`, with its receipt.
pub open spec fn kept_from(kept: ValidVoteRecord, mixed: Seq<VerifiedVoteRecord>, i: int) -> bool {
    &&& 0 <= i < mixed.len()
    &&& kept.receipt == mixed[i].receipt
    &&& kept.vote.choice@ == mixed[i].vote@.choice
    &&& kept.vote.A_enc@ == mixed[i].vote@.a
}

/// The values of the votes of records.
pub open spec fn record_views(records: Seq<VerifiedVoteRecord>) -> Seq<VoteView> {
    records.map_values(|r: VerifiedVoteRecord| r.vote@)
}

/// The votes of records.
fn record_votes(records: &Vec<VerifiedVoteRecord>) -> (r: Vec<Vote>)
    ensures
        r@.len() == records@.len(),
        vote_views(r@) == record_views(records@),
{
    let mut out: Vec<Vote> = Vec::new();
    let mut i: usize = 0;
    while i < records.len()
        invariant
            i <= records@.len(),
            out@.len() == i,
            forall|k: int| #![trigger out@[k]] 0 <= k < i ==> out@[k]@ == records@[k].vote@,
        decreases records@.len() - i,
    {
        out.push(records[i].vote.clone());
        i += 1;
    }
    proof {
        assert(vote_views(out@) =~= record_views(records@));
    }
    out
}

/// The votes of records.
fn valid_votes_of(records: &Vec<ValidVoteRecord>) -> (r: Vec<VoteWithEncPubCred>)
    ensures
        r@.len() == records@.len(),
        forall|k: int|
            #![trigger r@[k]]
            0 <= k < r@.len() ==> r@[k].choice@ == records@[k].vote.choice@ && r@[k].A_enc
                == records@[k].vote.A_enc,
{
    let mut out: Vec<VoteWithEncPubCred> = Vec::new();
    let mut i: usize = 0;
    while i < records.len()
        invariant
            i <= records@.len(),
            out@.len() == i,
            forall|k: int|
                #![trigger out@[k]]
                0 <= k < i ==> out@[k].choice@ == records@[k].vote.choice@ && out@[k].A_enc
                    == records@[k].vote.A_enc,
        decreases records@.len() - i,
    {
        out.push(records[i].vote.clone());
        i += 1;
    }
    out
}

/// Whether the shuffled records are the originals, rearranged by `perm` and
/// re-encrypted as `ext` tells; each keeps its receipt.
pub open spec fn mixes(
    key: CtView,
    originals: Seq<VerifiedVoteRecord>,
    shuffled: Seq<VerifiedVoteRecord>,
    perm: Seq<usize>,
    ext: Seq<ExtendedVote>,
) -> bool {
    &&& is_permutation(perm, originals.len() as int)
    &&& ext.len() == originals.len()
    &&& shuffled.len() == originals.len()
    &&& forall|k: int|
        #![trigger ext[k]]
        #![trigger shuffled[k]]
        0 <= k < ext.len() ==> {
            &&& shuffled[k].receipt == originals[perm[k] as int].receipt
            &&& ext[k].re_encrypts(originals[perm[k] as int].vote@, key)
            &&& shuffled[k].vote@ == ext[k].vote()
        }
}

/// Mixing does not change what is voted: each mixed vote decrypts, in every
/// column, to what the original at its place in the permutation decrypts to.
pub proof fn law_mix_keeps_votes(
    key: CtView,
    x1: int,
    x2: int,
    params: ChoiceParameters,
    originals: Seq<VerifiedVoteRecord>,
    shuffled: Seq<VerifiedVoteRecord>,
    perm: Seq<usize>,
    ext: Seq<ExtendedVote>,
    k: int,
    c: Column,
)
    requires
        key.b == crate::arith::red(x1 * key.r1 + x2 * key.r2),
        params.wf(),
        mixes(key, originals, shuffled, perm, ext),
        votes_have(record_views(originals), params, originals.len() as int),
        0 <= k < shuffled.len(),
        is_column(c, params),
    ensures
        ct_decrypt(x1, x2, shuffled[k].vote@.at(c)) == ct_decrypt(
            x1,
            x2,
            originals[perm[k] as int].vote@.at(c),
        ),
{
    let original = originals[perm[k] as int].vote@;
    assert(perm[k] < originals.len());
    assert(record_views(originals)[perm[k] as int] == original);
    assert(original.covers(params));
    assert(ext[k].re_encrypts(original, key));
    lemma_column(ext[k], original, shuffled[k].vote@, params, key, c);
    law_re_encrypt(x1, x2, key, original.at(c), ext[k].at(c).random_scalar@);
}

/// The re-encryption of a vote has its shape.
proof fn lemma_re_encrypted_shape(ext: ExtendedVote, old: VoteView, params: ChoiceParameters, key: CtView)
    requires
        ext.re_encrypts(old, key),
        old.covers(params),
    ensures
        ext.choice.inner().covers(params),
        ext.vote().covers(params),
{
    let v = ext.choice.inner();
    assert forall|i: int| #![trigger v.l2[i]] 0 <= i < params.n1 implies v.l2[i].len()
        >= params.ln2@[i] by {
        assert(re_encrypts(ext.choice.l2@[i]@, old.choice.l2[i], key));
        assert(v.l2[i] == inner_views(ext.choice.l2@[i]@));
    }
}

impl PublicPipeline {
    /// The pipeline of an election.
    pub fn new(election: PublicElection) -> (r: Self)
        ensures
            r.election == election,
    {
        PublicPipeline { election }
    }

    /// The public key.
    pub fn pk(&self) -> (r: &ElectionPublicKey)
        ensures
            *r == self.election.ctx.pk,
    {
        &self.election.ctx.pk
    }

    /// The shape of ballots.
    pub fn choice_params(&self) -> (r: &ChoiceParameters)
        ensures
            *r == self.election.ctx.choice,
    {
        &self.election.ctx.choice
    }

    /// The digest of the public data.
    pub fn context_hash(&self) -> (r: &[u8; 32])
        ensures
            *r == self.election.ctx.context_hash,
    {
        &self.election.ctx.context_hash
    }

    /// Verifies all ballots, up to the first that fails; keeps the receipts.
    pub fn verify_ballots(&self, ballots: &Vec<BallotRecord>) -> (r: Result<
        Vec<VerifiedVoteRecord>,
        Error,
    >)
        requires
            forall|i: int|
                #![trigger ballots@[i]]
                0 <= i < ballots@.len() ==> ballots@[i].ballot.shaped(self.election.ctx),
        ensures
            match r {
                Ok(out) => {
                    &&& out@.len() == ballots@.len()
                    &&& forall|i: int|
                        #![trigger ballots@[i]]
                        #![trigger out@[i]]
                        0 <= i < ballots@.len() ==> {
                            &&& ballots@[i].ballot.accepted(self.election.ctx)
                            &&& out@[i].receipt == ballots@[i].receipt
                            &&& out@[i].vote@ == ballots@[i].ballot.ver_vote.vote()
                        }
                },
                Err(e) => exists|i: int|
                    {
                        &&& 0 <= i < ballots@.len()
                        &&& !(#[trigger] ballots@[i]).ballot.accepted(self.election.ctx)
                        &&& ballots@[i].ballot.refused_with(self.election.ctx, e)
                        &&& forall|k: int|
                            #![trigger ballots@[k]]
                            0 <= k < i ==> ballots@[k].ballot.accepted(self.election.ctx)
                    },
            },
    {
        let mut out: Vec<VerifiedVoteRecord> = Vec::new();
        let mut i: usize = 0;
        while i < ballots.len()
            invariant
                i <= ballots@.len(),
                forall|i: int|
                    #![trigger ballots@[i]]
                    0 <= i < ballots@.len() ==> ballots@[i].ballot.shaped(self.election.ctx),
                out@.len() == i,
                forall|k: int|
                    #![trigger ballots@[k]]
                    #![trigger out@[k]]
                    0 <= k < i ==> {
                        &&& ballots@[k].ballot.accepted(self.election.ctx)
                        &&& out@[k].receipt == ballots@[k].receipt
                        &&& out@[k].vote@ == ballots@[k].ballot.ver_vote.vote()
                    },
            decreases ballots@.len() - i,
        {
            let record = &ballots[i];
            match record.ballot.verify(&self.election.ctx) {
                Ok(vote) => {
                    out.push(VerifiedVoteRecord { receipt: record.receipt, vote });
                },
                Err(e) => {
                    proof {
                        assert(!ballots@[i as int].ballot.accepted(self.election.ctx));
                    }
                    return Err(e);
                },
            }
            i += 1;
        }
        Ok(out)
    }

    /// Whether a vote mix has the form that its verification needs.
    pub open spec fn vote_mix_formed(self, originals: Seq<VerifiedVoteRecord>, art: VoteMixArtifact) -> bool {
        let params = self.election.ctx.choice;
        let n = originals.len() as int;
        &&& params.wf()
        &&& n >= 1
        &&& art.pedersen.wf()
        &&& art.pedersen.list_len == n
        &&& shuffle_fits(art.proof.core_proof.parts(), n)
        &&& art.proof.shaped(params)
        &&& votes_have(record_views(originals), params, n)
        &&& votes_have(record_views(art.shuffled@), params, n)
    }

    /// Whether a vote mix has the form that its verification needs.
    pub fn is_vote_mix_formed(&self, originals: &Vec<VerifiedVoteRecord>, art: &VoteMixArtifact) -> (r:
        bool)
        ensures
            r == self.vote_mix_formed(originals@, *art),
    {
        let params = self.choice_params();
        let n = originals.len();
        params.is_well_formed() && n >= 1 && art.pedersen.generators.len() == art.pedersen.list_len
            && art.pedersen.list_len == n && art.proof.core_proof.is_fitting(n)
            && art.proof.is_shaped(params) && are_covering(&record_votes(originals), params, n)
            && are_covering(&record_votes(&art.shuffled), params, n)
    }

    /// Whether a vote mix is accepted.
    pub open spec fn vote_mix_accepted(self, originals: Seq<VerifiedVoteRecord>, art: VoteMixArtifact) -> bool {
        art.proof.accepted(
            self.election.ctx.pk,
            art.pedersen,
            self.election.ctx.choice,
            record_views(originals),
            record_views(art.shuffled@),
            self.election.ctx.steps(MIX_VOTES@),
        )
    }

    /// Mixes votes.  The mix is accepted.
    #[verifier::rlimit(40)]
    pub fn mix_votes(&self, originals: &Vec<VerifiedVoteRecord>, rng: &mut StdRng) -> (r:
        VoteMixArtifact)
        requires
            originals@.len() >= 2,
            self.election.ctx.choice.wf(),
            votes_have(
                record_views(originals@),
                self.election.ctx.choice,
                originals@.len() as int,
            ),
        ensures
            exists|perm: Seq<usize>, ext: Seq<ExtendedVote>| #[trigger]
                mixes(self.election.ctx.pk.key(), originals@, r.shuffled@, perm, ext),
            r.pedersen.list_len == originals@.len(),
            self.vote_mix_formed(originals@, r),
            self.vote_mix_accepted(originals@, r),
    {
        let ghost key = self.election.ctx.pk.key();
        let ghost params = self.election.ctx.choice;
        let ghost views = record_views(originals@);
        let n = originals.len();
        let ped = Parameters::new(n, rng);
        let perm = random_permutation(n, rng);
        let mut ext: Vec<ExtendedVote> = Vec::new();
        let mut k: usize = 0;
        while k < n
            invariant
                k <= n,
                n == originals@.len(),
                key == self.election.ctx.pk.key(),
                is_permutation(perm@, n as int),
                ext@.len() == k,
                forall|h: int|
                    #![trigger ext@[h]]
                    0 <= h < k ==> ext@[h].re_encrypts(
                        originals@[perm@[h] as int].vote@,
                        key,
                    ),
            decreases n - k,
        {
            proof {
                assert(perm@[k as int] < n);
            }
            let vote = originals[perm[k]].vote.re_encrypt(self.pk(), rng);
            ext.push(vote);
            k += 1;
        }
        proof {
            assert forall|h: int| #![trigger ext@[h]] 0 <= h < ext@.len() implies ext@[h].choice.inner().covers(
                params,
            ) && ext@[h].vote().covers(params) by {
                assert(perm@[h] < n);
                assert(views[perm@[h] as int].covers(params));
                lemma_re_encrypted_shape(
                    ext@[h],
                    originals@[perm@[h] as int].vote@,
                    params,
                    key,
                );
            }
        }
        proof {
            lemma_labels();
        }
        let mut tr = self.election.ctx.tr(MIX_VOTES);
        let ghost start = transcript_entries(tr);
        let mix_proof = MixedVotes::new(
            self.pk(),
            &ped,
            &perm,
            &ext,
            self.choice_params(),
            rng,
            &mut tr,
        );
        let mut shuffled: Vec<VerifiedVoteRecord> = Vec::new();
        let mut k: usize = 0;
        while k < n
            invariant
                k <= n,
                n == originals@.len(),
                n == ext@.len(),
                is_permutation(perm@, n as int),
                shuffled@.len() == k,
                forall|h: int|
                    #![trigger shuffled@[h]]
                    0 <= h < k ==> shuffled@[h].receipt == originals@[perm@[h] as int].receipt
                        && shuffled@[h].vote@ == ext@[h].vote(),
            decreases n - k,
        {
            proof {
                assert(perm@[k as int] < n);
            }
            shuffled.push(
                VerifiedVoteRecord {
                    receipt: originals[perm[k]].receipt,
                    vote: ext[k].to_vote(),
                },
            );
            k += 1;
        }
        let out = VoteMixArtifact { pedersen: ped, shuffled, proof: mix_proof };
        proof {
            assert(mixes(key, originals@, out.shuffled@, perm@, ext@));
            let after = record_views(shuffled@);
            assert forall|h: int| #![trigger after[h]] 0 <= h < n implies after[h].covers(
                params,
            ) by {
                assert(ext@[h].vote().covers(params));
            }
            let t = mix_proof.challenges(start, params, n as int);
            let d = choose|d: Seq<int>|
                #[trigger] mix_proof.made(key, params, ext@, perm@, d, t);
            assert(mix_proof.made(key, params, ext@, perm@, d, t));
            assert forall|h: int| #![trigger ext@[h]] 0 <= h < ext@.len() implies ext@[h].re_encrypts(
                views[perm@[h] as int],
                key,
            ) && after[h] == ext@[h].vote() by {
                assert(perm@[h] < n);
                assert(shuffled@[h].vote@ == ext@[h].vote());
            }
            law_honest_mix(
                mix_proof,
                self.election.ctx.pk,
                params,
                views,
                ext@,
                after,
                perm@,
                d,
                t,
            );
        }
        out
    }

    /// Verifies a vote mix.
    pub fn verify_vote_mix(&self, originals: &Vec<VerifiedVoteRecord>, art: &VoteMixArtifact) -> (r:
        Result<(), Error>)
        requires
            self.vote_mix_formed(originals@, *art),
        ensures
            r == if self.vote_mix_accepted(originals@, *art) {
                Ok::<(), Error>(())
            } else {
                Err(
                    Error::FailedVerification(
                        art.proof.core_proof.refusal(
                            art.pedersen,
                            self.election.ctx.steps(MIX_VOTES@) + art.proof.steps(
                                self.election.ctx.choice,
                            ),
                        ),
                    ),
                )
            },
    {
        proof {
            lemma_labels();
        }
        let mut tr = self.election.ctx.tr(MIX_VOTES);
        let orig_votes = record_votes(originals);
        let shuf_votes = record_votes(&art.shuffled);
        art.proof.verify(
            self.pk(),
            &art.pedersen,
            self.choice_params(),
            &orig_votes,
            &shuf_votes,
            &mut tr,
        )
    }

    /// Whether a credential mix has the form that its verification needs.
    pub open spec fn cred_mix_formed(self, originals: Seq<ShortPublicACC>, art: CredMixArtifact) -> bool {
        let n = originals.len() as int;
        &&& n >= 1
        &&& art.pedersen.wf()
        &&& art.pedersen.list_len == n
        &&& shuffle_fits(art.proof.core_proof.parts(), n)
        &&& art.shuffled@.len() >= n
    }

    /// Whether a credential mix has the form that its verification needs.
    pub fn is_cred_mix_formed(&self, originals: &Vec<ShortPublicACC>, art: &CredMixArtifact) -> (r: bool)
        ensures
            r == self.cred_mix_formed(originals@, *art),
    {
        let n = originals.len();
        n >= 1 && art.pedersen.generators.len() == art.pedersen.list_len && art.pedersen.list_len == n
            && art.proof.core_proof.is_fitting(n) && art.shuffled.len() >= n
    }

    /// Whether a credential mix is accepted.
    pub open spec fn cred_mix_accepted(self, originals: Seq<ShortPublicACC>, art: CredMixArtifact) -> bool {
        art.proof.accepted(
            self.election.ctx.pk,
            art.pedersen,
            originals,
            art.shuffled@,
            self.election.ctx.steps(MIX_CREDS@),
        )
    }

    /// Mixes credentials.  The mix is accepted.
    pub fn mix_credentials(&self, originals: &Vec<ShortPublicACC>, rng: &mut StdRng) -> (r:
        CredMixArtifact)
        requires
            originals@.len() >= 2,
        ensures
            r.shuffled@.len() == originals@.len(),
            exists|perm: Seq<usize>, ext: Seq<ExtendedShortPublicACC>| #[trigger]
                credentials_mixed(
                    self.election.ctx.pk.key(),
                    originals@,
                    r.shuffled@,
                    perm,
                    ext,
                ),
            self.cred_mix_formed(originals@, r),
            self.cred_mix_accepted(originals@, r),
    {
        let ghost key = self.election.ctx.pk.key();
        let n = originals.len();
        let ped = Parameters::new(n, rng);
        let perm = random_permutation(n, rng);
        let mut ext: Vec<ExtendedShortPublicACC> = Vec::new();
        let mut shuffled: Vec<ShortPublicACC> = Vec::new();
        let mut k: usize = 0;
        while k < n
            invariant
                k <= n,
                n == originals@.len(),
                key == self.election.ctx.pk.key(),
                is_permutation(perm@, n as int),
                ext@.len() == k,
                shuffled@.len() == k,
                forall|h: int|
                    #![trigger ext@[h]]
                    #![trigger shuffled@[h]]
                    0 <= h < k ==> re_encryption(
                        ext@[h].enc_A,
                        originals@[perm@[h] as int].enc_A@,
                        key,
                    ) && shuffled@[h].enc_A@ == ext@[h].enc_A.inner@,
            decreases n - k,
        {
            proof {
                assert(perm@[k as int] < n);
            }
            let cred = originals[perm[k]].re_encrypt(self.pk(), rng);
            ext.push(cred);
            shuffled.push(cred.to_short());
            k += 1;
        }
        proof {
            lemma_labels();
        }
        let mut tr = self.election.ctx.tr(MIX_CREDS);
        let ghost start = transcript_entries(tr);
        let mix_proof = MixedCredentials::new(self.pk(), &ped, &perm, &ext, rng, &mut tr);
        let out = CredMixArtifact { pedersen: ped, shuffled, proof: mix_proof };
        proof {
            assert(credentials_mixed(key, originals@, shuffled@, perm@, ext@));
            let t = mix_proof.challenges(start, n as int);
            let d = choose|d: Seq<int>|
                hides(mix_proof.core_proof.f(), t, perm@, d)
                    && #[trigger] answered(
                    key,
                    ext_credentials(ext@),
                    d,
                    t,
                    perm@,
                    mix_proof.e_d@,
                    mix_proof.z@,
                );
            law_honest_credential_mix(
                mix_proof,
                self.election.ctx.pk,
                originals@,
                ext@,
                shuffled@,
                perm@,
                d,
                t,
            );
        }
        out
    }

    /// Verifies a credential mix.
    pub fn verify_cred_mix(&self, originals: &Vec<ShortPublicACC>, art: &CredMixArtifact) -> (r:
        Result<(), Error>)
        requires
            self.cred_mix_formed(originals@, *art),
        ensures
            r == if self.cred_mix_accepted(originals@, *art) {
                Ok::<(), Error>(())
            } else {
                Err(
                    Error::FailedVerification(
                        art.proof.refusal(art.pedersen, self.election.ctx.steps(MIX_CREDS@)),
                    ),
                )
            },
    {
        proof {
            lemma_labels();
        }
        let mut tr = self.election.ctx.tr(MIX_CREDS);
        art.proof.verify(self.pk(), &art.pedersen, originals, &art.shuffled, &mut tr)
    }

    /// Keeps the votes with a valid credential; keeps their receipts.
    pub fn filter_invalid(
        &self,
        mixed_votes: &Vec<VerifiedVoteRecord>,
        controls: &Vec<CredentialControlProof>,
        acc_checks: &Vec<DecOk>,
    ) -> (r: Result<Vec<ValidVoteRecord>, Error>)
        requires
            mixed_votes@.len() == controls@.len(),
            controls@.len() == acc_checks@.len(),
            all_encodable(record_views(mixed_votes@)),
        ensures
            match r {
                Ok(out) => {
                    let at = neutral_positions(acc_checks@, mixed_votes@.len() as int);
                    &&& self.election.ctx.pk.all_checked(
                        record_views(mixed_votes@),
                        controls@,
                        acc_checks@,
                        mixed_votes@.len() as int,
                    )
                    &&& out@.len() == at.len()
                    &&& forall|k: int|
                        #![trigger out@[k]]
                        0 <= k < out@.len() ==> kept_from(out@[k], mixed_votes@, at[k])
                },
                Err(e) => exists|i: int| #[trigger]
                    self.election.ctx.pk.unchecked(
                        record_views(mixed_votes@),
                        controls@,
                        acc_checks@,
                        i,
                        e,
                    ),
            },
    {
        let votes = record_votes(mixed_votes);
        let indexed = match self.pk().filter_invalid(&votes, controls, acc_checks) {
            Ok(indexed) => indexed,
            Err(e) => return Err(e),
        };
        let ghost at = neutral_positions(acc_checks@, mixed_votes@.len() as int);
        let mut out: Vec<ValidVoteRecord> = Vec::new();
        let mut k: usize = 0;
        proof {
            assert(positions(indexed@).len() == indexed@.len());
        }
        while k < indexed.len()
            invariant
                k <= indexed@.len(),
                indexed@.len() == at.len(),
                positions(indexed@) == at,
                forall|h: int|
                    #![trigger indexed@[h]]
                    0 <= h < indexed@.len() ==> stripped_from(
                        indexed@[h],
                        record_views(mixed_votes@),
                    ),
                out@.len() == k,
                forall|h: int|
                    #![trigger out@[h]]
                    0 <= h < k ==> kept_from(out@[h], mixed_votes@, at[h]),
            decreases indexed@.len() - k,
        {
            let i = indexed[k].0;
            proof {
                assert(positions(indexed@)[k as int] == i);
                assert(stripped_from(indexed@[k as int], record_views(mixed_votes@)));
            }
            let vote = indexed[k].1.clone();
            out.push(ValidVoteRecord { receipt: mixed_votes[i].receipt, vote });
            k += 1;
        }
        Ok(out)
    }

    /// Verifies controls and decryptions of the checks of all votes.
    pub fn verify_acc_checks(
        &self,
        acc_checks: &Vec<DecOk>,
        controls: &Vec<CredentialControlProof>,
        mixed_votes: &Vec<VerifiedVoteRecord>,
    ) -> (r: Result<(), Error>)
        requires
            controls@.len() == acc_checks@.len(),
            mixed_votes@.len() <= controls@.len(),
            all_encodable(record_views(mixed_votes@)),
        ensures
            match r {
                Ok(()) => {
                    &&& self.election.ctx.pk.all_checked(
                        record_views(mixed_votes@),
                        controls@,
                        acc_checks@,
                        mixed_votes@.len() as int,
                    )
                    &&& list_holds(
                        acc_checks@,
                        self.election.ctx.pk.key(),
                        self.election.ctx.steps(ACC_CHECK@),
                        mixed_votes@.len() as int,
                    )
                },
                Err(e) => exists|end: Seq<Entry>, i: int| #[trigger]
                    self.election.ctx.pk.check_fault(
                        record_views(mixed_votes@),
                        controls@,
                        acc_checks@,
                        self.election.ctx.steps(ACC_CHECK@),
                        end,
                        i,
                        e,
                    ),
            },
    {
        proof {
            lemma_labels();
        }
        let mut tr = self.election.ctx.tr(ACC_CHECK);
        let votes = record_votes(mixed_votes);
        self.pk().verify_checks(acc_checks, controls, &votes, &mut tr)
    }

    /// The two lists from which credential fingerprints are made, once the
    /// credential mix is accepted.
    pub fn credential_fingerprint_inputs(
        &self,
        original_creds: &Vec<ShortPublicACC>,
        cred_mix: &CredMixArtifact,
        valid_votes: &Vec<ValidVoteRecord>,
    ) -> (r: Result<Vec<Vec<Ciphertext>>, Error>)
        requires
            self.cred_mix_formed(original_creds@, *cred_mix),
        ensures
            match r {
                Ok(lists) => {
                    &&& self.cred_mix_accepted(original_creds@, *cred_mix)
                    &&& ct_rows(lists@) == fingerprint_inputs(cred_mix.shuffled@, valid_votes@)
                },
                Err(e) => {
                    &&& !self.cred_mix_accepted(original_creds@, *cred_mix)
                    &&& e == Error::FailedVerification(
                        cred_mix.proof.refusal(
                            cred_mix.pedersen,
                            self.election.ctx.steps(MIX_CREDS@),
                        ),
                    )
                },
            },
    {
        proof {
            lemma_labels();
        }
        let tr = self.election.ctx.tr(MIX_CREDS);
        let vv = valid_votes_of(valid_votes);
        proof {
            assert(credential_inputs(cred_mix.shuffled@, vv@) =~= fingerprint_inputs(
                cred_mix.shuffled@,
                valid_votes@,
            )) by {
                assert(vote_credentials(vv@) =~= record_credentials(
                    valid_votes@,
                ));
            }
        }
        self.pk().credential_fingerprint_inputs(
            &cred_mix.pedersen,
            original_creds,
            &cred_mix.shuffled,
            &cred_mix.proof,
            &vv,
            &tr,
        )
    }

    /// Of the votes with a registered credential, keeps for each credential the
    /// last one: that with the greatest number.
    ///
    /// `verified` is the outcome of the verification of the fingerprints, and
    /// the transcript is as that verification left it.
    pub fn filter_illicit_keep_last(
        &self,
        valid_votes: &Vec<ValidVoteRecord>,
        cred_mix: &CredMixArtifact,
        fp_lists: &Vec<Vec<Ciphertext>>,
        verified: Result<(), CryptoError>,
        dec_pub_fps: &Vec<DecOk>,
        dec_votes_fps: &Vec<DecOk>,
        transcript: &mut Transcript,
    ) -> (r: Result<Vec<EncrChoice>, Error>)
        requires
            dec_votes_fps@.len() == valid_votes@.len(),
            dec_pub_fps@.len() == cred_mix.shuffled@.len(),
            lists_match(ct_rows(fp_lists@), dec_pub_fps@, dec_votes_fps@),
        ensures
            match r {
                Ok(kept) => {
                    &&& self.election.ctx.pk.fingerprints_decrypted(
                        verified,
                        dec_pub_fps@,
                        dec_votes_fps@,
                        transcript_entries(*old(transcript)),
                    ).is_ok()
                    &&& exists|at: Seq<int>|
                        #![trigger are_winners(valid_votes@, dec_pub_fps@, dec_votes_fps@, at)]
                        {
                            &&& are_winners(valid_votes@, dec_pub_fps@, dec_votes_fps@, at)
                            &&& choice_views(kept@) == at.map_values(
                                |i: int| valid_votes@[i].vote.choice@,
                            )
                        }
                    &&& transcript_entries(*final(transcript))
                        == self.election.ctx.pk.fingerprints_after(
                        dec_pub_fps@,
                        dec_votes_fps@,
                        transcript_entries(*old(transcript)),
                    )
                },
                Err(e) => self.election.ctx.pk.fingerprints_decrypted(
                    verified,
                    dec_pub_fps@,
                    dec_votes_fps@,
                    transcript_entries(*old(transcript)),
                ) == Err::<(), Error>(e),
            },
            verified.is_err() ==> transcript_entries(*final(transcript)) == transcript_entries(
                *old(transcript),
            ),
            r.is_err() && verified.is_ok() ==> self.election.ctx.pk.fingerprints_stopped(
                dec_pub_fps@,
                dec_votes_fps@,
                transcript_entries(*old(transcript)),
                transcript_entries(*final(transcript)),
            ),
    {
        match self.pk().verify_fingerprints(verified, dec_pub_fps, dec_votes_fps, transcript) {
            Ok(()) => {},
            Err(e) => return Err(e),
        }
        let chosen = winners(valid_votes, dec_pub_fps, dec_votes_fps);
        let out = choices_at(valid_votes, &chosen);
        proof {
            assert(are_winners(valid_votes@, dec_pub_fps@, dec_votes_fps@, ints(chosen@)));
        }
        Ok(out)
    }

    /// Adds up encrypted choices.
    pub fn homomorphic_sum(&self, legitimate: &Vec<EncrChoice>) -> (r: EncrChoice)
        requires
            self.election.ctx.choice.wf(),
            forall|k: int|
                #![trigger legitimate@[k]]
                0 <= k < legitimate@.len() ==> EncrChoiceView::nothing(
                    self.election.ctx.choice,
                ).within(legitimate@[k]@),
        ensures
            r@ == sum_of(
                EncrChoiceView::nothing(self.election.ctx.choice),
                choice_views(legitimate@),
            ),
    {
        homomorphic_sum(self.choice_params(), legitimate)
    }

    /// Verifies a decrypted tally.
    pub fn verify_decrypted_tally(&self, enc_tally: &EncrChoice, decr: &DecryptedTally) -> (r: Result<
        (),
        Error,
    >)
        requires
            decr.shaped(enc_tally@),
        ensures
            match r {
                Ok(()) => decr.all_right(
                    self.election.ctx.pk.key(),
                    enc_tally@,
                    self.election.ctx.steps(TALLY@),
                ),
                Err(e) => exists|p: Place| #[trigger]
                    decr.stopped(
                        self.election.ctx.pk.key(),
                        enc_tally@,
                        self.election.ctx.steps(TALLY@),
                        p,
                        e,
                    ),
            },
    {
        proof {
            lemma_labels();
        }
        let mut tr = self.election.ctx.tr(TALLY);
        let params = self.pk().params;
        let ghost key = self.election.ctx.pk.key();
        let ghost start = self.election.ctx.steps(TALLY@);
        let r = decr.verify(&params.tally, &params.elgamal, enc_tally, &mut tr);
        proof {
            assert(params.tally.key(params.elgamal) == key);
            assert(r.is_ok() ==> decr.all_right(key, enc_tally@, start));
            assert(r matches Err(e) ==> exists|p: Place| #[trigger]
                decr.stopped(key, enc_tally@, start, p, e));
        }
        r
    }
}

/// Whether the shuffled credentials are the originals, rearranged by `perm` and
/// re-encrypted as `ext` tells.
pub open spec fn credentials_mixed(
    key: CtView,
    originals: Seq<ShortPublicACC>,
    shuffled: Seq<ShortPublicACC>,
    perm: Seq<usize>,
    ext: Seq<ExtendedShortPublicACC>,
) -> bool {
    &&& is_permutation(perm, originals.len() as int)
    &&& ext.len() == originals.len()
    &&& shuffled.len() == originals.len()
    &&& forall|k: int|
        #![trigger ext[k]]
        #![trigger shuffled[k]]
        0 <= k < ext.len() ==> re_encryption(ext[k].enc_A, originals[perm[k] as int].enc_A@, key)
            && shuffled[k].enc_A@ == ext[k].enc_A.inner@
}

/// The encrypted signatures of records.
pub open spec fn record_credentials(records: Seq<ValidVoteRecord>) -> Seq<CtView> {
    records.map_values(|r: ValidVoteRecord| r.vote.A_enc@)
}

/// The lists from which credential fingerprints are made.
pub open spec fn fingerprint_inputs(
    shuffled: Seq<ShortPublicACC>,
    records: Seq<ValidVoteRecord>,
) -> Seq<Seq<CtView>> {
    seq![
        credentials(shuffled, shuffled.len() as int),
        record_credentials(records),
    ]
}

/// Whether the vote at `i` is beaten by the vote at `k`: both have one
/// fingerprint, and the other has a greater number, or the same number and
/// comes first.
pub open spec fn beaten(records: Seq<ValidVoteRecord>, votes: Seq<DecOk>, i: int, k: int) -> bool {
    &&& votes[k].plaintext.log() == votes[i].plaintext.log()
    &&& records[k].receipt.seq_no > records[i].receipt.seq_no || (records[k].receipt.seq_no
        == records[i].receipt.seq_no && k < i)
}

/// Whether the vote at `i` is the last of a registered credential.
pub open spec fn wins(
    records: Seq<ValidVoteRecord>,
    registered: Seq<DecOk>,
    votes: Seq<DecOk>,
    i: int,
) -> bool {
    &&& 0 <= i < records.len()
    &&& among(registered, registered.len() as int, votes[i].plaintext.log())
    &&& forall|k: int| 0 <= k < records.len() ==> !(#[trigger] beaten(records, votes, i, k))
}

/// Whether `at` lists the last votes of registered credentials, each once, by
/// ascending number.
pub open spec fn are_winners(
    records: Seq<ValidVoteRecord>,
    registered: Seq<DecOk>,
    votes: Seq<DecOk>,
    at: Seq<int>,
) -> bool {
    &&& at.no_duplicates()
    &&& forall|i: int| #[trigger] at.contains(i) <==> wins(records, registered, votes, i)
    &&& forall|a: int, b: int|
        0 <= a < b < at.len() ==> (#[trigger] records[at[a]]).receipt.seq_no
            <= (#[trigger] records[at[b]]).receipt.seq_no
}

/// One vote per credential, and it is the last: two votes that are kept have
/// different fingerprints, and no vote of the same credential has a greater
/// number than the one that is kept.
pub proof fn law_last_vote_wins(
    records: Seq<ValidVoteRecord>,
    registered: Seq<DecOk>,
    votes: Seq<DecOk>,
    at: Seq<int>,
    i: int,
    k: int,
)
    requires
        votes.len() == records.len(),
        are_winners(records, registered, votes, at),
        at.contains(i),
        0 <= k < records.len(),
        votes[k].plaintext.log() == votes[i].plaintext.log(),
    ensures
        at.contains(k) ==> k == i,
        records[k].receipt.seq_no <= records[i].receipt.seq_no,
        among(registered, registered.len() as int, votes[i].plaintext.log()),
{
    assert(wins(records, registered, votes, i));
    assert(!beaten(records, votes, i, k));
    if at.contains(k) {
        assert(wins(records, registered, votes, k));
        assert(!beaten(records, votes, k, i));
    }
}

/// Every registered credential with a vote keeps one: where a vote has a
/// registered fingerprint, a vote with this fingerprint is kept.
pub proof fn law_registered_vote_counts(
    records: Seq<ValidVoteRecord>,
    registered: Seq<DecOk>,
    votes: Seq<DecOk>,
    at: Seq<int>,
    i: int,
) -> (k: int)
    requires
        votes.len() == records.len(),
        are_winners(records, registered, votes, at),
        0 <= i < records.len(),
        among(registered, registered.len() as int, votes[i].plaintext.log()),
    ensures
        at.contains(k),
        votes[k].plaintext.log() == votes[i].plaintext.log(),
{
    lemma_best(records, votes, i, records.len() as int)
}

/// The best vote among the first `n` with the fingerprint of the vote at `i`.
proof fn lemma_best(records: Seq<ValidVoteRecord>, votes: Seq<DecOk>, i: int, n: int) -> (k: int)
    requires
        votes.len() == records.len(),
        0 <= i < records.len(),
        0 <= n <= records.len(),
    ensures
        0 <= k < records.len(),
        votes[k].plaintext.log() == votes[i].plaintext.log(),
        k == i || k < n,
        forall|h: int| 0 <= h < n ==> !(#[trigger] beaten(records, votes, k, h)),
    decreases n,
{
    if n == 0 {
        i
    } else {
        let before = lemma_best(records, votes, i, n - 1);
        if beaten(records, votes, before, n - 1) {
            assert forall|h: int| 0 <= h < n implies !(#[trigger] beaten(
                records,
                votes,
                n - 1,
                h,
            )) by {
                if h < n - 1 {
                    assert(!beaten(records, votes, before, h));
                }
            }
            n - 1
        } else {
            before
        }
    }
}

/// The number, the fingerprint and the choice of each vote.
pub open spec fn cast_votes(records: Seq<ValidVoteRecord>, votes: Seq<DecOk>) -> Seq<
    (u64, int, EncrChoiceView),
> {
    Seq::new(
        records.len(),
        |i: int|
            (records[i].receipt.seq_no, votes[i].plaintext.log(), records[i].vote.choice@),
    )
}

/// Whether no two records have one number.
pub open spec fn numbers_differ(records: Seq<ValidVoteRecord>) -> bool {
    forall|i: int, k: int|
        0 <= i < k < records.len() ==> (#[trigger] records[i]).receipt.seq_no != (
        #[trigger] records[k]).receipt.seq_no
}

/// The registered fingerprints.
pub open spec fn fingerprint_set(registered: Seq<DecOk>) -> Set<int> {
    registered.map_values(|d: DecOk| d.plaintext.log()).to_set()
}

/// The choices that are kept do not depend on the order of the lists, and come
/// in one order: where the same votes were cast, with different numbers, and the
/// same credentials are registered, two runs keep the same choices.
pub proof fn law_order_does_not_matter(
    records: Seq<ValidVoteRecord>,
    registered: Seq<DecOk>,
    votes: Seq<DecOk>,
    at: Seq<int>,
    other_records: Seq<ValidVoteRecord>,
    other_registered: Seq<DecOk>,
    other_votes: Seq<DecOk>,
    other_at: Seq<int>,
)
    requires
        votes.len() == records.len(),
        are_winners(records, registered, votes, at),
        numbers_differ(records),
        other_votes.len() == other_records.len(),
        are_winners(other_records, other_registered, other_votes, other_at),
        numbers_differ(other_records),
        cast_votes(records, votes).to_set() == cast_votes(other_records, other_votes).to_set(),
        fingerprint_set(registered) == fingerprint_set(other_registered),
    ensures
        at.map_values(|i: int| records[i].vote.choice@) == other_at.map_values(
            |i: int| other_records[i].vote.choice@,
        ),
{
    let cast = cast_votes(records, votes);
    let other = cast_votes(other_records, other_votes);
    let kept = kept_votes(records, votes, at);
    let other_kept = kept_votes(other_records, other_votes, other_at);
    lemma_kept_ascend(records, registered, votes, at);
    lemma_kept_ascend(other_records, other_registered, other_votes, other_at);
    lemma_kept_there(
        records,
        registered,
        votes,
        at,
        other_records,
        other_registered,
        other_votes,
        other_at,
    );
    lemma_kept_there(
        other_records,
        other_registered,
        other_votes,
        other_at,
        records,
        registered,
        votes,
        at,
    );
    lemma_one_order(kept, other_kept);
    assert(kept.len() == at.len() && other_kept.len() == other_at.len());
    assert forall|h: int| 0 <= h < at.len() implies records[at[h]].vote.choice@
        == other_records[other_at[h]].vote.choice@ by {
        assert(at.contains(at[h]) && other_at.contains(other_at[h]));
        assert(kept[h] == cast[at[h]] && other_kept[h] == other[other_at[h]]);
    }
    assert(at.map_values(|i: int| records[i].vote.choice@) =~= other_at.map_values(
        |i: int| other_records[i].vote.choice@,
    ));
}

/// What is known of the votes that are kept.
spec fn kept_votes(records: Seq<ValidVoteRecord>, votes: Seq<DecOk>, at: Seq<int>) -> Seq<
    (u64, int, EncrChoiceView),
> {
    at.map_values(|i: int| cast_votes(records, votes)[i])
}

/// The votes that are kept come by ascending number.
proof fn lemma_kept_ascend(
    records: Seq<ValidVoteRecord>,
    registered: Seq<DecOk>,
    votes: Seq<DecOk>,
    at: Seq<int>,
)
    requires
        votes.len() == records.len(),
        are_winners(records, registered, votes, at),
        numbers_differ(records),
    ensures
        numbers_ascend(kept_votes(records, votes, at)),
{
    let cast = cast_votes(records, votes);
    let kept = kept_votes(records, votes, at);
    assert forall|a: int, b: int| 0 <= a < b < kept.len() implies (#[trigger] kept[a]).0 < (
    #[trigger] kept[b]).0 by {
        assert(at.contains(at[a]) && at.contains(at[b]));
        assert(wins(records, registered, votes, at[a]) && wins(records, registered, votes, at[b]));
        assert(at[a] != at[b]);
        assert(records[at[a]].receipt.seq_no <= records[at[b]].receipt.seq_no);
        if at[a] < at[b] {
            assert(records[at[a]].receipt.seq_no != records[at[b]].receipt.seq_no);
        } else {
            assert(records[at[b]].receipt.seq_no != records[at[a]].receipt.seq_no);
        }
    }
}

/// A vote that one run keeps is kept by the other.
proof fn lemma_kept_there(
    records: Seq<ValidVoteRecord>,
    registered: Seq<DecOk>,
    votes: Seq<DecOk>,
    at: Seq<int>,
    other_records: Seq<ValidVoteRecord>,
    other_registered: Seq<DecOk>,
    other_votes: Seq<DecOk>,
    other_at: Seq<int>,
)
    requires
        votes.len() == records.len(),
        are_winners(records, registered, votes, at),
        other_votes.len() == other_records.len(),
        are_winners(other_records, other_registered, other_votes, other_at),
        numbers_differ(other_records),
        cast_votes(records, votes).to_set() == cast_votes(other_records, other_votes).to_set(),
        fingerprint_set(registered) == fingerprint_set(other_registered),
    ensures
        forall|x: (u64, int, EncrChoiceView)|
            kept_votes(records, votes, at).contains(x) ==> #[trigger] kept_votes(
                other_records,
                other_votes,
                other_at,
            ).contains(x),
{
    let cast = cast_votes(records, votes);
    let other = cast_votes(other_records, other_votes);
    let kept = kept_votes(records, votes, at);
    let other_kept = kept_votes(other_records, other_votes, other_at);
    assert forall|x: (u64, int, EncrChoiceView)| kept.contains(x) implies #[trigger] other_kept.contains(
        x,
    ) by {
        let h = choose|h: int| 0 <= h < kept.len() && kept[h] == x;
        let i = at[h];
        assert(at.contains(i));
        assert(wins(records, registered, votes, i));
        assert(cast[i] == x && cast.contains(x));
        assert(cast.to_set().contains(x));
        assert(other.to_set().contains(x));
        let k = choose|k: int| 0 <= k < other.len() && other[k] == x;
        lemma_registered(registered, x.1);
        lemma_registered(other_registered, x.1);
        assert forall|g: int| 0 <= g < other_records.len() implies !(#[trigger] beaten(
            other_records,
            other_votes,
            k,
            g,
        )) by {
            if beaten(other_records, other_votes, k, g) {
                let y = other[g];
                assert(other.contains(y));
                assert(other.to_set().contains(y));
                assert(cast.to_set().contains(y));
                let f = choose|f: int| 0 <= f < cast.len() && cast[f] == y;
                if g < k {
                    assert(other_records[g].receipt.seq_no != other_records[k].receipt.seq_no);
                }
                assert(beaten(records, votes, i, f));
            }
        }
        assert(wins(other_records, other_registered, other_votes, k));
        assert(other_at.contains(k));
        let j = choose|j: int| 0 <= j < other_at.len() && other_at[j] == k;
        assert(other_kept[j] == x);
    }
}

/// A fingerprint is registered exactly if it is in the set.
proof fn lemma_registered(registered: Seq<DecOk>, x: int)
    ensures
        fingerprint_set(registered).contains(x) == among(registered, registered.len() as int, x),
{
    let logs = registered.map_values(|d: DecOk| d.plaintext.log());
    if logs.to_set().contains(x) {
        let k = choose|k: int| 0 <= k < logs.len() && logs[k] == x;
        assert(registered[k].plaintext.log() == x);
    }
    if among(registered, registered.len() as int, x) {
        let k = choose|k: int|
            0 <= k < registered.len() && (#[trigger] registered[k]).plaintext.log() == x;
        assert(logs[k] == x);
        assert(logs.contains(x));
    }
}

/// Whether the numbers ascend, each greater than the one before.
spec fn numbers_ascend(list: Seq<(u64, int, EncrChoiceView)>) -> bool {
    forall|a: int, b: int|
        0 <= a < b < list.len() ==> (#[trigger] list[a]).0 < (#[trigger] list[b]).0
}

/// Two lists by ascending number with the same entries are one list.
proof fn lemma_one_order(s: Seq<(u64, int, EncrChoiceView)>, t: Seq<(u64, int, EncrChoiceView)>)
    requires
        numbers_ascend(s),
        numbers_ascend(t),
        forall|x: (u64, int, EncrChoiceView)| s.contains(x) ==> #[trigger] t.contains(x),
        forall|x: (u64, int, EncrChoiceView)| t.contains(x) ==> #[trigger] s.contains(x),
    ensures
        s == t,
    decreases s.len(),
{
    if s.len() == 0 {
        if t.len() > 0 {
            assert(t.contains(t[0]));
            assert(s.contains(t[0]));
        }
        assert(s =~= t);
    } else {
        let a = s.last();
        assert(s.contains(a));
        assert(t.contains(a));
        let b = t.last();
        assert(t.contains(b));
        assert(s.contains(b));
        let ka = choose|k: int| 0 <= k < t.len() && t[k] == a;
        let kb = choose|k: int| 0 <= k < s.len() && s[k] == b;
        assert(ka == t.len() - 1);
        let s0 = s.drop_last();
        let t0 = t.drop_last();
        assert forall|x: (u64, int, EncrChoiceView)| s0.contains(x) implies #[trigger] t0.contains(
            x,
        ) by {
            let h = choose|h: int| 0 <= h < s0.len() && s0[h] == x;
            assert(s[h] == x);
            assert(s.contains(x));
            assert(t.contains(x));
            let k = choose|k: int| 0 <= k < t.len() && t[k] == x;
            assert(t0[k] == x);
        }
        assert forall|x: (u64, int, EncrChoiceView)| t0.contains(x) implies #[trigger] s0.contains(
            x,
        ) by {
            let h = choose|h: int| 0 <= h < t0.len() && t0[h] == x;
            assert(t[h] == x);
            assert(t.contains(x));
            assert(s.contains(x));
            let k = choose|k: int| 0 <= k < s.len() && s[k] == x;
            assert(s0[k] == x);
        }
        lemma_one_order(s0, t0);
        assert(s =~= s0.push(a));
        assert(t =~= t0.push(b));
    }
}

/// The numbers as integers.
pub open spec fn ints(list: Seq<usize>) -> Seq<int> {
    list.map_values(|i: usize| i as int)
}

/// Whether the vote at `i` is the last of a registered credential.
fn is_winner(
    records: &Vec<ValidVoteRecord>,
    registered: &Vec<DecOk>,
    votes: &Vec<DecOk>,
    i: usize,
) -> (r: bool)
    requires
        votes@.len() == records@.len(),
        i < records@.len(),
    ensures
        r == wins(records@, registered@, votes@, i as int),
{
    if !contains_plaintext(registered, registered.len(), &votes[i].plaintext) {
        return false;
    }
    let mut k: usize = 0;
    while k < records.len()
        invariant
            k <= records@.len(),
            votes@.len() == records@.len(),
            i < records@.len(),
            forall|h: int| 0 <= h < k ==> !(#[trigger] beaten(records@, votes@, i as int, h)),
        decreases records@.len() - k,
    {
        let mine = records[i].receipt.seq_no;
        let other = records[k].receipt.seq_no;
        if votes[k].plaintext.equals(&votes[i].plaintext) && (other > mine || (other == mine && k
            < i)) {
            proof {
                assert(beaten(records@, votes@, i as int, k as int));
            }
            return false;
        }
        k += 1;
    }
    true
}

/// The list with `i` inserted, in ascending order of numbers.
fn insert_by_number(list: &mut Vec<usize>, records: &Vec<ValidVoteRecord>, i: usize)
    requires
        i < records@.len(),
        ascending(records@, old(list)@),
        !old(list)@.contains(i),
        old(list)@.no_duplicates(),
        forall|k: int|
            #![trigger old(list)@[k]]
            0 <= k < old(list)@.len() ==> old(list)@[k] < records@.len(),
    ensures
        ascending(records@, final(list)@),
        final(list)@.no_duplicates(),
        forall|x: usize| #[trigger] final(list)@.contains(x) <==> old(list)@.contains(x) || x == i,
        forall|k: int|
            #![trigger final(list)@[k]]
            0 <= k < final(list)@.len() ==> final(list)@[k] < records@.len(),
{
    let ghost before = list@;
    let mine = records[i].receipt.seq_no;
    let mut k: usize = 0;
    while k < list.len() && records[list[k]].receipt.seq_no <= mine
        invariant
            k <= list@.len(),
            list@ == before,
            mine == records@[i as int].receipt.seq_no,
            forall|h: int|
                #![trigger before[h]]
                0 <= h < before.len() ==> before[h] < records@.len(),
            forall|h: int|
                #![trigger before[h]]
                0 <= h < k ==> records@[before[h] as int].receipt.seq_no <= mine,
        decreases list@.len() - k,
    {
        k += 1;
    }
    list.insert(k, i);
    proof {
        let after = list@;
        assert(after == before.insert(k as int, i));
        assert forall|h: int| 0 <= h < after.len() implies #[trigger] after[h] == if h < k {
            before[h]
        } else if h == k {
            i
        } else {
            before[h - 1]
        } by {}
        assert forall|a: int, b: int| 0 <= a < b < after.len() implies (#[trigger] records@[after[a] as int]).receipt.seq_no
            <= (#[trigger] records@[after[b] as int]).receipt.seq_no by {
            if b < k {
                assert(records@[before[a] as int].receipt.seq_no
                    <= records@[before[b] as int].receipt.seq_no);
            } else if b == k {
                assert(records@[before[a] as int].receipt.seq_no <= mine);
            } else if a < k {
                assert(records@[before[a] as int].receipt.seq_no
                    <= records@[before[b - 1] as int].receipt.seq_no);
            } else if a == k {
                assert(records@[before[k as int] as int].receipt.seq_no > mine);
                if b - 1 > k {
                    assert(records@[before[k as int] as int].receipt.seq_no
                        <= records@[before[b - 1] as int].receipt.seq_no);
                }
            } else {
                assert(records@[before[a - 1] as int].receipt.seq_no
                    <= records@[before[b - 1] as int].receipt.seq_no);
            }
        }
        assert forall|x: usize| #[trigger] after.contains(x) <==> before.contains(x) || x == i by {
            if before.contains(x) {
                let h = choose|h: int| 0 <= h < before.len() && before[h] == x;
                if h < k {
                    assert(after[h] == x);
                } else {
                    assert(after[h + 1] == x);
                }
            }
            if x == i {
                assert(after[k as int] == x);
            }
            if after.contains(x) {
                let h = choose|h: int| 0 <= h < after.len() && after[h] == x;
                if h < k {
                    assert(before[h] == x);
                } else if h > k {
                    assert(before[h - 1] == x);
                }
            }
        }
        assert forall|a: int, b: int|
            0 <= a < after.len() && 0 <= b < after.len() && a != b implies after[a] != after[b] by {
            let pa = if a < k {
                a
            } else {
                a - 1
            };
            let pb = if b < k {
                b
            } else {
                b - 1
            };
            if a == k {
                assert(before[pb] == after[b]);
                assert(before.contains(before[pb]));
            } else if b == k {
                assert(before[pa] == after[a]);
                assert(before.contains(before[pa]));
            } else {
                assert(before[pa] == after[a] && before[pb] == after[b]);
            }
        }
    }
}

/// The choices of the votes at the given positions.
fn choices_at(records: &Vec<ValidVoteRecord>, at: &Vec<usize>) -> (r: Vec<EncrChoice>)
    requires
        forall|h: int| #![trigger at@[h]] 0 <= h < at@.len() ==> at@[h] < records@.len(),
    ensures
        choice_views(r@) == ints(at@).map_values(|i: int| records@[i].vote.choice@),
{
    let mut out: Vec<EncrChoice> = Vec::new();
    let mut k: usize = 0;
    while k < at.len()
        invariant
            k <= at@.len(),
            forall|h: int| #![trigger at@[h]] 0 <= h < at@.len() ==> at@[h] < records@.len(),
            out@.len() == k,
            forall|h: int|
                #![trigger out@[h]]
                0 <= h < k ==> out@[h]@ == records@[at@[h] as int].vote.choice@,
        decreases at@.len() - k,
    {
        proof {
            assert(at@[k as int] < records@.len());
        }
        out.push(records[at[k]].vote.choice.clone());
        k += 1;
    }
    proof {
        assert(choice_views(out@) =~= ints(at@).map_values(|i: int| records@[i].vote.choice@));
    }
    out
}

/// Whether the list is in ascending order of numbers.
pub open spec fn ascending(records: Seq<ValidVoteRecord>, list: Seq<usize>) -> bool {
    forall|a: int, b: int|
        0 <= a < b < list.len() ==> (#[trigger] records[list[a] as int]).receipt.seq_no
            <= (#[trigger] records[list[b] as int]).receipt.seq_no
}

/// The last votes of registered credentials, by ascending number.
fn winners(records: &Vec<ValidVoteRecord>, registered: &Vec<DecOk>, votes: &Vec<DecOk>) -> (r: Vec<usize>)
    requires
        votes@.len() == records@.len(),
    ensures
        are_winners(records@, registered@, votes@, ints(r@)),
        forall|k: int| #![trigger r@[k]] 0 <= k < r@.len() ==> r@[k] < records@.len(),
{
    let mut out: Vec<usize> = Vec::new();
    let mut i: usize = 0;
    while i < records.len()
        invariant
            i <= records@.len(),
            votes@.len() == records@.len(),
            ascending(records@, out@),
            out@.no_duplicates(),
            forall|k: int| #![trigger out@[k]] 0 <= k < out@.len() ==> out@[k] < records@.len(),
            forall|x: usize|
                #[trigger] out@.contains(x) <==> x < i && wins(
                    records@,
                    registered@,
                    votes@,
                    x as int,
                ),
        decreases records@.len() - i,
    {
        if is_winner(records, registered, votes, i) {
            insert_by_number(&mut out, records, i);
        }
        i += 1;
    }
    proof {
        let at = ints(out@);
        assert forall|x: int| #[trigger] at.contains(x) <==> wins(records@, registered@, votes@, x) by {
            if at.contains(x) {
                let k = choose|k: int| 0 <= k < at.len() && at[k] == x;
                assert(out@.contains(out@[k]));
            }
            if wins(records@, registered@, votes@, x) {
                assert(out@.contains(x as usize));
                let k = choose|k: int| 0 <= k < out@.len() && out@[k] == x as usize;
                assert(at[k] == x);
            }
        }
        assert forall|a: int, b: int| 0 <= a < b < at.len() implies (#[trigger] records@[at[a]]).receipt.seq_no
            <= (#[trigger] records@[at[b]]).receipt.seq_no by {
            assert(records@[out@[a] as int].receipt.seq_no
                <= records@[out@[b] as int].receipt.seq_no);
        }
    }
    out
}

} // verus!
