//! What honest parties make has the shape that is asked for.

use merlin::Transcript;
use rand::rngs::StdRng;
use vstd::prelude::*;

use crate::api::client::{Ballot, BallotBuilder, Voter};
use crate::api::server::bb::VerifiedVoteRecord;
use crate::api::server::pipeline::{CredMixArtifact, PublicPipeline, VoteMixArtifact};
use crate::api::server::tt::TabulationTeller;
use crate::elgamal::{ct_rows, ct_views, Ciphertext, DlogTable};
use crate::error::{CryptoError, Error};
use crate::laws::ballots::{answers_bound_challenge, law_every_proof_is_checked};
use crate::laws::decryptions::{
    decryption_proved, law_decrypted_list, law_every_decryption_is_proved,
};
use crate::proofs::compound::{kinds, proof_kinds, proof_views, statement_views};
use crate::proofs::decryption::DecOk;
use crate::proofs::linkage::int_sum;
use crate::protocol::keys::ElectionPublicKey;
use crate::protocol::tally::DecryptedTally;
use crate::protocol::teller::TTSecretKey;
use crate::protocol::vote::auth::ShortPublicACC;
use crate::protocol::vote::auth_proof::{ProofAuthValues, ProofAuthValuesPublic};
use crate::protocol::vote::cai::{ProofCAI, ProofCAIPublic};
use crate::protocol::vote::choice::{Choice, ChoiceParameters, EncrChoice, ExtendedEncrChoice};
use crate::protocol::vote::choice_proof::{lemma_encodable, rows_bound};
use crate::protocol::vote::vote::VerVote;
use crate::transcript::{prelude, transcript_entries, Entry};

verus! {

/// What a mix of votes or of credentials gives is well formed.
pub proof fn law_call_mixes_are_formed(
    bb: PublicPipeline,
    votes: Vec<VerifiedVoteRecord>,
    vote_mix: VoteMixArtifact,
    votes_formed: bool,
    creds: Vec<ShortPublicACC>,
    cred_mix: CredMixArtifact,
    creds_formed: bool,
)
    requires
        exists|rng: &mut StdRng| #[trigger]
            call_ensures(PublicPipeline::mix_votes, (&bb, &votes, rng), vote_mix),
        call_ensures(PublicPipeline::is_vote_mix_formed, (&bb, &votes, &vote_mix), votes_formed),
        exists|rng: &mut StdRng| #[trigger]
            call_ensures(PublicPipeline::mix_credentials, (&bb, &creds, rng), cred_mix),
        call_ensures(PublicPipeline::is_cred_mix_formed, (&bb, &creds, &cred_mix), creds_formed),
    ensures
        votes_formed,
        creds_formed,
{
}

/// A decrypted tally has a count and a decryption at each place.
pub proof fn law_call_tally_is_shaped(
    tt: TabulationTeller,
    enc: EncrChoice,
    table: DlogTable,
    r: Result<DecryptedTally, Error>,
    shaped: bool,
)
    requires
        exists|rng: &mut StdRng| #[trigger]
            call_ensures(TabulationTeller::decrypt_tally, (&tt, &enc, &table, rng), r),
        r matches Ok(d) ==> call_ensures(DecryptedTally::is_shaped, (&d, &enc), shaped),
        r.is_ok(),
    ensures
        shaped,
{
}

/// A voter's ballot has the shape that belongs to the election.  A ballot for
/// another election is never found misshapen.
pub proof fn law_call_ballot_is_shaped(
    voter: Voter,
    builder: BallotBuilder,
    pin: usize,
    ballot: Ballot,
    shaped: bool,
    other: Ballot,
    other_shaped: bool,
)
    requires
        exists|rng: &mut StdRng| #[trigger]
            call_ensures(Voter::vote, (&voter, &builder, pin, rng), ballot),
        call_ensures(Ballot::is_shaped, (&ballot, &voter.parts().0), shaped),
        call_ensures(Ballot::is_shaped, (&other, &voter.parts().0), other_shaped),
    ensures
        shaped,
        other.election_ctx@ != voter.parts().0.context_hash@ ==> other_shaped,
{
}

/// A ballot of the right shape has all ciphertexts that the parameters ask for, and
/// a proof for each claim: two on the codes, four on the credential.
pub proof fn law_shape_of_a_ballot(
    ballot: VerVote,
    pk: ElectionPublicKey,
    params: ChoiceParameters,
    shaped: bool,
    i: int,
)
    requires
        call_ensures(VerVote::is_shaped, (&ballot, &pk, &params), shaped),
        shaped,
        0 <= i < params.n1,
    ensures
        params.wf(),
        ballot.choice@.l1.len() >= params.n1,
        ballot.choice@.l2.len() >= params.n1,
        ballot.choice@.l2[i].len() >= params.ln2@[i],
        ballot.proof.choice_proof.proofs@.len() == ballot.claims(pk, params).choice.len(),
        ballot.proof.cai_proof.proofs@.len() == 2,
        ballot.proof.auth_proof.proofs@.len() == 4,
{
    let claims = ballot.claims(pk, params);
    let p = ballot.proof;
    assert(kinds(claims.choice).len() == claims.choice.len());
    assert(kinds(claims.cai).len() == claims.cai.len());
    assert(kinds(claims.auth).len() == claims.auth.len());
    assert(proof_kinds(p.choice_proof.proofs@).len() == p.choice_proof.proofs@.len());
    assert(proof_kinds(p.cai_proof.proofs@).len() == p.cai_proof.proofs@.len());
    assert(proof_kinds(p.auth_proof.proofs@).len() == p.auth_proof.proofs@.len());
}

/// The numbers of candidates.
pub open spec fn candidates(ln2: Seq<usize>) -> Seq<int> {
    ln2.map_values(|n: usize| n as int)
}

proof fn lemma_rows(ln2: Seq<usize>)
    ensures
        rows_bound(ln2) == 9 * ln2.len() + 144 * int_sum(candidates(ln2)),
    decreases ln2.len(),
{
    if ln2.len() > 0 {
        lemma_rows(ln2.drop_last());
        assert(candidates(ln2).drop_last() =~= candidates(ln2.drop_last()));
    }
}

/// An election with up to a million parties and ten million candidates can be held:
/// its parameters are encodable.
pub proof fn law_call_ordinary_sizes(params: ChoiceParameters, wf: bool, encodable: bool)
    requires
        call_ensures(ChoiceParameters::is_well_formed, (&params,), wf),
        call_ensures(ChoiceParameters::is_encodable, (&params,), encodable),
        params.n1 <= 1_000_000,
        params.ln2@.len() == params.n1,
        int_sum(candidates(params.ln2@)) <= 10_000_000,
    ensures
        encodable,
        wf <==> !params.ln2@.contains(0usize),
{
    lemma_rows(params.ln2@);
    if wf {
        assert(!params.ln2@.contains(0usize));
    } else {
        let i = choose|i: int| 0 <= i < params.ln2@.len() && params.ln2@[i] == 0;
        assert(params.ln2@.contains(params.ln2@[i]));
    }
}

/// An encrypted choice covers the parameters that it was made for, has a first
/// candidate for each party, and is encodable where they are.
pub proof fn law_call_choice_is_covering(
    choice: Choice,
    params: ChoiceParameters,
    pk: ElectionPublicKey,
    ext: ExtendedEncrChoice,
    enc: EncrChoice,
    covering: bool,
    firsts: bool,
    encodable: bool,
)
    requires
        params.wf(),
        params.encodable(),
        choice.marks(params),
        exists|rng: &mut StdRng| #[trigger]
            call_ensures(ExtendedEncrChoice::new, (&choice, &pk, rng), ext),
        call_ensures(ExtendedEncrChoice::to_encryption, (&ext,), enc),
        call_ensures(EncrChoice::is_covering, (&enc, &params), covering),
        call_ensures(EncrChoice::has_first_entries, (&enc,), firsts),
        call_ensures(EncrChoice::is_encodable, (&enc,), encodable),
    ensures
        covering,
        firsts,
        encodable,
{
    let v = enc@;
    assert(v == ext.inner());
    assert(v.l1.len() == params.n1);
    assert(v.l2.len() == params.n1);
    assert forall|i: int| #![trigger v.l2[i]] 0 <= i < params.n1 implies v.l2[i].len()
        == params.ln2@[i] by {
        assert(ext.l2@[i]@.len() == choice.l2@[i]@.len());
    }
    lemma_encodable(v, params);
}

/// Proofs on the codes and on the credential are accepted only if each claim is
/// proved.
pub proof fn law_call_verify_parts(
    codes: ProofCAI,
    codes_public: ProofCAIPublic,
    codes_seen: Result<(), CryptoError>,
    auth: ProofAuthValues,
    auth_public: ProofAuthValuesPublic,
    auth_seen: Result<(), CryptoError>,
    k: int,
)
    requires
        call_ensures(ProofCAI::verify, (&codes, &codes_public), codes_seen),
        call_ensures(ProofAuthValues::verify, (&auth, &auth_public), auth_seen),
        codes_seen.is_ok(),
        auth_seen.is_ok(),
        codes.proofs@.len() == codes_public.statements@.len(),
        auth.proofs@.len() == auth_public.statements@.len(),
    ensures
        0 <= k < codes_public.statements@.len() ==> answers_bound_challenge(
            codes_public.statements@[k]@,
            codes.proofs@[k]@,
            prelude("cai"@),
            proof_views(codes.proofs@),
            seq![],
            seq![],
        ),
        0 <= k < auth_public.statements@.len() ==> answers_bound_challenge(
            auth_public.statements@[k]@,
            auth.proofs@[k]@,
            prelude("auth-values"@),
            proof_views(auth.proofs@),
            seq![],
            seq![],
        ),
{
    let (a, p) = (statement_views(codes_public.statements@), proof_views(codes.proofs@));
    let (b, q) = (statement_views(auth_public.statements@), proof_views(auth.proofs@));
    assert(a.len() == codes_public.statements@.len() && p.len() == codes.proofs@.len());
    assert(b.len() == auth_public.statements@.len() && q.len() == auth.proofs@.len());
    if 0 <= k < a.len() {
        law_every_proof_is_checked(a, p, prelude("cai"@), k);
        assert(a[k] == codes_public.statements@[k]@ && p[k] == codes.proofs@[k]@);
    }
    if 0 <= k < b.len() {
        law_every_proof_is_checked(b, q, prelude("auth-values"@), k);
        assert(b[k] == auth_public.statements@[k]@ && q[k] == auth.proofs@[k]@);
    }
}

/// The fingerprints of ballots are made from the ciphertexts of their credentials,
/// and what a teller decrypts of them is what they decrypt to, with proofs.
pub proof fn law_call_ballot_fingerprints(
    ballots: Vec<VerVote>,
    inputs: Vec<Ciphertext>,
    sk: TTSecretKey,
    pk: ElectionPublicKey,
    lists: Vec<Vec<Ciphertext>>,
    verified: Result<(), CryptoError>,
    start: Seq<Entry>,
    r: Result<Vec<DecOk>, Error>,
    i: int,
)
    requires
        call_ensures(ElectionPublicKey::ballot_fingerprint_inputs, (&ballots,), inputs),
        exists|tr: &mut Transcript, rng: &mut StdRng|
            transcript_entries(*tr) == start && #[trigger] call_ensures(
                TTSecretKey::decrypt_ballot_fingerprints,
                (&sk, &pk, &lists, verified, tr, rng),
                r,
            ),
        lists@.len() >= 1,
    ensures
        inputs@.len() == ballots@.len(),
        0 <= i < ballots@.len() ==> inputs@[i]@ == ballots@[i].auth.ox_enc@,
        r.is_ok() <==> verified.is_ok(),
        r matches Ok(list) ==> list@.len() == lists@[0]@.len(),
        r matches Ok(list) ==> 0 <= i < list@.len() ==> {
            &&& list@[i].ciphertext@ == lists@[0]@[i]@
            &&& list@[i].plaintext.log() == crate::elgamal::ct_decrypt(
                sk.meg_sk.x1@,
                sk.meg_sk.x2@,
                lists@[0]@[i]@,
            )
            &&& decryption_proved(sk.key(pk), list@[i], start)
        },
        verified matches Err(e) ==> r == Err::<Vec<DecOk>, Error>(Error::FailedVerification(e)),
{
    assert(ct_views(inputs@).len() == inputs@.len());
    if 0 <= i < ballots@.len() {
        crate::laws::refusals::law_ballot_fingerprint_inputs(ballots@, i);
        assert(ct_views(inputs@)[i] == inputs@[i]@);
    }
    if r is Ok {
        let list = r->Ok_0@;
        let cts = ct_rows(lists@)[0];
        assert(cts == ct_views(lists@[0]@));
        assert(cts.len() == lists@[0]@.len());
        if 0 <= i < list.len() {
            law_decrypted_list(list, sk.meg_sk, cts, i);
            assert(cts[i] == lists@[0]@[i]@);
            law_every_decryption_is_proved(list, sk.key(pk), start, list.len() as int, i);
        }
    }
}

} // verus!
