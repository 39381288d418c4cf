//! What the operations give, stated of their calls.

use vstd::prelude::*;
use vstd::utf8::encode_utf8;

use crate::api::client::Ballot;
use crate::api::server::bb::{BallotRecord, ValidVoteRecord, VerifiedVoteRecord};
use crate::api::server::context::ElectionContext;
use crate::api::server::pipeline::{CredMixArtifact, PublicPipeline, VoteMixArtifact};
use crate::arith::{lemma_order, lemma_red_add, lemma_red_small, lemma_red_sub, order, red};
use crate::elgamal::{
    ct_decrypt, ct_encoding, ct_encrypt, ct_rows, ct_views, dlog_table_values, law_decrypt_encrypt,
    Ciphertext, CtView, DlogTable, ElGamalParams, PublicKey, SecretKey,
};
use crate::encoding::shake128;
use crate::error::{CryptoError, Error};
use crate::group::{le_value, point_encoding, Scalar};
use crate::laws::ballots::{
    answers_bound_challenge, held, key_held, law_accepted_ballot, law_accepted_designated_proof,
    law_accepted_public_credential, law_every_proof_is_checked,
};
use crate::laws::credentials::{
    law_choice_marks, law_opened_value_is_encrypted, law_parameters, law_pin_is_a_remainder,
    mask_number,
};
use crate::laws::decryptions::{
    decrypted_candidate, decrypted_party, decryption_proved, law_every_decryption_is_proved,
    law_sum_decrypts, law_verified_tally,
};
use crate::laws::filters::{
    law_accepted_control, law_checked_votes, law_control_multiple_is_bound,
    law_neutral_checks_stay,
};
use crate::laws::mixes::{
    begins, candidate_cts, candidates_before, column_linked, law_accepted_credential_mix,
    law_accepted_vote_mix, law_mixed_credentials_cannot_be_exchanged,
    law_mixed_votes_cannot_be_exchanged, party_cts, votes_agree_at, votes_agree_but,
};
use crate::proofs::compound::{kinds, proof_kinds, proof_views, statement_views};
use crate::proofs::decryption::DecOk;
use crate::proofs::designated::{DvProof, DvPublic, DvView};
use crate::proofs::linkage::int_sum;
use crate::proofs::relation::{objection, Kind, RelationView, StatementView};
use crate::proofs::shuffle::{shuffle_challenges, shuffle_commit_steps, shuffle_verdict};
use crate::protocol::filter::{choice_views, neutral_positions};
use crate::protocol::keys::{ElectionPublicKey, VoterPublicKey, VoterSecretKey};
use crate::protocol::tally::{
    ControlView, CredentialControlProof, CredentialControlPublicBorrowed, DecryptedTally,
};
use crate::protocol::vote::auth::{
    law_masked_pin, MaskedPIN, PublicACC, ShortPublicACC, VotingCredential, PIN,
};
use crate::protocol::vote::auth_proof::{auth_claims, ProofAuthValuesPublic};
use crate::protocol::vote::cai::{
    cai_claims, DiscloseCAI, EncrValuesCAI, ExtendedEncrValuesCAI, ProofCAIPublic, RevealedCAI,
    ValuesCAI,
};
use crate::protocol::vote::choice::{Choice, ChoiceParameters, EncrChoice, EncrChoiceView};
use crate::protocol::vote::choice_proof::{choice_claims, ProofEncrChoice, ProofEncrChoicePublic};
use crate::protocol::vote::vote::Vote;
use crate::transcript::Entry;

verus! {

/// A PIN is the remainder of the number of the last eight bytes of its mask by one
/// hundred thousand; taken out of the mask and put back, it restores it.
pub proof fn law_call_pin(pin: PIN, value: usize, bytes: Seq<u8>, partial: Scalar) -> (q: int)
    requires
        call_ensures(PIN::get_pin_value, (&pin,), value),
        call_ensures(PIN::get_partial_mask, (&pin,), partial),
        bytes.len() == 32,
        le_value(bytes) == pin.mask@,
    ensures
        mask_number(bytes) == q * 100_000 + value,
        0 <= value < 100_000,
        red(partial@ + value) == pin.mask@,
{
    let q = law_pin_is_a_remainder(pin.mask, bytes);
    lemma_red_add(pin.mask@ - value, value as int);
    pin.mask.lemma_bounds();
    lemma_red_small(pin.mask@);
    q
}

/// The PIN opens what was masked, and no other number does.
pub proof fn law_call_masked_pin(
    pin: PIN,
    value: usize,
    masked: MaskedPIN,
    guess: usize,
    opened: PIN,
)
    requires
        call_ensures(PIN::get_pin_value, (&pin,), value),
        call_ensures(PIN::to_masked, (&pin,), masked),
        call_ensures(MaskedPIN::to_pin, (&masked, guess), opened),
    ensures
        opened.x@ == red(pin.x@ + value - guess),
        guess == value ==> opened.x@ == pin.x@ && opened.mask@ == pin.mask@,
        opened.x@ == pin.x@ ==> guess == value,
{
    law_masked_pin(pin, masked, guess as int);
    if opened.x@ == pin.x@ {
        lemma_order();
        let d = value - guess;
        pin.x.lemma_bounds();
        lemma_red_small(pin.x@);
        lemma_red_sub(pin.x@ + d, pin.x@);
        lemma_red_small(0);
        if d >= 0 {
            lemma_red_small(d);
        } else {
            lemma_red_sub(0, d);
            lemma_red_small(-d);
        }
    }
}

/// A verified vote mix binds every column.
pub proof fn law_call_verify_vote_mix(
    bb: PublicPipeline,
    originals: Vec<VerifiedVoteRecord>,
    art: VoteMixArtifact,
    r: Result<(), Error>,
    i: int,
    j: int,
) -> (entries: Seq<Entry>)
    requires
        bb.vote_mix_formed(originals@, art),
        call_ensures(PublicPipeline::verify_vote_mix, (&bb, &originals, &art), r),
        r.is_ok(),
        0 <= i < bb.election.ctx.choice.n1,
        0 <= j < bb.election.ctx.choice.ln2@[i],
    ensures
        ({
            let key = bb.election.ctx.pk.key();
            let m = art.proof;
            let n = originals@.len() as int;
            let (old, new) = (originals@, art.shuffled@);
            let f = m.core_proof.f();
            let parts = m.core_proof.parts();
            let t = shuffle_challenges(entries + shuffle_commit_steps(parts), n);
            let slot = candidates_before(bb.election.ctx.choice.ln2@, i) + j;
            &&& begins(entries, "mix-votes"@, bb.election.ctx.context_hash@)
            &&& shuffle_verdict(art.pedersen.logs(), parts, entries) == 0
            &&& f.len() == n
            &&& column_linked(
                key,
                m.ed_L1@[i]@,
                m.z_L1@[i]@,
                t,
                f,
                party_cts(old, i, n),
                party_cts(new, i, n),
            )
            &&& column_linked(
                key,
                m.ed_L2@[i]@[j]@,
                m.z_L2@[slot]@,
                t,
                f,
                candidate_cts(old, i, j, n),
                candidate_cts(new, i, j, n),
            )
            &&& column_linked(
                key,
                m.ed_A@,
                m.z_A@,
                t,
                f,
                Seq::new(n as nat, |k: int| old[k].vote.auth.A_enc@),
                Seq::new(n as nat, |k: int| new[k].vote.auth.A_enc@),
            )
            &&& column_linked(
                key,
                m.ed_Ar@,
                m.z_Ar@,
                t,
                f,
                Seq::new(n as nat, |k: int| old[k].vote.auth.Ar_enc@),
                Seq::new(n as nat, |k: int| new[k].vote.auth.Ar_enc@),
            )
            &&& column_linked(
                key,
                m.ed_g3x@,
                m.z_g3x@,
                t,
                f,
                Seq::new(n as nat, |k: int| old[k].vote.auth.g3x_enc@),
                Seq::new(n as nat, |k: int| new[k].vote.auth.g3x_enc@),
            )
        }),
{
    law_accepted_vote_mix(bb, originals@, art, i, j)
}

/// Of two mixes with one proof that differ in one vote, at most one is verified,
/// where that vote's coefficient has an inverse.
pub proof fn law_call_verify_vote_mix_twice(
    bb: PublicPipeline,
    originals: Vec<VerifiedVoteRecord>,
    art: VoteMixArtifact,
    other: VoteMixArtifact,
    r: Result<(), Error>,
    s: Result<(), Error>,
    k: int,
    i: int,
    j: int,
)
    requires
        bb.vote_mix_formed(originals@, art),
        call_ensures(PublicPipeline::verify_vote_mix, (&bb, &originals, &art), r),
        bb.vote_mix_formed(originals@, other),
        call_ensures(PublicPipeline::verify_vote_mix, (&bb, &originals, &other), s),
        r.is_ok(),
        s.is_ok(),
        art.proof == other.proof,
        0 <= k < originals@.len(),
        votes_agree_but(art.shuffled@, other.shuffled@, k),
        crate::arith::has_inverse(art.proof.core_proof.f()[k]),
        0 <= i < bb.election.ctx.choice.n1,
        0 <= j < bb.election.ctx.choice.ln2@[i],
    ensures
        votes_agree_at(art.shuffled@[k], other.shuffled@[k], i, j),
{
    law_mixed_votes_cannot_be_exchanged(bb, originals@, art, other, k, i, j);
}

/// A verified credential mix binds the credentials.
pub proof fn law_call_verify_cred_mix(
    bb: PublicPipeline,
    originals: Vec<ShortPublicACC>,
    art: CredMixArtifact,
    r: Result<(), Error>,
) -> (entries: Seq<Entry>)
    requires
        call_ensures(PublicPipeline::verify_cred_mix, (&bb, &originals, &art), r),
        r.is_ok(),
    ensures
        ({
            let m = art.proof;
            let n = originals@.len() as int;
            let parts = m.core_proof.parts();
            &&& begins(entries, "mix-creds"@, bb.election.ctx.context_hash@)
            &&& held(entries, ct_encoding(m.e_d@))
            &&& shuffle_verdict(art.pedersen.logs(), parts, entries) == 0
            &&& m.core_proof.f().len() == art.pedersen.list_len
            &&& column_linked(
                bb.election.ctx.pk.key(),
                m.e_d@,
                m.z@,
                shuffle_challenges(entries + shuffle_commit_steps(parts), n),
                m.core_proof.f(),
                Seq::new(n as nat, |k: int| originals@[k].enc_A@),
                Seq::new(n as nat, |k: int| art.shuffled@[k].enc_A@),
            )
        }),
{
    law_accepted_credential_mix(bb, originals@, art)
}

/// Of two credential mixes with one proof that differ in one credential, at most
/// one is verified, where its coefficient has an inverse.
pub proof fn law_call_verify_cred_mix_twice(
    bb: PublicPipeline,
    originals: Vec<ShortPublicACC>,
    art: CredMixArtifact,
    other: CredMixArtifact,
    r: Result<(), Error>,
    s: Result<(), Error>,
    k: int,
)
    requires
        call_ensures(PublicPipeline::verify_cred_mix, (&bb, &originals, &art), r),
        call_ensures(PublicPipeline::verify_cred_mix, (&bb, &originals, &other), s),
        r.is_ok(),
        s.is_ok(),
        art.proof == other.proof,
        0 <= k < originals@.len(),
        forall|h: int|
            #![trigger art.shuffled@[h]]
            0 <= h < originals@.len() && h != k ==> art.shuffled@[h].enc_A@
                == other.shuffled@[h].enc_A@,
        crate::arith::has_inverse(art.proof.core_proof.f()[k]),
    ensures
        art.shuffled@[k].enc_A@ == other.shuffled@[k].enc_A@,
{
    law_mixed_credentials_cannot_be_exchanged(bb, originals@, art, other, k);
}

/// A verified tally is the decryption of the encrypted one at every place.
pub proof fn law_call_verify_decrypted_tally(
    bb: PublicPipeline,
    enc: EncrChoice,
    tally: DecryptedTally,
    r: Result<(), Error>,
    i: int,
    j: int,
)
    requires
        call_ensures(PublicPipeline::verify_decrypted_tally, (&bb, &enc, &tally), r),
        r.is_ok(),
        0 <= i < enc.l1@.len(),
        enc.l1@.len() <= enc.l2@.len(),
    ensures
        tally.l1_d@[i].ciphertext@ == enc.l1@[i]@,
        decryption_proved(
            bb.election.ctx.pk.key(),
            tally.l1_d@[i],
            bb.election.ctx.steps("tally"@),
        ),
        tally.tally.l1@[i] == tally.l1_d@[i].plaintext.log(),
        0 <= j < enc.l2@[i]@.len() ==> {
            &&& tally.l2_d@[i]@[j].ciphertext@ == enc.l2@[i]@[j]@
            &&& decryption_proved(
                bb.election.ctx.pk.key(),
                tally.l2_d@[i]@[j],
                bb.election.ctx.steps("tally"@),
            )
            &&& tally.tally.l2@[i]@[j] == tally.l2_d@[i]@[j].plaintext.log()
        },
{
    assert(enc@.l1.len() == enc.l1@.len());
    assert(enc@.l1[i] == enc.l1@[i]@);
    assert(enc@.l2[i] == ct_views(enc.l2@[i]@));
    law_verified_tally(
        tally,
        bb.election.ctx.pk.key(),
        enc@,
        bb.election.ctx.steps("tally"@),
        i,
        j,
    );
}

/// Verified ballots are for this election, their proofs are accepted, and their
/// votes are taken over with their receipts, ballot by ballot.
pub proof fn law_call_verify_ballots(
    bb: PublicPipeline,
    ballots: Vec<BallotRecord>,
    r: Result<Vec<VerifiedVoteRecord>, Error>,
    i: int,
    k: int,
) -> (start: Seq<Entry>)
    requires
        ballots@[i].ballot.shaped(bb.election.ctx),
        call_ensures(PublicPipeline::verify_ballots, (&bb, &ballots), r),
        r.is_ok(),
        0 <= i < ballots@.len(),
    ensures
        r->Ok_0@.len() == ballots@.len(),
        ({
            let ctx = bb.election.ctx;
            let ballot = ballots@[i].ballot;
            let vote = ballot.ver_vote;
            let out = r->Ok_0@[i];
            let p = vote.proof.views();
            let key = ctx.pk.key();
            let choice = choice_claims(key, vote.choice@, ctx.choice.ln2@, ctx.choice.n1 as int);
            let cai = cai_claims(key, vote.cai, vote.choice@);
            let auth = auth_claims(ctx.pk, vote.auth);
            &&& ballot.election_ctx@ == ctx.context_hash@
            &&& out.receipt == ballots@[i].receipt
            &&& out.vote.choice@ == vote.choice@
            &&& out.vote.auth.A_enc@ == vote.auth.A_enc@
            &&& out.vote.auth.Ar_enc@ == vote.auth.Ar_enc@
            &&& out.vote.auth.g3x_enc@ == vote.auth.g3x_enc@
            &&& key_held(start, ctx.pk)
            &&& held(start, vote.choice@.encoding())
            &&& held(start, ctx.choice.encoding())
            &&& 0 <= k < choice.len() ==> answers_bound_challenge(
                choice[k],
                p.choice[k],
                start,
                p.choice,
                p.cai,
                p.auth,
            )
            &&& 0 <= k < cai.len() ==> answers_bound_challenge(
                cai[k],
                p.cai[k],
                start,
                p.choice,
                p.cai,
                p.auth,
            )
            &&& 0 <= k < auth.len() ==> answers_bound_challenge(
                auth[k],
                p.auth[k],
                start,
                p.choice,
                p.cai,
                p.auth,
            )
        }),
{
    let out = r->Ok_0@[i];
    assert(ballots@[i].ballot.accepted(bb.election.ctx));
    assert(out.vote@ == ballots@[i].ballot.ver_vote.vote());
    law_accepted_ballot(ballots@[i].ballot, bb.election.ctx, k)
}

/// A verified ballot is for this election, and gives its own vote; one for another
/// election is refused.
pub proof fn law_call_verify_ballot(
    ballot: Ballot,
    ctx: ElectionContext,
    r: Result<Vote, Error>,
)
    requires
        call_ensures(Ballot::verify, (&ballot, &ctx), r),
    ensures
        ballot.election_ctx@ != ctx.context_hash@ ==> r.is_err(),
        r.is_ok() ==> {
            &&& ballot.election_ctx@ == ctx.context_hash@
            &&& ballot.ver_vote.verdict(ctx.pk, ctx.choice).is_ok()
            &&& r->Ok_0.choice@ == ballot.ver_vote.choice@
            &&& r->Ok_0.auth.A_enc@ == ballot.ver_vote.auth.A_enc@
            &&& r->Ok_0.auth.Ar_enc@ == ballot.ver_vote.auth.Ar_enc@
            &&& r->Ok_0.auth.g3x_enc@ == ballot.ver_vote.auth.g3x_enc@
        },
        ballot.election_ctx@ == ctx.context_hash@ && ballot.ver_vote.verdict(
            ctx.pk,
            ctx.choice,
        ).is_ok() ==> r.is_ok(),
{
    if r.is_ok() {
        assert(r->Ok_0@ == ballot.ver_vote.vote());
    }
}

/// A proof on an encrypted choice is accepted only if each claim on it is proved.
pub proof fn law_call_verify_choice(
    proof_: ProofEncrChoice,
    public: ProofEncrChoicePublic<'_>,
    r: Result<(), CryptoError>,
    k: int,
) -> (start: Seq<Entry>)
    requires
        public.wf(),
        proof_.fits(public),
        call_ensures(ProofEncrChoice::verify, (&proof_, &public), r),
        r.is_ok(),
    ensures
        held(start, public.enc_choice@.encoding()),
        held(start, public.choice_params.encoding()),
        ({
            let claims = choice_claims(
                public.election_pk.key(),
                public.enc_choice@,
                public.choice_params.ln2@,
                public.choice_params.n1 as int,
            );
            let p = proof_views(proof_.proofs@);
            &&& p.len() == claims.len()
            &&& 0 <= k < claims.len() ==> answers_bound_challenge(
                claims[k],
                p[k],
                start,
                p,
                seq![],
                seq![],
            )
        }),
{
    let start = crate::transcript::prelude("PROOF"@) + public.steps();
    let claims = public.claims();
    let p = proof_views(proof_.proofs@);
    assert(kinds(claims).len() == claims.len());
    assert(proof_kinds(proof_.proofs@).len() == proof_.proofs@.len());
    assert(p.len() == claims.len());
    assert(start[8].1 == public.enc_choice@.encoding());
    assert(start[9].1 == public.choice_params.encoding());
    if 0 <= k < claims.len() {
        law_every_proof_is_checked(claims, p, start, k);
    }
    start
}

/// The claims that are made of codes and credentials are those on them.
pub proof fn law_call_claims(
    pk: ElectionPublicKey,
    cai: EncrValuesCAI,
    choice: EncrChoice,
    auth: crate::protocol::vote::auth_proof::EncrAuthValues,
    codes: ProofCAIPublic,
    credential: ProofAuthValuesPublic,
)
    requires
        call_ensures(ProofCAIPublic::new, (&pk, &cai, &choice), codes),
        call_ensures(ProofAuthValuesPublic::new, (&auth, &pk), credential),
    ensures
        statement_views(codes.statements@) == cai_claims(pk.key(), cai, choice@),
        statement_views(credential.statements@) == auth_claims(pk, auth),
        codes.statements@.len() == 2,
        credential.statements@.len() == 4,
{
    assert(statement_views(codes.statements@).len() == codes.statements@.len());
    assert(statement_views(credential.statements@).len() == credential.statements@.len());
}

/// A designated proof is accepted only if both challenges add up to one that is
/// bound to statement and commitments, and all three equations hold.
pub proof fn law_call_verify_designated(p: DvProof, public: DvPublic, r: Result<(), CryptoError>) -> (entries:
    Seq<Entry>)
    requires
        call_ensures(DvProof::verify, (&p, &public), r),
        r.is_ok(),
    ensures
        red(p.c0@ + p.c1@) == red(crate::transcript::challenge_value(entries, "c"@)),
        held(entries, point_encoding(public.base0.log())),
        held(entries, point_encoding(public.pv.log())),
        held(entries, point_encoding(public.b1a.log())),
        held(entries, point_encoding(public.b1b.log())),
        held(entries, point_encoding(public.p1a.log())),
        held(entries, point_encoding(public.p1b.log())),
        held(entries, point_encoding(p.i0.log())),
        held(entries, point_encoding(p.i1a.log())),
        held(entries, point_encoding(p.i1b.log())),
        red(public.base0.log() * p.z0@) == red(p.i0.log() + public.pv.log() * p.c0@),
        red(public.b1a.log() * p.z1@) == red(p.i1a.log() + public.p1a.log() * p.c1@),
        red(public.b1b.log() * p.z1@) == red(p.i1b.log() + public.p1b.log() * p.c1@),
{
    law_accepted_designated_proof(public@, p)
}

/// A voter accepts a PIN only if the credential is proved, to the voter's key, for
/// the secret that the PIN opens.
pub proof fn law_call_verify_pin(
    credential: VotingCredential,
    pk: ElectionPublicKey,
    pin: usize,
    dv_pk: VoterPublicKey,
    r: Result<(), Error>,
)
    requires
        call_ensures(VotingCredential::verify_pin, (&credential, &pk, pin, &dv_pk), r),
    ensures
        ({
            let masked = credential.masked_pin;
            let a = credential.sign.A.log();
            let x = red(masked.masked_x@ - red(masked.partial_mask@ + pin));
            let message = red(pk.params.elgamal.g1.log() + pk.params.g3.log() * x);
            let statement = DvView {
                base0: pk.params.elgamal.g2.log(),
                pv: dv_pk.pk.log(),
                b1a: a,
                b1b: pk.params.g3.log(),
                p1a: red(message - a * credential.sign.r@),
                p1b: pk.registration_pk.log(),
            };
            &&& r.is_ok() <==> statement.objection(credential.dvnizkp) is None
            &&& r matches Err(e) ==> e == Error::FailedVerification(
                statement.objection(credential.dvnizkp)->0,
            )
        }),
{
}

/// A public credential is accepted only if it is proved that its ciphertext encrypts
/// the signature's point, and gives that ciphertext.
pub proof fn law_call_verify_public_credential(
    acc: PublicACC,
    pk: ElectionPublicKey,
    r: Result<ShortPublicACC, CryptoError>,
) -> (entries: Seq<Entry>)
    requires
        acc.proof.kind() == Kind::Zero,
        call_ensures(PublicACC::verify, (&acc, &pk), r),
        r.is_ok(),
    ensures
        r->Ok_0.enc_A@ == acc.enc_sign.enc_A@,
        ({
            let ct = CtView {
                r1: acc.enc_sign.enc_A@.r1,
                r2: acc.enc_sign.enc_A@.r2,
                b: red(acc.enc_sign.enc_A@.b - acc.sign.A.log()),
            };
            &&& held(entries, ct_encoding(ct))
            &&& held(entries, point_encoding(pk.params.tally.h.log()))
            &&& held(entries, point_encoding(pk.params.elgamal.g1.log()))
            &&& held(entries, point_encoding(pk.params.elgamal.g2.log()))
            &&& objection(
                StatementView { key: pk.key(), relation: RelationView::Zero { ct } },
                acc.proof@,
                seq![crate::transcript::challenge_value(entries, "c"@)],
            ) is None
        }),
{
    law_accepted_public_credential(acc, pk)
}

/// A control is accepted only if both equations hold, for a challenge that is
/// bound to keys, vote and commitments.
pub proof fn law_call_verify_control(
    p: CredentialControlProof,
    public: CredentialControlPublicBorrowed<'_>,
    r: Result<(), CryptoError>,
) -> (entries: Seq<Entry>)
    requires
        call_ensures(CredentialControlProof::verify, (&p, &public), r),
        r.is_ok(),
    ensures
        held(entries, point_encoding(public.g3.log())),
        held(entries, point_encoding(public.registration_pk.log())),
        held(entries, public.vote@.encoding()),
        held(entries, ct_encoding(public.A_enc@)),
        held(entries, ct_encoding(p.I_ct@)),
        held(entries, point_encoding(p.I_pk.log())),
        ({
            let c = crate::transcript::challenge_value(entries, "c"@);
            let a = public.A_enc@;
            &&& red(a.r1 * p.z@) == red(p.I_ct@.r1 + p.Ay_enc@.r1 * c)
            &&& red(a.r2 * p.z@) == red(p.I_ct@.r2 + p.Ay_enc@.r2 * c)
            &&& red(a.b * p.z@) == red(p.I_ct@.b + p.Ay_enc@.b * c)
            &&& red(public.g3.log() * p.z@) == red(
                p.I_pk.log() + public.registration_pk.log() * c,
            )
        }),
{
    law_accepted_control(public@, p)
}

/// Two controls of one vote that are accepted with the same commitments and
/// response have one multiple, where the challenge has an inverse.
pub proof fn law_call_verify_control_twice(
    p: CredentialControlProof,
    q: CredentialControlProof,
    public: CredentialControlPublicBorrowed<'_>,
    r: Result<(), CryptoError>,
    s: Result<(), CryptoError>,
) -> (entries: Seq<Entry>)
    requires
        call_ensures(CredentialControlProof::verify, (&p, &public), r),
        call_ensures(CredentialControlProof::verify, (&q, &public), s),
        r.is_ok(),
        s.is_ok(),
        p.I_ct@ == q.I_ct@,
        p.I_pk.log() == q.I_pk.log(),
        p.z@ == q.z@,
    ensures
        held(entries, public.vote@.encoding()),
        crate::arith::has_inverse(crate::transcript::challenge_value(entries, "c"@)) ==> p.Ay_enc@
            == q.Ay_enc@,
{
    law_control_multiple_is_bound(public@, p, q)
}

/// The check of a vote is made only from a control that is accepted for it, and is
/// `[r]A` less `g1` and `[x]g3`, plus registration's multiple.
pub proof fn law_call_credential_check(
    pk: ElectionPublicKey,
    vote: Vote,
    control: CredentialControlProof,
    r: Result<Ciphertext, Error>,
    x1: int,
    x2: int,
)
    requires
        call_ensures(ElectionPublicKey::gen_credential_check, (&pk, &vote, &control), r),
    ensures
        ({
            let public = ControlView {
                g3: pk.params.g3.log(),
                registration_pk: pk.registration_pk.log(),
                vote: vote@,
                a: vote.auth.A_enc@,
            };
            r.is_ok() <==> public.accepts(control)
        }),
        r matches Ok(ct) ==> ct_decrypt(x1, x2, ct@) == red(
            ct_decrypt(x1, x2, vote.auth.Ar_enc@) - pk.params.elgamal.g1.log() - ct_decrypt(
                x1,
                x2,
                vote.auth.g3x_enc@,
            ) + ct_decrypt(x1, x2, control.Ay_enc@),
        ),
{
    if r is Ok {
        let ct = r->Ok_0;
        let v = vote@;
        let g1 = pk.params.elgamal.g1.log();
        let first = crate::elgamal::ct_strip(v.ar, g1);
        let second = crate::elgamal::ct_sub(first, v.g3x);
        crate::elgamal::law_decrypt_strip(x1, x2, v.ar, g1);
        crate::elgamal::law_decrypt_sub(x1, x2, first, v.g3x);
        crate::elgamal::law_decrypt_add(x1, x2, second, control.Ay_enc@);
        let (a, b, m) = (
            ct_decrypt(x1, x2, v.ar),
            ct_decrypt(x1, x2, v.g3x),
            ct_decrypt(x1, x2, control.Ay_enc@),
        );
        lemma_red_sub(a - g1, b);
        lemma_red_add(a - g1 - b, m);
    }
}

/// Of the mixed votes those stay whose check is neutral, all of them and in their
/// order, each with its receipt, its choice and its credential; and every control
/// was accepted, every check decrypted.
pub proof fn law_call_filter_invalid(
    bb: PublicPipeline,
    mixed: Vec<VerifiedVoteRecord>,
    controls: Vec<CredentialControlProof>,
    checks: Vec<DecOk>,
    r: Result<Vec<ValidVoteRecord>, Error>,
    i: int,
    x1: int,
    x2: int,
) -> (at: Seq<int>)
    requires
        call_ensures(PublicPipeline::filter_invalid, (&bb, &mixed, &controls, &checks), r),
        r.is_ok(),
    ensures
        crate::laws::filters::ascend(at),
        at.len() == r->Ok_0@.len(),
        forall|x: int| #[trigger]
            at.contains(x) <==> 0 <= x < mixed@.len() && checks@[x].plaintext.log() == 0,
        forall|k: int|
            #![trigger at[k]]
            0 <= k < at.len() ==> {
                &&& r->Ok_0@[k].receipt == mixed@[at[k]].receipt
                &&& r->Ok_0@[k].vote.choice@ == mixed@[at[k]].vote.choice@
                &&& r->Ok_0@[k].vote.A_enc@ == mixed@[at[k]].vote.auth.A_enc@
            },
        0 <= i < mixed@.len() ==> {
            let vote = mixed@[i].vote@;
            let pk = bb.election.ctx.pk;
            &&& (ControlView {
                g3: pk.params.g3.log(),
                registration_pk: pk.registration_pk.log(),
                vote,
                a: vote.a,
            }).accepts(controls@[i])
            &&& ct_decrypt(x1, x2, checks@[i].ciphertext@) == red(
                ct_decrypt(x1, x2, vote.ar) - pk.params.elgamal.g1.log() - ct_decrypt(
                    x1,
                    x2,
                    vote.g3x,
                ) + ct_decrypt(x1, x2, controls@[i].Ay_enc@),
            )
        },
{
    let n = mixed@.len() as int;
    let at = neutral_positions(checks@, n);
    let out = r->Ok_0@;
    let views = crate::api::server::pipeline::record_views(mixed@);
    law_neutral_checks_stay(checks@, n);
    assert forall|k: int| #![trigger at[k]] 0 <= k < at.len() implies {
        &&& out[k].receipt == mixed@[at[k]].receipt
        &&& out[k].vote.choice@ == mixed@[at[k]].vote.choice@
        &&& out[k].vote.A_enc@ == mixed@[at[k]].vote.auth.A_enc@
    } by {
        assert(crate::api::server::pipeline::kept_from(out[k], mixed@, at[k]));
    }
    if 0 <= i < n {
        assert(views[i] == mixed@[i].vote@);
        law_checked_votes(bb.election.ctx.pk, views, controls@, checks@, n, i, x1, x2);
    }
    at
}

/// Checks are verified only if each control is accepted for its vote, each check
/// is what was decrypted, and each decryption is proved.
pub proof fn law_call_verify_acc_checks(
    bb: PublicPipeline,
    checks: Vec<DecOk>,
    controls: Vec<CredentialControlProof>,
    mixed: Vec<VerifiedVoteRecord>,
    r: Result<(), Error>,
    i: int,
    x1: int,
    x2: int,
)
    requires
        call_ensures(PublicPipeline::verify_acc_checks, (&bb, &checks, &controls, &mixed), r),
        r.is_ok(),
        0 <= i < mixed@.len(),
    ensures
        ({
            let vote = mixed@[i].vote@;
            let pk = bb.election.ctx.pk;
            &&& (ControlView {
                g3: pk.params.g3.log(),
                registration_pk: pk.registration_pk.log(),
                vote,
                a: vote.a,
            }).accepts(controls@[i])
            &&& ct_decrypt(x1, x2, checks@[i].ciphertext@) == red(
                ct_decrypt(x1, x2, vote.ar) - pk.params.elgamal.g1.log() - ct_decrypt(
                    x1,
                    x2,
                    vote.g3x,
                ) + ct_decrypt(x1, x2, controls@[i].Ay_enc@),
            )
            &&& decryption_proved(pk.key(), checks@[i], bb.election.ctx.steps("acc-checks"@))
        }),
{
    let n = mixed@.len() as int;
    let pk = bb.election.ctx.pk;
    let views = crate::api::server::pipeline::record_views(mixed@);
    assert(views[i] == mixed@[i].vote@);
    law_checked_votes(pk, views, controls@, checks@, n, i, x1, x2);
    law_every_decryption_is_proved(
        checks@,
        pk.key(),
        bb.election.ctx.steps("acc-checks"@),
        n,
        i,
    );
}

/// Fingerprints of credentials are made only once the mix is accepted, from the
/// mixed credentials and from those of the votes, in their order.
pub proof fn law_call_fingerprint_inputs(
    bb: PublicPipeline,
    originals: Vec<ShortPublicACC>,
    mix: CredMixArtifact,
    votes: Vec<ValidVoteRecord>,
    r: Result<Vec<Vec<Ciphertext>>, Error>,
)
    requires
        call_ensures(
            PublicPipeline::credential_fingerprint_inputs,
            (&bb, &originals, &mix, &votes),
            r,
        ),
        r.is_ok(),
    ensures
        bb.cred_mix_accepted(originals@, mix),
        r->Ok_0@.len() == 2,
        r->Ok_0@[0]@.len() == mix.shuffled@.len(),
        r->Ok_0@[1]@.len() == votes@.len(),
        forall|k: int|
            0 <= k < mix.shuffled@.len() ==> (#[trigger] r->Ok_0@[0]@[k])@
                == mix.shuffled@[k].enc_A@,
        forall|k: int|
            0 <= k < votes@.len() ==> (#[trigger] r->Ok_0@[1]@[k])@ == votes@[k].vote.A_enc@,
{
    let lists = r->Ok_0@;
    let rows = ct_rows(lists);
    assert(rows.len() == lists.len());
    assert(rows[0] == ct_views(lists[0]@) && rows[1] == ct_views(lists[1]@));
    let inputs = crate::api::server::pipeline::fingerprint_inputs(mix.shuffled@, votes@);
    assert(inputs[0].len() == mix.shuffled@.len() && inputs[1].len() == votes@.len());
    assert(ct_views(lists[0]@).len() == lists[0]@.len());
    assert(ct_views(lists[1]@).len() == lists[1]@.len());
    assert forall|k: int| 0 <= k < mix.shuffled@.len() implies (#[trigger] lists[0]@[k])@
        == mix.shuffled@[k].enc_A@ by {
        assert(rows[0][k] == lists[0]@[k]@);
    }
    assert forall|k: int| 0 <= k < votes@.len() implies (#[trigger] lists[1]@[k])@
        == votes@[k].vote.A_enc@ by {
        assert(rows[1][k] == lists[1]@[k]@);
    }
}

/// The homomorphic sum decrypts, at each place of the parameters, to the sum of what
/// the choices decrypt to there.
pub proof fn law_call_homomorphic_sum(
    bb: PublicPipeline,
    choices: Vec<EncrChoice>,
    r: EncrChoice,
    x1: int,
    x2: int,
    i: int,
    j: int,
)
    requires
        bb.election.ctx.choice.wf(),
        forall|k: int|
            #![trigger choices@[k]]
            0 <= k < choices@.len() ==> EncrChoiceView::nothing(bb.election.ctx.choice).within(
                choices@[k]@,
            ),
        call_ensures(PublicPipeline::homomorphic_sum, (&bb, &choices), r),
        0 <= i < bb.election.ctx.choice.n1,
        0 <= j < bb.election.ctx.choice.ln2@[i],
    ensures
        r@.l1.len() == bb.election.ctx.choice.n1,
        ct_decrypt(x1, x2, r@.l1[i]) == red(
            int_sum(decrypted_party(x1, x2, choice_views(choices@), i)),
        ),
        ct_decrypt(x1, x2, r@.l2[i][j]) == red(
            int_sum(decrypted_candidate(x1, x2, choice_views(choices@), i, j)),
        ),
{
    let start = EncrChoiceView::nothing(bb.election.ctx.choice);
    crate::protocol::counting::lemma_sum_shape(start, choice_views(choices@));
    law_sum_decrypts(x1, x2, start, choice_views(choices@), i, j);
}

/// Parameters are made exactly where there is a positive number of candidates for
/// each party; with adjustment, a party with one candidate comes before them.
pub proof fn law_call_parameters(
    n1: usize,
    ln2: Vec<usize>,
    adjust: bool,
    r: Result<ChoiceParameters, Error>,
)
    requires
        call_ensures(ChoiceParameters::new, (n1, ln2, adjust), r),
    ensures
        r.is_ok() <==> ln2@.len() == n1 && !ln2@.contains(0usize),
        r matches Ok(p) ==> {
            &&& adjust ==> p.n1 == n1 + 1 && p.ln2@.len() == n1 + 1 && p.ln2@[0] == 1 && forall|
                i: int,
            |
                0 <= i < n1 ==> #[trigger] p.ln2@[i + 1] == ln2@[i]
            &&& !adjust ==> p.n1 == n1 && p.ln2@ == ln2@
        },
{
    match r {
        Ok(p) => {
            law_parameters(p);
            if ln2@.contains(0usize) {
                let i = choose|i: int| 0 <= i < ln2@.len() && ln2@[i] == 0usize;
                if adjust {
                    assert(p.ln2@[i + 1] == 0usize);
                } else {
                    assert(p.ln2@[i] == 0usize);
                }
            }
        },
        Err(_) => {
            if n1 == ln2@.len() {
                let i = choose|i: int| 0 <= i < ln2@.len() && ln2@[i] == 0;
                assert(ln2@.contains(0usize));
            }
        },
    }
}

/// A choice is made exactly where party and candidates exist; it marks these and
/// nothing else.
pub proof fn law_call_choice(
    l1: usize,
    l2: Vec<usize>,
    params: ChoiceParameters,
    r: Result<Choice, Error>,
    i: int,
    j: int,
)
    requires
        call_ensures(Choice::new, (l1, l2, &params), r),
        0 <= i < params.n1,
        0 <= j < params.ln2@[i],
    ensures
        r.is_ok() <==> l1 < params.n1 && forall|k: int|
            0 <= k < l2@.len() ==> (#[trigger] l2@[k]) < params.ln2@[l1 as int],
        r matches Ok(c) ==> {
            &&& c.l1_value == l1 && c.l2_value@ == l2@
            &&& c.l1@.len() == params.n1
            &&& c.l1@[i] == if i == l1 {
                1int
            } else {
                0
            }
            &&& c.l2@[i]@.len() == params.ln2@[i]
            &&& c.l2@[i]@[j] == if i == l1 && l2@.contains(j as usize) {
                1int
            } else {
                0
            }
        },
{
    if r is Ok {
        law_choice_marks(r->Ok_0, params, i, j);
    }
}

/// What is revealed of the codes opens: with the randomness alone, code or sum come
/// out again as they were encrypted.
pub proof fn law_call_reveal(
    ext: ExtendedEncrValuesCAI,
    values: ValuesCAI,
    l1_c: bool,
    l2_c: bool,
    revealed: RevealedCAI,
    discl: DiscloseCAI,
    enc: EncrValuesCAI,
    pk: ElectionPublicKey,
    table: DlogTable,
    r: Result<RevealedCAI, Error>,
)
    requires
        ext.encrypts(pk.key(), values),
        call_ensures(ExtendedEncrValuesCAI::reveal_values, (&ext, values, l1_c, l2_c), revealed),
        call_ensures(DiscloseCAI::from_reveal, (revealed,), discl),
        call_ensures(ExtendedEncrValuesCAI::to_encrypted, (&ext,), enc),
        call_ensures(EncrValuesCAI::extract_CAI_values, (&enc, discl, &pk, &table), r),
        forall|v: u64| v < 0x1_0000_0000 ==> #[trigger] dlog_table_values(table).contains(v),
    ensures
        r.is_ok(),
        r->Ok_0.l1.parts() == revealed.l1.parts(),
        r->Ok_0.l2.parts() == revealed.l2.parts(),
        r->Ok_0.l1.parts().0 == l1_c,
        r->Ok_0.l2.parts().0 == l2_c,
        r->Ok_0.l1.parts().1 == if l1_c {
            values.l1_code as int
        } else {
            (values.l1_sum % 100) as int
        },
        r->Ok_0.l2.parts().1 == if l2_c {
            values.l2_code as int
        } else {
            (values.l2_sum % 100) as int
        },
{
    let t = dlog_table_values(table);
    let key = pk.key();
    let v1: u64 = if l1_c {
        values.l1_code as u64
    } else {
        (values.l1_sum % 100) as u64
    };
    let v2: u64 = if l2_c {
        values.l2_code as u64
    } else {
        (values.l2_sum % 100) as u64
    };
    assert(t.contains(v1));
    assert(t.contains(v2));
    crate::protocol::vote::cai::law_opening(key, t, v1, discl.l1.parts().1);
    crate::protocol::vote::cai::law_opening(key, t, v2, discl.l2.parts().1);
}

/// What is extracted is what is encrypted, whatever randomness was disclosed.
pub proof fn law_call_extract(
    enc: EncrValuesCAI,
    discl: DiscloseCAI,
    pk: ElectionPublicKey,
    table: DlogTable,
    r: Result<RevealedCAI, Error>,
    x1: int,
    x2: int,
)
    requires
        call_ensures(EncrValuesCAI::extract_CAI_values, (&enc, discl, &pk, &table), r),
        r.is_ok(),
        pk.key().b == red(x1 * pk.key().r1 + x2 * pk.key().r2),
    ensures
        discl.l1 is Code ==> ct_decrypt(x1, x2, enc.l1_code_enc@) == r->Ok_0.l1.parts().1,
        discl.l1 is Sum ==> ct_decrypt(x1, x2, enc.l1_sum_enc@) == r->Ok_0.l1.parts().1,
        discl.l2 is Code ==> ct_decrypt(x1, x2, enc.l2_code_enc@) == r->Ok_0.l2.parts().1,
        discl.l2 is Sum ==> ct_decrypt(x1, x2, enc.l2_sum_enc@) == r->Ok_0.l2.parts().1,
{
    let (ct1, ct2) = enc.opened(discl);
    let t = dlog_table_values(table);
    law_opened_value_is_encrypted(x1, x2, pk.key(), t, ct1, discl.l1.parts().1);
    law_opened_value_is_encrypted(x1, x2, pk.key(), t, ct2, discl.l2.parts().1);
}

/// A secret is recovered from passphrase and share as their exclusive or.
pub proof fn law_call_recover(
    passphrase: &str,
    share: Vec<u8>,
    r: Option<VoterSecretKey>,
    bytes: Seq<u8>,
)
    requires
        call_ensures(VoterSecretKey::new_with_passphrase, (passphrase, share), r),
        shake128(encode_utf8(passphrase@)).len() == 32,
        share@.len() == 32,
        bytes.len() == 32,
        forall|i: int|
            0 <= i < 32 ==> #[trigger] bytes[i] == shake128(encode_utf8(passphrase@))[i] ^ share@[i],
    ensures
        r.is_some() <==> le_value(bytes) < order(),
        r matches Some(key) ==> key.sk@ == le_value(bytes) && key.share@ == share@
            && key.passphrase@ == passphrase@,
{
    assert(bytes =~= crate::protocol::keys::xor_bytes(
        shake128(encode_utf8(passphrase@)),
        share@,
    ));
}

/// Decryption undoes encryption under the public key of the secret one.
pub proof fn law_call_decrypt(
    sk: SecretKey,
    params: ElGamalParams,
    pk: PublicKey,
    ct: Ciphertext,
    m: int,
    r: int,
    out: crate::group::Point,
)
    requires
        call_ensures(SecretKey::to_public, (&sk, &params), pk),
        call_ensures(SecretKey::decrypt, (&sk, &ct), out),
        ct@ == ct_encrypt(pk.key(params), m, r),
    ensures
        out.log() == red(m),
{
    law_decrypt_encrypt(sk.x1@, sk.x2@, pk.key(params), m, r);
}

} // verus!
