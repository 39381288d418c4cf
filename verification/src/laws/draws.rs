//! What the operations give that draw or that write a transcript, stated of their
//! calls.

use merlin::Transcript;
use rand::rngs::StdRng;
use vstd::prelude::*;

use crate::api::client::{Ballot, BallotBuilder, Voter, VoterBuilder};
use crate::api::server::bb::{ValidVoteRecord, VerifiedVoteRecord};
use crate::api::server::pipeline::{
    are_winners, credentials_mixed, law_last_vote_wins, law_registered_vote_counts, mixes, wins,
    CredMixArtifact, PublicPipeline, VoteMixArtifact,
};
use crate::api::server::rt::RegistrationTeller;
use crate::api::server::tt::TabulationTeller;
use crate::arith::{lemma_order, lemma_red_small, red};
use crate::elgamal::{
    ct_decrypt, dlog_table_values, law_decrypt_add, law_decrypt_encrypt, law_decrypt_scale,
    law_re_encrypt, Ciphertext, DlogTable, ElGamalParams, ExtendedCiphertext, PublicKey, SecretKey,
};
use crate::error::{CryptoError, Error};
use crate::group::{Point, Scalar};
use crate::laws::claims::{
    blank, claims_hold, decrypted_list, fills_out, law_true_claims_are_one_vote, one_hot,
};
use crate::laws::decryptions::{
    decryption_proved, law_every_decryption_is_proved, law_filled_tally, law_verified_tally,
};
use crate::laws::filters::{
    ascend, law_every_fingerprint_is_proved, law_first_of_each_fingerprint,
    law_registered_votes_stay,
};
use crate::laws::mixes::{law_every_credential_is_mixed_once, law_every_vote_is_mixed_once};
use crate::proofs::compound::statement_views;
use crate::proofs::decryption::DecOk;
use crate::protocol::filter::{
    choice_views, first_positions, law_credential_check, registered_positions,
};
use crate::protocol::keys::{
    ElectionParams, ElectionPublicKey, RTKeyPair, RTSecretKey, VoterKeyPair, VoterPublicKey,
    VoterSecretKey,
};
use crate::protocol::tally::{CredentialControlProof, DecryptedTally, Place};
use crate::protocol::vote::auth::{
    law_simulated_credential, PublicACC, RTSignature, ShortPublicACC, VotingCredential,
    VotingCredentialBuilder,
};
use crate::protocol::vote::choice::{Choice, ChoiceParameters, EncrChoice, ExtendedEncrChoice};
use crate::protocol::vote::choice_proof::ProofEncrChoicePublic;
use crate::protocol::vote::vote::{ExtendedVote, VerVote, Vote, VoteWithEncPubCred};
use crate::transcript::{transcript_entries, Entry};

verus! {

/// What is encrypted under the election's key decrypts to what was encrypted.
pub proof fn law_call_encrypt(
    pk: ElectionPublicKey,
    value: Point,
    exponent: Scalar,
    r: ExtendedCiphertext,
    s: ExtendedCiphertext,
    t: ExtendedCiphertext,
    x1: int,
    x2: int,
)
    requires
        exists|rng: &mut StdRng| #[trigger]
            call_ensures(ElectionPublicKey::encrypt, (&pk, &value, rng), r),
        exists|rng: &mut StdRng| #[trigger]
            call_ensures(ElectionPublicKey::exp_encrypt, (&pk, &exponent, rng), s),
        exists|rng: &mut StdRng| #[trigger]
            call_ensures(ElectionPublicKey::identity_encription, (&pk, rng), t),
        pk.key().b == red(x1 * pk.key().r1 + x2 * pk.key().r2),
    ensures
        ct_decrypt(x1, x2, r.inner@) == value.log(),
        ct_decrypt(x1, x2, s.inner@) == exponent@,
        ct_decrypt(x1, x2, t.inner@) == 0,
        r.inner@.r1 == red(pk.params.elgamal.g1.log() * r.random_scalar@),
        s.inner@.r1 == red(pk.params.elgamal.g1.log() * s.random_scalar@),
        t.inner@.r1 == red(pk.params.elgamal.g1.log() * t.random_scalar@),
{
    value.lemma_bounds();
    exponent.lemma_bounds();
    lemma_order();
    lemma_red_small(value.log());
    lemma_red_small(exponent@);
    lemma_red_small(0);
    law_decrypt_encrypt(x1, x2, pk.key(), value.log(), r.random_scalar@);
    law_decrypt_encrypt(x1, x2, pk.key(), exponent@, s.random_scalar@);
    law_decrypt_encrypt(x1, x2, pk.key(), 0, t.random_scalar@);
}

/// A re-encrypted vote decrypts, at each place, to what the vote decrypts to.
pub proof fn law_call_re_encrypt_vote(
    vote: Vote,
    pk: ElectionPublicKey,
    r: ExtendedVote,
    new: Vote,
    x1: int,
    x2: int,
    i: int,
    j: int,
)
    requires
        exists|rng: &mut StdRng| #[trigger] call_ensures(Vote::re_encrypt, (&vote, &pk, rng), r),
        call_ensures(ExtendedVote::to_vote, (&r,), new),
        pk.key().b == red(x1 * pk.key().r1 + x2 * pk.key().r2),
        0 <= i < vote@.choice.l1.len(),
        0 <= i < vote@.choice.l2.len(),
        0 <= j < vote@.choice.l2[i].len(),
    ensures
        ct_decrypt(x1, x2, new@.choice.l1[i]) == ct_decrypt(x1, x2, vote@.choice.l1[i]),
        ct_decrypt(x1, x2, new@.choice.l2[i][j]) == ct_decrypt(x1, x2, vote@.choice.l2[i][j]),
        ct_decrypt(x1, x2, new.auth.A_enc@) == ct_decrypt(x1, x2, vote.auth.A_enc@),
        ct_decrypt(x1, x2, new.auth.Ar_enc@) == ct_decrypt(x1, x2, vote.auth.Ar_enc@),
        ct_decrypt(x1, x2, new.auth.g3x_enc@) == ct_decrypt(x1, x2, vote.auth.g3x_enc@),
{
    let key = pk.key();
    assert(new@ == r.vote());
    assert(r.choice.inner().l1[i] == r.choice.l1@[i].inner@);
    assert(r.choice.inner().l2[i][j] == r.choice.l2@[i]@[j].inner@);
    law_re_encrypt(x1, x2, key, vote@.choice.l1[i], r.choice.l1@[i].random_scalar@);
    law_re_encrypt(x1, x2, key, vote@.choice.l2[i][j], r.choice.l2@[i]@[j].random_scalar@);
    law_re_encrypt(x1, x2, key, vote@.a, r.auth.A_enc.random_scalar@);
    law_re_encrypt(x1, x2, key, vote@.ar, r.auth.Ar_enc.random_scalar@);
    law_re_encrypt(x1, x2, key, vote@.g3x, r.auth.g3x_enc.random_scalar@);
}

/// A re-encrypted credential decrypts to the same point.
pub proof fn law_call_re_encrypt_credential(
    acc: ShortPublicACC,
    pk: ElectionPublicKey,
    r: crate::protocol::vote::auth::ExtendedShortPublicACC,
    new: ShortPublicACC,
    x1: int,
    x2: int,
)
    requires
        exists|rng: &mut StdRng| #[trigger]
            call_ensures(ShortPublicACC::re_encrypt, (&acc, &pk, rng), r),
        call_ensures(crate::protocol::vote::auth::ExtendedShortPublicACC::to_short, (r,), new),
        pk.key().b == red(x1 * pk.key().r1 + x2 * pk.key().r2),
    ensures
        ct_decrypt(x1, x2, new.enc_A@) == ct_decrypt(x1, x2, acc.enc_A@),
{
    law_re_encrypt(x1, x2, pk.key(), acc.enc_A@, r.enc_A.random_scalar@);
}

/// An encrypted choice decrypts, at each place, to one where it is marked and to
/// nothing where it is not.
pub proof fn law_call_encrypt_choice(
    choice: Choice,
    pk: ElectionPublicKey,
    r: ExtendedEncrChoice,
    enc: EncrChoice,
    x1: int,
    x2: int,
    i: int,
    j: int,
)
    requires
        exists|rng: &mut StdRng| #[trigger]
            call_ensures(ExtendedEncrChoice::new, (&choice, &pk, rng), r),
        call_ensures(ExtendedEncrChoice::to_encryption, (&r,), enc),
        pk.key().b == red(x1 * pk.key().r1 + x2 * pk.key().r2),
        0 <= i < choice.l1@.len(),
        choice.l1@.len() == choice.l2@.len(),
        0 <= j < choice.l2@[i]@.len(),
    ensures
        enc@.l1.len() == choice.l1@.len(),
        enc@.l2.len() == choice.l2@.len(),
        enc@.l2[i].len() == choice.l2@[i]@.len(),
        ct_decrypt(x1, x2, enc@.l1[i]) == if choice.l1@[i] == 1 {
            1int
        } else {
            0
        },
        ct_decrypt(x1, x2, enc@.l2[i][j]) == if choice.l2@[i]@[j] == 1 {
            1int
        } else {
            0
        },
{
    let key = pk.key();
    assert(enc@ == r.inner());
    assert(r.inner().l1[i] == r.l1@[i].inner@);
    assert(r.inner().l2[i][j] == r.l2@[i]@[j].inner@);
    lemma_order();
    lemma_red_small(0);
    lemma_red_small(1);
    law_decrypt_encrypt(x1, x2, key, 1, r.l1@[i].random_scalar@);
    law_decrypt_encrypt(x1, x2, key, 0, r.l1@[i].random_scalar@);
    law_decrypt_encrypt(x1, x2, key, 1, r.l2@[i]@[j].random_scalar@);
    law_decrypt_encrypt(x1, x2, key, 0, r.l2@[i]@[j].random_scalar@);
}

/// Where the claims on an encrypted choice are all true of what it decrypts to, it
/// marks exactly one party, exactly one of its candidates, and nothing else.
pub proof fn law_call_choice_claims(
    enc: EncrChoice,
    pk: ElectionPublicKey,
    params: ChoiceParameters,
    r: ProofEncrChoicePublic<'_>,
    x1: int,
    x2: int,
) -> (at: (int, int))
    requires
        call_ensures(ProofEncrChoicePublic::new, (&enc, &pk, &params), r),
        fills_out(enc@, params.ln2@),
        params.wf(),
        claims_hold(x1, x2, statement_views(r.statements@)),
    ensures
        one_hot(decrypted_list(x1, x2, enc@.l1), at.0),
        one_hot(decrypted_list(x1, x2, enc@.l2[at.0]), at.1),
        forall|i: int|
            #![trigger enc@.l2[i]]
            0 <= i < params.n1 && i != at.0 ==> blank(decrypted_list(x1, x2, enc@.l2[i])),
{
    law_true_claims_are_one_vote(x1, x2, pk.key(), enc@, params.ln2@)
}

/// To add an encrypted choice adds, at each place, what it decrypts to.
pub proof fn law_call_add_assign(
    before: EncrChoice,
    after: EncrChoice,
    rhs: EncrChoice,
    x1: int,
    x2: int,
    i: int,
    j: int,
)
    requires
        exists|c: &mut EncrChoice|
            *c == before && *final(c) == after && #[trigger] call_ensures(
                EncrChoice::add_assign,
                (c, &rhs),
                (),
            ),
        0 <= i < before@.l1.len(),
        0 <= i < before@.l2.len(),
        0 <= j < before@.l2[i].len(),
    ensures
        ct_decrypt(x1, x2, after@.l1[i]) == red(
            ct_decrypt(x1, x2, before@.l1[i]) + ct_decrypt(x1, x2, rhs@.l1[i]),
        ),
        ct_decrypt(x1, x2, after@.l2[i][j]) == red(
            ct_decrypt(x1, x2, before@.l2[i][j]) + ct_decrypt(x1, x2, rhs@.l2[i][j]),
        ),
{
    law_decrypt_add(x1, x2, before@.l1[i], rhs@.l1[i]);
    law_decrypt_add(x1, x2, before@.l2[i][j], rhs@.l2[i][j]);
}

/// A new secret of a voter is recovered from passphrase and share, and the key pair
/// that is recovered has the same public key.
pub proof fn law_call_voter_keys(
    pk: ElectionPublicKey,
    passphrase: &str,
    made: VoterKeyPair,
    share: Vec<u8>,
    again: Option<VoterKeyPair>,
)
    requires
        exists|rng: &mut StdRng| #[trigger]
            call_ensures(VoterKeyPair::new, (&pk, passphrase, rng), made),
        share@ == made.sk.share@,
        call_ensures(VoterKeyPair::new_with_passphrase, (&pk, passphrase, share), again),
    ensures
        again.is_some(),
        again->0.sk.sk@ == made.sk.sk@,
        again->0.pk.pk.log() == made.pk.pk.log(),
        made.pk.pk.log() == red(pk.params.elgamal.g2.log() * made.sk.sk@),
{
}

/// A new secret of a voter is recovered from passphrase and share.
pub proof fn law_call_voter_secret(
    passphrase: &str,
    made: VoterSecretKey,
    share: Vec<u8>,
    again: Option<VoterSecretKey>,
)
    requires
        exists|rng: &mut StdRng| #[trigger]
            call_ensures(VoterSecretKey::new, (passphrase, rng), made),
        share@ == made.share@,
        call_ensures(VoterSecretKey::new_with_passphrase, (passphrase, share), again),
    ensures
        again.is_some(),
        again->0.sk@ == made.sk@,
{
}

/// Registration's key pair: the public parts are multiples of the bases by the
/// secret parts.
pub proof fn law_call_registration_keys(
    meg_sk: SecretKey,
    params: ElectionParams,
    pair: RTKeyPair,
)
    requires
        exists|rng: &mut StdRng| #[trigger]
            call_ensures(RTKeyPair::new, (meg_sk, &params, rng), pair),
    ensures
        pair.sk.meg_sk == meg_sk,
        pair.pk.registration_pk.log() == red(params.g3.log() * pair.sk.secret_scalar@),
        pair.pk.meg_pk.h.log() == red(
            meg_sk.x1@ * params.elgamal.g1.log() + meg_sk.x2@ * params.elgamal.g2.log(),
        ),
{
}

/// A signature on a secret: its point times the sum of its exponent and
/// registration's secret is `g1` plus the secret times `g3`.
pub proof fn law_call_sign(sk: RTSecretKey, params: ElectionParams, x: Scalar, s: RTSignature)
    requires
        exists|rng: &mut StdRng| #[trigger]
            call_ensures(RTSignature::new, (&sk, &params, &x, rng), s),
        red(s.r@ + sk.secret_scalar@) != 0,
    ensures
        red(s.A.log() * (s.r@ + sk.secret_scalar@)) == red(
            params.elgamal.g1.log() + params.g3.log() * x@,
        ),
{
}

/// A credential that registration makes and issues is accepted by the voter with the
/// PIN that comes with it; what is published of it is accepted, and is the
/// encryption of the signature's point.
pub proof fn law_call_registration(
    rt: RegistrationTeller,
    made: (VotingCredentialBuilder, usize, PublicACC),
    voter_pk: VoterPublicKey,
    issued: Result<VotingCredential, Error>,
    seen: Result<(), Error>,
    public: Result<ShortPublicACC, Error>,
    x1: int,
    x2: int,
)
    requires
        rt.wf(),
        exists|rng: &mut StdRng| #[trigger]
            call_ensures(RegistrationTeller::gen_builder, (&rt, rng), made),
        exists|rng: &mut StdRng| #[trigger]
            call_ensures(RegistrationTeller::gen_credential, (&rt, &voter_pk, &made.0, rng), issued),
        call_ensures(
            VotingCredential::verify_pin,
            (&issued->Ok_0, &rt.public(), made.1, &voter_pk),
            seen,
        ),
        call_ensures(RegistrationTeller::short_public_acc, (&rt, &made.2), public),
        red(made.0.sign.r@ + rt.secret()) != 0,
        rt.public().key().b == red(x1 * rt.public().key().r1 + x2 * rt.public().key().r2),
    ensures
        made.1 < 100_000,
        issued.is_ok() <==> voter_pk.pk.log() != 0,
        issued.is_ok() ==> seen.is_ok(),
        public.is_ok(),
        ct_decrypt(x1, x2, public->Ok_0.enc_A@) == made.0.sign.A.log(),
        ({
            let masked = made.0.masked_pin;
            let x = red(masked.masked_x@ - red(masked.partial_mask@ + made.1));
            let params = rt.public().params;
            red(made.0.sign.A.log() * (made.0.sign.r@ + rt.secret())) == red(
                params.elgamal.g1.log() + params.g3.log() * x,
            )
        }),
{
    crate::laws::credentials::law_signature_exponent(made.0, rt);
    let key = rt.public().key();
    let a = made.0.sign.A.log();
    let ct = made.2.enc_sign.enc_A@;
    let r = choose|r: int| ct == #[trigger] crate::elgamal::ct_encrypt(key, a, r);
    law_decrypt_encrypt(x1, x2, key, a, r);
    made.0.sign.A.lemma_bounds();
    lemma_red_small(a);
}

/// A voter who simulates a credential for a PIN finds it accepted with that PIN,
/// whatever the PIN is; signature and masked PIN stay as they were.
pub proof fn law_call_simulate(
    builder: VoterBuilder,
    pin: usize,
    r: Result<Voter, Error>,
    seen: Result<(), Error>,
)
    requires
        builder.parts().2.pk.pk.log() == red(
            builder.parts().0.pk.params.elgamal.g2.log() * builder.parts().2.sk.sk@,
        ),
        exists|rng: &mut StdRng| #[trigger]
            call_ensures(VoterBuilder::simulate, (builder, pin, rng), r),
        call_ensures(Voter::verify_pin, (&r->Ok_0, pin), seen),
    ensures
        r.is_ok(),
        seen.is_ok(),
        r->Ok_0.parts().1.sign == builder.parts().1.sign,
        r->Ok_0.parts().1.masked_pin == builder.parts().1.masked_pin,
{
    law_simulated_credential(
        builder.parts().1,
        r->Ok_0.parts().1,
        builder.parts().0.pk,
        builder.parts().2,
        pin as int,
    );
}

/// Registration's controls are accepted for their votes, and carry the credentials
/// times registration's secret.
pub proof fn law_call_controls(
    rt: RegistrationTeller,
    votes: Vec<Vote>,
    controls: Vec<CredentialControlProof>,
    check: Result<Ciphertext, Error>,
    i: int,
    x1: int,
    x2: int,
    sign: RTSignature,
    signed_x: int,
    voted_x: int,
)
    requires
        rt.wf(),
        exists|rng: &mut StdRng| #[trigger]
            call_ensures(RegistrationTeller::gen_controls, (&rt, &votes, rng), controls),
        0 <= i < votes@.len(),
        call_ensures(
            ElectionPublicKey::gen_credential_check,
            (&rt.public(), &votes@[i], &controls@[i]),
            check,
        ),
    ensures
        controls@.len() == votes@.len(),
        ct_decrypt(x1, x2, controls@[i].Ay_enc@) == red(
            ct_decrypt(x1, x2, votes@[i].auth.A_enc@) * rt.secret(),
        ),
        check.is_ok(),
        sign.signs(rt.public().params, rt.secret(), signed_x) && ct_decrypt(
            x1,
            x2,
            votes@[i].auth.A_enc@,
        ) == sign.A.log() && ct_decrypt(x1, x2, votes@[i].auth.Ar_enc@) == red(
            sign.A.log() * sign.r@,
        ) && ct_decrypt(x1, x2, votes@[i].auth.g3x_enc@) == red(
            rt.public().params.g3.log() * voted_x,
        ) ==> ct_decrypt(x1, x2, check->Ok_0@) == red(
            rt.public().params.g3.log() * (signed_x - voted_x),
        ),
{
    let (vote, control, pk) = (votes@[i], controls@[i], rt.public());
    assert(pk.control(vote@).made_by(rt.secret(), control));
    law_decrypt_scale(x1, x2, vote@.a, rt.secret());
    if sign.signs(pk.params, rt.secret(), signed_x) && ct_decrypt(x1, x2, vote@.a) == sign.A.log()
        && ct_decrypt(x1, x2, vote@.ar) == red(sign.A.log() * sign.r@) && ct_decrypt(
        x1,
        x2,
        vote@.g3x,
    ) == red(pk.params.g3.log() * voted_x) {
        law_credential_check(
            pk,
            x1,
            x2,
            vote@,
            control,
            sign,
            rt.secret(),
            signed_x,
            voted_x,
        );
    }
}

/// A vote mix is accepted, and every vote is in it once, with its receipt and what
/// it decrypts to.
pub proof fn law_call_mix_votes(
    bb: PublicPipeline,
    originals: Vec<VerifiedVoteRecord>,
    art: VoteMixArtifact,
    seen: Result<(), Error>,
    x1: int,
    x2: int,
    i: int,
    p: int,
    q: int,
) -> (k: int)
    requires
        bb.election.ctx.choice.wf(),
        crate::protocol::mix::votes_have(
            crate::api::server::pipeline::record_views(originals@),
            bb.election.ctx.choice,
            originals@.len() as int,
        ),
        exists|rng: &mut StdRng| #[trigger]
            call_ensures(PublicPipeline::mix_votes, (&bb, &originals, rng), art),
        call_ensures(PublicPipeline::verify_vote_mix, (&bb, &originals, &art), seen),
        ({
            let key = bb.election.ctx.pk.key();
            key.b == red(x1 * key.r1 + x2 * key.r2)
        }),
        0 <= i < originals@.len(),
        0 <= p < bb.election.ctx.choice.n1,
        0 <= q < bb.election.ctx.choice.ln2@[p],
    ensures
        seen.is_ok(),
        art.shuffled@.len() == originals@.len(),
        0 <= k < originals@.len(),
        ({
            let (old, new) = (originals@[i], art.shuffled@[k]);
            &&& new.receipt == old.receipt
            &&& ct_decrypt(x1, x2, new.vote@.a) == ct_decrypt(x1, x2, old.vote@.a)
            &&& ct_decrypt(x1, x2, new.vote@.ar) == ct_decrypt(x1, x2, old.vote@.ar)
            &&& ct_decrypt(x1, x2, new.vote@.g3x) == ct_decrypt(x1, x2, old.vote@.g3x)
            &&& ct_decrypt(x1, x2, new.vote@.choice.l1[p]) == ct_decrypt(
                x1,
                x2,
                old.vote@.choice.l1[p],
            )
            &&& ct_decrypt(x1, x2, new.vote@.choice.l2[p][q]) == ct_decrypt(
                x1,
                x2,
                old.vote@.choice.l2[p][q],
            )
        }),
{
    let key = bb.election.ctx.pk.key();
    let (perm, ext) = choose|perm: Seq<usize>, ext: Seq<ExtendedVote>| #[trigger]
        mixes(key, originals@, art.shuffled@, perm, ext);
    law_every_vote_is_mixed_once(
        key,
        x1,
        x2,
        bb.election.ctx.choice,
        originals@,
        art.shuffled@,
        perm,
        ext,
        i,
    )
}

/// A credential mix is accepted, and every credential is in it once, with what it
/// decrypts to.
pub proof fn law_call_mix_credentials(
    bb: PublicPipeline,
    originals: Vec<ShortPublicACC>,
    art: CredMixArtifact,
    seen: Result<(), Error>,
    x1: int,
    x2: int,
    i: int,
) -> (k: int)
    requires
        exists|rng: &mut StdRng| #[trigger]
            call_ensures(PublicPipeline::mix_credentials, (&bb, &originals, rng), art),
        call_ensures(PublicPipeline::verify_cred_mix, (&bb, &originals, &art), seen),
        ({
            let key = bb.election.ctx.pk.key();
            key.b == red(x1 * key.r1 + x2 * key.r2)
        }),
        0 <= i < originals@.len(),
    ensures
        seen.is_ok(),
        art.shuffled@.len() == originals@.len(),
        0 <= k < originals@.len(),
        ct_decrypt(x1, x2, art.shuffled@[k].enc_A@) == ct_decrypt(x1, x2, originals@[i].enc_A@),
{
    let key = bb.election.ctx.pk.key();
    let (perm, ext) = choose|
        perm: Seq<usize>,
        ext: Seq<crate::protocol::vote::auth::ExtendedShortPublicACC>,
    | #[trigger]
        credentials_mixed(key, originals@, art.shuffled@, perm, ext);
    law_every_credential_is_mixed_once(key, x1, x2, originals@, art.shuffled@, perm, ext, i)
}

/// Of ballots with one fingerprint the first stays, and each decryption was proved.
pub proof fn law_call_filter_duplicates(
    pk: ElectionPublicKey,
    ballots: Vec<VerVote>,
    lists: Vec<Vec<Ciphertext>>,
    verified: Result<(), CryptoError>,
    list: Vec<DecOk>,
    start: Seq<Entry>,
    r: Result<Vec<VerVote>, Error>,
    i: int,
) -> (at: Seq<int>)
    requires
        exists|tr: &mut Transcript|
            transcript_entries(*tr) == start && #[trigger] call_ensures(
                ElectionPublicKey::filter_duplicates,
                (&pk, ballots, &lists, verified, &list, tr),
                r,
            ),
        r.is_ok(),
    ensures
        verified.is_ok(),
        list@.len() == ballots@.len(),
        ascend(at),
        at.len() == r->Ok_0@.len(),
        forall|k: int| 0 <= k < at.len() ==> r->Ok_0@[k] == ballots@[#[trigger] at[k]],
        forall|x: int| #[trigger]
            at.contains(x) <==> 0 <= x < ballots@.len() && forall|y: int|
                0 <= y < x ==> (#[trigger] list@[y]).plaintext.log() != list@[x].plaintext.log(),
        0 <= i < list@.len() ==> decryption_proved(pk.key(), list@[i], start),
        0 <= i < list@.len() ==> list@[i].ciphertext@ == lists@[0]@[i]@,
{
    let at = first_positions(list@, ballots@.len() as int);
    law_first_of_each_fingerprint(list@, ballots@.len() as int);
    crate::laws::filters::law_matching_fingerprints(
        crate::elgamal::ct_rows(lists@),
        ballots@.len() as int,
        list@,
        i,
    );
    if 0 <= i < list@.len() {
        law_every_decryption_is_proved(list@, pk.key(), start, list@.len() as int, i);
        assert(crate::elgamal::ct_rows(lists@)[0] == crate::elgamal::ct_views(lists@[0]@));
        assert(crate::elgamal::ct_views(lists@[0]@)[i] == lists@[0]@[i]@);
    }
    at
}

/// Of the votes those stay whose fingerprint is one of a registered credential, all
/// of them and in their order, and each decryption was proved.
pub proof fn law_call_filter_illicit(
    pk: ElectionPublicKey,
    votes: Vec<VoteWithEncPubCred>,
    shuffled: Vec<ShortPublicACC>,
    lists: Vec<Vec<Ciphertext>>,
    verified: Result<(), CryptoError>,
    dec_pub: Vec<DecOk>,
    dec_votes: Vec<DecOk>,
    start: Seq<Entry>,
    r: Result<Vec<EncrChoice>, Error>,
    i: int,
) -> (at: Seq<int>)
    requires
        exists|tr: &mut Transcript|
            transcript_entries(*tr) == start && #[trigger] call_ensures(
                ElectionPublicKey::filter_illicit,
                (&pk, &votes, &shuffled, &lists, verified, &dec_pub, &dec_votes, tr),
                r,
            ),
        r.is_ok(),
    ensures
        verified.is_ok(),
        ascend(at),
        at.len() == r->Ok_0@.len(),
        forall|k: int|
            0 <= k < at.len() ==> r->Ok_0@[k]@ == votes@[#[trigger] at[k]].choice@,
        forall|x: int| #[trigger]
            at.contains(x) <==> 0 <= x < votes@.len() && exists|h: int|
                0 <= h < dec_pub@.len() && (#[trigger] dec_pub@[h]).plaintext.log()
                    == dec_votes@[x].plaintext.log(),
        0 <= i < dec_pub@.len() ==> decryption_proved(pk.key(), dec_pub@[i], start),
{
    let at = registered_positions(dec_pub@, dec_votes@, votes@.len() as int);
    let kept = r->Ok_0@;
    law_registered_votes_stay(dec_pub@, dec_votes@, votes@.len() as int);
    law_every_fingerprint_is_proved(pk, verified, dec_pub@, dec_votes@, start, i);
    let views = choice_views(kept);
    assert(views.len() == kept.len());
    assert forall|k: int| 0 <= k < at.len() implies kept[k]@ == votes@[#[trigger] at[k]].choice@ by {
        crate::laws::refusals::law_picked_choices(votes@, at, k);
        assert(views[k] == kept[k]@);
    }
    at
}

/// Of the valid votes, the last of each registered credential stays: exactly those
/// that no other vote of the same credential comes after; and each decryption
/// was proved.
pub proof fn law_call_filter_illicit_keep_last(
    bb: PublicPipeline,
    votes: Vec<ValidVoteRecord>,
    mix: CredMixArtifact,
    lists: Vec<Vec<Ciphertext>>,
    verified: Result<(), CryptoError>,
    dec_pub: Vec<DecOk>,
    dec_votes: Vec<DecOk>,
    start: Seq<Entry>,
    r: Result<Vec<EncrChoice>, Error>,
    x: int,
    y: int,
) -> (at: Seq<int>)
    requires
        dec_votes@.len() == votes@.len(),
        exists|tr: &mut Transcript|
            transcript_entries(*tr) == start && #[trigger] call_ensures(
                PublicPipeline::filter_illicit_keep_last,
                (&bb, &votes, &mix, &lists, verified, &dec_pub, &dec_votes, tr),
                r,
            ),
        r.is_ok(),
        0 <= x < votes@.len(),
        0 <= y < votes@.len(),
    ensures
        verified.is_ok(),
        at.len() == r->Ok_0@.len(),
        at.no_duplicates(),
        forall|k: int|
            0 <= k < at.len() ==> 0 <= #[trigger] at[k] < votes@.len() && r->Ok_0@[k]@
                == votes@[at[k]].vote.choice@,
        at.contains(x) ==> exists|h: int|
            0 <= h < dec_pub@.len() && (#[trigger] dec_pub@[h]).plaintext.log()
                == dec_votes@[x].plaintext.log(),
        at.contains(x) && dec_votes@[y].plaintext.log() == dec_votes@[x].plaintext.log() ==> {
            &&& votes@[y].receipt.seq_no <= votes@[x].receipt.seq_no
            &&& at.contains(y) ==> x == y
        },
        (exists|h: int|
            0 <= h < dec_pub@.len() && (#[trigger] dec_pub@[h]).plaintext.log()
                == dec_votes@[x].plaintext.log()) ==> exists|k: int| #[trigger]
            at.contains(k) && dec_votes@[k].plaintext.log() == dec_votes@[x].plaintext.log(),
        0 <= x < dec_pub@.len() ==> decryption_proved(
            bb.election.ctx.pk.key(),
            dec_pub@[x],
            start,
        ),
{
    let kept = r->Ok_0@;
    let at = choose|at: Seq<int>|
        #![trigger are_winners(votes@, dec_pub@, dec_votes@, at)]
        {
            &&& are_winners(votes@, dec_pub@, dec_votes@, at)
            &&& choice_views(kept) == at.map_values(|i: int| votes@[i].vote.choice@)
        };
    let views = choice_views(kept);
    let chosen = at.map_values(|i: int| votes@[i].vote.choice@);
    assert(views.len() == kept.len() && chosen.len() == at.len());
    assert forall|k: int| 0 <= k < at.len() implies 0 <= #[trigger] at[k] < votes@.len()
        && kept[k]@ == votes@[at[k]].vote.choice@ by {
        assert(at.contains(at[k]));
        assert(wins(votes@, dec_pub@, dec_votes@, at[k]));
        assert(views[k] == kept[k]@);
        assert(chosen[k] == votes@[at[k]].vote.choice@);
    }
    if at.contains(x) {
        law_last_vote_wins(votes@, dec_pub@, dec_votes@, at, x, x);
        if dec_votes@[y].plaintext.log() == dec_votes@[x].plaintext.log() {
            law_last_vote_wins(votes@, dec_pub@, dec_votes@, at, x, y);
        }
    }
    if exists|h: int|
        0 <= h < dec_pub@.len() && (#[trigger] dec_pub@[h]).plaintext.log()
            == dec_votes@[x].plaintext.log() {
        let k = law_registered_vote_counts(votes@, dec_pub@, dec_votes@, at, x);
        assert(at.contains(k));
    }
    law_every_fingerprint_is_proved(
        bb.election.ctx.pk,
        verified,
        dec_pub@,
        dec_votes@,
        start,
        x,
    );
    at
}

/// What a decryption gives is what the ciphertext decrypts to, and it is accepted by
/// everyone who checks it on the same transcript.
pub proof fn law_call_ver_decrypt(
    sk: SecretKey,
    params: ElGamalParams,
    pk: PublicKey,
    ct: Ciphertext,
    start: Seq<Entry>,
    d: DecOk,
    seen: Result<(), CryptoError>,
)
    requires
        call_ensures(SecretKey::to_public, (&sk, &params), pk),
        exists|tr: &mut Transcript, rng: &mut StdRng|
            transcript_entries(*tr) == start && #[trigger] call_ensures(
                SecretKey::ver_decrypt,
                (&sk, &params, &ct, tr, rng),
                d,
            ),
        exists|tr: &mut Transcript|
            transcript_entries(*tr) == start && #[trigger] call_ensures(
                DecOk::verify,
                (&d, &pk, &params, tr),
                seen,
            ),
    ensures
        d.ciphertext@ == ct@,
        d.plaintext.log() == ct_decrypt(sk.x1@, sk.x2@, ct@),
        seen.is_ok(),
{
    assert(sk.key(params) == pk.key(params));
}

/// What a tally teller gives of a tally counts what its ciphertexts decrypt to, at
/// each place; it is given where the table holds all of them, and is then accepted.
pub proof fn law_call_decrypt_tally(
    tt: TabulationTeller,
    bb: PublicPipeline,
    enc: EncrChoice,
    table: DlogTable,
    r: Result<DecryptedTally, Error>,
    seen: Result<(), Error>,
    i: int,
    j: int,
)
    requires
        exists|rng: &mut StdRng| #[trigger]
            call_ensures(TabulationTeller::decrypt_tally, (&tt, &enc, &table, rng), r),
        r matches Ok(d) ==> call_ensures(
            PublicPipeline::verify_decrypted_tally,
            (&bb, &enc, &d),
            seen,
        ),
        bb.election.ctx.same(tt.parts().1),
        bb.election.ctx.pk.params.tally.h.log() == red(
            tt.parts().0.meg_sk.x1@ * bb.election.ctx.pk.params.elgamal.g1.log()
                + tt.parts().0.meg_sk.x2@ * bb.election.ctx.pk.params.elgamal.g2.log(),
        ),
        enc@.l1.len() <= enc@.l2.len(),
        0 <= i < enc@.l1.len(),
        0 <= j < enc@.l2[i].len(),
    ensures
        ({
            let sk = tt.parts().0.meg_sk;
            match r {
                Ok(d) => {
                    &&& seen.is_ok()
                    &&& d.tally.l1@.len() == enc@.l1.len()
                    &&& d.tally.l1@[i] == ct_decrypt(sk.x1@, sk.x2@, enc@.l1[i])
                    &&& d.tally.l2@[i]@[j] == ct_decrypt(sk.x1@, sk.x2@, enc@.l2[i][j])
                    &&& d.l1_d@[i].ciphertext@ == enc@.l1[i]
                    &&& d.l2_d@[i]@[j].ciphertext@ == enc@.l2[i][j]
                },
                Err(e) => e == Error::FailedDecryption(
                    crate::error::DecryptionError::ElementNotFound,
                ) && exists|p: Place|
                    p.within(enc@) && (#[trigger] tt.parts().0.opens(enc@.at(p))) != 0 && forall|v: u64|
                        #[trigger]
                        dlog_table_values(table).contains(v) ==> v != tt.parts().0.opens(enc@.at(p)),
            }
        }),
{
    if r is Ok {
        let d = r->Ok_0;
        law_filled_tally(d, enc@, i);
        law_verified_tally(
            d,
            tt.parts().0.key(tt.parts().1.pk),
            enc@,
            tt.parts().1.steps("tally"@),
            i,
            j,
        );
        let (p, q) = (Place::Party { i }, Place::Candidate { i, j });
        assert(p.within(enc@) && q.within(enc@));
        assert(enc@.at(p) == enc@.l1[i] && enc@.at(q) == enc@.l2[i][j]);
    } else {
        let p = choose|p: Place|
            p.within(enc@) && crate::elgamal::table_lookup(
                dlog_table_values(table),
                tt.parts().0.opens(#[trigger] enc@.at(p)),
            ) is None;
        let log = tt.parts().0.opens(enc@.at(p));
        crate::laws::decryptions::law_table_tells_logarithms(dlog_table_values(table), log);
    }
}

/// A voter's ballot is for the election, and encrypts the choice, its codes, and the
/// credential opened with the PIN.
pub proof fn law_call_vote(
    voter: Voter,
    builder: BallotBuilder,
    pin: usize,
    ballot: Ballot,
    x1: int,
    x2: int,
    i: int,
    j: int,
)
    requires
        exists|rng: &mut StdRng| #[trigger]
            call_ensures(Voter::vote, (&voter, &builder, pin, rng), ballot),
        ({
            let key = voter.parts().0.pk.key();
            key.b == red(x1 * key.r1 + x2 * key.r2)
        }),
        builder.chosen().l1@.len() == builder.chosen().l2@.len(),
        0 <= i < builder.chosen().l1@.len(),
        0 <= j < builder.chosen().l2@[i]@.len(),
        builder.chosen().l1_value <= 100,
        builder.chosen().l2_value@.len() > 0,
        builder.chosen().l2_value@[0] <= 100,
    ensures
        ballot.election_ctx@ == voter.parts().0.context_hash@,
        ({
            let choice = builder.chosen();
            let v = ballot.ver_vote;
            let credential = voter.parts().1;
            let masked = credential.masked_pin;
            let x = red(masked.masked_x@ - red(masked.partial_mask@ + pin));
            let params = voter.parts().0.pk.params;
            let a = credential.sign.A.log();
            let code1 = ct_decrypt(x1, x2, v.cai.l1_code_enc@);
            let code2 = ct_decrypt(x1, x2, v.cai.l2_code_enc@);
            &&& ct_decrypt(x1, x2, v.choice@.l1[i]) == if choice.l1@[i] == 1 {
                1int
            } else {
                0
            }
            &&& ct_decrypt(x1, x2, v.choice@.l2[i][j]) == if choice.l2@[i]@[j] == 1 {
                1int
            } else {
                0
            }
            &&& ct_decrypt(x1, x2, v.auth.A_enc@) == a
            &&& ct_decrypt(x1, x2, v.auth.Ar_enc@) == red(a * credential.sign.r@)
            &&& ct_decrypt(x1, x2, v.auth.g3x_enc@) == red(params.g3.log() * x)
            &&& ct_decrypt(x1, x2, v.auth.ox_enc@) == red(params.o.log() * x)
            &&& 0 <= code1 < 100
            &&& ct_decrypt(x1, x2, v.cai.l1_sum_enc@) == (code1 + choice.l1_value) % 100
            &&& 0 <= code2 < 100
            &&& ct_decrypt(x1, x2, v.cai.l2_sum_enc@) == (code2 + choice.l2_value@[0]) % 100
        }),
{
    let (ctx, credential) = (voter.parts().0, voter.parts().1);
    let choice = builder.chosen();
    let x = credential.masked_pin.secret(pin as int);
    let v = ballot.ver_vote;
    let key = ctx.pk.key();
    let d = choose|d: crate::protocol::vote::vote::Draws| #[trigger]
        v.made_with(ctx.pk, choice, ctx.choice, credential, x, d);
    crate::laws::credentials::law_ballot_codes(
        v,
        ctx.pk,
        choice,
        ctx.choice,
        credential,
        x,
        d,
        x1,
        x2,
    );
    crate::laws::credentials::law_ballot_credential(
        v,
        ctx.pk,
        choice,
        ctx.choice,
        credential,
        x,
        d,
        x1,
        x2,
    );
    let ext = d.choice;
    assert(v.choice@ == ext.inner());
    assert(ext.inner().l1[i] == ext.l1@[i].inner@);
    assert(ext.inner().l2[i][j] == ext.l2@[i]@[j].inner@);
    lemma_order();
    lemma_red_small(0);
    lemma_red_small(1);
    law_decrypt_encrypt(x1, x2, key, 1, ext.l1@[i].random_scalar@);
    law_decrypt_encrypt(x1, x2, key, 0, ext.l1@[i].random_scalar@);
    law_decrypt_encrypt(x1, x2, key, 1, ext.l2@[i]@[j].random_scalar@);
    law_decrypt_encrypt(x1, x2, key, 0, ext.l2@[i]@[j].random_scalar@);
}

} // verus!
