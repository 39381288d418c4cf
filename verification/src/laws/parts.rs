//! What the smaller operations give, stated of their calls.

use rand::rngs::StdRng;
use vstd::prelude::*;

use crate::api::client::{Ballot, Voter, VoterBuilder};
use crate::api::server::bb::{BallotRecord, BulletinBoardStore, InMemoryBB, VerifiedVoteRecord};
use crate::api::server::context::{ElectionContext, ElectionManifest};
use crate::api::server::pipeline::PublicPipeline;
use crate::api::server::tt::TabulationTeller;
use crate::arith::{
    lemma_order, lemma_red_add, lemma_red_mul, lemma_red_small, lemma_red_sub, red,
};
use crate::elgamal::{
    ct_decrypt, ct_views, dlog_table_values, law_decrypt_add, law_decrypt_encrypt,
    law_decrypt_scale, law_decrypt_strip, law_decrypt_sub, Ciphertext, DlogTable, ElGamalParams,
    PublicKey,
};
use crate::error::{CryptoError, Error};
use crate::group::{is_point_encoding, Point, Scalar};
use crate::laws::claims::{decrypted_list, lemma_decrypt_ranked, lemma_decrypt_sum};
use crate::laws::encodings::{key_of_points, law_context_encoding_binds, same_key, short_texts};
use crate::proofs::decryption::DecOk;
use crate::proofs::designated::{law_designated_proof, DvProof, DvPublic, DvWitness};
use crate::proofs::linkage::int_sum;
use crate::proofs::shuffle::Shuffle;
use crate::protocol::keys::{ElectionPublicKey, RTKeyPair};
use crate::protocol::tally::{
    law_honest_control, CredentialControlProof, CredentialControlPublicBorrowed,
};
use crate::protocol::vote::auth::{
    law_masked_pin, PrivateACC, PublicACC, ShortPublicACC, VotingCredential,
    VotingCredentialBuilder, PIN,
};
use crate::protocol::vote::cai::{ranked, ExtendedEncrValuesCAI, ValuesCAI};
use crate::protocol::vote::choice::{Choice, ChoiceParameters, EncrChoice};
use crate::protocol::vote::vote::{VerVote, Vote, VoteWithEncPubCred};
use crate::random::random_permutation;

verus! {

/// Calculating with ciphertexts is calculating with what they decrypt to.
pub proof fn law_call_ciphertexts(
    a: Ciphertext,
    b: Ciphertext,
    k: Scalar,
    m: Point,
    plus: Ciphertext,
    minus: Ciphertext,
    times: Ciphertext,
    less: Ciphertext,
    more: Ciphertext,
    x1: int,
    x2: int,
)
    requires
        call_ensures(Ciphertext::plus, (&a, &b), plus),
        call_ensures(Ciphertext::minus, (&a, &b), minus),
        call_ensures(Ciphertext::times, (&a, &k), times),
        call_ensures(Ciphertext::hom_sub, (&a, &m), less),
        call_ensures(Ciphertext::hom_add, (&a, &m), more),
    ensures
        ct_decrypt(x1, x2, plus@) == red(ct_decrypt(x1, x2, a@) + ct_decrypt(x1, x2, b@)),
        ct_decrypt(x1, x2, minus@) == red(ct_decrypt(x1, x2, a@) - ct_decrypt(x1, x2, b@)),
        ct_decrypt(x1, x2, times@) == red(ct_decrypt(x1, x2, a@) * k@),
        ct_decrypt(x1, x2, less@) == red(ct_decrypt(x1, x2, a@) - m.log()),
        ct_decrypt(x1, x2, more@) == red(ct_decrypt(x1, x2, a@) + m.log()),
        less@.r1 == a@.r1 && less@.r2 == a@.r2,
        more@.r1 == a@.r1 && more@.r2 == a@.r2,
{
    law_decrypt_add(x1, x2, a@, b@);
    law_decrypt_sub(x1, x2, a@, b@);
    law_decrypt_scale(x1, x2, a@, k@);
    law_decrypt_strip(x1, x2, a@, m.log());
    let p = x1 * a@.r1 + x2 * a@.r2;
    lemma_red_sub(a@.b + m.log(), p);
    lemma_red_add(a@.b - p, m.log());
}

/// Each number times its rank, counted from one.
pub open spec fn times_rank(list: Seq<int>) -> Seq<int> {
    Seq::new(list.len(), |j: int| (j + 1) * list[j])
}

/// The sum by rank adds each number times its rank.
pub proof fn law_sum_by_rank(list: Seq<int>)
    ensures
        ranked(list) == int_sum(times_rank(list)),
    decreases list.len(),
{
    if list.len() > 0 {
        law_sum_by_rank(list.drop_last());
        assert(times_rank(list).drop_last() =~= times_rank(list.drop_last()));
        let n = list.len() as int;
        assert(n * list.last() == list.last() * n) by (nonlinear_arith);
    }
}

/// Sums of ciphertexts decrypt to the sum, and to the sum by rank.
pub proof fn law_call_sums(
    cts: &[Ciphertext],
    skip: usize,
    sum: Ciphertext,
    by_rank: Ciphertext,
    x1: int,
    x2: int,
)
    requires
        call_ensures(Ciphertext::sum, (cts,), sum),
        call_ensures(Ciphertext::ranked_sum, (cts, skip), by_rank),
        skip <= cts@.len(),
    ensures
        ct_decrypt(x1, x2, sum@) == red(int_sum(decrypted_list(x1, x2, ct_views(cts@)))),
        ct_decrypt(x1, x2, by_rank@) == red(
            int_sum(times_rank(decrypted_list(x1, x2, ct_views(cts@).skip(skip as int)))),
        ),
{
    lemma_decrypt_sum(x1, x2, ct_views(cts@));
    lemma_decrypt_ranked(x1, x2, ct_views(cts@).skip(skip as int));
    law_sum_by_rank(decrypted_list(x1, x2, ct_views(cts@).skip(skip as int)));
}

/// A table finds the logarithm of a point exactly where it holds it; zero is
/// always found.
pub proof fn law_call_table(values: Vec<u64>, table: DlogTable, point: Point, r: Option<u64>)
    requires
        call_ensures(DlogTable::new, (values,), table),
        call_ensures(DlogTable::get, (&table, &point), r),
    ensures
        r matches Some(v) ==> v == point.log(),
        r.is_some() <==> point.log() == 0 || exists|i: int|
            0 <= i < values@.len() && #[trigger] values@[i] == point.log(),
{
    let s = values@.to_set();
    crate::laws::decryptions::law_table_tells_logarithms(s, point.log());
    if exists|i: int| 0 <= i < values@.len() && #[trigger] values@[i] == point.log() {
        let i = choose|i: int| 0 <= i < values@.len() && #[trigger] values@[i] == point.log();
        assert(values@.contains(values@[i]));
        assert(s.contains(values@[i]));
    }
    if r.is_some() && point.log() != 0 {
        assert(s.contains(r->0));
        assert(values@.contains(r->0));
    }
}

/// Opening a ciphertext with its randomness gives what it encrypts, and any other
/// randomness is refused.
pub proof fn law_call_open(
    pk: PublicKey,
    params: ElGamalParams,
    table: DlogTable,
    ct: Ciphertext,
    r: Scalar,
    res: Result<Scalar, CryptoError>,
    x1: int,
    x2: int,
)
    requires
        call_ensures(PublicKey::exp_dec_with_rnd, (&pk, &params, &table, &ct, &r), res),
        pk.h.log() == red(x1 * params.g1.log() + x2 * params.g2.log()),
    ensures
        res.is_ok() ==> ct_decrypt(x1, x2, ct@) == res->Ok_0@,
        res.is_ok() ==> ct@.r1 == red(params.g1.log() * r@) && ct@.r2 == red(
            params.g2.log() * r@,
        ),
        (ct@.r1 != red(params.g1.log() * r@) || ct@.r2 != red(params.g2.log() * r@)) <==> res
            == Err::<Scalar, CryptoError>(CryptoError::RandomPointMismatch),
{
    if res.is_ok() {
        let t = dlog_table_values(table);
        crate::laws::decryptions::law_table_tells_logarithms(
            t,
            red(ct@.b - pk.h.log() * r@),
        );
        crate::laws::credentials::law_opened_value_is_encrypted(
            x1,
            x2,
            pk.key(params),
            t,
            ct@,
            r@,
        );
    }
}

/// Nothing is encrypted by the neutral choice, at each place of the parameters.
pub proof fn law_call_identity(
    params: ChoiceParameters,
    r: EncrChoice,
    x1: int,
    x2: int,
    i: int,
    j: int,
)
    requires
        params.wf(),
        call_ensures(EncrChoice::identity, (&params,), r),
        0 <= i < params.n1,
        0 <= j < params.ln2@[i],
    ensures
        r@.l1.len() == params.n1,
        r@.l2.len() == params.n1,
        r@.l2[i].len() == params.ln2@[i],
        ct_decrypt(x1, x2, r@.l1[i]) == 0,
        ct_decrypt(x1, x2, r@.l2[i][j]) == 0,
{
    crate::laws::refusals::law_sum_starts_from_nothing(params, x1, x2, i, j);
}

/// To allow no preference adds one candidate to each party but the first.
pub proof fn law_call_no_preference(before: ChoiceParameters, after: ChoiceParameters, i: int)
    requires
        exists|c: &mut ChoiceParameters|
            *c == before && *final(c) == after && #[trigger] call_ensures(
                ChoiceParameters::add_no_preference_l2,
                (c,),
                (),
            ),
        before.wf(),
        0 <= i < before.n1,
    ensures
        after.n1 == before.n1,
        after.ln2@.len() == before.ln2@.len(),
        i == 0 ==> after.ln2@[i] == before.ln2@[i],
        i > 0 ==> after.ln2@[i] == before.ln2@[i] + 1,
{
}

/// Codes are below the modulus, sums are code plus choice, and what is encrypted of
/// them decrypts to the code and to the sum modulo one hundred.
pub proof fn law_call_codes(
    choice: Choice,
    n_digits: u32,
    values: ValuesCAI,
    pk: ElectionPublicKey,
    enc: ExtendedEncrValuesCAI,
    x1: int,
    x2: int,
)
    requires
        exists|rng: &mut StdRng| #[trigger]
            call_ensures(ValuesCAI::new, (&choice, n_digits, rng), values),
        exists|rng: &mut StdRng| #[trigger]
            call_ensures(ExtendedEncrValuesCAI::new, (&values, &pk, rng), enc),
        choice.l1_value <= u32::MAX,
        choice.l2@.len() > 0 ==> choice.l2_value@.len() > 0 && choice.l2_value@[0] <= u32::MAX,
        pk.key().b == red(x1 * pk.key().r1 + x2 * pk.key().r2),
    ensures
        values.l1_code < n_digits,
        values.l2_code < n_digits,
        values.l1_sum == values.l1_code + choice.l1_value,
        choice.l2@.len() > 0 ==> values.l2_sum == values.l2_code + choice.l2_value@[0],
        choice.l2@.len() == 0 ==> values.l2_sum == values.l2_code,
        ct_decrypt(x1, x2, enc.l1_code_enc.inner@) == values.l1_code,
        ct_decrypt(x1, x2, enc.l2_code_enc.inner@) == values.l2_code,
        ct_decrypt(x1, x2, enc.l1_sum_enc.inner@) == values.l1_sum % 100,
        ct_decrypt(x1, x2, enc.l2_sum_enc.inner@) == values.l2_sum % 100,
{
    let key = pk.key();
    let (s1, s2) = ((values.l1_sum % 100) as int, (values.l2_sum % 100) as int);
    lemma_order();
    lemma_red_small(values.l1_code as int);
    lemma_red_small(values.l2_code as int);
    lemma_red_small(s1);
    lemma_red_small(s2);
    law_decrypt_encrypt(x1, x2, key, values.l1_code as int, enc.l1_code_enc.random_scalar@);
    law_decrypt_encrypt(x1, x2, key, values.l2_code as int, enc.l2_code_enc.random_scalar@);
    law_decrypt_encrypt(x1, x2, key, s1, enc.l1_sum_enc.random_scalar@);
    law_decrypt_encrypt(x1, x2, key, s2, enc.l2_sum_enc.random_scalar@);
}

/// A control that is proved with registration's secret is accepted, and carries the
/// credential times that secret.
pub proof fn law_call_control(
    public: CredentialControlPublicBorrowed<'_>,
    secret: Scalar,
    p: CredentialControlProof,
    seen: Result<(), CryptoError>,
    x1: int,
    x2: int,
)
    requires
        exists|rng: &mut StdRng| #[trigger]
            call_ensures(CredentialControlProof::prove, (&public, &secret, rng), p),
        call_ensures(CredentialControlProof::verify, (&p, &public), seen),
    ensures
        public.registration_pk.log() == red(public.g3.log() * secret@) ==> seen.is_ok(),
        ct_decrypt(x1, x2, p.Ay_enc@) == red(ct_decrypt(x1, x2, public.A_enc@) * secret@),
{
    law_decrypt_scale(x1, x2, public.A_enc@, secret@);
    if public.registration_pk.log() == red(public.g3.log() * secret@) {
        law_honest_control(public@, secret@, p);
    }
}

/// A designated proof is accepted from whoever knows the common logarithm, and from
/// the verifier, who knows the secret key.
pub proof fn law_call_designated(
    public: DvPublic,
    x: Scalar,
    p: DvProof,
    q: DvProof,
    seen: Result<(), CryptoError>,
    also: Result<(), CryptoError>,
)
    requires
        exists|rng: &mut StdRng| #[trigger]
            call_ensures(DvProof::prove, (&public, &DvWitness::First { x }, rng), p),
        exists|rng: &mut StdRng| #[trigger]
            call_ensures(DvProof::prove, (&public, &DvWitness::Second { x }, rng), q),
        call_ensures(DvProof::verify, (&p, &public), seen),
        call_ensures(DvProof::verify, (&q, &public), also),
    ensures
        public.pv.log() == red(public.base0.log() * x@) ==> seen.is_ok(),
        public.p1a.log() == red(public.b1a.log() * x@) && public.p1b.log() == red(
            public.b1b.log() * x@,
        ) ==> also.is_ok(),
{
    if public.pv.log() == red(public.base0.log() * x@) {
        law_designated_proof(public@, DvWitness::First { x }, p);
    }
    if public.p1a.log() == red(public.b1a.log() * x@) && public.p1b.log() == red(
        public.b1b.log() * x@,
    ) {
        law_designated_proof(public@, DvWitness::Second { x }, q);
    }
}

/// What a voter gets of a credential opens, with the PIN and with no other number,
/// to the secret that registration signed.
pub proof fn law_call_builder(
    private: PrivateACC,
    value: usize,
    builder: VotingCredentialBuilder,
    guess: usize,
    x: Scalar,
)
    requires
        call_ensures(PIN::get_pin_value, (&private.pin,), value),
        call_ensures(VotingCredentialBuilder::new, (&private,), builder),
        call_ensures(VotingCredentialBuilder::get_x, (&builder, guess), x),
    ensures
        builder.sign == private.sign,
        x@ == red(private.pin.x@ + value - guess),
        x@ == private.pin.x@ <==> guess == value,
{
    law_masked_pin(private.pin, builder.masked_pin, guess as int);
    if x@ == private.pin.x@ {
        let d = value - guess;
        lemma_order();
        private.pin.x.lemma_bounds();
        lemma_red_small(private.pin.x@);
        lemma_red_sub(private.pin.x@ + d, private.pin.x@);
        lemma_red_small(0);
        if d >= 0 {
            lemma_red_small(d);
        } else {
            lemma_red_sub(0, d);
            lemma_red_small(-d);
        }
    }
}

/// A credential opens as its builder does; another mask changes nothing but the
/// mask.
pub proof fn law_call_credential(
    credential: VotingCredential,
    builder: VotingCredentialBuilder,
    guess: usize,
    x: Scalar,
    y: Scalar,
    mask: Scalar,
    other: VotingCredential,
    z: Scalar,
)
    requires
        call_ensures(VotingCredential::to_builder, (credential,), builder),
        call_ensures(VotingCredential::get_x, (&credential, guess), x),
        call_ensures(VotingCredentialBuilder::get_x, (&builder, guess), y),
        call_ensures(VotingCredential::set_mask, (credential, mask), other),
        call_ensures(VotingCredential::get_x, (&other, guess), z),
    ensures
        builder.sign == credential.sign,
        x@ == y@,
        other.sign == credential.sign,
        other.dvnizkp == credential.dvnizkp,
        z@ == red(credential.masked_pin.masked_x@ - red(mask@ + guess)),
{
}

/// A published credential is accepted, and encrypts its signature's point.
pub proof fn law_call_publish(
    pk: ElectionPublicKey,
    pair: RTKeyPair,
    acc: PublicACC,
    seen: Result<ShortPublicACC, CryptoError>,
    short: ShortPublicACC,
    x1: int,
    x2: int,
)
    requires
        exists|rng: &mut StdRng| #[trigger]
            call_ensures(PublicACC::new, (&pk, &pair, rng), acc),
        call_ensures(PublicACC::verify, (&acc, &pk), seen),
        call_ensures(PublicACC::to_short, (&acc,), short),
        pk.key().b == red(x1 * pk.key().r1 + x2 * pk.key().r2),
    ensures
        seen == Ok::<ShortPublicACC, CryptoError>(short),
        ct_decrypt(x1, x2, short.enc_A@) == acc.sign.A.log(),
{
    let p = choose|p: PrivateACC|
        {
            &&& #[trigger] p.wf(pair, pk)
            &&& acc.sign == p.sign
            &&& acc.enc_sign.enc_A == p.enc_sign.enc_A.inner
        };
    acc.sign.A.lemma_bounds();
    lemma_red_small(acc.sign.A.log());
    law_decrypt_encrypt(
        x1,
        x2,
        pk.key(),
        acc.sign.A.log(),
        p.enc_sign.enc_A.random_scalar@,
    );
}

/// Checks that a teller decrypts are accepted where the teller has the tally key,
/// and each is the decryption of its vote's check.
pub proof fn law_call_acc_checks(
    tt: TabulationTeller,
    bb: PublicPipeline,
    votes: Vec<Vote>,
    records: Vec<VerifiedVoteRecord>,
    controls: Vec<CredentialControlProof>,
    r: Result<Vec<DecOk>, Error>,
    seen: Result<(), Error>,
    i: int,
)
    requires
        tt.wf(),
        bb.election.ctx.same(tt.parts().1),
        records@.len() == votes@.len(),
        forall|k: int|
            0 <= k < votes@.len() ==> (#[trigger] records@[k]).vote@ == votes@[k]@,
        exists|rng: &mut StdRng| #[trigger]
            call_ensures(TabulationTeller::gen_acc_checks, (&tt, &votes, &controls, rng), r),
        r matches Ok(list) ==> call_ensures(
            PublicPipeline::verify_acc_checks,
            (&bb, &list, &controls, &records),
            seen,
        ),
        r.is_ok(),
        0 <= i < votes@.len(),
    ensures
        seen.is_ok(),
        r->Ok_0@.len() == votes@.len(),
        r->Ok_0@[i].plaintext.log() == ct_decrypt(
            tt.parts().0.meg_sk.x1@,
            tt.parts().0.meg_sk.x2@,
            r->Ok_0@[i].ciphertext@,
        ),
        ({
            let (x1, x2) = (tt.parts().0.meg_sk.x1@, tt.parts().0.meg_sk.x2@);
            let vote = votes@[i]@;
            r->Ok_0@[i].plaintext.log() == red(
                ct_decrypt(x1, x2, vote.ar) - tt.parts().1.pk.params.elgamal.g1.log() - ct_decrypt(
                    x1,
                    x2,
                    vote.g3x,
                ) + ct_decrypt(x1, x2, controls@[i].Ay_enc@),
            )
        }),
{
    let list = r->Ok_0@;
    let sk = tt.parts().0.meg_sk;
    let pk = tt.parts().1.pk;
    let views = crate::protocol::mix::vote_views(votes@);
    assert(crate::api::server::pipeline::record_views(records@) =~= views);
    crate::laws::decryptions::law_decrypted_list(
        list,
        sk,
        crate::protocol::teller::checks(pk, views, controls@),
        i,
    );
    crate::laws::filters::law_checked_votes(
        pk,
        views,
        controls@,
        list,
        votes@.len() as int,
        i,
        sk.x1@,
        sk.x2@,
    );
}

/// The digest of an election is that of its public data, and of no others with the
/// same input to the digest.
pub proof fn law_call_context(
    manifest: ElectionManifest,
    pk: ElectionPublicKey,
    choice: ChoiceParameters,
    ctx: ElectionContext,
    other_manifest: ElectionManifest,
    other_pk: ElectionPublicKey,
    other_choice: ChoiceParameters,
    other: ElectionContext,
) -> (inputs: (Seq<u8>, Seq<u8>))
    requires
        call_ensures(ElectionContext::new, (manifest, pk, choice), ctx),
        call_ensures(ElectionContext::new, (other_manifest, other_pk, other_choice), other),
        short_texts(manifest@) && short_texts(other_manifest@),
        key_of_points(pk) && key_of_points(other_pk),
        choice.ln2@.len() <= u64::MAX,
        other_choice.ln2@.len() <= u64::MAX,
    ensures
        ctx.manifest@ == manifest@ && ctx.pk == pk && ctx.choice == choice,
        ctx.context_hash@ == crate::encoding::sha3_256(inputs.0),
        other.context_hash@ == crate::encoding::sha3_256(inputs.1),
        inputs.0 == inputs.1 ==> {
            &&& manifest@ == other_manifest@
            &&& same_key(pk, other_pk)
            &&& choice.n1 == other_choice.n1
            &&& choice.ln2@ == other_choice.ln2@
        },
{
    let a = crate::api::server::context::context_encoding(manifest@, pk, choice);
    let b = crate::api::server::context::context_encoding(
        other_manifest@,
        other_pk,
        other_choice,
    );
    if a == b {
        law_context_encoding_binds(
            manifest@,
            other_manifest@,
            pk,
            other_pk,
            choice,
            other_choice,
        );
    }
    (a, b)
}

/// What is posted is listed, last and with the next number; all that was posted
/// before stays.
pub proof fn law_call_post_ballot(
    before: InMemoryBB,
    after: InMemoryBB,
    ballot: Ballot,
    at: u64,
    r: Result<BallotRecord, Error>,
    first: Vec<BallotRecord>,
    second: Vec<BallotRecord>,
    i: int,
)
    requires
        before.wf(),
        exists|b: &mut InMemoryBB|
            *b == before && *final(b) == after && #[trigger] call_ensures(
                InMemoryBB::post_ballot,
                (b, ballot, at),
                r,
            ),
        call_ensures(InMemoryBB::list_ballots, (&before,), first),
        call_ensures(InMemoryBB::list_ballots, (&after,), second),
    ensures
        r.is_ok(),
        second@.len() == first@.len() + 1,
        r->Ok_0.receipt.seq_no == first@.len(),
        r->Ok_0.receipt.received_at_unix_ms == at,
        r->Ok_0.ballot == ballot,
        second@.last().same(r->Ok_0),
        0 <= i < first@.len() ==> {
            &&& second@[i].receipt == first@[i].receipt
            &&& second@[i].receipt.seq_no == i
            &&& second@[i].ballot.ver_vote.vote() == first@[i].ballot.ver_vote.vote()
        },
{
    before.law_receipts();
    if 0 <= i < first@.len() {
        assert(after.posted().drop_last()[i] == after.posted()[i]);
        assert(second@[i].same(after.posted()[i]));
        assert(first@[i].same(before.posted()[i]));
    }
    let k = second@.len() - 1;
    assert(second@[k].same(after.posted()[k]));
}

/// Controls and verified votes that are posted are listed behind those that were
/// posted before.
pub proof fn law_call_post_lists(
    before: InMemoryBB,
    after: InMemoryBB,
    last: InMemoryBB,
    controls: Vec<CredentialControlProof>,
    votes: Vec<VerifiedVoteRecord>,
    first: Vec<CredentialControlProof>,
    second: Vec<CredentialControlProof>,
    old_votes: Vec<VerifiedVoteRecord>,
    new_votes: Vec<VerifiedVoteRecord>,
    ballots: Vec<BallotRecord>,
    i: int,
)
    requires
        exists|b: &mut InMemoryBB|
            *b == before && *final(b) == after && #[trigger] call_ensures(
                InMemoryBB::post_controls,
                (b, controls),
                Ok(()),
            ),
        exists|b: &mut InMemoryBB|
            *b == after && *final(b) == last && #[trigger] call_ensures(
                InMemoryBB::post_verified_votes,
                (b, votes),
                Ok(()),
            ),
        call_ensures(InMemoryBB::list_controls, (&before,), first),
        call_ensures(InMemoryBB::list_controls, (&last,), second),
        call_ensures(InMemoryBB::list_verified_votes, (&before,), old_votes),
        call_ensures(InMemoryBB::list_verified_votes, (&last,), new_votes),
        call_ensures(InMemoryBB::list_ballots, (&last,), ballots),
    ensures
        second@ == first@ + controls@,
        new_votes@.len() == old_votes@.len() + votes@.len(),
        0 <= i < old_votes@.len() ==> new_votes@[i].same(old_votes@[i]),
        0 <= i < votes@.len() ==> new_votes@[old_votes@.len() + i].same(votes@[i]),
        ballots@.len() == before.posted().len(),
{
    if 0 <= i < old_votes@.len() {
        assert(old_votes@[i].same(before.posted_votes()[i]));
        assert(new_votes@[i].same(last.posted_votes()[i]));
    }
    if 0 <= i < votes@.len() {
        let k = old_votes@.len() + i;
        assert(new_votes@[k].same(last.posted_votes()[k]));
    }
}

/// What a voter carries over: election, credential and keys.
pub proof fn law_call_voter(
    builder: VoterBuilder,
    credential: VotingCredential,
    voter: Voter,
    again: VoterBuilder,
)
    requires
        call_ensures(VoterBuilder::finalize, (builder, credential), voter),
        call_ensures(Voter::to_builder, (voter,), again),
    ensures
        voter.parts().0 == builder.parts().0,
        voter.parts().1 == credential,
        voter.parts().2 == builder.parts().2,
        again.parts().0 == builder.parts().0,
        again.parts().2 == builder.parts().2,
        again.parts().1.sign == credential.sign,
        again.parts().1.masked_pin == credential.masked_pin,
{
}

/// A vote taken from a ballot, and what is left of it after its credential was
/// checked, hold the ballot's own ciphertexts.
pub proof fn law_call_vote_parts(ballot: VerVote, vote: Vote, rest: VoteWithEncPubCred)
    requires
        call_ensures(VerVote::to_vote, (&ballot,), vote),
        call_ensures(Vote::strip, (&vote,), rest),
    ensures
        vote.choice@ == ballot.choice@,
        vote.auth.A_enc@ == ballot.auth.A_enc@,
        vote.auth.Ar_enc@ == ballot.auth.Ar_enc@,
        vote.auth.g3x_enc@ == ballot.auth.g3x_enc@,
        rest.choice@ == ballot.choice@,
        rest.A_enc@ == ballot.auth.A_enc@,
{
    assert(vote@ == ballot.vote());
}

/// A point is read back from its bytes, and equal points are those with equal bytes.
pub proof fn law_call_point_bytes(
    p: Point,
    q: Point,
    p_bytes: [u8; 32],
    q_bytes: [u8; 32],
    bytes: &[u8],
    again: Option<Point>,
    equal: bool,
)
    requires
        call_ensures(Point::to_bytes, (&p,), p_bytes),
        call_ensures(Point::to_bytes, (&q,), q_bytes),
        call_ensures(Point::equals, (&p, &q), equal),
        bytes@ == p_bytes@,
        call_ensures(Point::from_bytes, (bytes,), again),
    ensures
        again.is_some(),
        again->0.log() == p.log(),
        equal <==> p_bytes@ == q_bytes@,
        equal <==> p.log() == q.log(),
{
    p.lemma_bounds();
}

/// A scalar is read back from its bytes, the least significant first; no other
/// bytes are read as it.
pub proof fn law_call_scalar_bytes(
    s: Scalar,
    s_bytes: [u8; 32],
    bytes: &[u8],
    again: Option<Scalar>,
    number: u64,
    small: Scalar,
)
    requires
        call_ensures(Scalar::to_bytes, (&s,), s_bytes),
        bytes@.len() == 32,
        call_ensures(Scalar::from_bytes, (bytes,), again),
        call_ensures(Scalar::from_u64, (number,), small),
    ensures
        bytes@ == s_bytes@ ==> again.is_some() && again->0@ == s@,
        (again matches Some(a) && a@ == s@) ==> bytes@ == s_bytes@,
        small@ == number,
{
    s.lemma_bounds();
    if again is Some && again->0@ == s@ {
        crate::group::lemma_le_injective(bytes@, s_bytes@);
    }
}

/// A ciphertext of points is read back from its bytes, and from nothing shorter or
/// longer.
pub proof fn law_call_ciphertext_bytes(
    ct: Ciphertext,
    ct_bytes: Vec<u8>,
    bytes: &[u8],
    again: Option<Ciphertext>,
)
    requires
        is_point_encoding(ct.random_point.encoding()),
        is_point_encoding(ct.random_point2.encoding()),
        is_point_encoding(ct.blinded_point.encoding()),
        call_ensures(Ciphertext::to_bytes, (&ct,), ct_bytes),
        call_ensures(Ciphertext::from_bytes, (bytes,), again),
    ensures
        bytes@ == ct_bytes@ ==> again.is_some() && again->0@ == ct@,
        again.is_some() ==> bytes@.len() == 96,
{
    ct.random_point.lemma_canonical();
    ct.random_point2.lemma_canonical();
    ct.blinded_point.lemma_canonical();
    let (a, b, c) = (
        ct.random_point.encoding(),
        ct.random_point2.encoding(),
        ct.blinded_point.encoding(),
    );
    if bytes@ == ct_bytes@ {
        assert(bytes@.subrange(0, 32) =~= a);
        assert(bytes@.subrange(32, 64) =~= b);
        assert(bytes@.subrange(64, 96) =~= c);
    }
}

/// Subtraction undoes addition, of points and of scalars; multiplication goes over
/// both; and the inverse of a scalar undoes multiplication by it.
pub proof fn law_call_arithmetic(
    p: Point,
    q: Point,
    sum: Point,
    back: Point,
    k: Scalar,
    m: Scalar,
    both: Scalar,
    rest: Scalar,
    inverse: Scalar,
    product: Point,
    quotient: Point,
    twice: Point,
    km: Scalar,
    once: Point,
)
    requires
        call_ensures(Point::plus, (&p, &q), sum),
        call_ensures(Point::minus, (&sum, &q), back),
        call_ensures(Scalar::plus, (&k, &m), both),
        call_ensures(Scalar::minus, (&both, &m), rest),
        call_ensures(Scalar::inverse, (&k,), inverse),
        call_ensures(Point::times, (&p, &k), product),
        call_ensures(Point::times, (&product, &inverse), quotient),
        call_ensures(Point::times, (&product, &m), twice),
        call_ensures(Scalar::times, (&k, &m), km),
        call_ensures(Point::times, (&p, &km), once),
    ensures
        back.log() == p.log(),
        rest@ == k@,
        k@ != 0 ==> quotient.log() == p.log(),
        twice.log() == once.log(),
{
    p.lemma_bounds();
    k.lemma_bounds();
    lemma_red_small(p.log());
    lemma_red_small(k@);
    lemma_red_sub(p.log() + q.log(), q.log());
    lemma_red_sub(k@ + m@, m@);
    let (a, x, y, i) = (p.log(), k@, m@, inverse@);
    lemma_red_mul(a * x, y);
    lemma_red_mul(a, x * y);
    assert(a * x * y == a * (x * y)) by (nonlinear_arith);
    assert(red(a * x) * y == y * red(a * x)) by (nonlinear_arith);
    if x != 0 {
        lemma_red_mul(a * x, i);
        lemma_red_mul(a, i * x);
        assert(a * x * i == a * (i * x)) by (nonlinear_arith);
        assert(a * 1 == a);
    }
}

/// The proof of a shuffle is read back from its text.
pub proof fn law_call_shuffle_text(shuffle: Shuffle, text: Option<String>, again: Option<Shuffle>)
    requires
        call_ensures(Shuffle::to_text, (&shuffle,), text),
        text matches Some(t) ==> call_ensures(Shuffle::from_text, (&t,), again),
    ensures
        text.is_some() ==> again.is_some() && again->0.parts() == shuffle.parts(),
{
}

/// A random permutation hits each position once.
pub proof fn law_call_permutation(n: usize, perm: Vec<usize>, i: int) -> (k: int)
    requires
        exists|rng: &mut StdRng| #[trigger] call_ensures(random_permutation, (n, rng), perm),
        0 <= i < n,
    ensures
        perm@.len() == n,
        0 <= k < n,
        perm@[k] == i,
        forall|h: int| 0 <= h < n && h != k ==> #[trigger] perm@[h] != i,
{
    crate::api::server::run::lemma_reaches(perm@, n as int, i)
}

} // verus!
