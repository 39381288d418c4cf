//! What the verification of ballots and credentials looks at, and what the
//! challenges are bound to.

use vstd::prelude::*;
use vstd::utf8::encode_utf8;

use crate::api::client::Ballot;
use crate::api::server::context::ElectionContext;
use crate::arith::red;
use crate::elgamal::{ct_encoding, CtView};
use crate::error::CryptoError;
use crate::group::point_encoding;
use crate::proofs::compound::{
    challenge_trace, challenges_at, commit_trace, first_objection, kinds, list_verdict, objections,
    proof_commitments,
};
use crate::proofs::designated::{DvProof, DvView};
use crate::proofs::relation::{
    challenges, commit_steps, objection, Kind, ProofView, RelationView, StatementView,
};
use crate::protocol::keys::{ElectionPublicKey, VoterPublicKey};
use crate::protocol::vote::auth::{PublicACC, VotingCredential};
use crate::protocol::vote::auth_proof::auth_claims;
use crate::protocol::vote::ballot_proof::{
    ballot_verdict, before_auth, before_cai, before_choice, committed, Claims, ProofViews,
};
use crate::protocol::vote::cai::cai_claims;
use crate::protocol::vote::choice_proof::choice_claims;
use crate::protocol::vote::vote::{ballot_steps, VerVote};
use crate::transcript::{challenge, challenge_value, Entry};

verus! {

/// Whether a transcript holds the bytes as a message.
pub open spec fn held(entries: Seq<Entry>, bytes: Seq<u8>) -> bool {
    exists|e: int| 0 <= e < entries.len() && (#[trigger] entries[e]).1 == bytes && entries[e].2 == 0
}

/// Whether a transcript holds all ciphertexts of the proofs' commitments.
pub open spec fn commitments_held(entries: Seq<Entry>, proofs: Seq<ProofView>) -> bool {
    forall|k: int, i: int|
        0 <= k < proofs.len() && 0 <= i < proofs[k].commitments.len() ==> held(
            entries,
            ct_encoding(#[trigger] proofs[k].commitments[i]),
        )
}

/// The challenges that a proof of the statement must answer, drawn from a
/// transcript with these entries.
pub open spec fn drawn(s: StatementView, entries: Seq<Entry>) -> Seq<int> {
    if s.relation is NotId {
        seq![
            challenge_value(entries, "c1"@),
            challenge_value(entries.push(challenge("c1"@)), "c2"@),
        ]
    } else {
        seq![challenge_value(entries, "c"@)]
    }
}

/// Whether the proof of a statement is accepted for a challenge that is bound to
/// `start` and to the commitments of all three lists of proofs.
pub open spec fn answers_bound_challenge(
    s: StatementView,
    p: ProofView,
    start: Seq<Entry>,
    a: Seq<ProofView>,
    b: Seq<ProofView>,
    c: Seq<ProofView>,
) -> bool {
    exists|entries: Seq<Entry>|
        {
            &&& start.is_prefix_of(entries)
            &&& commitments_held(entries, a)
            &&& commitments_held(entries, b)
            &&& commitments_held(entries, c)
            &&& objection(s, p, #[trigger] drawn(s, entries)) is None
        }
}

proof fn lemma_held_in_sum(a: Seq<Entry>, b: Seq<Entry>, bytes: Seq<u8>)
    requires
        held(a, bytes) || held(b, bytes),
    ensures
        held(a + b, bytes),
{
    if held(a, bytes) {
        let e = choose|e: int| 0 <= e < a.len() && (#[trigger] a[e]).1 == bytes && a[e].2 == 0;
        assert((a + b)[e] == a[e]);
    } else {
        let e = choose|e: int| 0 <= e < b.len() && (#[trigger] b[e]).1 == bytes && b[e].2 == 0;
        assert((a + b)[a.len() + e] == b[e]);
    }
}

/// What a prefix holds, the whole holds.
proof fn lemma_prefix_held(a: Seq<Entry>, b: Seq<Entry>, proofs: Seq<ProofView>)
    requires
        commitments_held(a, proofs) || commitments_held(b, proofs),
    ensures
        commitments_held(a + b, proofs),
{
    assert forall|k: int, i: int|
        0 <= k < proofs.len() && 0 <= i < proofs[k].commitments.len() implies held(
        a + b,
        ct_encoding(#[trigger] proofs[k].commitments[i]),
    ) by {
        lemma_held_in_sum(a, b, ct_encoding(proofs[k].commitments[i]));
    }
}

/// The steps that append all commitments hold each of them.
proof fn lemma_trace_held(ks: Seq<Kind>, proofs: Seq<ProofView>)
    requires
        ks.len() == proofs.len(),
    ensures
        commitments_held(commit_trace(ks, proof_commitments(proofs)), proofs),
    decreases ks.len(),
{
    let cts = proof_commitments(proofs);
    let all = commit_trace(ks, cts);
    if ks.len() > 0 {
        let less = proofs.drop_last();
        lemma_trace_held(ks.drop_last(), less);
        assert(cts.drop_last() =~= proof_commitments(less));
        let before = commit_trace(ks.drop_last(), cts.drop_last());
        let last = commit_steps(ks.last(), cts.last());
        assert forall|k: int, i: int|
            0 <= k < proofs.len() && 0 <= i < proofs[k].commitments.len() implies held(
            all,
            ct_encoding(#[trigger] proofs[k].commitments[i]),
        ) by {
            let bytes = ct_encoding(proofs[k].commitments[i]);
            if k < less.len() {
                assert(less[k].commitments[i] == proofs[k].commitments[i]);
                assert(held(before, bytes));
            } else {
                assert(cts.last() == proofs[k].commitments);
                assert(last[i].1 == bytes && last[i].2 == 0);
                assert(held(last, bytes));
            }
            lemma_held_in_sum(before, last, bytes);
        }
    }
}

/// Where nothing is objected to, there is no objection at all.
proof fn lemma_no_objection(found: Seq<Option<CryptoError>>, k: int)
    requires
        first_objection(found).is_ok(),
        0 <= k < found.len(),
    ensures
        found[k] is None,
    decreases found.len(),
{
    if k > 0 {
        lemma_no_objection(found.skip(1), k - 1);
    }
}

/// The challenges are those that are drawn.
proof fn lemma_drawn(claims: Seq<StatementView>, entries: Seq<Entry>, k: int)
    requires
        0 <= k < claims.len(),
    ensures
        challenges_at(kinds(claims), entries, k) == drawn(
            claims[k],
            entries + challenge_trace(kinds(claims).take(k)),
        ),
{
    assert(kinds(claims)[k] == claims[k].kind());
}

/// A list of proofs is accepted only if each proof is, for a challenge that is
/// bound to what the transcript held before and to all commitments.
pub proof fn law_every_proof_is_checked(
    claims: Seq<StatementView>,
    proofs: Seq<ProofView>,
    start: Seq<Entry>,
    k: int,
)
    requires
        proofs.len() == claims.len(),
        list_verdict(claims, proofs, start).is_ok(),
        0 <= k < claims.len(),
    ensures
        answers_bound_challenge(claims[k], proofs[k], start, proofs, seq![], seq![]),
{
    let trace = commit_trace(kinds(claims), proof_commitments(proofs));
    let entries = start + trace;
    let more = challenge_trace(kinds(claims).take(k));
    let all = entries + more;
    lemma_no_objection(objections(claims, proofs, entries), k);
    lemma_drawn(claims, entries, k);
    lemma_trace_held(kinds(claims), proofs);
    lemma_prefix_held(start, trace, proofs);
    lemma_prefix_held(entries, more, proofs);
    assert(start.is_prefix_of(all)) by {
        assert(all.subrange(0, start.len() as int) =~= start);
    }
    assert(objection(claims[k], proofs[k], drawn(claims[k], all)) is None);
}

/// A ballot's proof is accepted only if each proof of each part is, for a
/// challenge that is bound to the ballot and to all commitments of all parts.
pub proof fn law_every_part_is_checked(claims: Claims, proofs: ProofViews, start: Seq<Entry>, k: int)
    requires
        proofs.choice.len() == claims.choice.len(),
        proofs.cai.len() == claims.cai.len(),
        proofs.auth.len() == claims.auth.len(),
        ballot_verdict(claims, proofs, start).is_ok(),
    ensures
        0 <= k < claims.choice.len() ==> answers_bound_challenge(
            claims.choice[k],
            proofs.choice[k],
            start,
            proofs.choice,
            proofs.cai,
            proofs.auth,
        ),
        0 <= k < claims.cai.len() ==> answers_bound_challenge(
            claims.cai[k],
            proofs.cai[k],
            start,
            proofs.choice,
            proofs.cai,
            proofs.auth,
        ),
        0 <= k < claims.auth.len() ==> answers_bound_challenge(
            claims.auth[k],
            proofs.auth[k],
            start,
            proofs.choice,
            proofs.cai,
            proofs.auth,
        ),
{
    let entries = committed(claims, proofs, start);
    lemma_committed(claims, proofs, start);
    if 0 <= k < claims.choice.len() {
        lemma_part(claims.choice, proofs.choice, proofs, start, entries, before_choice(entries), k);
    }
    if 0 <= k < claims.cai.len() {
        lemma_part(claims.cai, proofs.cai, proofs, start, entries, before_cai(claims, entries), k);
    }
    if 0 <= k < claims.auth.len() {
        lemma_part(
            claims.auth,
            proofs.auth,
            proofs,
            start,
            entries,
            before_auth(claims, entries),
            k,
        );
    }
}

/// After all commitments, the transcript holds them.
proof fn lemma_committed(claims: Claims, proofs: ProofViews, start: Seq<Entry>)
    requires
        proofs.choice.len() == claims.choice.len(),
        proofs.cai.len() == claims.cai.len(),
        proofs.auth.len() == claims.auth.len(),
    ensures
        start.is_prefix_of(committed(claims, proofs, start)),
        commitments_held(committed(claims, proofs, start), proofs.choice),
        commitments_held(committed(claims, proofs, start), proofs.cai),
        commitments_held(committed(claims, proofs, start), proofs.auth),
{
    let all = committed(claims, proofs, start);
    let t1 = commit_trace(kinds(claims.choice), proof_commitments(proofs.choice));
    let t2 = commit_trace(kinds(claims.cai), proof_commitments(proofs.cai));
    let t3 = commit_trace(kinds(claims.auth), proof_commitments(proofs.auth));
    lemma_trace_held(kinds(claims.choice), proofs.choice);
    lemma_trace_held(kinds(claims.cai), proofs.cai);
    lemma_trace_held(kinds(claims.auth), proofs.auth);
    let n = start.len() as int;
    let (n1, n2, n3) = (t1.len() as int, t2.len() as int, t3.len() as int);
    assert(all.len() == n + 1 + n1 + 1 + n2 + 1 + n3);
    assert(all.subrange(0, n) =~= start);
    let head1 = all.subrange(0, n + 1);
    let tail1 = all.subrange(n + 1 + n1, all.len() as int);
    assert(all =~= head1 + t1 + tail1);
    lemma_prefix_held(head1, t1, proofs.choice);
    lemma_prefix_held(head1 + t1, tail1, proofs.choice);
    let head2 = all.subrange(0, n + 2 + n1);
    let tail2 = all.subrange(n + 2 + n1 + n2, all.len() as int);
    assert(all =~= head2 + t2 + tail2);
    lemma_prefix_held(head2, t2, proofs.cai);
    lemma_prefix_held(head2 + t2, tail2, proofs.cai);
    let head3 = all.subrange(0, n + 3 + n1 + n2);
    assert(all =~= head3 + t3);
    lemma_prefix_held(head3, t3, proofs.auth);
}

/// One part, of which the challenges are drawn after `entries`.
proof fn lemma_part(
    claims: Seq<StatementView>,
    own: Seq<ProofView>,
    proofs: ProofViews,
    start: Seq<Entry>,
    entries: Seq<Entry>,
    before: Seq<Entry>,
    k: int,
)
    requires
        0 <= k < claims.len(),
        first_objection(objections(claims, own, before)).is_ok(),
        start.is_prefix_of(entries),
        entries.is_prefix_of(before),
        commitments_held(entries, proofs.choice),
        commitments_held(entries, proofs.cai),
        commitments_held(entries, proofs.auth),
    ensures
        answers_bound_challenge(
            claims[k],
            own[k],
            start,
            proofs.choice,
            proofs.cai,
            proofs.auth,
        ),
{
    let more = challenge_trace(kinds(claims).take(k));
    let all = before + more;
    lemma_no_objection(objections(claims, own, before), k);
    lemma_drawn(claims, before, k);
    let rest = all.subrange(entries.len() as int, all.len() as int);
    assert(all =~= entries + rest);
    lemma_prefix_held(entries, rest, proofs.choice);
    lemma_prefix_held(entries, rest, proofs.cai);
    lemma_prefix_held(entries, rest, proofs.auth);
    assert(start.is_prefix_of(all)) by {
        assert(all.subrange(0, start.len() as int) =~= start);
    }
    assert(objection(claims[k], own[k], drawn(claims[k], all)) is None);
}

/// Whether a transcript holds all points of an election's key.
pub open spec fn key_held(entries: Seq<Entry>, pk: ElectionPublicKey) -> bool {
    &&& held(entries, point_encoding(pk.params.tally.h.log()))
    &&& held(entries, point_encoding(pk.params.elgamal.g1.log()))
    &&& held(entries, point_encoding(pk.params.elgamal.g2.log()))
    &&& held(entries, point_encoding(pk.params.g3.log()))
    &&& held(entries, point_encoding(pk.params.o.log()))
    &&& held(entries, point_encoding(pk.registration_pk.log()))
}

/// An accepted ballot is for this election, and each claim on its choice, its
/// codes and its credential is proved, for a challenge that is bound to the key,
/// to the encrypted choice and to the parameters.
pub proof fn law_accepted_ballot(ballot: Ballot, ctx: ElectionContext, k: int) -> (start: Seq<Entry>)
    requires
        ballot.accepted(ctx),
        ballot.ver_vote.shaped(ctx.pk, ctx.choice),
    ensures
        ballot.election_ctx@ == ctx.context_hash@,
        held(start, encode_utf8("vote-proof"@)),
        key_held(start, ctx.pk),
        held(start, ballot.ver_vote.choice@.encoding()),
        held(start, ctx.choice.encoding()),
        ({
            let key = ctx.pk.key();
            let vote = ballot.ver_vote;
            let p = vote.proof.views();
            let choice = choice_claims(key, vote.choice@, ctx.choice.ln2@, ctx.choice.n1 as int);
            let cai = cai_claims(key, vote.cai, vote.choice@);
            let auth = auth_claims(ctx.pk, vote.auth);
            &&& p.choice.len() == choice.len() && p.cai.len() == cai.len() && p.auth.len()
                == auth.len()
            &&& 0 <= k < choice.len() ==> answers_bound_challenge(
                choice[k],
                p.choice[k],
                start,
                p.choice,
                p.cai,
                p.auth,
            )
            &&& 0 <= k < cai.len() ==> answers_bound_challenge(
                cai[k],
                p.cai[k],
                start,
                p.choice,
                p.cai,
                p.auth,
            )
            &&& 0 <= k < auth.len() ==> answers_bound_challenge(
                auth[k],
                p.auth[k],
                start,
                p.choice,
                p.cai,
                p.auth,
            )
        }),
{
    let vote = ballot.ver_vote;
    let claims = vote.claims(ctx.pk, ctx.choice);
    let start = ballot_steps(ctx.pk, vote.choice@, ctx.choice);
    lemma_views(vote, claims);
    law_every_part_is_checked(claims, vote.proof.views(), start, k);
    // dom-sep, dom-sep, sub, the key, the choice, the parameters
    assert(start[1].1 == encode_utf8("vote-proof"@));
    assert(start[3].1 == point_encoding(ctx.pk.params.tally.h.log()));
    assert(start[4].1 == point_encoding(ctx.pk.params.elgamal.g1.log()));
    assert(start[5].1 == point_encoding(ctx.pk.params.elgamal.g2.log()));
    assert(start[6].1 == point_encoding(ctx.pk.params.g3.log()));
    assert(start[7].1 == point_encoding(ctx.pk.params.o.log()));
    assert(start[8].1 == point_encoding(ctx.pk.registration_pk.log()));
    assert(start[9].1 == vote.choice@.encoding());
    assert(start[10].1 == ctx.choice.encoding());
    start
}

/// There is a proof for each claim.
proof fn lemma_views(vote: VerVote, claims: Claims)
    requires
        vote.proof.fits(claims),
    ensures
        vote.proof.views().choice.len() == claims.choice.len(),
        vote.proof.views().cai.len() == claims.cai.len(),
        vote.proof.views().auth.len() == claims.auth.len(),
{
    assert(kinds(claims.choice).len() == claims.choice.len());
    assert(kinds(claims.cai).len() == claims.cai.len());
    assert(kinds(claims.auth).len() == claims.auth.len());
    assert(vote.proof.views().choice.len() == vote.proof.choice_proof.proofs@.len());
    assert(vote.proof.views().cai.len() == vote.proof.cai_proof.proofs@.len());
    assert(vote.proof.views().auth.len() == vote.proof.auth_proof.proofs@.len());
}

/// An accepted public credential is proved: that its ciphertext, less the
/// signature's point, encrypts zero, for a challenge that is bound to the tally
/// key and to this ciphertext.
pub proof fn law_accepted_public_credential(acc: PublicACC, pk: ElectionPublicKey) -> (entries: Seq<
    Entry,
>)
    requires
        acc.objection(pk) is None,
        acc.proof@.commitments.len() == 1,
    ensures
        ({
            let ct = CtView {
                r1: acc.enc_sign.enc_A@.r1,
                r2: acc.enc_sign.enc_A@.r2,
                b: red(acc.enc_sign.enc_A@.b - acc.sign.A.log()),
            };
            &&& held(entries, encode_utf8("PB-CR"@))
            &&& held(entries, encode_utf8("ELGAMAL-ZERO"@))
            &&& held(entries, point_encoding(pk.params.tally.h.log()))
            &&& held(entries, point_encoding(pk.params.elgamal.g1.log()))
            &&& held(entries, point_encoding(pk.params.elgamal.g2.log()))
            &&& held(entries, ct_encoding(ct))
            &&& held(entries, ct_encoding(acc.proof@.commitments[0]))
            &&& objection(
                StatementView { key: pk.key(), relation: RelationView::Zero { ct } },
                acc.proof@,
                seq![challenge_value(entries, "c"@)],
            ) is None
        }),
{
    let ct = acc.stripped();
    let start = crate::protocol::vote::auth::signature_steps(pk, ct);
    let more = commit_steps(Kind::Zero, acc.proof@.commitments);
    let entries = start + more;
    assert(entries[0].1 == encode_utf8("PB-CR"@));
    assert(entries[1].1 == encode_utf8("ELGAMAL-ZERO"@));
    assert(entries[2].1 == point_encoding(pk.params.tally.h.log()));
    assert(entries[3].1 == point_encoding(pk.params.elgamal.g1.log()));
    assert(entries[4].1 == point_encoding(pk.params.elgamal.g2.log()));
    assert(entries[5].1 == ct_encoding(ct));
    assert(entries[6].1 == ct_encoding(acc.proof@.commitments[0]));
    assert(challenges(Kind::Zero, entries) =~= seq![challenge_value(entries, "c"@)]);
    entries
}

/// A designated proof is accepted only if its two challenges add up to one that
/// is bound to the statement and to the commitments, and if the equations of both
/// claims hold.
pub proof fn law_accepted_designated_proof(public: DvView, p: DvProof) -> (entries: Seq<Entry>)
    requires
        public.objection(p) is None,
    ensures
        red(p.c0@ + p.c1@) == red(challenge_value(entries, "c"@)),
        held(entries, encode_utf8("DV-NIZKP"@)),
        held(entries, point_encoding(public.base0)),
        held(entries, point_encoding(public.pv)),
        held(entries, point_encoding(public.b1a)),
        held(entries, point_encoding(public.b1b)),
        held(entries, point_encoding(public.p1a)),
        held(entries, point_encoding(public.p1b)),
        held(entries, point_encoding(p.i0.log())),
        held(entries, point_encoding(p.i1a.log())),
        held(entries, point_encoding(p.i1b.log())),
        red(public.base0 * p.z0@) == red(p.i0.log() + public.pv * p.c0@),
        red(public.b1a * p.z1@) == red(p.i1a.log() + public.p1a * p.c1@),
        red(public.b1b * p.z1@) == red(p.i1b.log() + public.p1b * p.c1@),
{
    let entries = public.steps(p.i0.log(), p.i1a.log(), p.i1b.log());
    assert(entries[1].1 == encode_utf8("DV-NIZKP"@));
    assert(entries[2].1 == point_encoding(public.base0));
    assert(entries[3].1 == point_encoding(public.b1a));
    assert(entries[4].1 == point_encoding(public.b1b));
    assert(entries[5].1 == point_encoding(public.pv));
    assert(entries[6].1 == point_encoding(public.p1a));
    assert(entries[7].1 == point_encoding(public.p1b));
    assert(entries[8].1 == point_encoding(p.i0.log()));
    assert(entries[9].1 == point_encoding(p.i1a.log()));
    assert(entries[10].1 == point_encoding(p.i1b.log()));
    entries
}

/// A voter accepts a credential with a PIN only if it is proved, to the voter's
/// own key, that registration's secret is the factor between `A` and
/// `g1 + [x]g3 - [r]A`, where `x` is the secret that the PIN opens, and between `g3`
/// and the registration key.
pub proof fn law_accepted_pin(
    credential: VotingCredential,
    pk: ElectionPublicKey,
    pin: int,
    dv_pk: VoterPublicKey,
)
    requires
        credential.pin_objection(pk, pin, dv_pk) is None,
    ensures
        ({
            let masked = credential.masked_pin;
            let a = credential.sign.A.log();
            let x = red(masked.masked_x@ - red(masked.partial_mask@ + pin));
            let message = red(pk.params.elgamal.g1.log() + pk.params.g3.log() * x);
            DvView {
                base0: pk.params.elgamal.g2.log(),
                pv: dv_pk.pk.log(),
                b1a: a,
                b1b: pk.params.g3.log(),
                p1a: red(message - a * credential.sign.r@),
                p1b: pk.registration_pk.log(),
            }.objection(credential.dvnizkp) is None
        }),
{
}

} // verus!
