//! What is refused, where, and why.

use vstd::prelude::*;

use crate::api::client::Ballot;
use crate::api::server::context::ElectionContext;
use crate::arith::red;
use crate::constants::{ACC_CHECK, CAI_POW, MAX_PIN, MIX_CREDS, MIX_VOTES, TALLY};
use crate::elgamal::{ct_decrypt, ct_zero, CtView, ElGamalParams, PublicKey, SecretKey};
use crate::error::{CryptoError, Error};
use crate::proofs::compound::first_objection;
use crate::proofs::decryption::{held_before, list_holds, list_stopped, DecOk};
use crate::proofs::shuffle::{shuffle_verdict, Parameters, Shuffle};
use crate::protocol::filter::{ballot_inputs, picked_choices};
use crate::protocol::keys::ElectionPublicKey;
use crate::protocol::tally::{ControlView, CredentialControlProof, DecryptedTally, Place};
use crate::protocol::teller::{checks, controls_accepted};
use crate::protocol::vote::cai::{ChoiceDiscloseCAI, DiscloseCAI, EncrValuesCAI};
use crate::protocol::vote::choice::{ChoiceParameters, EncrChoiceView};
use crate::protocol::vote::vote::{VerVote, VoteView, VoteWithEncPubCred};
use crate::text::decimal;
use crate::transcript::Entry;

verus! {

/// The objection that is told is the first: there is none before it.
pub proof fn law_first_objection_is_told(found: Seq<Option<CryptoError>>, e: CryptoError) -> (k: int)
    requires
        first_objection(found) == Err::<(), CryptoError>(e),
    ensures
        0 <= k < found.len(),
        found[k] == Some(e),
        forall|j: int| 0 <= j < k ==> (#[trigger] found[j]) is None,
    decreases found.len(),
{
    match found[0] {
        Some(_) => 0,
        None => {
            let rest = found.skip(1);
            let k = law_first_objection_is_told(rest, e);
            assert forall|j: int| 0 <= j < k + 1 implies (#[trigger] found[j]) is None by {
                if j > 0 {
                    assert(rest[j - 1] == found[j]);
                }
            }
            k + 1
        },
    }
}

/// Where nothing is objected to any proof, the list is accepted.
pub proof fn law_no_objection_is_acceptance(found: Seq<Option<CryptoError>>)
    requires
        forall|j: int| 0 <= j < found.len() ==> (#[trigger] found[j]) is None,
    ensures
        first_objection(found) == Ok::<(), CryptoError>(()),
    decreases found.len(),
{
    if found.len() > 0 {
        let rest = found.skip(1);
        assert forall|j: int| 0 <= j < rest.len() implies (#[trigger] rest[j]) is None by {
            assert(rest[j] == found[j + 1]);
        }
        assert(found[0] is None);
        law_no_objection_is_acceptance(rest);
    }
}

/// A tally is refused at the first party that is wrong: its decryption is of
/// another ciphertext, is not proved, or does not give the count, and the error
/// tells which; what stands before is right.
pub proof fn law_tally_refused_at_party(
    tally: DecryptedTally,
    key: CtView,
    enc: EncrChoiceView,
    start: Seq<Entry>,
    i: int,
    e: Error,
)
    requires
        tally.stopped(key, enc, start, Place::Party { i }, e),
    ensures
        0 <= i < enc.l1.len(),
        tally.l1_d@[i].ciphertext@ != enc.l1[i] ==> (e matches Error::CiphertextMismatch(text)
            && text@ == "check first failed at layer l1, index "@ + decimal(i)),
        !(e is CiphertextMismatch) ==> tally.l1_d@[i].ciphertext@ == enc.l1[i],
        e is DlogMismatch ==> tally.tally.l1@[i] != tally.l1_d@[i].plaintext.log(),
        e is CiphertextMismatch || e is DlogMismatch || e == Error::FailedVerification(
            CryptoError::CommitmentMismatch,
        ),
        forall|h: int|
            0 <= h < i ==> (#[trigger] tally.l1_d@[h]).ciphertext@ == enc.l1[h]
                && tally.tally.l1@[h] == tally.l1_d@[h].plaintext.log(),
        forall|h: int, m: int|
            0 <= h < i && 0 <= m < enc.l2[h].len() ==> (
            #[trigger] tally.l2_d@[h]@[m]).ciphertext@ == enc.l2[h][m] && tally.tally.l2@[h]@[m]
                == tally.l2_d@[h]@[m].plaintext.log(),
{
    lemma_before(tally, key, enc, start, Place::Party { i }, e, i);
}

/// A tally is refused at the first candidate that is wrong.
pub proof fn law_tally_refused_at_candidate(
    tally: DecryptedTally,
    key: CtView,
    enc: EncrChoiceView,
    start: Seq<Entry>,
    i: int,
    j: int,
    e: Error,
)
    requires
        tally.stopped(key, enc, start, Place::Candidate { i, j }, e),
    ensures
        0 <= i < enc.l1.len(),
        0 <= j < enc.l2[i].len(),
        tally.l2_d@[i]@[j].ciphertext@ != enc.l2[i][j] ==> (e matches Error::CiphertextMismatch(text)
            && text@ == "check first failed at layer l2, index ("@ + decimal(i) + ","@ + decimal(j)
            + ")"@),
        !(e is CiphertextMismatch) ==> tally.l2_d@[i]@[j].ciphertext@ == enc.l2[i][j],
        e is DlogMismatch ==> tally.tally.l2@[i]@[j] != tally.l2_d@[i]@[j].plaintext.log(),
        e is CiphertextMismatch || e is DlogMismatch || e == Error::FailedVerification(
            CryptoError::CommitmentMismatch,
        ),
        tally.l1_d@[i].ciphertext@ == enc.l1[i],
        tally.tally.l1@[i] == tally.l1_d@[i].plaintext.log(),
        forall|m: int|
            0 <= m < j ==> (#[trigger] tally.l2_d@[i]@[m]).ciphertext@ == enc.l2[i][m]
                && tally.tally.l2@[i]@[m] == tally.l2_d@[i]@[m].plaintext.log(),
        forall|h: int|
            0 <= h < i ==> (#[trigger] tally.l1_d@[h]).ciphertext@ == enc.l1[h]
                && tally.tally.l1@[h] == tally.l1_d@[h].plaintext.log(),
{
    let p = Place::Candidate { i, j };
    lemma_before(tally, key, enc, start, p, e, i);
    assert(tally.right(key, enc, start, Place::Party { i }));
    assert forall|m: int| 0 <= m < j implies (#[trigger] tally.l2_d@[i]@[m]).ciphertext@
        == enc.l2[i][m] && tally.tally.l2@[i]@[m] == tally.l2_d@[i]@[m].plaintext.log() by {
        assert(tally.right(key, enc, start, Place::Candidate { i, j: m }));
    }
}

/// What stands before the party at `i` is right.
proof fn lemma_before(
    tally: DecryptedTally,
    key: CtView,
    enc: EncrChoiceView,
    start: Seq<Entry>,
    p: Place,
    e: Error,
    i: int,
)
    requires
        tally.stopped(key, enc, start, p, e),
        p == (Place::Party { i }) || (p matches Place::Candidate { i: k, j: _ } && k == i),
    ensures
        forall|h: int|
            0 <= h < i ==> (#[trigger] tally.l1_d@[h]).ciphertext@ == enc.l1[h]
                && tally.tally.l1@[h] == tally.l1_d@[h].plaintext.log(),
        forall|h: int, m: int|
            0 <= h < i && 0 <= m < enc.l2[h].len() ==> (
            #[trigger] tally.l2_d@[h]@[m]).ciphertext@ == enc.l2[h][m] && tally.tally.l2@[h]@[m]
                == tally.l2_d@[h]@[m].plaintext.log(),
{
    assert forall|h: int| 0 <= h < i implies (#[trigger] tally.l1_d@[h]).ciphertext@ == enc.l1[h]
        && tally.tally.l1@[h] == tally.l1_d@[h].plaintext.log() by {
        assert(tally.right(key, enc, start, Place::Party { i: h }));
    }
    assert forall|h: int, m: int| 0 <= h < i && 0 <= m < enc.l2[h].len() implies (
    #[trigger] tally.l2_d@[h]@[m]).ciphertext@ == enc.l2[h][m] && tally.tally.l2@[h]@[m]
        == tally.l2_d@[h]@[m].plaintext.log() by {
        assert(tally.right(key, enc, start, Place::Candidate { i: h, j: m }));
    }
}

/// Votes are refused at the first whose control is not accepted, or whose check is
/// not what was decrypted; the error tells which, and where.
pub proof fn law_unchecked_vote(
    pk: ElectionPublicKey,
    votes: Seq<VoteView>,
    controls: Seq<CredentialControlProof>,
    decryptions: Seq<DecOk>,
    i: int,
    e: Error,
)
    requires
        pk.unchecked(votes, controls, decryptions, i, e),
    ensures
        0 <= i < votes.len(),
        ({
            let public = ControlView {
                g3: pk.params.g3.log(),
                registration_pk: pk.registration_pk.log(),
                vote: votes[i],
                a: votes[i].a,
            };
            let check = pk.check(votes[i], controls[i]);
            &&& !public.accepts(controls[i]) ==> e == Error::FailedVerification(
                CryptoError::CommitmentMismatch,
            )
            &&& public.accepts(controls[i]) ==> e == Error::FailedVerifiableDecryption(i as usize)
                && decryptions[i].ciphertext@ != check
        }),
        pk.all_checked(votes, controls, decryptions, i),
{
}

/// The verification of checks stops at the first vote whose control is not
/// accepted, whose check is not what was decrypted, or whose decryption is not
/// valid; the error tells which, and all before are in order.
pub proof fn law_refused_check(
    pk: ElectionPublicKey,
    votes: Seq<VoteView>,
    controls: Seq<CredentialControlProof>,
    decryptions: Seq<DecOk>,
    start: Seq<Entry>,
    end: Seq<Entry>,
    i: int,
    e: Error,
)
    requires
        pk.check_fault(votes, controls, decryptions, start, end, i, e),
    ensures
        0 <= i < votes.len(),
        pk.all_checked(votes, controls, decryptions, i),
        list_holds(decryptions, pk.key(), start, i),
        ({
            let public = ControlView {
                g3: pk.params.g3.log(),
                registration_pk: pk.registration_pk.log(),
                vote: votes[i],
                a: votes[i].a,
            };
            let before = held_before(decryptions, pk.key(), start, i);
            let own = decryptions[i].ciphertext@ == pk.check(votes[i], controls[i]);
            &&& !public.accepts(controls[i]) ==> e == Error::FailedVerification(
                CryptoError::CommitmentMismatch,
            ) && end == before
            &&& public.accepts(controls[i]) && !own ==> (e matches Error::CiphertextMismatch(text)
                && text@ == "check first failed at index "@ + decimal(i)) && end == before
            &&& public.accepts(controls[i]) && own ==> e == Error::FailedVerification(
                CryptoError::CommitmentMismatch,
            ) && !decryptions[i].holds(pk.key(), before)
        }),
{
}

/// The controls of votes are accepted only if each is, for its vote.
pub proof fn law_every_control_is_checked(
    pk: ElectionPublicKey,
    votes: Seq<VoteView>,
    controls: Seq<CredentialControlProof>,
    n: int,
    i: int,
)
    requires
        controls_accepted(pk, votes, controls, n),
        0 <= i < n,
    ensures
        (ControlView {
            g3: pk.params.g3.log(),
            registration_pk: pk.registration_pk.log(),
            vote: votes[i],
            a: votes[i].a,
        }).accepts(controls[i]),
{
    assert(pk.control(votes[i]).accepts(controls[i]));
}

/// A list of decryptions is refused at the first that is not valid.
pub proof fn law_list_refused(list: Seq<DecOk>, key: CtView, start: Seq<Entry>, end: Seq<Entry>) -> (i:
    int)
    requires
        list_stopped(list, key, start, end),
    ensures
        0 <= i < list.len(),
        list_holds(list, key, start, i),
        !list[i].holds(key, held_before(list, key, start, i)),
        end == held_before(list, key, start, i + 1),
{
    choose|i: int| #[trigger]
        crate::proofs::decryption::fails_at(list, key, start, i) && end == held_before(
            list,
            key,
            start,
            i + 1,
        )
}

/// A shuffle argument is valid only if its verifier accepts it for as many
/// ciphertexts as there are bases; a mismatch of lengths is told where the
/// verifier tells it, or where it accepts an argument for fewer.
pub proof fn law_shuffle_refused(shuffle: Shuffle, ped: Parameters, entries: Seq<Entry>)
    ensures
        shuffle.valid(ped, entries) <==> shuffle_verdict(ped.logs(), shuffle.parts(), entries) == 0
            && shuffle.f().len() == ped.list_len,
        shuffle.refusal(ped, entries) == CryptoError::LengthMismatch || shuffle.refusal(
            ped,
            entries,
        ) == CryptoError::CommitmentMismatch,
        shuffle.refusal(ped, entries) == CryptoError::LengthMismatch <==> shuffle_verdict(
            ped.logs(),
            shuffle.parts(),
            entries,
        ) == 2 || (shuffle_verdict(ped.logs(), shuffle.parts(), entries) == 0 && shuffle.f().len()
            != ped.list_len),
{
}

/// A ballot is refused because it is for another election, or for what its
/// verifier objects to.
pub proof fn law_refused_ballot(ballot: Ballot, ctx: ElectionContext, e: Error)
    requires
        ballot.refused_with(ctx, e),
        !ballot.accepted(ctx),
    ensures
        ballot.election_ctx@ != ctx.context_hash@ ==> (e matches Error::Mismatch(text) && text@
            == "election context hash mismatch"@),
        ballot.election_ctx@ == ctx.context_hash@ ==> (e matches Error::FailedVerification(err)
            && ballot.ver_vote.verdict(ctx.pk, ctx.choice) == Err::<(), CryptoError>(err)),
{
}

/// A copy of a ballot is the same to everyone: it is for the same election, holds
/// the same vote, and is accepted where the other is.
pub proof fn law_copied_ballot(a: Ballot, b: Ballot, ctx: ElectionContext)
    requires
        a.same(b),
    ensures
        a.election_ctx@ == b.election_ctx@,
        a.ver_vote.choice@ == b.ver_vote.choice@,
        a.ver_vote.cai == b.ver_vote.cai,
        a.ver_vote.auth == b.ver_vote.auth,
        a.ver_vote.vote() == b.ver_vote.vote(),
        a.accepted(ctx) == b.accepted(ctx),
{
}

/// A copy of an election's data is the same to everyone.
pub proof fn law_copied_election(a: ElectionContext, b: ElectionContext, label: Seq<char>)
    requires
        a.same(b),
    ensures
        a.pk == b.pk,
        a.manifest@ == b.manifest@,
        a.choice.n1 == b.choice.n1,
        a.choice.ln2@ == b.choice.ln2@,
        a.steps(label) == b.steps(label),
{
}

/// Fingerprints of ballots are made from the secret over `o`, ballot by ballot.
pub proof fn law_ballot_fingerprint_inputs(ballots: Seq<VerVote>, k: int)
    requires
        0 <= k < ballots.len(),
    ensures
        ballot_inputs(ballots).len() == ballots.len(),
        ballot_inputs(ballots)[k] == ballots[k].auth.ox_enc@,
{
}

/// The choices that are picked are those of the votes at the positions.
pub proof fn law_picked_choices(votes: Seq<VoteWithEncPubCred>, at: Seq<int>, k: int)
    requires
        0 <= k < at.len(),
    ensures
        picked_choices(votes, at).len() == at.len(),
        picked_choices(votes, at)[k] == votes[at[k]].choice@,
{
}

/// A check is made for each vote, of its own control.
pub proof fn law_checks_of_votes(
    pk: ElectionPublicKey,
    votes: Seq<VoteView>,
    controls: Seq<CredentialControlProof>,
    k: int,
)
    requires
        0 <= k < votes.len(),
    ensures
        checks(pk, votes, controls).len() == votes.len(),
        checks(pk, votes, controls)[k] == pk.check(votes[k], controls[k]),
{
}

/// A disclosure opens the code or the sum, whichever it was made for.
pub proof fn law_disclosure_opens_its_own(cai: EncrValuesCAI, discl: DiscloseCAI)
    ensures
        discl.l1 is Code ==> cai.opened(discl).0 == cai.l1_code_enc@,
        discl.l1 is Sum ==> cai.opened(discl).0 == cai.l1_sum_enc@,
        discl.l2 is Code ==> cai.opened(discl).1 == cai.l2_code_enc@,
        discl.l2 is Sum ==> cai.opened(discl).1 == cai.l2_sum_enc@,
        discl.l1 matches ChoiceDiscloseCAI::Code { l_r } ==> discl.l1.parts().1 == l_r@,
        discl.l1 matches ChoiceDiscloseCAI::Sum { l_r } ==> discl.l1.parts().1 == l_r@,
        discl.l2 matches ChoiceDiscloseCAI::Code { l_r } ==> discl.l2.parts().1 == l_r@,
        discl.l2 matches ChoiceDiscloseCAI::Sum { l_r } ==> discl.l2.parts().1 == l_r@,
{
}

/// The key that belongs to a secret key, and the key of a public one.
pub proof fn law_keys(sk: SecretKey, pk: PublicKey, params: ElGamalParams)
    ensures
        sk.key(params).r1 == params.g1.log() && pk.key(params).r1 == params.g1.log(),
        sk.key(params).r2 == params.g2.log() && pk.key(params).r2 == params.g2.log(),
        sk.key(params).b == red(sk.x1@ * params.g1.log() + sk.x2@ * params.g2.log()),
        pk.key(params).b == pk.h.log(),
{
}

/// A sum starts from nothing: a neutral ciphertext for each party and candidate.
pub proof fn law_sum_starts_from_nothing(params: ChoiceParameters, x1: int, x2: int, i: int, j: int)
    requires
        params.wf(),
        0 <= i < params.n1,
        0 <= j < params.ln2@[i],
    ensures
        EncrChoiceView::nothing(params).l1.len() == params.n1,
        EncrChoiceView::nothing(params).l2.len() == params.n1,
        EncrChoiceView::nothing(params).l2[i].len() == params.ln2@[i],
        EncrChoiceView::nothing(params).l1[i] == ct_zero(),
        EncrChoiceView::nothing(params).l2[i][j] == ct_zero(),
        ct_decrypt(x1, x2, ct_zero()) == 0,
{
    assert(x1 * 0 + x2 * 0 == 0) by (nonlinear_arith);
    crate::arith::lemma_order();
    crate::arith::lemma_red_small(0);
}

/// The fixed numbers and labels of the protocol; no two steps have one label.
pub proof fn law_constants()
    ensures
        MAX_PIN == 100_000,
        CAI_POW == 100,
        MIX_VOTES@ == "mix-votes"@,
        MIX_CREDS@ == "mix-creds"@,
        ACC_CHECK@ == "acc-checks"@,
        TALLY@ == "tally"@,
        MIX_VOTES@ != MIX_CREDS@,
        MIX_VOTES@ != ACC_CHECK@,
        MIX_VOTES@ != TALLY@,
        MIX_CREDS@ != ACC_CHECK@,
        MIX_CREDS@ != TALLY@,
        ACC_CHECK@ != TALLY@,
{
    reveal_strlit("mix-votes");
    reveal_strlit("mix-creds");
    reveal_strlit("acc-checks");
    reveal_strlit("tally");
    assert("mix-votes"@[4] == 'v' && "mix-votes"@.len() == 9);
    assert("mix-creds"@[4] == 'c' && "mix-creds"@.len() == 9);
    assert("acc-checks"@.len() == 10 && "tally"@.len() == 5);
}

} // verus!
