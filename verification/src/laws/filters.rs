//! What the filters of the bulletin board keep, and what the controls bind.

use vstd::prelude::*;
use vstd::utf8::encode_utf8;

use crate::api::server::bb::{ValidVoteRecord, VerifiedVoteRecord};
use crate::api::server::pipeline::{are_winners, beaten, kept_from, wins};
use crate::arith::{
    has_inverse, is_inverse, lemma_red_add, lemma_red_small, lemma_red_sub, red,
};
use crate::elgamal::{
    ct_decrypt, ct_encoding, ct_scale, ct_strip, ct_sub, law_decrypt_add,
    law_decrypt_strip, law_decrypt_sub, CtView,
};
use crate::error::{CryptoError, Error};
use crate::group::point_encoding;
use crate::laws::ballots::held;
use crate::laws::decryptions::{decryption_proved, law_every_decryption_is_proved};
use crate::laws::mixes::{lemma_no_difference, lemma_same_ciphertext};
use crate::laws::proofs::lemma_extract;
use crate::proofs::decryption::{held_before, DecOk};
use crate::protocol::filter::{
    among, first_positions, fingerprints_match, lists_match, neutral_positions, pick,
    registered_positions, stripped_from,
};
use crate::protocol::keys::ElectionPublicKey;
use crate::protocol::tally::{ControlView, CredentialControlProof};
use crate::protocol::vote::vote::{VoteView, VoteWithEncPubCred};
use crate::transcript::{challenge_value, Entry};

verus! {

/// An accepted control satisfies both equations: that of the encrypted signature
/// and its multiple, and that of the registration key, for a challenge that is
/// bound to the keys, to the vote and to the commitments.
pub proof fn law_accepted_control(public: ControlView, p: CredentialControlProof) -> (entries: Seq<
    Entry,
>)
    requires
        public.accepts(p),
    ensures
        held(entries, encode_utf8("CREDENTIAL-CONTROL"@)),
        held(entries, point_encoding(public.g3)),
        held(entries, point_encoding(public.registration_pk)),
        held(entries, public.vote.encoding()),
        held(entries, ct_encoding(public.a)),
        held(entries, ct_encoding(p.I_ct@)),
        held(entries, point_encoding(p.I_pk.log())),
        ({
            let c = challenge_value(entries, "c"@);
            &&& red(public.a.r1 * p.z@) == red(p.I_ct@.r1 + p.Ay_enc@.r1 * c)
            &&& red(public.a.r2 * p.z@) == red(p.I_ct@.r2 + p.Ay_enc@.r2 * c)
            &&& red(public.a.b * p.z@) == red(p.I_ct@.b + p.Ay_enc@.b * c)
            &&& red(public.g3 * p.z@) == red(p.I_pk.log() + public.registration_pk * c)
        }),
{
    let entries = public.steps(p.I_ct@, p.I_pk.log());
    let c = challenge_value(entries, "c"@);
    assert(entries[1].1 == encode_utf8("CREDENTIAL-CONTROL"@));
    assert(entries[2].1 == point_encoding(public.g3));
    assert(entries[3].1 == point_encoding(public.registration_pk));
    assert(entries[4].1 == public.vote.encoding());
    assert(entries[5].1 == ct_encoding(public.a));
    assert(entries[6].1 == ct_encoding(p.I_ct@));
    assert(entries[7].1 == point_encoding(p.I_pk.log()));
    lemma_red_add(p.I_ct@.r1, p.Ay_enc@.r1 * c);
    lemma_red_add(p.I_ct@.r2, p.Ay_enc@.r2 * c);
    lemma_red_add(p.I_ct@.b, p.Ay_enc@.b * c);
    entries
}

/// Registration's multiple cannot be exchanged: two accepted controls of one vote
/// with the same commitments and response have the same multiple, where the
/// challenge has an inverse.
pub proof fn law_control_multiple_is_bound(
    public: ControlView,
    p: CredentialControlProof,
    q: CredentialControlProof,
) -> (entries: Seq<Entry>)
    requires
        public.accepts(p),
        public.accepts(q),
        p.I_ct@ == q.I_ct@,
        p.I_pk.log() == q.I_pk.log(),
        p.z@ == q.z@,
    ensures
        held(entries, public.vote.encoding()),
        has_inverse(challenge_value(entries, "c"@)) ==> p.Ay_enc@ == q.Ay_enc@,
{
    let entries = public.steps(p.I_ct@, p.I_pk.log());
    let c = challenge_value(entries, "c"@);
    let again = law_accepted_control(public, p);
    assert(entries[4].1 == public.vote.encoding());
    if has_inverse(c) {
        let (i, a, b) = (p.I_ct@, p.Ay_enc@, q.Ay_enc@);
        lemma_red_add(i.r1, a.r1 * c);
        lemma_red_add(i.r1, b.r1 * c);
        lemma_red_add(i.r2, a.r2 * c);
        lemma_red_add(i.r2, b.r2 * c);
        lemma_red_add(i.b, a.b * c);
        lemma_red_add(i.b, b.b * c);
        lemma_same_multiple(i.r1, a.r1, b.r1, c);
        lemma_same_multiple(i.r2, a.r2, b.r2, c);
        lemma_same_multiple(i.b, a.b, b.b, c);
        lemma_same_ciphertext(p.Ay_enc, q.Ay_enc);
    }
    entries
}

proof fn lemma_same_multiple(i: int, x: int, y: int, c: int)
    requires
        red(i + x * c) == red(i + y * c),
        has_inverse(c),
    ensures
        red(x) == red(y),
{
    lemma_red_sub(i + x * c, i + y * c);
    assert(i + x * c - (i + y * c) == (x - y) * c) by (nonlinear_arith);
    crate::arith::lemma_order();
    lemma_red_small(0);
    lemma_no_difference(x, y, c);
}

/// An accepted control is the right multiple: who answers two challenges after
/// the same commitments multiplied the encrypted signature by one factor, which
/// is also that between `g3` and the registration key.
pub proof fn law_control_shows(
    public: ControlView,
    other: ControlView,
    p: CredentialControlProof,
    q: CredentialControlProof,
    first: int,
    second: int,
    inverse: int,
) -> (y: int)
    requires
        public.accepts(p),
        other.accepts(q),
        public.a == other.a,
        public.g3 == other.g3,
        public.registration_pk == other.registration_pk,
        p.Ay_enc@ == q.Ay_enc@,
        p.I_ct@ == q.I_ct@,
        p.I_pk.log() == q.I_pk.log(),
        first == public.challenge(p.I_ct@, p.I_pk.log()),
        second == other.challenge(q.I_ct@, q.I_pk.log()),
        is_inverse(first - second, inverse),
    ensures
        p.Ay_enc@ == ct_scale(public.a, y),
        red(public.registration_pk) == red(public.g3 * y),
{
    let y = (p.z@ - q.z@) * inverse;
    let (a, i, m) = (public.a, p.I_ct@, p.Ay_enc@);
    lemma_red_add(i.r1, m.r1 * first);
    lemma_red_add(i.r1, m.r1 * second);
    lemma_red_add(i.r2, m.r2 * first);
    lemma_red_add(i.r2, m.r2 * second);
    lemma_red_add(i.b, m.b * first);
    lemma_red_add(i.b, m.b * second);
    lemma_extract(a.r1, m.r1, i.r1, p.z@, q.z@, first, second, inverse);
    lemma_extract(a.r2, m.r2, i.r2, p.z@, q.z@, first, second, inverse);
    lemma_extract(a.b, m.b, i.b, p.z@, q.z@, first, second, inverse);
    lemma_extract(
        public.g3,
        public.registration_pk,
        p.I_pk.log(),
        p.z@,
        q.z@,
        first,
        second,
        inverse,
    );
    p.Ay_enc.random_point.lemma_bounds();
    p.Ay_enc.random_point2.lemma_bounds();
    p.Ay_enc.blinded_point.lemma_bounds();
    lemma_red_small(m.r1);
    lemma_red_small(m.r2);
    lemma_red_small(m.b);
    y
}

/// Every vote that passes the check of credentials was controlled: its control
/// is accepted for this vote and these keys, and what was decrypted is `[r]A` less
/// `g1` and `[x]g3`, plus registration's multiple.
pub proof fn law_checked_votes(
    pk: ElectionPublicKey,
    votes: Seq<VoteView>,
    controls: Seq<CredentialControlProof>,
    decryptions: Seq<DecOk>,
    n: int,
    i: int,
    x1: int,
    x2: int,
)
    requires
        pk.all_checked(votes, controls, decryptions, n),
        0 <= i < n,
    ensures
        (ControlView {
            g3: pk.params.g3.log(),
            registration_pk: pk.registration_pk.log(),
            vote: votes[i],
            a: votes[i].a,
        }).accepts(controls[i]),
        ct_decrypt(x1, x2, decryptions[i].ciphertext@) == red(
            ct_decrypt(x1, x2, votes[i].ar) - pk.params.elgamal.g1.log() - ct_decrypt(
                x1,
                x2,
                votes[i].g3x,
            ) + ct_decrypt(x1, x2, controls[i].Ay_enc@),
        ),
{
    let v = votes[i];
    let g1 = pk.params.elgamal.g1.log();
    assert(pk.checked(votes[i], controls[i], decryptions[i]));
    let first = ct_strip(v.ar, g1);
    let second = ct_sub(first, v.g3x);
    law_decrypt_strip(x1, x2, v.ar, g1);
    law_decrypt_sub(x1, x2, first, v.g3x);
    law_decrypt_add(x1, x2, second, controls[i].Ay_enc@);
    let (a, b, m) = (
        ct_decrypt(x1, x2, v.ar),
        ct_decrypt(x1, x2, v.g3x),
        ct_decrypt(x1, x2, controls[i].Ay_enc@),
    );
    lemma_red_sub(a - g1, b);
    lemma_red_add(a - g1 - b, m);
}

/// Whether the positions ascend.
pub open spec fn ascend(at: Seq<int>) -> bool {
    forall|a: int, b: int| 0 <= a < b < at.len() ==> (#[trigger] at[a]) < (#[trigger] at[b])
}

/// The votes that stay after the check of credentials are those whose check
/// decrypted to the neutral element, all of them, in their order.
pub proof fn law_neutral_checks_stay(list: Seq<DecOk>, n: int)
    requires
        0 <= n,
    ensures
        ascend(neutral_positions(list, n)),
        forall|x: int| #[trigger]
            neutral_positions(list, n).contains(x) <==> 0 <= x < n && list[x].plaintext.log() == 0,
    decreases n,
{
    if n > 0 {
        law_neutral_checks_stay(list, n - 1);
        lemma_pushed(
            neutral_positions(list, n - 1),
            neutral_positions(list, n),
            n,
            list[n - 1].plaintext.log() == 0,
        );
    }
}

/// A list of positions below `n - 1`, to which `n - 1` may be added.
proof fn lemma_pushed(less: Seq<int>, all: Seq<int>, n: int, added: bool)
    requires
        ascend(less),
        forall|x: int| #[trigger] less.contains(x) ==> 0 <= x < n - 1,
        all == if added {
            less.push(n - 1)
        } else {
            less
        },
    ensures
        ascend(all),
        forall|x: int| #[trigger] all.contains(x) <==> less.contains(x) || (added && x == n - 1),
{
    assert forall|a: int, b: int| 0 <= a < b < all.len() implies (#[trigger] all[a]) < (
    #[trigger] all[b]) by {
        if b == less.len() {
            assert(less.contains(less[a]));
        } else {
            assert(less[a] < less[b]);
        }
    }
    assert forall|x: int| #[trigger] all.contains(x) <==> less.contains(x) || (added && x == n - 1) by {
        if less.contains(x) {
            let h = choose|h: int| 0 <= h < less.len() && less[h] == x;
            assert(all[h] == x);
        }
        if added && x == n - 1 {
            assert(all[less.len() as int] == x);
        }
        if all.contains(x) {
            let h = choose|h: int| 0 <= h < all.len() && all[h] == x;
            if h < less.len() {
                assert(less[h] == x);
            }
        }
    }
}

/// Of ballots with one fingerprint the first stays: the positions that are kept
/// ascend, no two of them have one fingerprint, and each ballot has the
/// fingerprint of a kept one that does not come after it.
pub proof fn law_first_of_each_fingerprint(list: Seq<DecOk>, n: int)
    requires
        0 <= n,
    ensures
        ascend(first_positions(list, n)),
        forall|x: int| #[trigger]
            first_positions(list, n).contains(x) <==> 0 <= x < n && forall|y: int|
                0 <= y < x ==> (#[trigger] list[y]).plaintext.log() != list[x].plaintext.log(),
    decreases n,
{
    if n > 0 {
        law_first_of_each_fingerprint(list, n - 1);
        let log = list[n - 1].plaintext.log();
        lemma_pushed(
            first_positions(list, n - 1),
            first_positions(list, n),
            n,
            !among(list, n - 1, log),
        );
        if among(list, n - 1, log) {
            let y = choose|y: int| 0 <= y < n - 1 && (#[trigger] list[y]).plaintext.log() == log;
            assert(!(list[y].plaintext.log() != list[n - 1].plaintext.log()));
        }
    }
}

/// Every fingerprint is represented by a ballot that is kept.
pub proof fn law_no_fingerprint_is_lost(list: Seq<DecOk>, n: int, x: int) -> (y: int)
    requires
        0 <= x < n,
    ensures
        first_positions(list, n).contains(y),
        y <= x,
        list[y].plaintext.log() == list[x].plaintext.log(),
    decreases x,
{
    law_first_of_each_fingerprint(list, n);
    if first_positions(list, n).contains(x) {
        x
    } else {
        let y = choose|y: int|
            0 <= y < x && (#[trigger] list[y]).plaintext.log() == list[x].plaintext.log();
        law_no_fingerprint_is_lost(list, n, y)
    }
}

/// What is picked are the elements at the positions.
pub proof fn law_picked<T>(list: Seq<T>, at: Seq<int>, k: int)
    requires
        0 <= k < at.len(),
    ensures
        pick(list, at).len() == at.len(),
        pick(list, at)[k] == list[at[k]],
{
}

/// Of the votes, those whose fingerprint is one of a registered credential stay,
/// all of them, in their order.
pub proof fn law_registered_votes_stay(registered: Seq<DecOk>, votes: Seq<DecOk>, n: int)
    requires
        0 <= n,
    ensures
        ascend(registered_positions(registered, votes, n)),
        forall|x: int| #[trigger]
            registered_positions(registered, votes, n).contains(x) <==> 0 <= x < n && exists|r: int|
                0 <= r < registered.len() && (#[trigger] registered[r]).plaintext.log()
                    == votes[x].plaintext.log(),
    decreases n,
{
    if n > 0 {
        law_registered_votes_stay(registered, votes, n - 1);
        lemma_pushed(
            registered_positions(registered, votes, n - 1),
            registered_positions(registered, votes, n),
            n,
            among(registered, registered.len() as int, votes[n - 1].plaintext.log()),
        );
    }
}

/// The votes that are kept as the last of their credentials come by ascending
/// number, and stand for the greatest number of their fingerprint; of votes with
/// one number, the first in the list.
pub proof fn law_kept_votes_ascend(
    records: Seq<ValidVoteRecord>,
    registered: Seq<DecOk>,
    votes: Seq<DecOk>,
    at: Seq<int>,
    a: int,
    k: int,
)
    requires
        are_winners(records, registered, votes, at),
        0 <= a < at.len(),
        0 <= k < records.len(),
    ensures
        0 <= at[a] < records.len(),
        forall|b: int|
            a < b < at.len() ==> records[at[a]].receipt.seq_no <= (
            #[trigger] records[at[b]]).receipt.seq_no,
        forall|b: int| 0 <= b < at.len() && b != a ==> #[trigger] at[b] != at[a],
        exists|r: int|
            0 <= r < registered.len() && (#[trigger] registered[r]).plaintext.log()
                == votes[at[a]].plaintext.log(),
        votes[k].plaintext.log() == votes[at[a]].plaintext.log() ==> {
            ||| records[k].receipt.seq_no < records[at[a]].receipt.seq_no
            ||| records[k].receipt.seq_no == records[at[a]].receipt.seq_no && at[a] <= k
        },
{
    assert(at.contains(at[a]));
    assert(wins(records, registered, votes, at[a]));
    assert(!beaten(records, votes, at[a], k));
    assert(records[at[a]] == records[at[a]]);
}

/// What is kept of a mixed vote is its own: receipt, choice and credential.
pub proof fn law_kept_vote_is_the_mixed_one(
    kept: ValidVoteRecord,
    mixed: Seq<VerifiedVoteRecord>,
    i: int,
)
    requires
        kept_from(kept, mixed, i),
    ensures
        0 <= i < mixed.len(),
        kept.receipt == mixed[i].receipt,
        kept.vote.choice@ == mixed[i].vote.choice@,
        kept.vote.A_enc@ == mixed[i].vote.auth.A_enc@,
{
}

/// What is kept of a vote is its own choice and credential.
pub proof fn law_stripped_vote_is_its_own(entry: (usize, VoteWithEncPubCred), votes: Seq<VoteView>)
    requires
        stripped_from(entry, votes),
    ensures
        entry.0 < votes.len(),
        entry.1.choice@ == votes[entry.0 as int].choice,
        entry.1.A_enc@ == votes[entry.0 as int].a,
{
}

/// Fingerprints of ballots match only if there is one list, with a decryption of
/// each of its ciphertexts, and as many as there are ballots.
pub proof fn law_matching_fingerprints(lists: Seq<Seq<CtView>>, n: int, decryptions: Seq<DecOk>, i: int)
    requires
        fingerprints_match(lists, n, decryptions),
    ensures
        lists.len() == 1,
        lists[0].len() == n,
        decryptions.len() == n,
        0 <= i < n ==> decryptions[i].ciphertext@ == lists[0][i],
{
}

/// Fingerprints of credentials and votes match only if there are two lists, with
/// a decryption of each of their ciphertexts.
pub proof fn law_matching_lists(
    lists: Seq<Seq<CtView>>,
    dec_pub: Seq<DecOk>,
    dec_votes: Seq<DecOk>,
    i: int,
)
    requires
        lists_match(lists, dec_pub, dec_votes),
    ensures
        lists.len() == 2,
        lists[0].len() == dec_pub.len(),
        lists[1].len() == dec_votes.len(),
        0 <= i < dec_pub.len() ==> dec_pub[i].ciphertext@ == lists[0][i],
        0 <= i < dec_votes.len() ==> dec_votes[i].ciphertext@ == lists[1][i],
{
}

/// Fingerprints are taken as decrypted only if they were verified and each
/// decryption, of credentials and of votes, is proved; a single forged one is
/// refused, wherever it stands.
pub proof fn law_every_fingerprint_is_proved(
    pk: ElectionPublicKey,
    verified: Result<(), CryptoError>,
    dec_pub: Seq<DecOk>,
    dec_votes: Seq<DecOk>,
    start: Seq<Entry>,
    i: int,
)
    requires
        pk.fingerprints_decrypted(verified, dec_pub, dec_votes, start).is_ok(),
    ensures
        verified.is_ok(),
        0 <= i < dec_pub.len() ==> decryption_proved(pk.key(), dec_pub[i], start),
        0 <= i < dec_votes.len() ==> decryption_proved(
            pk.key(),
            dec_votes[i],
            held_before(dec_pub, pk.key(), start, dec_pub.len() as int),
        ),
{
    if 0 <= i < dec_pub.len() {
        law_every_decryption_is_proved(dec_pub, pk.key(), start, dec_pub.len() as int, i);
    }
    if 0 <= i < dec_votes.len() {
        law_every_decryption_is_proved(
            dec_votes,
            pk.key(),
            held_before(dec_pub, pk.key(), start, dec_pub.len() as int),
            dec_votes.len() as int,
            i,
        );
    }
}

/// Fingerprints that failed their verification are refused with that error.
pub proof fn law_unverified_fingerprints(
    pk: ElectionPublicKey,
    error: CryptoError,
    dec_pub: Seq<DecOk>,
    dec_votes: Seq<DecOk>,
    start: Seq<Entry>,
)
    ensures
        pk.fingerprints_decrypted(Err(error), dec_pub, dec_votes, start) == Err::<(), Error>(
            Error::FailedVerification(error),
        ),
{
}

} // verus!
