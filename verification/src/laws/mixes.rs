//! What an accepted mix binds.

use vstd::prelude::*;
use vstd::utf8::encode_utf8;

use crate::api::server::bb::VerifiedVoteRecord;
use crate::api::server::pipeline::{
    credentials_mixed, law_mix_keeps_votes, mixes, record_views, CredMixArtifact, PublicPipeline,
    VoteMixArtifact,
};
use crate::api::server::run::lemma_reaches;
use crate::arith::{
    has_inverse, is_inverse, lemma_order, lemma_red_add, lemma_red_cancel, lemma_red_small,
    lemma_red_sub, red,
};
use crate::elgamal::{
    ct_add, ct_decrypt, ct_encoding, ct_encrypt, ct_rows, ct_sub, ct_views, law_re_encrypt, Ciphertext, CtView,
};
use crate::laws::ballots::held;
use crate::laws::proofs::lemma_difference_zero;
use crate::proofs::shuffle::{ct_combination, shuffle_challenges, shuffle_commit_steps, shuffle_verdict};
use crate::protocol::cred_mix::{credentials, MixedCredentials};
use crate::protocol::mix::{column, offset, party_steps, votes_have, Column, MixedVotes};
use crate::protocol::vote::auth::{ExtendedShortPublicACC, ShortPublicACC};
use crate::protocol::vote::choice::ChoiceParameters;
use crate::protocol::vote::vote::{ExtendedVote, VoteView};
use crate::transcript::Entry;

verus! {

/// The equation that links a list of ciphertexts to the list it was mixed from:
/// the accumulator, less the old ones combined with `t`, plus the new ones
/// combined with `f`, encrypts zero with the randomness `z`.
pub open spec fn column_linked(
    key: CtView,
    e_d: CtView,
    z: int,
    t: Seq<int>,
    f: Seq<int>,
    before: Seq<CtView>,
    after: Seq<CtView>,
) -> bool {
    ct_add(ct_sub(e_d, ct_combination(before, t)), ct_combination(after, f)) == ct_encrypt(key, 0, z)
}

/// Whether the lists agree but for the position `k`.
pub open spec fn agree_but(a: Seq<CtView>, b: Seq<CtView>, k: int) -> bool {
    &&& a.len() == b.len()
    &&& 0 <= k < a.len()
    &&& forall|h: int| #![trigger a[h]] 0 <= h < a.len() && h != k ==> a[h] == b[h]
}

/// Whether both have the same residues.
pub open spec fn congruent(a: CtView, b: CtView) -> bool {
    red(a.r1) == red(b.r1) && red(a.r2) == red(b.r2) && red(a.b) == red(b.b)
}

/// Combinations of lists that differ in one entry differ by its difference, times
/// its coefficient.
proof fn lemma_combinations(a: Seq<CtView>, b: Seq<CtView>, ks: Seq<int>, k: int)
    requires
        agree_but(a, b, k),
    ensures
        red(ct_combination(a, ks).r1 - ct_combination(b, ks).r1) == red((a[k].r1 - b[k].r1) * ks[k]),
        red(ct_combination(a, ks).r2 - ct_combination(b, ks).r2) == red((a[k].r2 - b[k].r2) * ks[k]),
        red(ct_combination(a, ks).b - ct_combination(b, ks).b) == red((a[k].b - b[k].b) * ks[k]),
    decreases a.len(),
{
    let n = a.len() - 1;
    let (a0, b0) = (a.drop_last(), b.drop_last());
    let (x, y) = (ct_combination(a0, ks), ct_combination(b0, ks));
    let (p, q) = (a[n], b[n]);
    let c = ks[n];
    if k == n {
        assert(a0 =~= b0);
        lemma_summands(x.r1, y.r1, p.r1, q.r1, c, 0);
        lemma_summands(x.r2, y.r2, p.r2, q.r2, c, 0);
        lemma_summands(x.b, y.b, p.b, q.b, c, 0);
    } else {
        assert forall|h: int| #![trigger a0[h]] 0 <= h < a0.len() && h != k implies a0[h] == b0[h] by {
            assert(a[h] == b[h]);
        }
        lemma_combinations(a0, b0, ks, k);
        lemma_summands(x.r1, y.r1, p.r1, q.r1, c, (a[k].r1 - b[k].r1) * ks[k]);
        lemma_summands(x.r2, y.r2, p.r2, q.r2, c, (a[k].r2 - b[k].r2) * ks[k]);
        lemma_summands(x.b, y.b, p.b, q.b, c, (a[k].b - b[k].b) * ks[k]);
    }
}

/// The difference of two sums.
proof fn lemma_summands(x: int, y: int, p: int, q: int, c: int, d: int)
    requires
        red(x - y) == red(d),
    ensures
        red(red(x + red(p * c)) - red(y + red(q * c))) == red(d + (p - q) * c),
{
    lemma_red_add(x, p * c);
    lemma_red_add(y, q * c);
    lemma_red_sub(x + p * c, y + q * c);
    assert(x + p * c - (y + q * c) == (x - y) + (p - q) * c) by (nonlinear_arith);
    lemma_red_add(x - y, (p - q) * c);
    lemma_red_add(d, (p - q) * c);
}

/// A coefficient with an inverse leaves no room for a difference.
pub(crate) proof fn lemma_no_difference(x: int, y: int, c: int)
    requires
        red((x - y) * c) == 0,
        has_inverse(c),
    ensures
        red(x) == red(y),
{
    let inverse = choose|inverse: int| #[trigger] is_inverse(c, inverse);
    lemma_order();
    lemma_red_small(0);
    assert((x - y) * c == c * (x - y)) by (nonlinear_arith);
    assert(c * 0 == 0);
    lemma_red_cancel(c, inverse, x - y, 0);
    lemma_difference_zero(x, y);
}

/// Where two sums agree, so do the second summands.
proof fn lemma_same_summand(e: int, x: int, y: int)
    requires
        red(e + x) == red(e + y),
    ensures
        red(x - y) == 0,
{
    lemma_red_sub(e + x, e + y);
    assert(e + x - (e + y) == x - y);
    lemma_order();
    lemma_red_small(0);
}

/// One proof links one list only: of two lists that differ in one ciphertext, whose
/// coefficient has an inverse, at most one satisfies the equation.
proof fn lemma_new_list_bound(
    key: CtView,
    e_d: CtView,
    z: int,
    t: Seq<int>,
    f: Seq<int>,
    before: Seq<CtView>,
    after: Seq<CtView>,
    other: Seq<CtView>,
    k: int,
)
    requires
        column_linked(key, e_d, z, t, f, before, after),
        column_linked(key, e_d, z, t, f, before, other),
        agree_but(after, other, k),
        has_inverse(f[k]),
    ensures
        congruent(after[k], other[k]),
{
    let e = ct_sub(e_d, ct_combination(before, t));
    let (x, y) = (ct_combination(after, f), ct_combination(other, f));
    lemma_combinations(after, other, f, k);
    lemma_same_summand(e.r1, x.r1, y.r1);
    lemma_same_summand(e.r2, x.r2, y.r2);
    lemma_same_summand(e.b, x.b, y.b);
    lemma_no_difference(after[k].r1, other[k].r1, f[k]);
    lemma_no_difference(after[k].r2, other[k].r2, f[k]);
    lemma_no_difference(after[k].b, other[k].b, f[k]);
}

/// One proof links to one list only.
proof fn lemma_old_list_bound(
    key: CtView,
    e_d: CtView,
    z: int,
    t: Seq<int>,
    f: Seq<int>,
    before: Seq<CtView>,
    other: Seq<CtView>,
    after: Seq<CtView>,
    k: int,
)
    requires
        column_linked(key, e_d, z, t, f, before, after),
        column_linked(key, e_d, z, t, f, other, after),
        agree_but(before, other, k),
        has_inverse(t[k]),
    ensures
        congruent(before[k], other[k]),
{
    let (x, y) = (ct_combination(before, t), ct_combination(other, t));
    let s = ct_combination(after, f);
    lemma_combinations(before, other, t, k);
    lemma_swapped(e_d.r1, x.r1, y.r1, s.r1);
    lemma_swapped(e_d.r2, x.r2, y.r2, s.r2);
    lemma_swapped(e_d.b, x.b, y.b, s.b);
    lemma_no_difference(before[k].r1, other[k].r1, t[k]);
    lemma_no_difference(before[k].r2, other[k].r2, t[k]);
    lemma_no_difference(before[k].b, other[k].b, t[k]);
}

proof fn lemma_swapped(e: int, x: int, y: int, s: int)
    requires
        red(red(e - x) + s) == red(red(e - y) + s),
    ensures
        red(x - y) == 0,
{
    lemma_red_add(e - x, s);
    lemma_red_add(e - y, s);
    lemma_red_sub(e - y + s, e - x + s);
    assert(e - y + s - (e - x + s) == x - y);
    lemma_order();
    lemma_red_small(0);
}

/// Ciphertexts with the same residues are one.
pub(crate) proof fn lemma_same_ciphertext(a: Ciphertext, b: Ciphertext)
    requires
        congruent(a@, b@),
    ensures
        a@ == b@,
{
    a.random_point.lemma_bounds();
    a.random_point2.lemma_bounds();
    a.blinded_point.lemma_bounds();
    b.random_point.lemma_bounds();
    b.random_point2.lemma_bounds();
    b.blinded_point.lemma_bounds();
    lemma_red_small(a@.r1);
    lemma_red_small(a@.r2);
    lemma_red_small(a@.b);
    lemma_red_small(b@.r1);
    lemma_red_small(b@.r2);
    lemma_red_small(b@.b);
}

/// The ciphertexts of one party in the first `n` votes.
pub open spec fn party_cts(records: Seq<VerifiedVoteRecord>, i: int, n: int) -> Seq<CtView> {
    Seq::new(n as nat, |k: int| records[k].vote.choice.l1@[i]@)
}

/// The ciphertexts of one candidate in the first `n` votes.
pub open spec fn candidate_cts(records: Seq<VerifiedVoteRecord>, i: int, j: int, n: int) -> Seq<CtView> {
    Seq::new(n as nat, |k: int| records[k].vote.choice.l2@[i]@[j]@)
}

/// The number of candidates before those of party `i`.
pub open spec fn candidates_before(ln2: Seq<usize>, i: int) -> int
    decreases i,
{
    if i <= 0 {
        0
    } else {
        candidates_before(ln2, i - 1) + ln2[i - 1]
    }
}

/// The step of a mix and its election, at the beginning of a transcript.
pub open spec fn begins(entries: Seq<Entry>, label: Seq<char>, context_hash: Seq<u8>) -> bool {
    &&& entries.len() >= 2
    &&& entries[0].1 == encode_utf8(label)
    &&& entries[1].1 == context_hash
}

/// Every vote is mixed once: each original has one place in the mix, where its
/// receipt and the plaintexts of all its ciphertexts are, and there are no other
/// places.
pub proof fn law_every_vote_is_mixed_once(
    key: CtView,
    x1: int,
    x2: int,
    params: ChoiceParameters,
    originals: Seq<VerifiedVoteRecord>,
    shuffled: Seq<VerifiedVoteRecord>,
    perm: Seq<usize>,
    ext: Seq<ExtendedVote>,
    i: int,
) -> (k: int)
    requires
        key.b == red(x1 * key.r1 + x2 * key.r2),
        params.wf(),
        mixes(key, originals, shuffled, perm, ext),
        votes_have(record_views(originals), params, originals.len() as int),
        0 <= i < originals.len(),
    ensures
        shuffled.len() == originals.len(),
        0 <= k < shuffled.len(),
        perm[k] == i,
        forall|h: int| 0 <= h < shuffled.len() && h != k ==> #[trigger] perm[h] != i,
        shuffled[k].receipt == originals[i].receipt,
        ct_decrypt(x1, x2, shuffled[k].vote@.a) == ct_decrypt(x1, x2, originals[i].vote@.a),
        ct_decrypt(x1, x2, shuffled[k].vote@.ar) == ct_decrypt(x1, x2, originals[i].vote@.ar),
        ct_decrypt(x1, x2, shuffled[k].vote@.g3x) == ct_decrypt(x1, x2, originals[i].vote@.g3x),
        forall|p: int|
            0 <= p < params.n1 ==> ct_decrypt(x1, x2, #[trigger] shuffled[k].vote@.choice.l1[p])
                == ct_decrypt(x1, x2, originals[i].vote@.choice.l1[p]),
        forall|p: int, q: int|
            0 <= p < params.n1 && 0 <= q < params.ln2@[p] ==> ct_decrypt(
                x1,
                x2,
                #[trigger] shuffled[k].vote@.choice.l2[p][q],
            ) == ct_decrypt(x1, x2, originals[i].vote@.choice.l2[p][q]),
{
    let k = lemma_reaches(perm, originals.len() as int, i);
    let (old, new) = (originals[i].vote@, shuffled[k].vote@);
    assert(shuffled[k].receipt == originals[perm[k] as int].receipt);
    law_mix_keeps_votes(key, x1, x2, params, originals, shuffled, perm, ext, k, Column::A);
    law_mix_keeps_votes(key, x1, x2, params, originals, shuffled, perm, ext, k, Column::Ar);
    law_mix_keeps_votes(key, x1, x2, params, originals, shuffled, perm, ext, k, Column::G3x);
    assert forall|p: int| 0 <= p < params.n1 implies ct_decrypt(
        x1,
        x2,
        #[trigger] new.choice.l1[p],
    ) == ct_decrypt(x1, x2, old.choice.l1[p]) by {
        law_mix_keeps_votes(
            key,
            x1,
            x2,
            params,
            originals,
            shuffled,
            perm,
            ext,
            k,
            Column::Party { i: p },
        );
    }
    assert forall|p: int, q: int| 0 <= p < params.n1 && 0 <= q < params.ln2@[p] implies ct_decrypt(
        x1,
        x2,
        #[trigger] new.choice.l2[p][q],
    ) == ct_decrypt(x1, x2, old.choice.l2[p][q]) by {
        law_mix_keeps_votes(
            key,
            x1,
            x2,
            params,
            originals,
            shuffled,
            perm,
            ext,
            k,
            Column::Candidate { i: p, j: q },
        );
    }
    k
}

/// Every credential is mixed once, and keeps its plaintext.
pub proof fn law_every_credential_is_mixed_once(
    key: CtView,
    x1: int,
    x2: int,
    originals: Seq<ShortPublicACC>,
    shuffled: Seq<ShortPublicACC>,
    perm: Seq<usize>,
    ext: Seq<ExtendedShortPublicACC>,
    i: int,
) -> (k: int)
    requires
        key.b == red(x1 * key.r1 + x2 * key.r2),
        credentials_mixed(key, originals, shuffled, perm, ext),
        0 <= i < originals.len(),
    ensures
        shuffled.len() == originals.len(),
        0 <= k < shuffled.len(),
        perm[k] == i,
        forall|h: int| 0 <= h < shuffled.len() && h != k ==> #[trigger] perm[h] != i,
        ct_decrypt(x1, x2, shuffled[k].enc_A@) == ct_decrypt(x1, x2, originals[i].enc_A@),
{
    let k = lemma_reaches(perm, originals.len() as int, i);
    assert(shuffled[k].enc_A@ == ext[k].enc_A.inner@);
    law_re_encrypt(x1, x2, key, originals[i].enc_A@, ext[k].enc_A.random_scalar@);
    k
}

/// An accepted vote mix binds every column: the shuffle argument is valid, and
/// the linking equation holds of the ciphertexts of each party, of each
/// candidate, and of all three of the credential, each with its own accumulator
/// and response, and with coefficients that are bound to the election and to the
/// accumulators.
pub proof fn law_accepted_vote_mix(
    bb: PublicPipeline,
    originals: Seq<VerifiedVoteRecord>,
    art: VoteMixArtifact,
    i: int,
    j: int,
) -> (entries: Seq<Entry>)
    requires
        bb.vote_mix_formed(originals, art),
        bb.vote_mix_accepted(originals, art),
        0 <= i < bb.election.ctx.choice.n1,
        0 <= j < bb.election.ctx.choice.ln2@[i],
    ensures
        ({
            let key = bb.election.ctx.pk.key();
            let ln2 = bb.election.ctx.choice.ln2@;
            let m = art.proof;
            let n = originals.len() as int;
            let new = art.shuffled@;
            let f = m.core_proof.f();
            let parts = m.core_proof.parts();
            let t = shuffle_challenges(entries + shuffle_commit_steps(parts), n);
            &&& begins(entries, "mix-votes"@, bb.election.ctx.context_hash@)
            &&& shuffle_verdict(art.pedersen.logs(), parts, entries) == 0
            &&& f.len() == n
            &&& held(entries, ct_encoding(m.ed_L1@[i]@))
            &&& held(entries, ct_encoding(m.ed_L2@[i]@[j]@))
            &&& held(entries, ct_encoding(m.ed_A@))
            &&& held(entries, ct_encoding(m.ed_Ar@))
            &&& held(entries, ct_encoding(m.ed_g3x@))
            &&& column_linked(
                key,
                m.ed_L1@[i]@,
                m.z_L1@[i]@,
                t,
                f,
                party_cts(originals, i, n),
                party_cts(new, i, n),
            )
            &&& column_linked(
                key,
                m.ed_L2@[i]@[j]@,
                m.z_L2@[candidates_before(ln2, i) + j]@,
                t,
                f,
                candidate_cts(originals, i, j, n),
                candidate_cts(new, i, j, n),
            )
            &&& column_linked(
                key,
                m.ed_A@,
                m.z_A@,
                t,
                f,
                Seq::new(n as nat, |k: int| originals[k].vote.auth.A_enc@),
                Seq::new(n as nat, |k: int| new[k].vote.auth.A_enc@),
            )
            &&& column_linked(
                key,
                m.ed_Ar@,
                m.z_Ar@,
                t,
                f,
                Seq::new(n as nat, |k: int| originals[k].vote.auth.Ar_enc@),
                Seq::new(n as nat, |k: int| new[k].vote.auth.Ar_enc@),
            )
            &&& column_linked(
                key,
                m.ed_g3x@,
                m.z_g3x@,
                t,
                f,
                Seq::new(n as nat, |k: int| originals[k].vote.auth.g3x_enc@),
                Seq::new(n as nat, |k: int| new[k].vote.auth.g3x_enc@),
            )
        }),
{
    let ctx = bb.election.ctx;
    let params = ctx.choice;
    let m = art.proof;
    let n = originals.len() as int;
    let entries = ctx.steps("mix-votes"@) + m.steps(params);
    let first = record_views(originals);
    let second = record_views(art.shuffled@);
    let t = m.challenges(ctx.steps("mix-votes"@), params, n);
    assert(first.len() == n);
    lemma_same_offset(params.ln2@, i);
    lemma_accumulators_held(m, params, ctx.steps("mix-votes"@), i, j);
    assert(m.holds(ctx.pk.key(), params, t, first, second, Column::Party { i }));
    assert(m.holds(ctx.pk.key(), params, t, first, second, Column::Candidate { i, j }));
    assert(m.holds(ctx.pk.key(), params, t, first, second, Column::A));
    assert(m.holds(ctx.pk.key(), params, t, first, second, Column::Ar));
    assert(m.holds(ctx.pk.key(), params, t, first, second, Column::G3x));
    let new = art.shuffled@;
    assert forall|k: int| 0 <= k < n implies {
        &&& first[k].choice.l2[i][j] == originals[k].vote.choice.l2@[i]@[j]@
        &&& second[k].choice.l2[i][j] == new[k].vote.choice.l2@[i]@[j]@
        &&& first[k].choice.l1[i] == originals[k].vote.choice.l1@[i]@
        &&& second[k].choice.l1[i] == new[k].vote.choice.l1@[i]@
    } by {
        assert(first[k].covers(params));
        assert(second[k].covers(params));
        assert(first[k] == originals[k].vote@);
        assert(second[k] == new[k].vote@);
        assert(first[k].choice.l2[i].len() >= params.ln2@[i]);
        assert(second[k].choice.l2[i].len() >= params.ln2@[i]);
    }
    assert(column(first, Column::Party { i }, n) =~= party_cts(originals, i, n));
    assert(column(second, Column::Party { i }, n) =~= party_cts(new, i, n));
    assert(column(first, Column::Candidate { i, j }, n) =~= candidate_cts(originals, i, j, n));
    assert(column(second, Column::Candidate { i, j }, n) =~= candidate_cts(new, i, j, n));
    assert(column(first, Column::A, n) =~= Seq::new(
        n as nat,
        |k: int| originals[k].vote.auth.A_enc@,
    ));
    assert(column(second, Column::A, n) =~= Seq::new(n as nat, |k: int| new[k].vote.auth.A_enc@));
    assert(column(first, Column::Ar, n) =~= Seq::new(
        n as nat,
        |k: int| originals[k].vote.auth.Ar_enc@,
    ));
    assert(column(second, Column::Ar, n) =~= Seq::new(n as nat, |k: int| new[k].vote.auth.Ar_enc@));
    assert(column(first, Column::G3x, n) =~= Seq::new(
        n as nat,
        |k: int| originals[k].vote.auth.g3x_enc@,
    ));
    assert(column(second, Column::G3x, n) =~= Seq::new(
        n as nat,
        |k: int| new[k].vote.auth.g3x_enc@,
    ));
    entries
}

proof fn lemma_same_offset(ln2: Seq<usize>, i: int)
    ensures
        offset(ln2, i) == candidates_before(ln2, i),
    decreases i,
{
    if i > 0 {
        lemma_same_offset(ln2, i - 1);
    }
}

/// The transcript holds all accumulators.
proof fn lemma_accumulators_held(
    m: MixedVotes,
    params: ChoiceParameters,
    start: Seq<Entry>,
    i: int,
    j: int,
)
    requires
        params.wf(),
        m.shaped(params),
        0 <= i < params.n1,
        0 <= j < params.ln2@[i],
    ensures
        held(start + m.steps(params), ct_encoding(m.ed_L1@[i]@)),
        held(start + m.steps(params), ct_encoding(m.ed_L2@[i]@[j]@)),
        held(start + m.steps(params), ct_encoding(m.ed_A@)),
        held(start + m.steps(params), ct_encoding(m.ed_Ar@)),
        held(start + m.steps(params), ct_encoding(m.ed_g3x@)),
{
    let (l1, l2) = (ct_views(m.ed_L1@), ct_rows(m.ed_L2@));
    let parties = party_steps(l1, l2, params.ln2@, params.n1 as int);
    let all = start + m.steps(params);
    let s = start.len() as int;
    let (a, b) = lemma_party_held(l1, l2, params.ln2@, params.n1 as int, i, j);
    assert(m.ed_L2@[i]@.len() >= params.ln2@[i]);
    assert(l2[i][j] == m.ed_L2@[i]@[j]@);
    assert(all[s + a] == parties[a]);
    assert(all[s + b] == parties[b]);
    let e = s + parties.len();
    assert(all[e].1 == ct_encoding(m.ed_A@));
    assert(all[e + 1].1 == ct_encoding(m.ed_Ar@));
    assert(all[e + 2].1 == ct_encoding(m.ed_g3x@));
}

/// Where the accumulators of a party and of one of its candidates stand.
proof fn lemma_party_held(
    l1: Seq<CtView>,
    l2: Seq<Seq<CtView>>,
    ln2: Seq<usize>,
    n: int,
    i: int,
    j: int,
) -> (r: (int, int))
    requires
        0 <= i < n,
        0 <= j < ln2[i],
    ensures
        0 <= r.0 < party_steps(l1, l2, ln2, n).len(),
        0 <= r.1 < party_steps(l1, l2, ln2, n).len(),
        party_steps(l1, l2, ln2, n)[r.0].1 == ct_encoding(l1[i]),
        party_steps(l1, l2, ln2, n)[r.0].2 == 0,
        party_steps(l1, l2, ln2, n)[r.1].1 == ct_encoding(l2[i][j]),
        party_steps(l1, l2, ln2, n)[r.1].2 == 0,
    decreases n,
{
    let all = party_steps(l1, l2, ln2, n);
    let less = party_steps(l1, l2, ln2, n - 1);
    if i == n - 1 {
        let at = less.len() as int;
        assert(all[at].1 == ct_encoding(l1[i]));
        assert(all[at + 1 + j].1 == ct_encoding(l2[i][j]));
        (at, at + 1 + j)
    } else {
        let (a, b) = lemma_party_held(l1, l2, ln2, n - 1, i, j);
        assert(all[a] == less[a]);
        assert(all[b] == less[b]);
        (a, b)
    }
}

/// Whether two lists of records agree but for the vote at `k`.
pub open spec fn votes_agree_but(a: Seq<VerifiedVoteRecord>, b: Seq<VerifiedVoteRecord>, k: int) -> bool {
    &&& a.len() == b.len()
    &&& forall|h: int|
        #![trigger a[h]]
        0 <= h < a.len() && h != k ==> a[h].vote@ == b[h].vote@
}

/// Whether two votes agree in every ciphertext of party `i`, of its candidate `j`,
/// and of the credential.
pub open spec fn votes_agree_at(a: VerifiedVoteRecord, b: VerifiedVoteRecord, i: int, j: int) -> bool {
    &&& a.vote.choice.l1@[i]@ == b.vote.choice.l1@[i]@
    &&& a.vote.choice.l2@[i]@[j]@ == b.vote.choice.l2@[i]@[j]@
    &&& a.vote.auth.A_enc@ == b.vote.auth.A_enc@
    &&& a.vote.auth.Ar_enc@ == b.vote.auth.Ar_enc@
    &&& a.vote.auth.g3x_enc@ == b.vote.auth.g3x_enc@
}

/// A mixed vote cannot be exchanged: where one proof is accepted for two lists of
/// mixed votes that agree but for one vote, and that vote's coefficient has an
/// inverse, the votes agree there too, in every ciphertext.
pub proof fn law_mixed_votes_cannot_be_exchanged(
    bb: PublicPipeline,
    originals: Seq<VerifiedVoteRecord>,
    art: VoteMixArtifact,
    other: VoteMixArtifact,
    k: int,
    i: int,
    j: int,
)
    requires
        bb.vote_mix_formed(originals, art),
        bb.vote_mix_accepted(originals, art),
        bb.vote_mix_formed(originals, other),
        bb.vote_mix_accepted(originals, other),
        art.proof == other.proof,
        0 <= k < originals.len(),
        votes_agree_but(art.shuffled@, other.shuffled@, k),
        has_inverse(art.proof.core_proof.f()[k]),
        0 <= i < bb.election.ctx.choice.n1,
        0 <= j < bb.election.ctx.choice.ln2@[i],
    ensures
        votes_agree_at(art.shuffled@[k], other.shuffled@[k], i, j),
{
    lemma_vote_mix_entries(bb, originals, art, other, i, j);
    let key = bb.election.ctx.pk.key();
    let params = bb.election.ctx.choice;
    let m = art.proof;
    let n = originals.len() as int;
    let f = m.core_proof.f();
    let t = m.challenges(bb.election.ctx.steps("mix-votes"@), params, n);
    let (a, b) = (art.shuffled@, other.shuffled@);
    let first = record_views(originals);
    let va = record_views(a);
    let vb = record_views(b);
    assert(va[k].covers(params) && vb[k].covers(params));
    assert(va[k] == a[k].vote@ && vb[k] == b[k].vote@);
    assert(va[k].choice.l2[i].len() >= params.ln2@[i] && vb[k].choice.l2[i].len() >= params.ln2@[i]);
    lemma_column_bound(m, key, params, t, first, va, vb, Column::Party { i }, k);
    lemma_column_bound(m, key, params, t, first, va, vb, Column::Candidate { i, j }, k);
    lemma_column_bound(m, key, params, t, first, va, vb, Column::A, k);
    lemma_column_bound(m, key, params, t, first, va, vb, Column::Ar, k);
    lemma_column_bound(m, key, params, t, first, va, vb, Column::G3x, k);
    lemma_same_ciphertext(a[k].vote.choice.l1@[i], b[k].vote.choice.l1@[i]);
    lemma_same_ciphertext(a[k].vote.choice.l2@[i]@[j], b[k].vote.choice.l2@[i]@[j]);
    lemma_same_ciphertext(a[k].vote.auth.A_enc, b[k].vote.auth.A_enc);
    lemma_same_ciphertext(a[k].vote.auth.Ar_enc, b[k].vote.auth.Ar_enc);
    lemma_same_ciphertext(a[k].vote.auth.g3x_enc, b[k].vote.auth.g3x_enc);
}

/// Both mixes satisfy the equation of each column.
proof fn lemma_vote_mix_entries(
    bb: PublicPipeline,
    originals: Seq<VerifiedVoteRecord>,
    art: VoteMixArtifact,
    other: VoteMixArtifact,
    i: int,
    j: int,
)
    requires
        bb.vote_mix_formed(originals, art),
        bb.vote_mix_accepted(originals, art),
        bb.vote_mix_formed(originals, other),
        bb.vote_mix_accepted(originals, other),
        art.proof == other.proof,
        0 <= i < bb.election.ctx.choice.n1,
        0 <= j < bb.election.ctx.choice.ln2@[i],
    ensures
        ({
            let params = bb.election.ctx.choice;
            let m = art.proof;
            let t = m.challenges(
                bb.election.ctx.steps("mix-votes"@),
                params,
                originals.len() as int,
            );
            let first = record_views(originals);
            let va = record_views(art.shuffled@);
            let vb = record_views(other.shuffled@);
            forall|c: Column|
                c == (Column::Party { i }) || c == (Column::Candidate { i, j }) || c == Column::A || c
                    == Column::Ar || c == Column::G3x ==> #[trigger] m.holds(
                    bb.election.ctx.pk.key(),
                    params,
                    t,
                    first,
                    va,
                    c,
                ) && #[trigger] m.holds(bb.election.ctx.pk.key(), params, t, first, vb, c)
        }),
{
    assert(record_views(originals).len() == originals.len());
}

/// One column of the mixed votes is bound.
proof fn lemma_column_bound(
    m: MixedVotes,
    key: CtView,
    params: ChoiceParameters,
    t: Seq<int>,
    originals: Seq<VoteView>,
    a: Seq<VoteView>,
    b: Seq<VoteView>,
    c: Column,
    k: int,
)
    requires
        m.holds(key, params, t, originals, a, c),
        m.holds(key, params, t, originals, b, c),
        0 <= k < originals.len(),
        originals.len() <= a.len(),
        originals.len() <= b.len(),
        forall|h: int| #![trigger a[h]] 0 <= h < originals.len() && h != k ==> a[h] == b[h],
        has_inverse(m.core_proof.f()[k]),
    ensures
        congruent(a[k].at(c), b[k].at(c)),
{
    let n = originals.len() as int;
    let (x, y) = (column(a, c, n), column(b, c, n));
    assert forall|h: int| #![trigger x[h]] 0 <= h < n && h != k implies x[h] == y[h] by {
        assert(a[h] == b[h]);
    }
    lemma_new_list_bound(
        key,
        m.ed(c),
        m.z(c, params),
        t,
        m.core_proof.f(),
        column(originals, c, n),
        x,
        y,
        k,
    );
}

/// A vote that was mixed cannot be exchanged either: where one mix is accepted
/// for two lists of originals that agree but for one vote, whose coefficient has
/// an inverse, the originals agree there too, in every ciphertext.
pub proof fn law_original_votes_cannot_be_exchanged(
    bb: PublicPipeline,
    originals: Seq<VerifiedVoteRecord>,
    others: Seq<VerifiedVoteRecord>,
    art: VoteMixArtifact,
    k: int,
    i: int,
    j: int,
) -> (entries: Seq<Entry>)
    requires
        bb.vote_mix_formed(originals, art),
        bb.vote_mix_accepted(originals, art),
        bb.vote_mix_formed(others, art),
        bb.vote_mix_accepted(others, art),
        0 <= k < originals.len(),
        votes_agree_but(originals, others, k),
        0 <= i < bb.election.ctx.choice.n1,
        0 <= j < bb.election.ctx.choice.ln2@[i],
    ensures
        begins(entries, "mix-votes"@, bb.election.ctx.context_hash@),
        shuffle_verdict(art.pedersen.logs(), art.proof.core_proof.parts(), entries) == 0,
        has_inverse(
            shuffle_challenges(
                entries + shuffle_commit_steps(art.proof.core_proof.parts()),
                originals.len() as int,
            )[k],
        ) ==> votes_agree_at(originals[k], others[k], i, j),
{
    let ctx = bb.election.ctx;
    let entries = ctx.steps("mix-votes"@) + art.proof.steps(ctx.choice);
    let key = ctx.pk.key();
    let params = ctx.choice;
    let m = art.proof;
    let n = originals.len() as int;
    let t = m.challenges(ctx.steps("mix-votes"@), params, n);
    let va = record_views(originals);
    let vb = record_views(others);
    let new = record_views(art.shuffled@);
    assert(va.len() == n && vb.len() == n);
    if has_inverse(t[k]) {
        assert(va[k].covers(params) && vb[k].covers(params));
        assert(va[k] == originals[k].vote@ && vb[k] == others[k].vote@);
        assert(va[k].choice.l2[i].len() >= params.ln2@[i] && vb[k].choice.l2[i].len()
            >= params.ln2@[i]);
        lemma_old_column_bound(m, key, params, t, va, vb, new, Column::Party { i }, k);
        lemma_old_column_bound(m, key, params, t, va, vb, new, Column::Candidate { i, j }, k);
        lemma_old_column_bound(m, key, params, t, va, vb, new, Column::A, k);
        lemma_old_column_bound(m, key, params, t, va, vb, new, Column::Ar, k);
        lemma_old_column_bound(m, key, params, t, va, vb, new, Column::G3x, k);
        let (a, b) = (originals[k].vote, others[k].vote);
        lemma_same_ciphertext(a.choice.l1@[i], b.choice.l1@[i]);
        lemma_same_ciphertext(a.choice.l2@[i]@[j], b.choice.l2@[i]@[j]);
        lemma_same_ciphertext(a.auth.A_enc, b.auth.A_enc);
        lemma_same_ciphertext(a.auth.Ar_enc, b.auth.Ar_enc);
        lemma_same_ciphertext(a.auth.g3x_enc, b.auth.g3x_enc);
    }
    entries
}

/// One column of the originals is bound.
proof fn lemma_old_column_bound(
    m: MixedVotes,
    key: CtView,
    params: ChoiceParameters,
    t: Seq<int>,
    a: Seq<VoteView>,
    b: Seq<VoteView>,
    new: Seq<VoteView>,
    c: Column,
    k: int,
)
    requires
        m.holds(key, params, t, a, new, c),
        m.holds(key, params, t, b, new, c),
        a.len() == b.len(),
        0 <= k < a.len(),
        forall|h: int| #![trigger a[h]] 0 <= h < a.len() && h != k ==> a[h] == b[h],
        has_inverse(t[k]),
    ensures
        congruent(a[k].at(c), b[k].at(c)),
{
    let n = a.len() as int;
    let (x, y) = (column(a, c, n), column(b, c, n));
    assert forall|h: int| #![trigger x[h]] 0 <= h < n && h != k implies x[h] == y[h] by {
        assert(a[h] == b[h]);
    }
    lemma_old_list_bound(
        key,
        m.ed(c),
        m.z(c, params),
        t,
        m.core_proof.f(),
        x,
        y,
        column(new, c, n),
        k,
    );
}

/// An accepted credential mix binds the credentials: the shuffle argument is
/// valid, and the linking equation holds of the ciphertexts, with coefficients
/// that are bound to the election and to the accumulator.
pub proof fn law_accepted_credential_mix(
    bb: PublicPipeline,
    originals: Seq<ShortPublicACC>,
    art: CredMixArtifact,
) -> (entries: Seq<Entry>)
    requires
        bb.cred_mix_accepted(originals, art),
    ensures
        ({
            let m = art.proof;
            let n = originals.len() as int;
            let parts = m.core_proof.parts();
            &&& begins(entries, "mix-creds"@, bb.election.ctx.context_hash@)
            &&& held(entries, ct_encoding(m.e_d@))
            &&& shuffle_verdict(art.pedersen.logs(), parts, entries) == 0
            &&& m.core_proof.f().len() == art.pedersen.list_len
            &&& column_linked(
                bb.election.ctx.pk.key(),
                m.e_d@,
                m.z@,
                shuffle_challenges(entries + shuffle_commit_steps(parts), n),
                m.core_proof.f(),
                Seq::new(n as nat, |k: int| originals[k].enc_A@),
                Seq::new(n as nat, |k: int| art.shuffled@[k].enc_A@),
            )
        }),
{
    let m = art.proof;
    let n = originals.len() as int;
    let start = bb.election.ctx.steps("mix-creds"@);
    let entries = start.push(crate::transcript::ct_message(""@, m.e_d@));
    assert(entries[2].1 == ct_encoding(m.e_d@));
    assert(credentials(originals, n) =~= Seq::new(n as nat, |k: int| originals[k].enc_A@));
    assert(credentials(art.shuffled@, n) =~= Seq::new(
        n as nat,
        |k: int| art.shuffled@[k].enc_A@,
    ));
    entries
}

/// A mixed credential cannot be exchanged.
pub proof fn law_mixed_credentials_cannot_be_exchanged(
    bb: PublicPipeline,
    originals: Seq<ShortPublicACC>,
    art: CredMixArtifact,
    other: CredMixArtifact,
    k: int,
)
    requires
        bb.cred_mix_accepted(originals, art),
        bb.cred_mix_accepted(originals, other),
        art.proof == other.proof,
        0 <= k < originals.len(),
        forall|h: int|
            #![trigger art.shuffled@[h]]
            0 <= h < originals.len() && h != k ==> art.shuffled@[h].enc_A@
                == other.shuffled@[h].enc_A@,
        has_inverse(art.proof.core_proof.f()[k]),
    ensures
        art.shuffled@[k].enc_A@ == other.shuffled@[k].enc_A@,
{
    let m: MixedCredentials = art.proof;
    let n = originals.len() as int;
    let start = bb.election.ctx.steps("mix-creds"@);
    let (x, y) = (credentials(art.shuffled@, n), credentials(other.shuffled@, n));
    assert forall|h: int| #![trigger x[h]] 0 <= h < n && h != k implies x[h] == y[h] by {
        assert(art.shuffled@[h].enc_A@ == other.shuffled@[h].enc_A@);
    }
    lemma_new_list_bound(
        bb.election.ctx.pk.key(),
        m.e_d@,
        m.z@,
        m.challenges(start, n),
        m.core_proof.f(),
        credentials(originals, n),
        x,
        y,
        k,
    );
    lemma_same_ciphertext(art.shuffled@[k].enc_A, other.shuffled@[k].enc_A);
}

} // verus!
