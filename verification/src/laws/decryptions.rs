//! What proved decryptions, tallies and sums show.

use vstd::prelude::*;

use crate::arith::{
    is_inverse, lemma_order, lemma_red_add, lemma_red_small, lemma_red_sub, red,
};
use crate::elgamal::{
    ct_decrypt, ct_encoding, ct_encrypt, ct_zero, law_decrypt_add, law_decrypt_encrypt,
    table_lookup, CtView, ElGamalParams, SecretKey,
};
use crate::group::point_encoding;
use crate::laws::ballots::held;
use crate::laws::proofs::lemma_extract;
use crate::proofs::decryption::{
    dec_ok_parts, dec_ok_steps, decrypts, held_before, list_holds, DecOk,
};
use crate::proofs::linkage::int_sum;
use crate::protocol::counting::{lemma_sum_shape, sum_of, votes_for};
use crate::protocol::tally::{held_at, held_before_candidate, held_before_party, DecryptedTally, Place};
use crate::protocol::teller::TTSecretKey;
use crate::protocol::vote::choice::{Choice, EncrChoiceView};
use crate::transcript::{challenge_value, Entry};

verus! {

/// Whether a decryption is proved, for a challenge that is bound to `start`, to
/// the key, to ciphertext and plaintext, and to the commitments.
pub open spec fn decryption_proved(key: CtView, d: DecOk, start: Seq<Entry>) -> bool {
    exists|entries: Seq<Entry>|
        start.is_prefix_of(entries) && #[trigger] decryption_answers(key, d, entries)
}

/// Whether the proof of a decryption answers the challenge that is drawn from a
/// transcript with these entries, which hold the statement and the commitments.
pub open spec fn decryption_answers(key: CtView, d: DecOk, entries: Seq<Entry>) -> bool {
    let (ct, m) = (d.ciphertext@, d.plaintext.log());
    let c = challenge_value(entries, "c"@);
    match dec_ok_parts(d.proof@) {
        Some((k, t, z1, z2)) => {
            &&& held(entries, point_encoding(key.r1))
            &&& held(entries, point_encoding(key.r2))
            &&& held(entries, point_encoding(key.b))
            &&& held(entries, ct_encoding(ct))
            &&& held(entries, point_encoding(m))
            &&& held(entries, point_encoding(k))
            &&& held(entries, point_encoding(t))
            &&& red(key.r1 * z1 + key.r2 * z2) == red(k + key.b * c)
            &&& red(ct.r1 * z1 + ct.r2 * z2) == red(t + (ct.b - m) * c)
        },
        None => false,
    }
}

/// The commitments of a decryption proof.
pub open spec fn decryption_commitments(d: DecOk) -> Option<(int, int)> {
    match dec_ok_parts(d.proof@) {
        Some((k, t, _, _)) => Some((k, t)),
        None => None,
    }
}

/// A decryption that is accepted is proved.
pub proof fn law_accepted_decryption(d: DecOk, key: CtView, start: Seq<Entry>)
    requires
        d.holds(key, start),
    ensures
        decryption_proved(key, d, start),
{
    let (ct, m) = (d.ciphertext@, d.plaintext.log());
    let (k, t, z1, z2) = dec_ok_parts(d.proof@)->0;
    let steps = dec_ok_steps(key, ct, m, k, t);
    let entries = start + steps;
    let s = start.len() as int;
    assert(entries.subrange(0, s) =~= start);
    assert(entries[s + 1].1 == point_encoding(key.r1));
    assert(entries[s + 2].1 == point_encoding(key.r2));
    assert(entries[s + 3].1 == point_encoding(key.b));
    assert(entries[s + 4].1 == ct_encoding(ct));
    assert(entries[s + 5].1 == point_encoding(m));
    assert(entries[s + 6].1 == point_encoding(k));
    assert(entries[s + 7].1 == point_encoding(t));
    assert(decryption_answers(key, d, entries));
}

/// A proved decryption is right: who answers two challenges after the same
/// commitments knows a secret key that belongs to the public key, and the
/// plaintext is what this key makes of the ciphertext.
pub proof fn law_decryption_proof_shows(
    key: CtView,
    p: DecOk,
    q: DecOk,
    first: Seq<Entry>,
    second: Seq<Entry>,
    inverse: int,
) -> (w: (int, int))
    requires
        decryption_answers(key, p, first),
        decryption_answers(key, q, second),
        p.ciphertext@ == q.ciphertext@,
        p.plaintext.log() == q.plaintext.log(),
        decryption_commitments(p) == decryption_commitments(q),
        is_inverse(challenge_value(first, "c"@) - challenge_value(second, "c"@), inverse),
    ensures
        red(key.b) == red(w.0 * key.r1 + w.1 * key.r2),
        ct_decrypt(w.0, w.1, p.ciphertext@) == red(p.plaintext.log()),
{
    let (ct, m) = (p.ciphertext@, p.plaintext.log());
    let (k, t, z1, z2) = dec_ok_parts(p.proof@)->0;
    let (_, _, y1, y2) = dec_ok_parts(q.proof@)->0;
    let (c, d) = (challenge_value(first, "c"@), challenge_value(second, "c"@));
    let (w1, w2) = ((z1 - y1) * inverse, (z2 - y2) * inverse);
    lemma_extract_two(key.r1, key.r2, key.b, k, z1, z2, y1, y2, c, d, inverse);
    lemma_extract_two(ct.r1, ct.r2, ct.b - m, t, z1, z2, y1, y2, c, d, inverse);
    assert(key.r1 * w1 + key.r2 * w2 == w1 * key.r1 + w2 * key.r2) by (nonlinear_arith);
    let s = w1 * ct.r1 + w2 * ct.r2;
    assert(ct.r1 * w1 + ct.r2 * w2 == s) by (nonlinear_arith)
        requires
            s == w1 * ct.r1 + w2 * ct.r2,
    ;
    lemma_red_sub(ct.b, s);
    lemma_red_sub(ct.b, ct.b - m);
    assert(ct.b - (ct.b - m) == m);
    (w1, w2)
}

/// Two answers give the factors of a point over two bases.
proof fn lemma_extract_two(
    g: int,
    h: int,
    p: int,
    i: int,
    z1: int,
    z2: int,
    y1: int,
    y2: int,
    c: int,
    d: int,
    inverse: int,
)
    requires
        red(g * z1 + h * z2) == red(i + p * c),
        red(g * y1 + h * y2) == red(i + p * d),
        is_inverse(c - d, inverse),
    ensures
        red(p) == red(g * ((z1 - y1) * inverse) + h * ((z2 - y2) * inverse)),
{
    let (z, y) = (g * z1 + h * z2, g * y1 + h * y2);
    assert(1 * z == z && 1 * y == y);
    lemma_extract(1, p, i, z, y, c, d, inverse);
    assert(1 * ((z - y) * inverse) == g * ((z1 - y1) * inverse) + h * ((z2 - y2) * inverse))
        by (nonlinear_arith)
        requires
            z == g * z1 + h * z2,
            y == g * y1 + h * y2,
    ;
}

/// What the transcript held at first, it holds before each decryption.
proof fn lemma_held_prefix(list: Seq<DecOk>, key: CtView, start: Seq<Entry>, i: int)
    requires
        list_holds(list, key, start, i),
    ensures
        start.is_prefix_of(held_before(list, key, start, i)),
    decreases i,
{
    if i > 0 {
        lemma_held_prefix(list, key, start, i - 1);
        let before = held_before(list, key, start, i - 1);
        let after = held_before(list, key, start, i);
        lemma_after_prefix(list[i - 1], key, before);
        assert(after.subrange(0, start.len() as int) =~= start) by {
            assert(before.is_prefix_of(after));
        }
    } else {
        assert(start.subrange(0, start.len() as int) =~= start);
    }
}

proof fn lemma_after_prefix(d: DecOk, key: CtView, before: Seq<Entry>)
    ensures
        before.is_prefix_of(d.after(key, before)),
{
    assert(d.after(key, before).subrange(0, before.len() as int) =~= before);
}

/// A proof that starts later is bound to what came first.
proof fn lemma_later(key: CtView, d: DecOk, start: Seq<Entry>, later: Seq<Entry>)
    requires
        start.is_prefix_of(later),
        decryption_proved(key, d, later),
    ensures
        decryption_proved(key, d, start),
{
    let entries = choose|entries: Seq<Entry>|
        later.is_prefix_of(entries) && #[trigger] decryption_answers(key, d, entries);
    assert(start.is_prefix_of(entries)) by {
        assert(entries.subrange(0, start.len() as int) =~= start);
    }
}

/// A list of decryptions is accepted only if each of them is proved.
pub proof fn law_every_decryption_is_proved(list: Seq<DecOk>, key: CtView, start: Seq<Entry>, n: int, i: int)
    requires
        list_holds(list, key, start, n),
        0 <= i < n,
    ensures
        decryption_proved(key, list[i], start),
{
    assert(list[i].holds(key, held_before(list, key, start, i)));
    lemma_held_prefix(list, key, start, i);
    law_accepted_decryption(list[i], key, held_before(list, key, start, i));
    lemma_later(key, list[i], start, held_before(list, key, start, i));
}

/// A verified tally is the decryption of the encrypted one, place by place: for
/// each party and each candidate, the decryption is of the ciphertext of that
/// place, it is proved, and the count is the logarithm of its plaintext.
pub proof fn law_verified_tally(
    tally: DecryptedTally,
    key: CtView,
    enc: EncrChoiceView,
    start: Seq<Entry>,
    i: int,
    j: int,
)
    requires
        tally.all_right(key, enc, start),
        0 <= i < enc.l1.len(),
    ensures
        tally.l1_d@[i].ciphertext@ == enc.l1[i],
        decryption_proved(key, tally.l1_d@[i], start),
        tally.tally.l1@[i] == tally.l1_d@[i].plaintext.log(),
        0 <= j < enc.l2[i].len() ==> {
            &&& tally.l2_d@[i]@[j].ciphertext@ == enc.l2[i][j]
            &&& decryption_proved(key, tally.l2_d@[i]@[j], start)
            &&& tally.tally.l2@[i]@[j] == tally.l2_d@[i]@[j].plaintext.log()
        },
{
    let p = Place::Party { i };
    assert(p.within(enc));
    assert(tally.right(key, enc, start, p));
    let before = held_at(tally.l1_d@, tally.l2_d@, key, enc, start, p);
    lemma_party_prefix(tally, key, enc, start, i);
    law_accepted_decryption(tally.l1_d@[i], key, before);
    lemma_later(key, tally.l1_d@[i], start, before);
    if 0 <= j < enc.l2[i].len() {
        let q = Place::Candidate { i, j };
        assert(q.within(enc));
        assert(tally.right(key, enc, start, q));
        let before = held_at(tally.l1_d@, tally.l2_d@, key, enc, start, q);
        lemma_candidate_prefix(tally, key, enc, start, i, j);
        law_accepted_decryption(tally.l2_d@[i]@[j], key, before);
        lemma_later(key, tally.l2_d@[i]@[j], start, before);
    }
}

/// What the transcript held at first, it holds before each party.
proof fn lemma_party_prefix(
    tally: DecryptedTally,
    key: CtView,
    enc: EncrChoiceView,
    start: Seq<Entry>,
    i: int,
)
    ensures
        start.is_prefix_of(held_before_party(tally.l1_d@, tally.l2_d@, key, enc, start, i)),
    decreases i, 0int,
{
    let (l1, l2) = (tally.l1_d@, tally.l2_d@);
    if i > 0 {
        lemma_party_prefix(tally, key, enc, start, i - 1);
        let before = held_before_party(l1, l2, key, enc, start, i - 1);
        let middle = l1[i - 1].after(key, before);
        let after = held_before_party(l1, l2, key, enc, start, i);
        lemma_after_prefix(l1[i - 1], key, before);
        lemma_row_prefix(l2[i - 1]@, key, middle, enc.l2[i - 1].len() as int);
        assert(start.is_prefix_of(after)) by {
            assert(after.subrange(0, start.len() as int) =~= start);
        }
    } else {
        assert(start.subrange(0, start.len() as int) =~= start);
    }
}

proof fn lemma_candidate_prefix(
    tally: DecryptedTally,
    key: CtView,
    enc: EncrChoiceView,
    start: Seq<Entry>,
    i: int,
    j: int,
)
    ensures
        start.is_prefix_of(
            held_before_candidate(tally.l1_d@, tally.l2_d@, key, enc, start, i, j),
        ),
{
    let (l1, l2) = (tally.l1_d@, tally.l2_d@);
    lemma_party_prefix(tally, key, enc, start, i);
    let before = held_before_party(l1, l2, key, enc, start, i);
    let middle = l1[i].after(key, before);
    let after = held_before_candidate(l1, l2, key, enc, start, i, j);
    lemma_after_prefix(l1[i], key, before);
    lemma_row_prefix(l2[i]@, key, middle, j);
    assert(after.subrange(0, start.len() as int) =~= start);
}

proof fn lemma_row_prefix(list: Seq<DecOk>, key: CtView, start: Seq<Entry>, i: int)
    ensures
        start.is_prefix_of(held_before(list, key, start, i)),
    decreases i,
{
    if i > 0 {
        lemma_row_prefix(list, key, start, i - 1);
        let before = held_before(list, key, start, i - 1);
        let after = held_before(list, key, start, i);
        lemma_after_prefix(list[i - 1], key, before);
        assert(after.subrange(0, start.len() as int) =~= start);
    } else {
        assert(start.subrange(0, start.len() as int) =~= start);
    }
}

/// Where the proved decryptions are those of a secret key, a verified tally holds
/// what this key makes of the encrypted one: no count can stand at another place.
pub proof fn law_verified_tally_decrypts(
    tally: DecryptedTally,
    key: CtView,
    enc: EncrChoiceView,
    start: Seq<Entry>,
    x1: int,
    x2: int,
    i: int,
    j: int,
)
    requires
        tally.all_right(key, enc, start),
        0 <= i < enc.l1.len(),
        tally.l1_d@[i].plaintext.log() == ct_decrypt(x1, x2, tally.l1_d@[i].ciphertext@),
        0 <= j < enc.l2[i].len() ==> tally.l2_d@[i]@[j].plaintext.log() == ct_decrypt(
            x1,
            x2,
            tally.l2_d@[i]@[j].ciphertext@,
        ),
    ensures
        tally.tally.l1@[i] == ct_decrypt(x1, x2, enc.l1[i]),
        0 <= j < enc.l2[i].len() ==> tally.tally.l2@[i]@[j] == ct_decrypt(x1, x2, enc.l2[i][j]),
{
    law_verified_tally(tally, key, enc, start, i, j);
}

/// What the choices of a list decrypt to at one place.
pub open spec fn decrypted_party(x1: int, x2: int, choices: Seq<EncrChoiceView>, i: int) -> Seq<int> {
    Seq::new(choices.len(), |k: int| ct_decrypt(x1, x2, choices[k].l1[i]))
}

/// What the choices of a list decrypt to for one candidate.
pub open spec fn decrypted_candidate(
    x1: int,
    x2: int,
    choices: Seq<EncrChoiceView>,
    i: int,
    j: int,
) -> Seq<int> {
    Seq::new(choices.len(), |k: int| ct_decrypt(x1, x2, choices[k].l2[i][j]))
}

/// The sum of encrypted choices decrypts, at each place, to the sum of what the
/// choices decrypt to there, whatever they encrypt.
pub proof fn law_sum_decrypts(
    x1: int,
    x2: int,
    start: EncrChoiceView,
    choices: Seq<EncrChoiceView>,
    i: int,
    j: int,
)
    requires
        0 <= i < start.l1.len(),
        start.l2.len() == start.l1.len(),
        start.l1[i] == ct_zero(),
        0 <= j < start.l2[i].len(),
        start.l2[i][j] == ct_zero(),
    ensures
        ct_decrypt(x1, x2, sum_of(start, choices).l1[i]) == red(
            int_sum(decrypted_party(x1, x2, choices, i)),
        ),
        ct_decrypt(x1, x2, sum_of(start, choices).l2[i][j]) == red(
            int_sum(decrypted_candidate(x1, x2, choices, i, j)),
        ),
    decreases choices.len(),
{
    lemma_order();
    lemma_red_small(0);
    let a = decrypted_party(x1, x2, choices, i);
    let b = decrypted_candidate(x1, x2, choices, i, j);
    if choices.len() == 0 {
        assert(x1 * 0 + x2 * 0 == 0) by (nonlinear_arith);
    } else {
        let less = choices.drop_last();
        let last = choices.last();
        let sum = sum_of(start, less);
        law_sum_decrypts(x1, x2, start, less, i, j);
        lemma_sum_shape(start, less);
        assert(a.drop_last() =~= decrypted_party(x1, x2, less, i));
        assert(b.drop_last() =~= decrypted_candidate(x1, x2, less, i, j));
        assert(sum.l2[i].len() == start.l2[i].len());
        law_decrypt_add(x1, x2, sum.l1[i], last.l1[i]);
        law_decrypt_add(x1, x2, sum.l2[i][j], last.l2[i][j]);
        lemma_red_add(int_sum(a.drop_last()), a.last());
        lemma_red_add(int_sum(b.drop_last()), b.last());
    }
}

/// The votes for a party are as many as the choices that mark it, and those for a
/// candidate as many as the choices that mark the candidate.
pub proof fn law_votes_are_marks(choices: Seq<Choice>, i: int, j: int)
    ensures
        votes_for(choices, Place::Party { i }) == choices.filter(
            |c: Choice| c.l1@[i] == 1,
        ).len(),
        votes_for(choices, Place::Candidate { i, j }) == choices.filter(
            |c: Choice| c.l2@[i]@[j] == 1,
        ).len(),
    decreases choices.len(),
{
    reveal(Seq::filter);
    if choices.len() > 0 {
        law_votes_are_marks(choices.drop_last(), i, j);
    }
}

/// A tally that was decrypted has a count and a decryption for each party and
/// candidate, and no others.
pub proof fn law_filled_tally(tally: DecryptedTally, enc: EncrChoiceView, i: int)
    requires
        tally.fills(enc),
        0 <= i < enc.l1.len(),
    ensures
        tally.tally.l1@.len() == enc.l1.len(),
        tally.l1_d@.len() == enc.l1.len(),
        tally.tally.l2@.len() == enc.l1.len(),
        tally.l2_d@.len() == enc.l1.len(),
        tally.tally.l2@[i]@.len() == enc.l2[i].len(),
        tally.l2_d@[i]@.len() == enc.l2[i].len(),
{
    assert(tally.l2_d@[i]@.len() == enc.l2[i].len());
}

/// What the teller opens is the decryption with its secret key.
pub proof fn law_teller_opens(sk: TTSecretKey, ct: CtView, m: int, r: int, params: ElGamalParams)
    ensures
        sk.opens(ct) == ct_decrypt(sk.meg_sk.x1@, sk.meg_sk.x2@, ct),
        sk.opens(ct_encrypt(sk.meg_sk.key(params), m, r)) == red(m),
{
    law_decrypt_encrypt(sk.meg_sk.x1@, sk.meg_sk.x2@, sk.meg_sk.key(params), m, r);
}

/// A list decrypts ciphertexts only if each of its entries is of its ciphertext,
/// and holds what the secret key makes of it.
pub proof fn law_decrypted_list(list: Seq<DecOk>, sk: SecretKey, cts: Seq<CtView>, i: int)
    requires
        decrypts(list, sk, cts),
        0 <= i < cts.len(),
    ensures
        list.len() == cts.len(),
        list[i].ciphertext@ == cts[i],
        list[i].plaintext.log() == ct_decrypt(sk.x1@, sk.x2@, cts[i]),
{
    assert(list[i].ciphertext@ == cts[i]);
}

/// A table tells logarithms: what it answers is the logarithm, and it answers
/// wherever it was built for it.
pub proof fn law_table_tells_logarithms(values: Set<u64>, log: int)
    ensures
        table_lookup(values, log) matches Some(v) ==> v == log,
        log == 0 ==> table_lookup(values, log) is Some,
        0 < log <= u64::MAX && values.contains(log as u64) ==> table_lookup(values, log) is Some,
        log > 0 && table_lookup(values, log) is Some ==> log <= u64::MAX && values.contains(
            log as u64,
        ),
{
}

} // verus!
