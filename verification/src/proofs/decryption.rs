//! Decryptions that prove themselves correct.

use dlog_group::group::GroupPoint;
use dlog_group::ristretto::RistrettoGroup;
use dlog_sigma_primitives::elgamal::ciphertext::Ciphertext as GroupCiphertext;
use dlog_sigma_primitives::elgamal::keys::{
    ElGamalParams as GroupParams, PublicKey as GroupPublicKey, SecretKey as GroupSecretKey,
};
use dlog_sigma_primitives::proofs::ver_decr::{
    DecOk as GroupDecOk, DecOkProtocol, DecOkPublicBorrowed,
};
use dlog_sigma_primitives::proofs::SigmaProtocol;
use merlin::Transcript;
use rand::rngs::StdRng;
use vstd::prelude::*;

use crate::arith::red;
use crate::elgamal::{ct_decrypt, ct_views, Ciphertext, CtView, ElGamalParams, PublicKey, SecretKey};
use crate::error::CryptoError;
use crate::group::Point;
use crate::transcript::{
    challenge, challenge_value, ct_message, point_message, text_message, transcript_entries, Entry,
};

verus! {

/// The parts of an encoded decryption proof, as `serde_json::from_str` reads
/// them: the logarithms of the commitments for the key and for the ciphertext,
/// and both responses; nothing where the text is no such proof.
pub uninterp spec fn dec_ok_parts(text: Seq<char>) -> Option<(int, int, int, int)>;

/// The steps up to the challenge of a decryption proof with commitments `k`
/// and `t`.
pub open spec fn dec_ok_steps(key: CtView, ct: CtView, m: int, k: int, t: int) -> Seq<Entry> {
    seq![
        text_message("dom-sep"@, "ELGAMAL-DEC"@),
        point_message("G1"@, key.r1),
        point_message("G2"@, key.r2),
        point_message("H"@, key.b),
        ct_message("C"@, ct),
        point_message("M"@, m),
        point_message("K"@, k),
        point_message("T"@, t),
    ]
}

/// Whether the proof `text` shows, after `entries`, that `ct` decrypts to `m`.
pub open spec fn dec_ok_holds(key: CtView, ct: CtView, m: int, text: Seq<char>, entries: Seq<Entry>) -> bool {
    match dec_ok_parts(text) {
        Some((k, t, z1, z2)) => {
            let c = challenge_value(entries + dec_ok_steps(key, ct, m, k, t), "c"@);
            &&& red(key.r1 * z1 + key.r2 * z2) == red(k + key.b * c)
            &&& red(ct.r1 * z1 + ct.r2 * z2) == red(t + (ct.b - m) * c)
        },
        None => false,
    }
}

/// What the transcript holds after the proof was made or checked.
pub open spec fn dec_ok_after(key: CtView, ct: CtView, m: int, text: Seq<char>, entries: Seq<Entry>) -> Seq<Entry> {
    match dec_ok_parts(text) {
        Some((k, t, z1, z2)) => (entries + dec_ok_steps(key, ct, m, k, t)).push(challenge("c"@)),
        None => entries,
    }
}

/// Calls `SecretKey::ver_decrypt` of `dlog-sigma-primitives`, which proves a
/// decryption, and encodes the proof as JSON.  The proof satisfies the
/// verifier's equations under the public key that belongs to the secret key.
#[verifier::external_body]
fn prove(
    sk: &SecretKey,
    params: &ElGamalParams,
    ct: &Ciphertext,
    transcript: &mut Transcript,
    rng: &mut StdRng,
) -> (r: String)
    ensures
        dec_ok_parts(r@) is Some,
        dec_ok_holds(
            sk.key(*params),
            ct@,
            ct_decrypt(sk.x1@, sk.x2@, ct@),
            r@,
            transcript_entries(*old(transcript)),
        ),
        transcript_entries(*final(transcript)) == dec_ok_after(
            sk.key(*params),
            ct@,
            ct_decrypt(sk.x1@, sk.x2@, ct@),
            r@,
            transcript_entries(*old(transcript)),
        ),
{
    let p = |x: &Point| RistrettoGroup::point_from_bytes(&x.to_bytes()).unwrap();
    let params = GroupParams { g1: p(&params.g1), g2: p(&params.g2) };
    let sk = GroupSecretKey::<RistrettoGroup>::from_bytes(
        &[sk.x1.to_bytes(), sk.x2.to_bytes()].concat(),
    ).unwrap();
    let ct = GroupCiphertext::from_bytes(&ct.to_bytes()).unwrap();
    serde_json::to_string(&sk.ver_decrypt(&params, &ct, transcript, rng)).unwrap()
}

/// Calls `DecOkProtocol::verify` of `dlog-sigma-primitives` on the proof that
/// `text` encodes as JSON: the two equations of the protocol, with the
/// challenge that follows from the transcript.
#[verifier::external_body]
fn check(
    pk: &PublicKey,
    params: &ElGamalParams,
    ct: &Ciphertext,
    plaintext: &Point,
    text: &String,
    transcript: &mut Transcript,
) -> (r: bool)
    ensures
        r == dec_ok_holds(
            pk.key(*params),
            ct@,
            plaintext.log(),
            text@,
            transcript_entries(*old(transcript)),
        ),
        transcript_entries(*final(transcript)) == dec_ok_after(
            pk.key(*params),
            ct@,
            plaintext.log(),
            text@,
            transcript_entries(*old(transcript)),
        ),
{
    let p = |x: &Point| RistrettoGroup::point_from_bytes(&x.to_bytes()).unwrap();
    let params = GroupParams { g1: p(&params.g1), g2: p(&params.g2) };
    let pk = GroupPublicKey { h: p(&pk.h) };
    let ct = GroupCiphertext::from_bytes(&ct.to_bytes()).unwrap();
    let plaintext = p(plaintext);
    let public = DecOkPublicBorrowed::new(&params, &pk, &ct, &plaintext);
    match serde_json::from_str::<GroupDecOk<RistrettoGroup>>(text) {
        Ok(proof) => DecOkProtocol::verify(public, &proof, transcript).is_ok(),
        Err(_) => false,
    }
}

impl SecretKey {
    /// The key triple that belongs to this secret key.
    pub open spec fn key(self, params: ElGamalParams) -> CtView {
        CtView {
            r1: params.g1.log(),
            r2: params.g2.log(),
            b: red(self.x1@ * params.g1.log() + self.x2@ * params.g2.log()),
        }
    }

    /// Decrypts, with a proof.
    pub fn ver_decrypt(
        &self,
        params: &ElGamalParams,
        ct: &Ciphertext,
        transcript: &mut Transcript,
        rng: &mut StdRng,
    ) -> (r: DecOk)
        ensures
            r.ciphertext@ == ct@,
            r.plaintext.log() == ct_decrypt(self.x1@, self.x2@, ct@),
            r.holds(self.key(*params), transcript_entries(*old(transcript))),
            transcript_entries(*final(transcript)) == r.after(
                self.key(*params),
                transcript_entries(*old(transcript)),
            ),
    {
        let plaintext = self.decrypt(ct);
        let proof = prove(self, params, ct, transcript, rng);
        DecOk { ciphertext: *ct, plaintext, proof }
    }
}

/// A ciphertext, what it decrypts to, and the proof, encoded as JSON.
#[derive(Clone, Debug, PartialEq)]
pub struct DecOk {
    pub ciphertext: Ciphertext,
    pub plaintext: Point,
    pub proof: String,
}

impl DecOk {
    /// Whether the proof is valid after `entries`.
    pub open spec fn holds(self, key: CtView, entries: Seq<Entry>) -> bool {
        dec_ok_holds(key, self.ciphertext@, self.plaintext.log(), self.proof@, entries)
    }

    /// What the transcript holds after the proof was made or checked.
    pub open spec fn after(self, key: CtView, entries: Seq<Entry>) -> Seq<Entry> {
        dec_ok_after(key, self.ciphertext@, self.plaintext.log(), self.proof@, entries)
    }

    /// Checks the proof.
    pub fn verify(&self, pk: &PublicKey, params: &ElGamalParams, transcript: &mut Transcript) -> (r:
        Result<(), CryptoError>)
        ensures
            r == if self.holds(pk.key(*params), transcript_entries(*old(transcript))) {
                Ok::<(), CryptoError>(())
            } else {
                Err(CryptoError::CommitmentMismatch)
            },
            transcript_entries(*final(transcript)) == self.after(
                pk.key(*params),
                transcript_entries(*old(transcript)),
            ),
    {
        if check(pk, params, &self.ciphertext, &self.plaintext, &self.proof, transcript) {
            Ok(())
        } else {
            Err(CryptoError::CommitmentMismatch)
        }
    }
}

/// What the transcript holds before the decryption at position `i` of a list is
/// made or checked, where it held `start` at first.
pub open spec fn held_before(list: Seq<DecOk>, key: CtView, start: Seq<Entry>, i: int) -> Seq<Entry>
    decreases i,
{
    if i <= 0 {
        start
    } else {
        list[i - 1].after(key, held_before(list, key, start, i - 1))
    }
}

/// Whether the first `n` decryptions of a list are valid, one after the other.
pub open spec fn list_holds(list: Seq<DecOk>, key: CtView, start: Seq<Entry>, n: int) -> bool {
    forall|i: int|
        #![trigger list[i]]
        0 <= i < n ==> list[i].holds(key, held_before(list, key, start, i))
}

/// Whether the decryption at `i` is the first of a list that is not valid.
pub open spec fn fails_at(list: Seq<DecOk>, key: CtView, start: Seq<Entry>, i: int) -> bool {
    &&& 0 <= i < list.len()
    &&& list_holds(list, key, start, i)
    &&& !list[i].holds(key, held_before(list, key, start, i))
}

/// Whether a list was checked up to the first decryption that is not valid, and
/// the transcript holds `end` then.
pub open spec fn list_stopped(list: Seq<DecOk>, key: CtView, start: Seq<Entry>, end: Seq<Entry>) -> bool {
    exists|i: int| #[trigger]
        fails_at(list, key, start, i) && end == held_before(list, key, start, i + 1)
}

/// What comes before depends on the earlier decryptions alone.
pub proof fn lemma_held_before(a: Seq<DecOk>, b: Seq<DecOk>, key: CtView, start: Seq<Entry>, i: int)
    requires
        i <= a.len(),
        i <= b.len(),
        forall|k: int| #![trigger a[k]] 0 <= k < i ==> a[k] == b[k],
    ensures
        held_before(a, key, start, i) == held_before(b, key, start, i),
    decreases i,
{
    if i > 0 {
        lemma_held_before(a, b, key, start, i - 1);
        assert(a[i - 1] == b[i - 1]);
    }
}

/// Checks the first `n` decryptions of a list, up to the first that fails.
pub fn verify_list(
    list: &Vec<DecOk>,
    n: usize,
    pk: &PublicKey,
    params: &ElGamalParams,
    transcript: &mut Transcript,
) -> (r: Result<(), CryptoError>)
    requires
        n <= list@.len(),
    ensures
        r == if list_holds(
            list@,
            pk.key(*params),
            transcript_entries(*old(transcript)),
            n as int,
        ) {
            Ok::<(), CryptoError>(())
        } else {
            Err(CryptoError::CommitmentMismatch)
        },
        r.is_ok() ==> transcript_entries(*final(transcript)) == held_before(
            list@,
            pk.key(*params),
            transcript_entries(*old(transcript)),
            n as int,
        ),
        r.is_err() ==> list_stopped(
            list@,
            pk.key(*params),
            transcript_entries(*old(transcript)),
            transcript_entries(*final(transcript)),
        ),
{
    let ghost start = transcript_entries(*transcript);
    let ghost key = pk.key(*params);
    let mut i: usize = 0;
    while i < n
        invariant
            i <= n <= list@.len(),
            start == transcript_entries(*old(transcript)),
            key == pk.key(*params),
            transcript_entries(*transcript) == held_before(list@, key, start, i as int),
            list_holds(list@, key, start, i as int),
        decreases n - i,
    {
        let checked = list[i].verify(pk, params, transcript);
        if checked.is_err() {
            proof {
                assert(!list@[i as int].holds(key, held_before(list@, key, start, i as int)));
                assert(fails_at(list@, key, start, i as int));
            }
            return checked;
        }
        i += 1;
    }
    Ok(())
}

/// A list of decryptions with one more at its end.
pub proof fn lemma_one_more(
    list: Seq<DecOk>,
    d: DecOk,
    sk: SecretKey,
    key: CtView,
    start: Seq<Entry>,
    cts: Seq<CtView>,
)
    requires
        list.len() < cts.len(),
        decrypts(list, sk, cts.take(list.len() as int)),
        list_holds(list, key, start, list.len() as int),
        d.ciphertext@ == cts[list.len() as int],
        d.plaintext.log() == ct_decrypt(sk.x1@, sk.x2@, cts[list.len() as int]),
        d.holds(key, held_before(list, key, start, list.len() as int)),
    ensures
        decrypts(list.push(d), sk, cts.take(list.len() as int + 1)),
        list_holds(list.push(d), key, start, list.len() as int + 1),
        held_before(list.push(d), key, start, list.len() as int + 1) == d.after(
            key,
            held_before(list, key, start, list.len() as int),
        ),
{
    let n = list.len() as int;
    let out = list.push(d);
    assert forall|k: int| #![trigger out[k]] 0 <= k < n + 1 implies out[k].holds(
        key,
        held_before(out, key, start, k),
    ) by {
        lemma_held_before(list, out, key, start, k);
        if k < n {
            assert(list[k].holds(key, held_before(list, key, start, k)));
        }
    }
    lemma_held_before(list, out, key, start, n);
    let less = cts.take(n);
    let more = cts.take(n + 1);
    assert forall|k: int| #![trigger out[k]] 0 <= k < out.len() implies out[k].ciphertext@ == more[k]
        && out[k].plaintext.log() == ct_decrypt(sk.x1@, sk.x2@, more[k]) by {
        if k < n {
            assert(list[k].ciphertext@ == less[k]);
            assert(less[k] == more[k]);
        }
    }
}

/// Decrypts a list, with proofs.
pub fn decrypt_list(
    sk: &SecretKey,
    params: &ElGamalParams,
    cts: &Vec<Ciphertext>,
    transcript: &mut Transcript,
    rng: &mut StdRng,
) -> (r: Vec<DecOk>)
    ensures
        decrypts(r@, *sk, ct_views(cts@)),
        list_holds(
            r@,
            sk.key(*params),
            transcript_entries(*old(transcript)),
            cts@.len() as int,
        ),
        transcript_entries(*final(transcript)) == held_before(
            r@,
            sk.key(*params),
            transcript_entries(*old(transcript)),
            cts@.len() as int,
        ),
{
    let ghost start = transcript_entries(*transcript);
    let ghost key = sk.key(*params);
    let mut out: Vec<DecOk> = Vec::new();
    let mut i: usize = 0;
    while i < cts.len()
        invariant
            i <= cts@.len(),
            key == sk.key(*params),
            out@.len() == i,
            decrypts(out@, *sk, ct_views(cts@).take(i as int)),
            list_holds(out@, key, start, i as int),
            transcript_entries(*transcript) == held_before(out@, key, start, i as int),
        decreases cts@.len() - i,
    {
        let ghost previous = out@;
        let d = sk.ver_decrypt(params, &cts[i], transcript, rng);
        out.push(d);
        proof {
            lemma_one_more(previous, d, *sk, key, start, ct_views(cts@));
        }
        i += 1;
    }
    proof {
        assert(ct_views(cts@).take(i as int) =~= ct_views(cts@));
    }
    out
}

/// Whether the list decrypts the ciphertexts with the secret key.
pub open spec fn decrypts(list: Seq<DecOk>, sk: SecretKey, cts: Seq<CtView>) -> bool {
    &&& list.len() == cts.len()
    &&& forall|i: int|
        #![trigger list[i]]
        0 <= i < list.len() ==> list[i].ciphertext@ == cts[i] && list[i].plaintext.log()
            == ct_decrypt(sk.x1@, sk.x2@, cts[i])
}

} // verus!
