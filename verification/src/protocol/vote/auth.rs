//! Credentials.

use merlin::Transcript;
use rand::rngs::StdRng;
use vstd::prelude::*;

use crate::arith::{lemma_red_add, lemma_red_mul, lemma_red_small, lemma_red_sub, order, red};
use crate::constants::MAX_PIN;
use crate::elgamal::{
    ct_add, ct_encrypt, ct_strip, lemma_encrypt_strip, Ciphertext, CtView, ExtendedCiphertext,
};
use crate::error::{CryptoError, Error};
use crate::group::{scalar_encoding, Point, Scalar};
use crate::proofs::designated::{
    law_designated_proof, DvProof, DvPublic, DvView, DvWitness,
};
use crate::proofs::relation::{
    challenges, commit, commit_steps, commitments, complete, law_honest_proof, objection, proof_of,
    shows,
    update_transcript, verify_relation, Kind, Nonces, Relation, RelationView, Statement,
    StatementView, SubProof, Witness,
};
use crate::protocol::keys::{
    ElectionParams, ElectionPublicKey, RTKeyPair, RTPublicKey, RTSecretKey, VoterKeyPair,
    VoterPublicKey,
};
use crate::transcript::{
    append_ciphertext, append_point, append_text, ct_message, lemma_utf8_len, new_transcript,
    point_message, text_message, transcript_entries, Entry,
};

verus! {

/// The secret of a credential, and the mask from which the PIN follows.
#[derive(Clone, Copy, Debug, PartialEq)]
pub struct PIN {
    pub x: Scalar,
    pub mask: Scalar,
}

/// The integer that `bytes` denotes, most significant byte first.
pub open spec fn be_value(bytes: Seq<u8>) -> int
    decreases bytes.len(),
{
    if bytes.len() == 0 {
        0
    } else {
        256 * be_value(bytes.drop_last()) + bytes.last() as int
    }
}

/// The PIN of a mask: its last eight bytes as a number, most significant byte
/// first, modulo the number of PINs.
pub open spec fn pin_of(mask: int) -> int {
    be_value(scalar_encoding(mask).subrange(24, 32)) % MAX_PIN as int
}

impl PIN {
    /// A random secret and a random mask.
    pub fn new(rng: &mut StdRng) -> Self {
        PIN { x: Scalar::random(rng), mask: Scalar::random(rng) }
    }

    /// The PIN.
    pub fn get_pin_value(&self) -> (r: usize)
        ensures
            r == pin_of(self.mask@),
            r < MAX_PIN,
    {
        let bytes = self.mask.to_bytes();
        let ghost last = bytes@.subrange(24, 32);
        let mut value: u64 = 0;
        let mut i: usize = 0;
        let ghost mut limit: int = 1;
        proof {
            assert(last.take(0) =~= Seq::<u8>::empty());
        }
        while i < 8
            invariant
                i <= 8,
                last == bytes@.subrange(24, 32),
                value == be_value(last.take(i as int)),
                0 <= value < limit,
                limit == pow256(i as int),
            decreases 8 - i,
        {
            proof {
                let next = last.take(i + 1);
                assert(next.drop_last() =~= last.take(i as int));
                assert(next.last() == bytes@[24 + i]);
                lemma_pow256(i as int);
            }
            value = value * 256 + bytes[24 + i] as u64;
            proof {
                limit = limit * 256;
            }
            i += 1;
        }
        proof {
            assert(last.take(i as int) =~= last);
        }
        (value % (MAX_PIN as u64)) as usize
    }

    /// The mask less the PIN.
    pub fn get_partial_mask(&self) -> (r: Scalar)
        ensures
            r@ == red(self.mask@ - pin_of(self.mask@)),
    {
        let pin = self.get_pin_value();
        self.mask.minus(&Scalar::from_u64(pin as u64))
    }

    /// Hides the secret behind the mask, and takes the PIN out of the mask.
    pub fn to_masked(&self) -> (r: MaskedPIN)
        ensures
            r.masked_x@ == red(self.x@ + self.mask@),
            r.partial_mask@ == red(self.mask@ - pin_of(self.mask@)),
    {
        MaskedPIN { masked_x: self.x.plus(&self.mask), partial_mask: self.get_partial_mask() }
    }
}

spec fn pow256(i: int) -> int
    decreases i,
{
    if i <= 0 {
        1
    } else {
        256 * pow256(i - 1)
    }
}

proof fn lemma_pow256(i: int)
    requires
        0 <= i < 8,
    ensures
        pow256(i + 1) == 256 * pow256(i),
        pow256(i) <= 0x100_0000_0000_0000,
{
    reveal_with_fuel(pow256, 9);
}

/// A masked secret, to be opened with the PIN.
#[derive(Clone, Copy, Debug, PartialEq)]
pub struct MaskedPIN {
    pub masked_x: Scalar,
    pub partial_mask: Scalar,
}

impl MaskedPIN {
    /// The secret that `pin` opens.
    pub open spec fn secret(self, pin: int) -> int {
        red(self.masked_x@ - red(self.partial_mask@ + pin))
    }

    /// Opens with a PIN.
    pub fn to_pin(&self, pin: usize) -> (r: PIN)
        ensures
            r.mask@ == red(self.partial_mask@ + pin as int),
            r.x@ == self.secret(pin as int),
    {
        let mask = self.partial_mask.plus(&Scalar::from_u64(pin as u64));
        let x = self.masked_x.minus(&mask);
        PIN { x, mask }
    }
}

/// The right PIN gives back secret and mask; another PIN gives a secret that is
/// off by the difference of both PINs.
pub proof fn law_masked_pin(pin: PIN, masked: MaskedPIN, guess: int)
    requires
        masked.masked_x@ == red(pin.x@ + pin.mask@),
        masked.partial_mask@ == red(pin.mask@ - pin_of(pin.mask@)),
    ensures
        masked.secret(guess) == red(pin.x@ + pin_of(pin.mask@) - guess),
        masked.secret(pin_of(pin.mask@)) == pin.x@,
        red(masked.partial_mask@ + pin_of(pin.mask@)) == pin.mask@,
{
    let value = pin_of(pin.mask@);
    lemma_red_add(pin.mask@ - value, guess);
    lemma_red_sub(pin.x@ + pin.mask@, pin.mask@ - value + guess);
    lemma_red_add(pin.mask@ - value, value);
    lemma_red_sub(pin.x@ + pin.mask@, pin.mask@);
    pin.x.lemma_bounds();
    pin.mask.lemma_bounds();
    lemma_red_small(pin.x@);
    lemma_red_small(pin.mask@);
}

/// The signature on the secret of a credential.
#[allow(non_snake_case)]
#[derive(Clone, Copy, Debug, PartialEq)]
pub struct RTSignature {
    pub A: Point,
    pub r: Scalar,
}

/// The message that a signature on the secret `x` signs: `g1 + [x]g3`.
pub open spec fn signed(params: ElectionParams, x: int) -> int {
    red(params.elgamal.g1.log() + params.g3.log() * x)
}

impl RTSignature {
    /// Whether this signs the secret `x` under the registration secret `y`:
    /// `[r + y]A = g1 + [x]g3`.
    pub open spec fn signs(self, params: ElectionParams, y: int, x: int) -> bool {
        red(self.A.log() * (self.r@ + y)) == signed(params, x)
    }

    /// Signs the secret `x` with a random `r`.  Where `r` is the opposite of the
    /// registration secret, there is no such signature.
    #[allow(non_snake_case)]
    pub fn new(sk: &RTSecretKey, params: &ElectionParams, x: &Scalar, rng: &mut StdRng) -> (s:
        RTSignature)
        ensures
            red(s.r@ + sk.secret_scalar@) != 0 ==> s.signs(*params, sk.secret_scalar@, x@),
    {
        let r = Scalar::random(rng);
        let sum = r.plus(&sk.secret_scalar);
        let inverse = sum.inverse();
        let message = params.elgamal.g1.plus(&params.g3.times(x));
        let A = message.times(&inverse);
        proof {
            lemma_red_add(params.elgamal.g1.log(), params.g3.log() * x@);
            if sum@ != 0 {
                let m = message.log();
                let y = sk.secret_scalar@;
                lemma_red_mul(m * inverse@, r@ + y);
                lemma_red_mul(inverse@, r@ + y);
                lemma_red_mul(m, inverse@ * (r@ + y));
                assert((m * inverse@) * (r@ + y) == m * (inverse@ * (r@ + y))) by (nonlinear_arith);
                assert(red(inverse@ * (r@ + y)) == 1);
                message.lemma_bounds();
                lemma_red_small(m);
                assert(m * 1 == m);
            }
        }
        RTSignature { A, r }
    }
}

/// An encrypted signature with the randomness.
#[allow(non_snake_case)]
#[derive(Clone, Copy, Debug)]
pub struct ExtendedEncryptedRTSignature {
    pub enc_A: ExtendedCiphertext,
    pub enc_r: ExtendedCiphertext,
}

impl ExtendedEncryptedRTSignature {
    /// Encrypts `A` for the tally, and the signed message for registration.
    #[allow(non_snake_case)]
    pub fn new(
        rt_pk: &RTPublicKey,
        sign: &RTSignature,
        election_pk: &ElectionPublicKey,
        pin: &PIN,
        rng: &mut StdRng,
    ) -> (r: Self)
        ensures
            r.enc_A.encrypts(election_pk.key(), sign.A.log()),
            r.enc_r.encrypts(
                rt_pk.meg_pk.key(election_pk.params.elgamal),
                signed(election_pk.params, pin.x@),
            ),
    {
        let enc_A = election_pk.encrypt(&sign.A, rng);
        let message = election_pk.params.elgamal.g1.plus(&election_pk.params.g3.times(&pin.x));
        proof {
            lemma_red_add(
                election_pk.params.elgamal.g1.log(),
                election_pk.params.g3.log() * pin.x@,
            );
        }
        let enc_r = ExtendedCiphertext::new(
            &rt_pk.meg_pk,
            &election_pk.params.elgamal,
            &message,
            rng,
        );
        ExtendedEncryptedRTSignature { enc_A, enc_r }
    }

    /// Forgets the randomness.
    pub fn to_encrypted(self) -> (r: EncryptedRTSignature)
        ensures
            r.enc_A == self.enc_A.inner,
            r.enc_r == self.enc_r.inner,
    {
        EncryptedRTSignature { enc_A: self.enc_A.inner, enc_r: self.enc_r.inner }
    }
}

/// An encrypted signature.
#[allow(non_snake_case)]
#[derive(Clone, Copy, Debug, PartialEq)]
pub struct EncryptedRTSignature {
    pub enc_A: Ciphertext,
    pub enc_r: Ciphertext,
}

/// Whether a ciphertext encrypts the point of a signature.
pub open spec fn encrypts_signature(key: CtView, ct: CtView, sign: RTSignature) -> bool {
    exists|r: int| ct == #[trigger] ct_encrypt(key, sign.A.log(), r)
}

/// Whether a ciphertext encrypts the message that is signed for the secret `x`.
pub open spec fn encrypts_message(key: CtView, ct: CtView, params: ElectionParams, x: int) -> bool {
    exists|r: int| ct == #[trigger] ct_encrypt(key, signed(params, x), r)
}

/// The private part of a credential, as registration holds it.
#[derive(Clone, Copy, Debug)]
pub struct PrivateACC {
    pub pin: PIN,
    pub sign: RTSignature,
    pub enc_sign: ExtendedEncryptedRTSignature,
}

impl PrivateACC {
    /// Whether signature and encryption belong to the secret, under the
    /// registration key pair.
    pub open spec fn wf(self, rt_pair: RTKeyPair, election_pk: ElectionPublicKey) -> bool {
        &&& red(self.sign.r@ + rt_pair.sk.secret_scalar@) != 0 ==> self.sign.signs(
            election_pk.params,
            rt_pair.sk.secret_scalar@,
            self.pin.x@,
        )
        &&& self.enc_sign.enc_A.encrypts(election_pk.key(), self.sign.A.log())
        &&& self.enc_sign.enc_r.encrypts(
            rt_pair.pk.meg_pk.key(election_pk.params.elgamal),
            signed(election_pk.params, self.pin.x@),
        )
    }

    /// A random credential.
    pub fn new(rt_pair: &RTKeyPair, election_pk: &ElectionPublicKey, rng: &mut StdRng) -> (r: Self)
        ensures
            r.wf(*rt_pair, *election_pk),
    {
        let pin = PIN::new(rng);
        let sign = RTSignature::new(&rt_pair.sk, &election_pk.params, &pin.x, rng);
        let enc_sign = ExtendedEncryptedRTSignature::new(
            &rt_pair.pk,
            &sign,
            election_pk,
            &pin,
            rng,
        );
        PrivateACC { pin, sign, enc_sign }
    }
}

/// The public part of a credential: the signature, its encryption, and the
/// proof that one encrypts the other.
#[derive(Clone, Debug, PartialEq)]
pub struct PublicACC {
    pub sign: RTSignature,
    pub enc_sign: EncryptedRTSignature,
    pub proof: SubProof,
}

/// The claim that `ct` encrypts zero.
pub open spec fn signature_claim(election_pk: ElectionPublicKey, ct: CtView) -> StatementView {
    StatementView { key: election_pk.key(), relation: RelationView::Zero { ct } }
}

/// The steps up to the commitment of the proof that `ct` encrypts zero.
pub open spec fn signature_steps(election_pk: ElectionPublicKey, ct: CtView) -> Seq<Entry> {
    seq![
        text_message("dom-sep"@, "PB-CR"@),
        text_message("dom-sep"@, "ELGAMAL-ZERO"@),
        point_message("H"@, election_pk.params.tally.h.log()),
        point_message("G1"@, election_pk.params.elgamal.g1.log()),
        point_message("G2"@, election_pk.params.elgamal.g2.log()),
        ct_message("CT"@, ct),
    ]
}

/// The claim, and a transcript that holds it.
fn start_signature_proof(election_pk: &ElectionPublicKey, ct: Ciphertext) -> (r: (
    Statement,
    Transcript,
))
    ensures
        r.0@ == signature_claim(*election_pk, ct@),
        transcript_entries(r.1) == signature_steps(*election_pk, ct@),
{
    let pk = election_pk.params.tally;
    let params = election_pk.params.elgamal;
    proof {
        reveal_strlit("PB-CR");
        lemma_utf8_len("PB-CR"@);
        reveal_strlit("ELGAMAL-ZERO");
    }
    let mut transcript = new_transcript("PB-CR");
    append_text(&mut transcript, "dom-sep", "ELGAMAL-ZERO");
    append_point(&mut transcript, "H", &pk.h);
    append_point(&mut transcript, "G1", &params.g1);
    append_point(&mut transcript, "G2", &params.g2);
    append_ciphertext(&mut transcript, "CT", &ct);
    proof {
        assert(transcript_entries(transcript) =~= signature_steps(*election_pk, ct@));
    }
    (Statement { pk, params, relation: Relation::Zero { ct } }, transcript)
}

impl PublicACC {
    /// The encrypted `A` without the known `A`.
    pub open spec fn stripped(self) -> CtView {
        ct_strip(self.enc_sign.enc_A@, self.sign.A.log())
    }

    /// What the verifier says to the proof.
    pub open spec fn objection(self, election_pk: ElectionPublicKey) -> Option<CryptoError> {
        objection(
            signature_claim(election_pk, self.stripped()),
            self.proof@,
            challenges(
                Kind::Zero,
                signature_steps(election_pk, self.stripped()) + commit_steps(
                    Kind::Zero,
                    self.proof@.commitments,
                ),
            ),
        )
    }

    /// Whether the proof is the one that the prover gives for the randomness `n`,
    /// where it knows the randomness `r` of the encryption.
    pub open spec fn proof_made(self, election_pk: ElectionPublicKey, r: Scalar, n: Nonces) -> bool {
        let claim = signature_claim(election_pk, self.stripped());
        let witness = Witness::Zero { r };
        &&& n.kind() == Kind::Zero
        &&& self.proof@ == proof_of(
            claim,
            witness,
            n,
            challenges(
                Kind::Zero,
                signature_steps(election_pk, self.stripped()) + commit_steps(
                    Kind::Zero,
                    commitments(claim, witness, n),
                ),
            ),
        )
    }

    /// The public part of a private one.  Where the encryption is that of the
    /// signature, the proof is accepted.
    pub fn from_private(election_pk: &ElectionPublicKey, private: &PrivateACC, rng: &mut StdRng) -> (r:
        Self)
        ensures
            r.sign == private.sign,
            r.enc_sign.enc_A == private.enc_sign.enc_A.inner,
            r.enc_sign.enc_r == private.enc_sign.enc_r.inner,
            r.proof.kind() == Kind::Zero,
            exists|n: Nonces| #[trigger]
                r.proof_made(*election_pk, private.enc_sign.enc_A.random_scalar, n),
            private.enc_sign.enc_A.encrypts(election_pk.key(), private.sign.A.log())
                ==> r.objection(*election_pk) is None,
    {
        let (statement, start) = start_signature_proof(
            election_pk,
            private.enc_sign.enc_A.inner.hom_sub(&private.sign.A),
        );
        let mut transcript = start;
        let witness = Witness::Zero { r: private.enc_sign.enc_A.random_scalar };
        let nonces = Nonces::random(&statement.relation, rng);
        let cts = commit(&statement, &witness, &nonces, &mut transcript);
        let ghost middle = transcript_entries(transcript);
        let proof_ = complete(&statement, &witness, &nonces, &cts, &mut transcript);
        let out = PublicACC {
            sign: private.sign,
            enc_sign: private.enc_sign.to_encrypted(),
            proof: proof_,
        };
        proof {
            assert(out.proof_made(*election_pk, private.enc_sign.enc_A.random_scalar, nonces));
            if private.enc_sign.enc_A.encrypts(election_pk.key(), private.sign.A.log()) {
                let a = private.sign.A.log();
                lemma_encrypt_strip(
                    election_pk.key(),
                    a,
                    private.enc_sign.enc_A.random_scalar@,
                    a,
                );
                let c = challenges(Kind::Zero, middle);
                assert(shows(statement@, witness));
                law_honest_proof(statement@, witness, nonces, c);
                assert(out.proof@.commitments =~= crate::elgamal::ct_views(cts@));
            }
        }
        out
    }

    /// The public part of a random credential.
    pub fn new(election_pk: &ElectionPublicKey, rt_pair: &RTKeyPair, rng: &mut StdRng) -> (r: Self)
        ensures
            exists|p: PrivateACC|
                {
                    &&& #[trigger] p.wf(*rt_pair, *election_pk)
                    &&& r.sign == p.sign
                    &&& r.enc_sign.enc_A == p.enc_sign.enc_A.inner
                    &&& r.enc_sign.enc_r == p.enc_sign.enc_r.inner
                    &&& exists|n: Nonces| #[trigger]
                        r.proof_made(*election_pk, p.enc_sign.enc_A.random_scalar, n)
                },
            r.proof.kind() == Kind::Zero,
            r.objection(*election_pk) is None,
    {
        let private = PrivateACC::new(rt_pair, election_pk, rng);
        Self::from_private(election_pk, &private, rng)
    }

    /// Checks the proof; gives the encrypted signature.
    pub fn verify(&self, election_pk: &ElectionPublicKey) -> (r: Result<ShortPublicACC, CryptoError>)
        requires
            self.proof.kind() == Kind::Zero,
        ensures
            match self.objection(*election_pk) {
                None => r == Ok::<ShortPublicACC, CryptoError>(
                    ShortPublicACC { enc_A: self.enc_sign.enc_A },
                ),
                Some(e) => r == Err::<ShortPublicACC, CryptoError>(e),
            },
    {
        let (statement, start) = start_signature_proof(
            election_pk,
            self.enc_sign.enc_A.hom_sub(&self.sign.A),
        );
        let mut transcript = start;
        update_transcript(&self.proof, &mut transcript);
        match verify_relation(&statement, &self.proof, &mut transcript) {
            Ok(()) => Ok(self.to_short()),
            Err(e) => Err(e),
        }
    }

    /// The encrypted signature alone.
    pub fn to_short(&self) -> (r: ShortPublicACC)
        ensures
            r.enc_A == self.enc_sign.enc_A,
    {
        ShortPublicACC { enc_A: self.enc_sign.enc_A }
    }
}

/// The encrypted signature of a credential.
#[allow(non_snake_case)]
#[derive(Clone, Copy, Debug, PartialEq)]
pub struct ShortPublicACC {
    pub enc_A: Ciphertext,
}

impl ShortPublicACC {
    /// Re-encrypts.
    #[allow(non_snake_case)]
    pub fn re_encrypt(&self, pk: &ElectionPublicKey, rng: &mut StdRng) -> (r: ExtendedShortPublicACC)
        ensures
            r.enc_A.inner@ == ct_add(
                ct_encrypt(pk.key(), 0, r.enc_A.random_scalar@),
                self.enc_A@,
            ),
    {
        let enc_A = ExtendedCiphertext::re_encrypt(
            &self.enc_A,
            &pk.params.tally,
            &pk.params.elgamal,
            rng,
        );
        ExtendedShortPublicACC { enc_A }
    }
}

/// The encrypted signature of a credential with the randomness.
#[allow(non_snake_case)]
#[derive(Clone, Copy, Debug)]
pub struct ExtendedShortPublicACC {
    pub enc_A: ExtendedCiphertext,
}

impl ExtendedShortPublicACC {
    /// Forgets the randomness.
    pub fn to_short(self) -> (r: ShortPublicACC)
        ensures
            r.enc_A == self.enc_A.inner,
    {
        ShortPublicACC { enc_A: self.enc_A.inner }
    }
}

/// A credential without the proof that it is genuine.
#[derive(Clone, Copy, Debug, PartialEq)]
pub struct VotingCredentialBuilder {
    pub sign: RTSignature,
    pub masked_pin: MaskedPIN,
}

/// The statement that a credential is genuine: that `p1a` is to `A` as the
/// registration key `p1b` is to `g3`, or that its maker knows the voter's secret.
pub open spec fn genuine(
    sign: RTSignature,
    pk: ElectionPublicKey,
    p1a: int,
    p1b: int,
    dv_pk: VoterPublicKey,
) -> DvView {
    DvView {
        base0: pk.params.elgamal.g2.log(),
        pv: dv_pk.pk.log(),
        b1a: sign.A.log(),
        b1b: pk.params.g3.log(),
        p1a,
        p1b,
    }
}

/// The point `g1 + [x]g3 - [r]A`.
pub open spec fn claimed_point(sign: RTSignature, pk: ElectionPublicKey, x: int) -> int {
    red(signed(pk.params, x) - sign.A.log() * sign.r@)
}

/// Calculates the point `g1 + [x]g3 - [r]A`.
fn claimed(sign: &RTSignature, pk: &ElectionPublicKey, x: &Scalar) -> (r: Point)
    ensures
        r.log() == claimed_point(*sign, *pk, x@),
{
    proof {
        lemma_red_add(pk.params.elgamal.g1.log(), pk.params.g3.log() * x@);
        lemma_red_sub(signed(pk.params, x@), sign.A.log() * sign.r@);
    }
    pk.params.elgamal.g1.plus(&pk.params.g3.times(x)).minus(&sign.A.times(&sign.r))
}

impl VotingCredentialBuilder {
    /// The credential of a private one.
    pub fn new(private_acc: &PrivateACC) -> (r: Self)
        ensures
            r.sign == private_acc.sign,
            r.masked_pin.masked_x@ == red(private_acc.pin.x@ + private_acc.pin.mask@),
            r.masked_pin.partial_mask@ == red(
                private_acc.pin.mask@ - pin_of(private_acc.pin.mask@),
            ),
    {
        VotingCredentialBuilder {
            sign: private_acc.sign,
            masked_pin: private_acc.pin.to_masked(),
        }
    }

    /// The secret that `pin` opens.
    pub fn get_x(&self, pin: usize) -> (r: Scalar)
        ensures
            r@ == self.masked_pin.secret(pin as int),
    {
        self.masked_pin.to_pin(pin).x
    }

    /// The statement that registration proves.
    pub open spec fn issued(self, pair: RTKeyPair, pk: ElectionPublicKey, dv_pk: VoterPublicKey) -> DvView {
        genuine(
            self.sign,
            pk,
            red(self.sign.A.log() * pair.sk.secret_scalar@),
            pair.pk.registration_pk.log(),
            dv_pk,
        )
    }

    /// The statement that a voter simulates for the secret that `pin` opens.
    pub open spec fn simulated(self, pk: ElectionPublicKey, pin: int, dv_pk: VoterPublicKey) -> DvView {
        genuine(
            self.sign,
            pk,
            claimed_point(self.sign, pk, self.masked_pin.secret(pin)),
            pk.registration_pk.log(),
            dv_pk,
        )
    }

    /// Adds the proof that the credential is genuine, for the voter with the
    /// key `dv_pk`; the key must not be neutral.
    pub fn finalize(
        &self,
        pair: &RTKeyPair,
        pk: &ElectionPublicKey,
        dv_pk: &VoterPublicKey,
        rng: &mut StdRng,
    ) -> (r: Result<VotingCredential, Error>)
        ensures
            match r {
                Ok(credential) => {
                    &&& dv_pk.pk.log() != 0
                    &&& credential.sign == self.sign
                    &&& credential.masked_pin == self.masked_pin
                    &&& self.issued(*pair, *pk, *dv_pk).made_by(
                        DvWitness::Second { x: pair.sk.secret_scalar },
                        credential.dvnizkp,
                    )
                },
                Err(e) => dv_pk.pk.log() == 0 && e == Error::DvKeysNotSet(3),
            },
    {
        match self.gen_dvnizkp(pair, pk, dv_pk, rng) {
            Ok(dvnizkp) => Ok(
                VotingCredential { sign: self.sign, masked_pin: self.masked_pin, dvnizkp },
            ),
            Err(e) => Err(e),
        }
    }

    /// Makes a proof that the credential is genuine for the secret that `pin`
    /// opens, with the secret key of the voter: it convinces no one else.
    pub fn simulate(&self, pk: &ElectionPublicKey, pin: usize, dv: &VoterKeyPair, rng: &mut StdRng) -> (r:
        Result<VotingCredential, Error>)
        ensures
            r.is_ok(),
            r->Ok_0.sign == self.sign,
            r->Ok_0.masked_pin == self.masked_pin,
            self.simulated(*pk, pin as int, dv.pk).made_by(
                DvWitness::First { x: dv.sk.sk },
                r->Ok_0.dvnizkp,
            ),
    {
        let dvnizkp = self.simulate_dvzkp(pk, pin, dv, rng);
        Ok(VotingCredential { sign: self.sign, masked_pin: self.masked_pin, dvnizkp })
    }

    /// Registration's proof that the credential is genuine.
    pub fn gen_dvnizkp(
        &self,
        pair: &RTKeyPair,
        pk: &ElectionPublicKey,
        dv_pk: &VoterPublicKey,
        rng: &mut StdRng,
    ) -> (r: Result<DvProof, Error>)
        ensures
            match r {
                Ok(dvnizkp) => {
                    &&& dv_pk.pk.log() != 0
                    &&& self.issued(*pair, *pk, *dv_pk).made_by(
                        DvWitness::Second { x: pair.sk.secret_scalar },
                        dvnizkp,
                    )
                },
                Err(e) => dv_pk.pk.log() == 0 && e == Error::DvKeysNotSet(3),
            },
    {
        if dv_pk.pk.is_identity() {
            return Err(Error::DvKeysNotSet(3));
        }
        let x = pair.sk.secret_scalar;
        let p1a = self.sign.A.times(&x);
        let public = DvPublic {
            base0: pk.params.elgamal.g2,
            pv: dv_pk.pk,
            b1a: self.sign.A,
            b1b: pk.params.g3,
            p1a,
            p1b: pair.pk.registration_pk,
        };
        proof {
            assert(public@ == self.issued(*pair, *pk, *dv_pk));
        }
        Ok(DvProof::prove(&public, &DvWitness::Second { x }, rng))
    }

    /// The voter's own proof for the secret that `pin` opens.
    pub fn simulate_dvzkp(
        &self,
        pk: &ElectionPublicKey,
        pin: usize,
        dv: &VoterKeyPair,
        rng: &mut StdRng,
    ) -> (r: DvProof)
        ensures
            self.simulated(*pk, pin as int, dv.pk).made_by(
                DvWitness::First { x: dv.sk.sk },
                r,
            ),
    {
        let x = self.get_x(pin);
        let p1a = claimed(&self.sign, pk, &x);
        let public = DvPublic {
            base0: pk.params.elgamal.g2,
            pv: dv.pk.pk,
            b1a: self.sign.A,
            b1b: pk.params.g3,
            p1a,
            p1b: pk.registration_pk,
        };
        proof {
            assert(public@ == self.simulated(*pk, pin as int, dv.pk));
        }
        DvProof::prove(&public, &DvWitness::First { x: dv.sk.sk }, rng)
    }
}

/// A credential.
#[derive(Clone, Copy, Debug, PartialEq)]
pub struct VotingCredential {
    pub sign: RTSignature,
    pub masked_pin: MaskedPIN,
    pub dvnizkp: DvProof,
}

impl VotingCredential {
    /// The credential with another partial mask.
    pub fn set_mask(self, rhs: Scalar) -> (r: Self)
        ensures
            r.sign == self.sign,
            r.dvnizkp == self.dvnizkp,
            r.masked_pin == (MaskedPIN { partial_mask: rhs, ..self.masked_pin }),
    {
        VotingCredential {
            sign: self.sign,
            masked_pin: MaskedPIN { masked_x: self.masked_pin.masked_x, partial_mask: rhs },
            dvnizkp: self.dvnizkp,
        }
    }

    /// The secret that `pin` opens.
    pub fn get_x(&self, pin: usize) -> (r: Scalar)
        ensures
            r@ == self.masked_pin.secret(pin as int),
    {
        self.masked_pin.to_pin(pin).x
    }

    /// What the voter says to the proof for the secret that `pin` opens.
    pub open spec fn pin_objection(
        self,
        pk: ElectionPublicKey,
        pin: int,
        dv_pk: VoterPublicKey,
    ) -> Option<CryptoError> {
        genuine(
            self.sign,
            pk,
            claimed_point(self.sign, pk, self.masked_pin.secret(pin)),
            pk.registration_pk.log(),
            dv_pk,
        ).objection(self.dvnizkp)
    }

    /// The challenge to which the challenges of the proof must add up, for the
    /// secret that `pin` opens.
    pub open spec fn pin_challenge(
        self,
        pk: ElectionPublicKey,
        pin: int,
        dv_pk: VoterPublicKey,
    ) -> int {
        red(
            genuine(
                self.sign,
                pk,
                claimed_point(self.sign, pk, self.masked_pin.secret(pin)),
                pk.registration_pk.log(),
                dv_pk,
            ).challenge(self.dvnizkp.i0.log(), self.dvnizkp.i1a.log(), self.dvnizkp.i1b.log()),
        )
    }

    /// Checks that the credential is genuine for the secret that `pin` opens.
    pub fn verify_pin(&self, pk: &ElectionPublicKey, pin: usize, dv_pk: &VoterPublicKey) -> (r: Result<
        (),
        Error,
    >)
        ensures
            match self.pin_objection(*pk, pin as int, *dv_pk) {
                None => r == Ok::<(), Error>(()),
                Some(e) => r == Err::<(), Error>(Error::FailedVerification(e)),
            },
    {
        let x = self.get_x(pin);
        let p1a = claimed(&self.sign, pk, &x);
        let public = DvPublic {
            base0: pk.params.elgamal.g2,
            pv: dv_pk.pk,
            b1a: self.sign.A,
            b1b: pk.params.g3,
            p1a,
            p1b: pk.registration_pk,
        };
        match self.dvnizkp.verify(&public) {
            Ok(()) => Ok(()),
            Err(e) => Err(Error::FailedVerification(e)),
        }
    }

    /// The credential without the proof.
    pub fn to_builder(self) -> (r: VotingCredentialBuilder)
        ensures
            r.sign == self.sign,
            r.masked_pin == self.masked_pin,
    {
        VotingCredentialBuilder { sign: self.sign, masked_pin: self.masked_pin }
    }
}

/// Different PINs open different secrets.
pub proof fn law_pins_open_different_secrets(masked: MaskedPIN, pin: int, other: int)
    requires
        0 <= pin < order(),
        0 <= other < order(),
        masked.secret(pin) == masked.secret(other),
    ensures
        pin == other,
{
    let x = masked.masked_x@;
    let m = masked.partial_mask@;
    lemma_red_sub(x, m + pin);
    lemma_red_sub(x, m + other);
    lemma_red_sub(x - m, x - (m + pin));
    lemma_red_sub(x - m, x - (m + other));
    lemma_red_small(pin);
    lemma_red_small(other);
}

/// A credential that is accepted with one PIN is refused with every other for
/// a mismatch of the challenges, unless both PINs lead to one challenge.
pub proof fn law_wrong_pin(
    credential: VotingCredential,
    pk: ElectionPublicKey,
    dv_pk: VoterPublicKey,
    pin: int,
    other: int,
)
    requires
        credential.pin_objection(pk, pin, dv_pk) is None,
        credential.pin_challenge(pk, other, dv_pk) != credential.pin_challenge(pk, pin, dv_pk),
    ensures
        credential.pin_objection(pk, other, dv_pk) == Some(CryptoError::ChallengeMismatch),
{
}

/// A genuine credential is accepted with its PIN: where registration signed the
/// secret and issued the credential under its own key, the voter accepts it
/// with the PIN that opens the secret.  Every other PIN is refused for a
/// mismatch of the challenges, unless it leads to the same challenge.
pub proof fn law_genuine_credential(
    builder: VotingCredentialBuilder,
    credential: VotingCredential,
    pair: RTKeyPair,
    pk: ElectionPublicKey,
    dv_pk: VoterPublicKey,
    pin: int,
)
    requires
        credential.sign == builder.sign,
        credential.masked_pin == builder.masked_pin,
        builder.issued(pair, pk, dv_pk).made_by(
            DvWitness::Second { x: pair.sk.secret_scalar },
            credential.dvnizkp,
        ),
        pair.pk.belongs(pair.sk, pk.params),
        pk.registration_pk == pair.pk.registration_pk,
        builder.sign.signs(
            pk.params,
            pair.sk.secret_scalar@,
            builder.masked_pin.secret(pin),
        ),
    ensures
        credential.pin_objection(pk, pin, dv_pk) is None,
        forall|other: int|
            credential.pin_challenge(pk, other, dv_pk) != credential.pin_challenge(pk, pin, dv_pk)
                ==> (#[trigger] credential.pin_objection(pk, other, dv_pk)) == Some(
                CryptoError::ChallengeMismatch,
            ),
{
    let a = builder.sign.A.log();
    let r = builder.sign.r@;
    let y = pair.sk.secret_scalar@;
    let x = builder.masked_pin.secret(pin);
    assert(a * (r + y) - a * r == a * y) by (nonlinear_arith);
    lemma_red_sub(a * (r + y), a * r);
    assert(claimed_point(builder.sign, pk, x) == red(a * y));
    law_designated_proof(
        builder.issued(pair, pk, dv_pk),
        DvWitness::Second { x: pair.sk.secret_scalar },
        credential.dvnizkp,
    );
}

/// A simulated credential is accepted with the PIN it was made for, whatever
/// that PIN is.  Every other PIN is refused for a mismatch of the challenges,
/// unless it leads to the same challenge.
pub proof fn law_simulated_credential(
    builder: VotingCredentialBuilder,
    credential: VotingCredential,
    pk: ElectionPublicKey,
    dv: VoterKeyPair,
    pin: int,
)
    requires
        dv.wf(pk),
        credential.sign == builder.sign,
        credential.masked_pin == builder.masked_pin,
        builder.simulated(pk, pin, dv.pk).made_by(
            DvWitness::First { x: dv.sk.sk },
            credential.dvnizkp,
        ),
    ensures
        credential.pin_objection(pk, pin, dv.pk) is None,
        forall|other: int|
            credential.pin_challenge(pk, other, dv.pk) != credential.pin_challenge(pk, pin, dv.pk)
                ==> (#[trigger] credential.pin_objection(pk, other, dv.pk)) == Some(
                CryptoError::ChallengeMismatch,
            ),
{
    law_designated_proof(
        builder.simulated(pk, pin, dv.pk),
        DvWitness::First { x: dv.sk.sk },
        credential.dvnizkp,
    );
}

} // verus!
