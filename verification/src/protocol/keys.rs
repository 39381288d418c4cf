//! Keys of the election.

use merlin::Transcript;
use rand::rngs::StdRng;
use vstd::prelude::*;
use vstd::utf8::encode_utf8;

use crate::arith::{lemma_red_small, order, red};
use crate::elgamal::{CtView, ElGamalParams, ExtendedCiphertext, PublicKey, SecretKey};
use crate::encoding::{cbor_bytes, encode_bytes, field, put_field, shake, shake128};
use crate::group::{le_value, point_encoding, scalar_encoding, Point, Scalar};
use crate::transcript::{append_point, point_message, transcript_entries, Entry};

verus! {

/// The public parameters of an election.
#[derive(Clone, Copy, Debug, PartialEq)]
pub struct ElectionParams {
    pub elgamal: ElGamalParams,
    pub g3: Point,
    pub o: Point,
    pub tally: PublicKey,
}

impl ElectionParams {
    /// Parameters with two more random bases.
    pub fn new(elgamal: &ElGamalParams, tally: &PublicKey, rng: &mut StdRng) -> (r: Self)
        ensures
            r.elgamal == *elgamal,
            r.tally == *tally,
    {
        let g3 = Point::random(rng);
        let o = Point::random(rng);
        ElectionParams { elgamal: *elgamal, g3, o, tally: *tally }
    }
}

/// The public key of an election.
#[derive(Clone, Copy, Debug, PartialEq)]
pub struct ElectionPublicKey {
    pub registration_pk: Point,
    pub params: ElectionParams,
}

impl ElGamalParams {
    /// The encoding: a record of both bases.
    pub open spec fn encoding(self) -> Seq<u8> {
        seq![0xa2u8] + field("g1"@, cbor_bytes(point_encoding(self.g1.log()))) + field(
            "g2"@,
            cbor_bytes(point_encoding(self.g2.log())),
        )
    }
}

impl ElectionParams {
    /// The encoding: a record of the bases, both points and the tally key, which
    /// is a record itself.
    pub open spec fn encoding(self) -> Seq<u8> {
        seq![0xa4u8] + field("elgamal"@, self.elgamal.encoding()) + field(
            "g3"@,
            cbor_bytes(point_encoding(self.g3.log())),
        ) + field("o"@, cbor_bytes(point_encoding(self.o.log()))) + field(
            "tally"@,
            seq![0xa1u8] + field("h"@, cbor_bytes(point_encoding(self.tally.h.log()))),
        )
    }

    /// The encoding.
    pub fn to_bytes(&self) -> (r: Vec<u8>)
        ensures
            r@ == self.encoding(),
    {
        let mut bases: Vec<u8> = Vec::new();
        bases.push(0xa2);
        let mut tally: Vec<u8> = Vec::new();
        tally.push(0xa1);
        let mut out: Vec<u8> = Vec::new();
        out.push(0xa4);
        proof {
            assert(bases@ =~= seq![0xa2u8]);
            assert(tally@ =~= seq![0xa1u8]);
            assert(out@ =~= seq![0xa4u8]);
        }
        put_field(&mut bases, "g1", &encode_bytes(self.elgamal.g1.to_bytes().as_slice()));
        put_field(&mut bases, "g2", &encode_bytes(self.elgamal.g2.to_bytes().as_slice()));
        put_field(&mut tally, "h", &encode_bytes(self.tally.h.to_bytes().as_slice()));
        put_field(&mut out, "elgamal", &bases);
        put_field(&mut out, "g3", &encode_bytes(self.g3.to_bytes().as_slice()));
        put_field(&mut out, "o", &encode_bytes(self.o.to_bytes().as_slice()));
        put_field(&mut out, "tally", &tally);
        out
    }
}

impl ElectionPublicKey {
    /// The encoding: a record of the registration key and the parameters.
    pub open spec fn encoding(self) -> Seq<u8> {
        seq![0xa2u8] + field(
            "registration_pk"@,
            cbor_bytes(point_encoding(self.registration_pk.log())),
        ) + field("params"@, self.params.encoding())
    }

    /// The encoding.
    pub fn to_bytes(&self) -> (r: Vec<u8>)
        ensures
            r@ == self.encoding(),
    {
        let mut out: Vec<u8> = Vec::new();
        out.push(0xa2);
        proof {
            assert(out@ =~= seq![0xa2u8]);
        }
        put_field(
            &mut out,
            "registration_pk",
            &encode_bytes(self.registration_pk.to_bytes().as_slice()),
        );
        put_field(&mut out, "params", &self.params.to_bytes());
        out
    }

    /// The public key of an election, from its registration key.
    pub fn new(rt_pub: &RTPublicKey, params: ElectionParams) -> (r: Self)
        ensures
            r.registration_pk == rt_pub.registration_pk,
            r.params == params,
    {
        ElectionPublicKey { registration_pk: rt_pub.registration_pk, params }
    }

    /// The key triple of the tally.
    pub open spec fn key(self) -> CtView {
        self.params.tally.key(self.params.elgamal)
    }

    /// The steps that append the key.
    pub open spec fn steps(self) -> Seq<Entry> {
        seq![
            point_message("TALLY"@, self.params.tally.h.log()),
            point_message("G1"@, self.params.elgamal.g1.log()),
            point_message("G2"@, self.params.elgamal.g2.log()),
            point_message("G3"@, self.params.g3.log()),
            point_message("o"@, self.params.o.log()),
            point_message("RT-PK"@, self.registration_pk.log()),
        ]
    }

    /// Appends the key to a transcript.
    pub fn into_transcript(&self, transcript: &mut Transcript)
        ensures
            transcript_entries(*final(transcript)) == transcript_entries(*old(transcript))
                + self.steps(),
    {
        let ghost before = transcript_entries(*transcript);
        append_point(transcript, "TALLY", &self.params.tally.h);
        append_point(transcript, "G1", &self.params.elgamal.g1);
        append_point(transcript, "G2", &self.params.elgamal.g2);
        append_point(transcript, "G3", &self.params.g3);
        append_point(transcript, "o", &self.params.o);
        append_point(transcript, "RT-PK", &self.registration_pk);
        proof {
            assert(transcript_entries(*transcript) =~= before + self.steps());
        }
    }

    /// Encrypts a point under the tally key.
    pub fn encrypt(&self, value: &Point, rng: &mut StdRng) -> (r: ExtendedCiphertext)
        ensures
            r.encrypts(self.key(), value.log()),
    {
        ExtendedCiphertext::new(&self.params.tally, &self.params.elgamal, value, rng)
    }

    /// Encrypts the neutral element under the tally key.
    pub fn identity_encription(&self, rng: &mut StdRng) -> (r: ExtendedCiphertext)
        ensures
            r.encrypts(self.key(), 0),
    {
        self.encrypt(&Point::identity(), rng)
    }

    /// Encrypts `[value]G` under the tally key.
    pub fn exp_encrypt(&self, value: &Scalar, rng: &mut StdRng) -> (r: ExtendedCiphertext)
        ensures
            r.encrypts(self.key(), value@),
    {
        let point = Point::generator().times(value);
        proof {
            value.lemma_bounds();
            lemma_red_small(value@);
        }
        self.encrypt(&point, rng)
    }
}

/// The secret key of registration.
#[derive(Clone, Copy, Debug)]
pub struct RTSecretKey {
    pub secret_scalar: Scalar,
    pub meg_sk: SecretKey,
}

impl RTSecretKey {
    /// A secret key with a random scalar.
    pub fn new(meg_sk: SecretKey, rng: &mut StdRng) -> (r: Self)
        ensures
            r.meg_sk == meg_sk,
    {
        RTSecretKey { secret_scalar: Scalar::random(rng), meg_sk }
    }
}

/// The public key of registration.
#[derive(Clone, Copy, Debug)]
pub struct RTPublicKey {
    pub registration_pk: Point,
    pub meg_pk: PublicKey,
}

impl RTPublicKey {
    /// Whether this is the public key of `sk`.
    pub open spec fn belongs(self, sk: RTSecretKey, params: ElectionParams) -> bool {
        &&& self.registration_pk.log() == red(params.g3.log() * sk.secret_scalar@)
        &&& self.meg_pk.key(params.elgamal) == sk.meg_sk.key(params.elgamal)
    }

    /// The public key of a secret key.
    pub fn new(sk: &RTSecretKey, params: &ElectionParams) -> (r: Self)
        ensures
            r.belongs(*sk, *params),
    {
        let meg_pk = sk.meg_sk.to_public(&params.elgamal);
        let registration_pk = params.g3.times(&sk.secret_scalar);
        RTPublicKey { registration_pk, meg_pk }
    }
}

/// The key pair of registration.
#[derive(Clone, Copy, Debug)]
pub struct RTKeyPair {
    pub sk: RTSecretKey,
    pub pk: RTPublicKey,
}

impl RTKeyPair {
    /// A key pair with a random registration secret.
    pub fn new(meg_sk: SecretKey, params: &ElectionParams, rng: &mut StdRng) -> (r: Self)
        ensures
            r.sk.meg_sk == meg_sk,
            r.pk.belongs(r.sk, *params),
    {
        let sk = RTSecretKey::new(meg_sk, rng);
        let pk = RTPublicKey::new(&sk, params);
        RTKeyPair { sk, pk }
    }

    /// Both keys.
    pub fn into_tuple(self) -> (r: (RTSecretKey, RTPublicKey))
        ensures
            r == (self.sk, self.pk),
    {
        (self.sk, self.pk)
    }
}

/// The secret key of a voter, shared between a passphrase and a byte string.
#[derive(Clone, Debug, PartialEq)]
pub struct VoterSecretKey {
    pub passphrase: String,
    pub share: Vec<u8>,
    pub sk: Scalar,
}

/// The bytes of both lists, combined by exclusive or, as far as both go.
pub open spec fn xor_bytes(a: Seq<u8>, b: Seq<u8>) -> Seq<u8> {
    Seq::new(
        if a.len() <= b.len() {
            a.len()
        } else {
            b.len()
        },
        |i: int| a[i] ^ b[i],
    )
}

/// Calculates the exclusive or of 32 bytes.
fn xor(a: &[u8; 32], b: &[u8]) -> (r: Vec<u8>)
    requires
        b@.len() >= 32,
    ensures
        r@ == xor_bytes(a@, b@),
        r@.len() == 32,
{
    let mut out: Vec<u8> = Vec::new();
    let mut i: usize = 0;
    while i < 32
        invariant
            i <= 32,
            b@.len() >= 32,
            out@.len() == i,
            forall|j: int| #![trigger out@[j]] 0 <= j < i ==> out@[j] == a@[j] ^ b@[j],
        decreases 32 - i,
    {
        out.push(a[i] ^ b[i]);
        i += 1;
    }
    proof {
        assert(out@ =~= xor_bytes(a@, b@));
    }
    out
}

/// The secret that passphrase and share make together, if they make one.
pub open spec fn recovered(passphrase: Seq<char>, share: Seq<u8>) -> Option<int> {
    let bytes = xor_bytes(shake128(encode_utf8(passphrase)), share);
    if le_value(bytes) < order() {
        Some(le_value(bytes))
    } else {
        None
    }
}

impl VoterSecretKey {
    /// A random secret, shared between `passphrase` and a byte string: passphrase
    /// and share recover the secret.
    pub fn new(passphrase: &str, rng: &mut StdRng) -> (r: Self)
        ensures
            r.passphrase@ == passphrase@,
            r.share@.len() == 32,
            r.share@ == xor_bytes(shake128(encode_utf8(passphrase@)), scalar_encoding(r.sk@)),
            recovered(r.passphrase@, r.share@) == Some(r.sk@),
    {
        let mask = shake(passphrase.as_bytes());
        let sk = Scalar::random(rng);
        let sk_bytes = sk.to_bytes();
        let share = xor(&mask, sk_bytes.as_slice());
        proof {
            let twice = xor_bytes(mask@, share@);
            assert forall|i: int| 0 <= i < 32 implies #[trigger] twice[i] == sk_bytes@[i] by {
                let a = mask@[i];
                let b = sk_bytes@[i];
                assert(share@[i] == a ^ b);
                assert(a ^ (a ^ b) == b) by (bit_vector);
            }
            assert(twice =~= sk_bytes@);
            sk.lemma_bounds();
        }
        VoterSecretKey { passphrase: passphrase.to_owned(), share, sk }
    }

    /// The secret recovered from passphrase and share; nothing where they do not
    /// make one.
    pub fn new_with_passphrase(passphrase: &str, share: Vec<u8>) -> (r: Option<Self>)
        requires
            share@.len() >= 32,
        ensures
            match r {
                Some(key) => {
                    &&& key.passphrase@ == passphrase@
                    &&& key.share@ == share@
                    &&& recovered(passphrase@, share@) == Some(key.sk@)
                },
                None => recovered(passphrase@, share@) is None,
            },
    {
        let mask = shake(passphrase.as_bytes());
        let sk_bytes = xor(&mask, share.as_slice());
        match Scalar::from_bytes(sk_bytes.as_slice()) {
            Some(sk) => Some(VoterSecretKey { passphrase: passphrase.to_owned(), share, sk }),
            None => None,
        }
    }
}

/// The public key of a voter.
#[derive(Clone, Copy, Debug, PartialEq)]
pub struct VoterPublicKey {
    pub pk: Point,
}

impl VoterPublicKey {
    /// The public key of a secret key.
    pub fn new(election_pk: &ElectionPublicKey, voter_sk: &VoterSecretKey) -> (r: Self)
        ensures
            r.pk.log() == red(election_pk.params.elgamal.g2.log() * voter_sk.sk@),
    {
        VoterPublicKey { pk: election_pk.params.elgamal.g2.times(&voter_sk.sk) }
    }
}

/// The key pair of a voter.
#[derive(Clone, Debug, PartialEq)]
pub struct VoterKeyPair {
    pub sk: VoterSecretKey,
    pub pk: VoterPublicKey,
}

impl VoterKeyPair {
    /// Whether the keys belong together.
    pub open spec fn wf(self, election_pk: ElectionPublicKey) -> bool {
        self.pk.pk.log() == red(election_pk.params.elgamal.g2.log() * self.sk.sk@)
    }

    /// A random key pair whose secret is shared with `passphrase`.
    pub fn new(election_pk: &ElectionPublicKey, passphrase: &str, rng: &mut StdRng) -> (r: Self)
        ensures
            r.wf(*election_pk),
            r.sk.passphrase@ == passphrase@,
            recovered(r.sk.passphrase@, r.sk.share@) == Some(r.sk.sk@),
    {
        let sk = VoterSecretKey::new(passphrase, rng);
        let pk = VoterPublicKey::new(election_pk, &sk);
        VoterKeyPair { sk, pk }
    }

    /// The key pair recovered from passphrase and share.
    pub fn new_with_passphrase(election_pk: &ElectionPublicKey, passphrase: &str, share: Vec<u8>) -> (r:
        Option<Self>)
        requires
            share@.len() >= 32,
        ensures
            match r {
                Some(pair) => {
                    &&& pair.wf(*election_pk)
                    &&& pair.sk.passphrase@ == passphrase@
                    &&& pair.sk.share@ == share@
                    &&& recovered(passphrase@, share@) == Some(pair.sk.sk@)
                },
                None => recovered(passphrase@, share@) is None,
            },
    {
        match VoterSecretKey::new_with_passphrase(passphrase, share) {
            Some(sk) => {
                let pk = VoterPublicKey::new(election_pk, &sk);
                Some(VoterKeyPair { sk, pk })
            },
            None => None,
        }
    }

    /// Both keys.
    pub fn into_tuple(self) -> (r: (VoterSecretKey, VoterPublicKey))
        ensures
            r == (self.sk, self.pk),
    {
        (self.sk, self.pk)
    }
}

} // verus!
