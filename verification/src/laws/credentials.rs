//! What PINs, signatures, choices and codes are.

use vstd::prelude::*;
use vstd::utf8::encode_utf8;

use crate::api::server::rt::{red_sum, RegistrationTeller};
use crate::arith::{lemma_order, lemma_red_add, lemma_red_small, lemma_red_twice, red};
use crate::elgamal::{ct_decrypt, ct_encrypt, law_decrypt_encrypt, CtView};
use crate::encoding::shake128;
use crate::error::CryptoError;
use crate::group::{le_value, lemma_le_injective, scalar_encoding, Scalar};
use crate::laws::proofs::lemma_same_residues;
use crate::proofs::relation::Nonces;
use crate::protocol::keys::{
    recovered, xor_bytes, ElectionParams, ElectionPublicKey, RTKeyPair, RTPublicKey, RTSecretKey,
    VoterKeyPair,
};
use crate::protocol::vote::auth::{
    be_value, encrypts_message, encrypts_signature, pin_of, PrivateACC, RTSignature,
    VotingCredential, VotingCredentialBuilder,
};
use crate::protocol::vote::cai::{opening, ChoiceRevealedCAI};
use crate::protocol::vote::choice::{Choice, ChoiceParameters};
use crate::protocol::vote::vote::{Draws, VerVote};

verus! {

/// The number that eight bytes denote, the first counting most.
pub open spec fn number_of(b: Seq<u8>) -> int {
    0x1_00000000000000int * b[0] + 0x1_000000000000int * b[1] + 0x1_0000000000int * b[2]
        + 0x1_00000000int * b[3] + 0x1_000000int * b[4] + 0x1_0000int * b[5] + 0x100int * b[6] + b[7]
}

/// The number of the last eight bytes of a mask.
pub open spec fn mask_number(mask: Seq<u8>) -> int {
    number_of(mask.subrange(24, 32))
}

/// The PIN of a mask is the remainder of the number of its last eight bytes by one
/// hundred thousand.
pub proof fn law_pin_is_a_remainder(mask: Scalar, bytes: Seq<u8>) -> (q: int)
    requires
        bytes.len() == 32,
        le_value(bytes) == mask@,
    ensures
        mask_number(bytes) == q * 100_000 + pin_of(mask@),
        0 <= pin_of(mask@) < 100_000,
        q >= 0,
{
    lemma_le_injective(bytes, scalar_encoding(mask@));
    let last = bytes.subrange(24, 32);
    lemma_be_value(last);
    let n = be_value(last);
    assert(n >= 0);
    let q = n / 100_000;
    assert(n == q * 100_000 + n % 100_000) by (nonlinear_arith)
        requires
            q == n / 100_000,
    ;
    assert(q >= 0) by (nonlinear_arith)
        requires
            q == n / 100_000,
            n >= 0,
    ;
    q
}

proof fn lemma_be_value(b: Seq<u8>)
    requires
        b.len() == 8,
    ensures
        be_value(b) == number_of(b),
{
    reveal_with_fuel(be_value, 9);
    let b7 = b.drop_last();
    let b6 = b7.drop_last();
    let b5 = b6.drop_last();
    let b4 = b5.drop_last();
    let b3 = b4.drop_last();
    let b2 = b3.drop_last();
    let b1 = b2.drop_last();
    let b0 = b1.drop_last();
    assert(b0.len() == 0);
    assert(be_value(b1) == b[0]);
    assert(be_value(b2) == 256 * be_value(b1) + b[1]);
    assert(be_value(b3) == 256 * be_value(b2) + b[2]);
    assert(be_value(b4) == 256 * be_value(b3) + b[3]);
    assert(be_value(b5) == 256 * be_value(b4) + b[4]);
    assert(be_value(b6) == 256 * be_value(b5) + b[5]);
    assert(be_value(b7) == 256 * be_value(b6) + b[6]);
    assert(be_value(b) == 256 * be_value(b7) + b[7]);
}

/// Masks whose numbers are near to each other have different PINs, and masks with
/// numbers that are multiples of one hundred thousand apart have one.
pub proof fn law_near_masks_have_different_pins(a: Scalar, b: Scalar, x: Seq<u8>, y: Seq<u8>)
    requires
        x.len() == 32,
        le_value(x) == a@,
        y.len() == 32,
        le_value(y) == b@,
    ensures
        mask_number(x) < mask_number(y) < mask_number(x) + 100_000 ==> pin_of(a@) != pin_of(b@),
        forall|k: int|
            mask_number(y) == mask_number(x) + #[trigger] (k * 100_000) ==> pin_of(a@) == pin_of(b@),
{
    let p = law_pin_is_a_remainder(a, x);
    let q = law_pin_is_a_remainder(b, y);
    if pin_of(a@) == pin_of(b@) {
        assert(mask_number(y) - mask_number(x) == (q - p) * 100_000) by (nonlinear_arith)
            requires
                mask_number(x) == p * 100_000 + pin_of(a@),
                mask_number(y) == q * 100_000 + pin_of(b@),
                pin_of(a@) == pin_of(b@),
        ;
        assert(q - p <= 0 || (q - p) * 100_000 >= 100_000) by (nonlinear_arith);
        assert(q - p > 0 || (q - p) * 100_000 <= 0) by (nonlinear_arith);
    }
    assert forall|k: int| mask_number(y) == mask_number(x) + #[trigger] (k * 100_000) implies pin_of(
        a@,
    ) == pin_of(b@) by {
        let d = q - p - k;
        assert(pin_of(a@) - pin_of(b@) == d * 100_000) by (nonlinear_arith)
            requires
                d == q - p - k,
                mask_number(x) == p * 100_000 + pin_of(a@),
                mask_number(y) == q * 100_000 + pin_of(b@),
                mask_number(y) == mask_number(x) + k * 100_000,
        ;
        assert(d == 0) by (nonlinear_arith)
            requires
                -100_000 < d * 100_000 < 100_000,
        ;
    }
}

/// What registration signs: `[r + y]A` is `g1 + [x]g3`.
pub proof fn law_signature_equation(sign: RTSignature, params: ElectionParams, y: int, x: int)
    ensures
        sign.signs(params, y, x) <==> red(sign.A.log() * (sign.r@ + y)) == red(
            params.elgamal.g1.log() + params.g3.log() * x,
        ),
{
}

/// Keys of registration belong together: the public point is the secret multiple
/// of `g3`, and the encryption key is that of the secret key.
pub proof fn law_registration_keys(pk: RTPublicKey, sk: RTSecretKey, params: ElectionParams)
    requires
        pk.belongs(sk, params),
    ensures
        pk.registration_pk.log() == red(params.g3.log() * sk.secret_scalar@),
        pk.meg_pk.h.log() == red(
            sk.meg_sk.x1@ * params.elgamal.g1.log() + sk.meg_sk.x2@ * params.elgamal.g2.log(),
        ),
{
}

/// Keys of a voter belong together: the public point is the secret multiple of the
/// second base.
pub proof fn law_voter_keys(pair: VoterKeyPair, pk: ElectionPublicKey)
    ensures
        pair.wf(pk) <==> pair.pk.pk.log() == red(pk.params.elgamal.g2.log() * pair.sk.sk@),
{
}

/// A private credential holds a signature on its secret, where the drawn exponent
/// allows one, and its encryptions decrypt to the signature's point, for the
/// tally, and to what was signed, for registration.
pub proof fn law_private_credential(
    private: PrivateACC,
    pair: RTKeyPair,
    pk: ElectionPublicKey,
    x1: int,
    x2: int,
)
    requires
        private.wf(pair, pk),
        pair.pk.belongs(pair.sk, pk.params),
        pk.key().b == red(x1 * pk.key().r1 + x2 * pk.key().r2),
    ensures
        red(private.sign.r@ + pair.sk.secret_scalar@) != 0 ==> red(
            private.sign.A.log() * (private.sign.r@ + pair.sk.secret_scalar@),
        ) == red(pk.params.elgamal.g1.log() + pk.params.g3.log() * private.pin.x@),
        ct_decrypt(x1, x2, private.enc_sign.enc_A.inner@) == private.sign.A.log(),
        ct_decrypt(
            pair.sk.meg_sk.x1@,
            pair.sk.meg_sk.x2@,
            private.enc_sign.enc_r.inner@,
        ) == red(pk.params.elgamal.g1.log() + pk.params.g3.log() * private.pin.x@),
{
    let a = private.sign.A.log();
    private.sign.A.lemma_bounds();
    lemma_red_small(a);
    law_decrypt_encrypt(x1, x2, pk.key(), a, private.enc_sign.enc_A.random_scalar@);
    let key = pair.pk.meg_pk.key(pk.params.elgamal);
    let m = pk.params.elgamal.g1.log() + pk.params.g3.log() * private.pin.x@;
    lemma_red_twice(m);
    law_decrypt_encrypt(
        pair.sk.meg_sk.x1@,
        pair.sk.meg_sk.x2@,
        key,
        red(m),
        private.enc_sign.enc_r.random_scalar@,
    );
}

/// What registration publishes of a credential decrypts to the signature's point
/// and to what was signed.
pub proof fn law_published_credential(
    key: CtView,
    ct: CtView,
    sign: RTSignature,
    params: ElectionParams,
    x: int,
    x1: int,
    x2: int,
)
    requires
        key.b == red(x1 * key.r1 + x2 * key.r2),
    ensures
        encrypts_signature(key, ct, sign) ==> ct_decrypt(x1, x2, ct) == sign.A.log(),
        encrypts_message(key, ct, params, x) ==> ct_decrypt(x1, x2, ct) == red(
            params.elgamal.g1.log() + params.g3.log() * x,
        ),
{
    sign.A.lemma_bounds();
    lemma_red_small(sign.A.log());
    lemma_red_twice(params.elgamal.g1.log() + params.g3.log() * x);
    if encrypts_signature(key, ct, sign) {
        let r = choose|r: int| ct == #[trigger] ct_encrypt(key, sign.A.log(), r);
        law_decrypt_encrypt(x1, x2, key, sign.A.log(), r);
    }
    if encrypts_message(key, ct, params, x) {
        let m = red(params.elgamal.g1.log() + params.g3.log() * x);
        let r = choose|r: int| ct == #[trigger] ct_encrypt(key, m, r);
        law_decrypt_encrypt(x1, x2, key, m, r);
    }
}

/// What is revealed tells whether it is the code or the sum, its value and its
/// randomness.
pub proof fn law_revealed_parts(revealed: ChoiceRevealedCAI)
    ensures
        revealed matches ChoiceRevealedCAI::Code { l_v, l_r } ==> revealed.parts() == (
            true,
            l_v@,
            l_r@,
        ),
        revealed matches ChoiceRevealedCAI::Sum { l_v, l_r } ==> revealed.parts() == (
            false,
            l_v@,
            l_r@,
        ),
{
}

/// A choice marks the party and the candidates that were chosen, and nothing else.
pub proof fn law_choice_marks(choice: Choice, params: ChoiceParameters, i: int, j: int)
    requires
        choice.marks(params),
        0 <= i < params.n1,
    ensures
        choice.l1@.len() == params.n1,
        choice.l2@.len() == params.n1,
        choice.l2@[i]@.len() == params.ln2@[i],
        i == choice.l1_value ==> choice.l1@[i] == 1,
        i != choice.l1_value ==> choice.l1@[i] == 0,
        0 <= j < params.ln2@[i] ==> {
            &&& choice.l2@[i]@[j] == 0 || choice.l2@[i]@[j] == 1
            &&& choice.l2@[i]@[j] == 1 <==> i == choice.l1_value && choice.l2_value@.contains(
                j as usize,
            )
        },
        forall|k: int|
            0 <= k < choice.l2_value@.len() ==> (#[trigger] choice.l2_value@[k])
                < params.ln2@[choice.l1_value as int],
{
    assert(choice.l2@[i]@.len() == params.ln2@[i]);
    if 0 <= j < params.ln2@[i] {
        if choice.l2_value@.contains(j as usize) {
            let k = choose|k: int|
                0 <= k < choice.l2_value@.len() && choice.l2_value@[k] == j as usize;
            assert(choice.l2_value@[k] == j);
        }
        if choice.l2@[i]@[j] == 1 {
            let k = choose|k: int| 0 <= k < choice.l2_value@.len() && choice.l2_value@[k] == j;
            assert(choice.l2_value@[k] == j as usize);
        }
    }
}

/// Opening tells what is encrypted: a ciphertext that opens to a value decrypts to
/// it, so no randomness opens it to another.
pub proof fn law_opened_value_is_encrypted(
    x1: int,
    x2: int,
    key: CtView,
    values: Set<u64>,
    ct: CtView,
    r: int,
)
    requires
        key.b == red(x1 * key.r1 + x2 * key.r2),
        opening(key, values, ct, r).is_ok(),
    ensures
        ct_decrypt(x1, x2, ct) == opening(key, values, ct, r)->Ok_0,
{
    let v = opening(key, values, ct, r)->Ok_0;
    lemma_order();
    lemma_red_small(v);
    lemma_red_add(ct.b - key.b * r, key.b * r);
    lemma_red_add(key.b * r, v);
    lemma_red_twice(key.r1 * r);
    lemma_red_twice(key.r2 * r);
    lemma_red_twice(key.b * r + v);
    lemma_same_residues(x1, x2, ct, ct_encrypt(key, v, r));
    law_decrypt_encrypt(x1, x2, key, v, r);
}

/// Why a ciphertext does not open: the randomness is not its own, or the table
/// does not know the value.
pub proof fn law_refused_opening(key: CtView, values: Set<u64>, ct: CtView, r: int)
    requires
        opening(key, values, ct, r).is_err(),
    ensures
        ct.r1 != red(key.r1 * r) || ct.r2 != red(key.r2 * r) <==> opening(key, values, ct, r)
            == Err::<int, CryptoError>(CryptoError::RandomPointMismatch),
        ct.r1 == red(key.r1 * r) && ct.r2 == red(key.r2 * r) ==> opening(key, values, ct, r)
            == Err::<int, CryptoError>(CryptoError::ElementNotFound) && red(ct.b - key.b * r) != 0
            && forall|v: u64| #[trigger] values.contains(v) ==> red(ct.b - key.b * r) != v,
{
}

/// The codes that a ballot carries are below one hundred, and the sums that it
/// carries are code plus choice, modulo one hundred.
pub proof fn law_ballot_codes(
    ballot: VerVote,
    pk: ElectionPublicKey,
    choice: Choice,
    params: ChoiceParameters,
    credential: VotingCredential,
    x: int,
    d: Draws,
    x1: int,
    x2: int,
)
    requires
        ballot.made_with(pk, choice, params, credential, x, d),
        choice.l1_value <= 100,
        choice.l2@.len() > 0,
        choice.l2_value@.len() > 0,
        choice.l2_value@[0] <= 100,
        pk.key().b == red(x1 * pk.key().r1 + x2 * pk.key().r2),
    ensures
        ({
            let code = ct_decrypt(x1, x2, ballot.cai.l1_code_enc@);
            0 <= code < 100 && ct_decrypt(x1, x2, ballot.cai.l1_sum_enc@) == (code
                + choice.l1_value) % 100
        }),
        ({
            let code = ct_decrypt(x1, x2, ballot.cai.l2_code_enc@);
            0 <= code < 100 && ct_decrypt(x1, x2, ballot.cai.l2_sum_enc@) == (code
                + choice.l2_value@[0]) % 100
        }),
{
    let key = pk.key();
    lemma_order();
    let c = d.cai;
    let (s1, s2) = ((c.l1_sum % 100) as int, (c.l2_sum % 100) as int);
    lemma_red_small(c.l1_code as int);
    lemma_red_small(c.l2_code as int);
    lemma_red_small(s1);
    lemma_red_small(s2);
    law_decrypt_encrypt(x1, x2, key, c.l1_code as int, d.codes.l1_code_enc.random_scalar@);
    law_decrypt_encrypt(x1, x2, key, s1, d.codes.l1_sum_enc.random_scalar@);
    law_decrypt_encrypt(x1, x2, key, c.l2_code as int, d.codes.l2_code_enc.random_scalar@);
    law_decrypt_encrypt(x1, x2, key, s2, d.codes.l2_sum_enc.random_scalar@);
}

/// The credential that a ballot carries is the voter's: the signature's point, `r`
/// times it, and the secret that was opened, times `g3` and times `o`; `B` is the
/// point times the blinding factor.
pub proof fn law_ballot_credential(
    ballot: VerVote,
    pk: ElectionPublicKey,
    choice: Choice,
    params: ChoiceParameters,
    credential: VotingCredential,
    x: int,
    d: Draws,
    x1: int,
    x2: int,
)
    requires
        ballot.made_with(pk, choice, params, credential, x, d),
        pk.key().b == red(x1 * pk.key().r1 + x2 * pk.key().r2),
    ensures
        ct_decrypt(x1, x2, ballot.auth.A_enc@) == credential.sign.A.log(),
        ct_decrypt(x1, x2, ballot.auth.Ar_enc@) == red(credential.sign.A.log() * credential.sign.r@),
        ct_decrypt(x1, x2, ballot.auth.g3x_enc@) == red(pk.params.g3.log() * x),
        ct_decrypt(x1, x2, ballot.auth.ox_enc@) == red(pk.params.o.log() * x),
        ballot.auth.B.log() == red(credential.sign.A.log() * d.auth.s@),
{
    let key = pk.key();
    let a = credential.sign.A.log();
    credential.sign.A.lemma_bounds();
    lemma_red_small(a);
    lemma_red_twice(a * credential.sign.r@);
    lemma_red_twice(pk.params.g3.log() * x);
    lemma_red_twice(pk.params.o.log() * x);
    law_decrypt_encrypt(x1, x2, key, a, d.auth.A_enc.random_scalar@);
    law_decrypt_encrypt(
        x1,
        x2,
        key,
        red(a * credential.sign.r@),
        d.auth.Ar_enc.random_scalar@,
    );
    law_decrypt_encrypt(
        x1,
        x2,
        key,
        red(pk.params.g3.log() * x),
        d.auth.g3x_enc.random_scalar@,
    );
    law_decrypt_encrypt(x1, x2, key, red(pk.params.o.log() * x), d.auth.ox_enc.random_scalar@);
}

/// Nothing but zeros is degenerate: randomness is without effect only where the
/// nonce of a not-identity proof is zero, and the draws of a ballot are degenerate
/// only then, or where the blinding factor is zero.
pub proof fn law_only_zeros_are_degenerate(n: Nonces, d: Draws)
    ensures
        n.vanishes() ==> (n matches Nonces::NotId { t, .. } && t@ == 0),
        d.degenerate() ==> {
            ||| d.auth.s@ == 0
            ||| exists|k: int|
                0 <= k < d.nonces.choice@.len() && (#[trigger] d.nonces.choice@[k]).vanishes()
            ||| exists|k: int|
                0 <= k < d.nonces.cai@.len() && (#[trigger] d.nonces.cai@[k]).vanishes()
            ||| exists|k: int|
                0 <= k < d.nonces.auth@.len() && (#[trigger] d.nonces.auth@[k]).vanishes()
        },
{
}

/// A credential has no signature only where the drawn exponent is the opposite of
/// the registration secret.
pub proof fn law_signature_exponent(builder: VotingCredentialBuilder, rt: RegistrationTeller)
    ensures
        red_sum(builder, rt) == red(builder.sign.r@ + rt.secret()),
{
}

/// Parameters are well formed exactly where there is a number of candidates for
/// each party, and none of them is zero.
pub proof fn law_parameters(params: ChoiceParameters)
    ensures
        params.wf() <==> params.ln2@.len() == params.n1 && !params.ln2@.contains(0usize),
{
    if params.ln2@.len() == params.n1 {
        if params.ln2@.contains(0usize) {
            let i = choose|i: int| 0 <= i < params.ln2@.len() && params.ln2@[i] == 0usize;
            assert(params.ln2@[i] < 1);
        }
        if !params.ln2@.contains(0usize) {
            assert forall|i: int| #![trigger params.ln2@[i]] 0 <= i < params.n1 implies params.ln2@[i]
                >= 1 by {
                assert(params.ln2@.contains(params.ln2@[i]));
            }
        }
    }
}

/// The share of a voter's secret is bound: two shares that recover one secret with
/// one passphrase agree in all bytes that count.
pub proof fn law_share_is_bound(passphrase: Seq<char>, a: Seq<u8>, b: Seq<u8>, i: int)
    requires
        shake128(encode_utf8(passphrase)).len() == 32,
        a.len() >= 32,
        b.len() >= 32,
        recovered(passphrase, a) is Some,
        recovered(passphrase, a) == recovered(passphrase, b),
        0 <= i < 32,
    ensures
        a[i] == b[i],
{
    let mask = shake128(encode_utf8(passphrase));
    let (x, y) = (xor_bytes(mask, a), xor_bytes(mask, b));
    lemma_le_injective(x, y);
    let (m, p, q) = (mask[i], a[i], b[i]);
    assert(x[i] == m ^ p && y[i] == m ^ q);
    assert(m ^ p == m ^ q ==> p == q) by (bit_vector);
}

/// The share and what the passphrase gives recover the secret, byte by byte.
pub proof fn law_share_recovers(passphrase: Seq<char>, share: Seq<u8>, secret: Seq<u8>)
    requires
        shake128(encode_utf8(passphrase)).len() == 32,
        share.len() == 32,
        secret.len() == 32,
        le_value(secret) < crate::arith::order(),
        forall|i: int|
            0 <= i < 32 ==> #[trigger] share[i] == shake128(encode_utf8(passphrase))[i] ^ secret[i],
    ensures
        recovered(passphrase, share) == Some(le_value(secret)),
{
    let mask = shake128(encode_utf8(passphrase));
    let bytes = xor_bytes(mask, share);
    assert forall|i: int| 0 <= i < 32 implies #[trigger] bytes[i] == secret[i] by {
        let (m, p) = (mask[i], secret[i]);
        assert(share[i] == m ^ p);
        assert(m ^ (m ^ p) == p) by (bit_vector);
    }
    assert(bytes =~= secret);
}

} // verus!
