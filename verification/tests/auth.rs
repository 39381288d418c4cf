use evoting::elgamal::{ElGamalParams, SecretKey};
use evoting::error::{CryptoError, Error};
use evoting::group::{Point, Scalar};
use evoting::protocol::keys::{
    ElectionParams, ElectionPublicKey, RTKeyPair, VoterKeyPair, VoterPublicKey, VoterSecretKey,
};
use evoting::protocol::vote::auth::{
    MaskedPIN, PrivateACC, PublicACC, VotingCredentialBuilder, PIN,
};
use evoting::protocol::vote::auth_proof::{
    ExtendedEncrAuthValues, ProofAuthValues, ProofAuthValuesPublic, ProofAuthValuesWitness,
};
use rand::rngs::StdRng;
use rand::{Rng, SeedableRng};

fn mock_params(rng: &mut StdRng) -> ElectionParams {
    let elgamal = ElGamalParams::new(rng);
    let tally = SecretKey::new(rng).to_public(&elgamal);
    ElectionParams::new(&elgamal, &tally, rng)
}

fn mock_election(rng: &mut StdRng) -> (RTKeyPair, ElectionPublicKey) {
    let params = mock_params(rng);
    let meg_sk = SecretKey::new(rng);
    let rt_pair = RTKeyPair::new(meg_sk, &params, rng);
    let election_pk = ElectionPublicKey::new(&rt_pair.pk, params);
    (rt_pair, election_pk)
}

#[test]
fn de_pin() {
    let mut rng = StdRng::from_entropy();
    let pin = PIN::new(&mut rng);
    let pin_value = pin.get_pin_value();
    let mask = pin.to_masked();
    let json =
        serde_json::to_value((mask.masked_x.to_bytes(), mask.partial_mask.to_bytes())).unwrap();
    let (x, m): ([u8; 32], [u8; 32]) = serde_json::from_value(json).unwrap();
    let de = MaskedPIN {
        masked_x: Scalar::from_bytes(&x).unwrap(),
        partial_mask: Scalar::from_bytes(&m).unwrap(),
    };
    assert_eq!(mask, de);
    assert_eq!(pin, de.to_pin(pin_value));
}

#[test]
fn acc_gen() {
    let mut rng = StdRng::from_entropy();
    let (rt_pair, election_pk) = mock_election(&mut rng);
    let private = PrivateACC::new(&rt_pair, &election_pk, &mut rng);
    let public = PublicACC::from_private(&election_pk, &private, &mut rng);
    public.verify(&election_pk).unwrap();
}

#[test]
fn voting_credential() {
    let mut rng = StdRng::from_entropy();
    let (rt_pair, election_pk) = mock_election(&mut rng);
    let private = PrivateACC::new(&rt_pair, &election_pk, &mut rng);
    let public = PublicACC::from_private(&election_pk, &private, &mut rng);
    public.verify(&election_pk).unwrap();
    let (_voter_sk, voter_pk) =
        VoterKeyPair::new(&election_pk, "some words", &mut rng).into_tuple();
    let builder = VotingCredentialBuilder::new(&private);
    let voting_credential = builder
        .finalize(&rt_pair, &election_pk, &voter_pk, &mut rng)
        .unwrap();
    let pin = private.pin.get_pin_value();
    voting_credential
        .verify_pin(&election_pk, pin, &voter_pk)
        .unwrap();
}

#[test]
fn voting_credential_simulate() {
    let mut rng = StdRng::from_entropy();
    let (rt_pair, election_pk) = mock_election(&mut rng);
    let private = PrivateACC::new(&rt_pair, &election_pk, &mut rng);
    let public = PublicACC::from_private(&election_pk, &private, &mut rng);
    public.verify(&election_pk).unwrap();
    let voter_pair = VoterKeyPair::new(&election_pk, "some words", &mut rng);
    let builder = VotingCredentialBuilder::new(&private);
    let pin: usize = rng.gen();
    let voting_credential = builder
        .simulate(&election_pk, pin, &voter_pair, &mut rng)
        .unwrap();
    let (_voter_sk, voter_pk) = voter_pair.into_tuple();
    voting_credential
        .verify_pin(&election_pk, pin, &voter_pk)
        .unwrap();
}

#[test]
fn voting_credential_fail() {
    let mut rng = StdRng::from_entropy();
    let (rt_pair, election_pk) = mock_election(&mut rng);
    let private = PrivateACC::new(&rt_pair, &election_pk, &mut rng);
    let public = PublicACC::from_private(&election_pk, &private, &mut rng);
    public.verify(&election_pk).unwrap();
    let voter_pair = VoterKeyPair::new(&election_pk, "some words", &mut rng);
    let builder = VotingCredentialBuilder::new(&private);
    let pin: usize = rng.gen();
    let voting_credential = builder
        .simulate(&election_pk, pin, &voter_pair, &mut rng)
        .unwrap();
    let pin = private.pin.get_pin_value();
    let (_voter_sk, voter_pk) = voter_pair.into_tuple();
    assert_eq!(
        voting_credential.verify_pin(&election_pk, pin, &voter_pk),
        Err(Error::FailedVerification(CryptoError::ChallengeMismatch)),
        "verification must fail for inconsistent simulated pin"
    );
    let builder1 = voting_credential.clone().to_builder();
    assert_eq!(builder, builder1);
    let voting_credential1 = builder
        .finalize(&rt_pair, &election_pk, &voter_pk, &mut rng)
        .unwrap();
    assert_ne!(voting_credential, voting_credential1);
    let pin_random: usize = rng.gen();
    assert_eq!(
        voting_credential1.verify_pin(&election_pk, pin_random, &voter_pk),
        Err(Error::FailedVerification(CryptoError::ChallengeMismatch)),
        "verification must fail for inconsistent simulated pin"
    );
    voting_credential1
        .verify_pin(&election_pk, pin, &voter_pk)
        .unwrap();
}

#[test]
fn authentication_values() {
    let mut rng = StdRng::from_entropy();
    let (rt_pair, election_pk) = mock_election(&mut rng);
    let private = PrivateACC::new(&rt_pair, &election_pk, &mut rng);
    let public = PublicACC::from_private(&election_pk, &private, &mut rng);
    public.verify(&election_pk).unwrap();
    let (_voter_sk, voter_pk) =
        VoterKeyPair::new(&election_pk, "some words", &mut rng).into_tuple();
    let builder = VotingCredentialBuilder::new(&private);
    let voting_credential = builder
        .finalize(&rt_pair, &election_pk, &voter_pk, &mut rng)
        .unwrap();
    let pin = private.pin.get_pin_value();
    voting_credential
        .verify_pin(&election_pk, pin, &voter_pk)
        .unwrap();
    let enc_auth = ExtendedEncrAuthValues::new(&voting_credential, &election_pk, pin, &mut rng);
    let binding = enc_auth.to_encrypted();
    let public = ProofAuthValuesPublic::new(&binding, &election_pk);
    let wit = ProofAuthValuesWitness::new(&enc_auth, &voting_credential, pin);
    let proof = ProofAuthValues::prove(&public, &wit, &mut rng);
    proof.verify(&public).unwrap();
}

#[test]
fn pin_from_the_last_bytes_of_the_mask() {
    let mut bytes = [0u8; 32];
    bytes[24] = 0;
    bytes[29] = 1;
    bytes[30] = 2;
    bytes[31] = 3;
    let pin = PIN {
        x: Scalar::from_u64(7),
        mask: Scalar::from_bytes(&bytes).unwrap(),
    };
    assert_eq!(pin.get_pin_value(), 65536 + 2 * 256 + 3);
    let masked = pin.to_masked();
    assert_eq!(masked.to_pin(66051), pin);
    assert_eq!(masked.to_pin(66050).x, Scalar::from_u64(8));
    assert_eq!(pin.get_partial_mask(), masked.partial_mask);
    assert_eq!(pin.get_partial_mask().plus(&Scalar::from_u64(66051)), pin.mask);
}

#[test]
fn passphrase_and_share_recover_the_key() {
    let mut rng = StdRng::seed_from_u64(11);
    let (_, pk) = mock_election(&mut rng);
    let key = VoterSecretKey::new("six words of no great meaning", &mut rng);
    assert_eq!(key.share.len(), 32);
    assert_ne!(key.share, key.sk.to_bytes().to_vec());
    let again =
        VoterSecretKey::new_with_passphrase("six words of no great meaning", key.share.clone())
            .unwrap();
    assert_eq!(again, key);
    let pair =
        VoterKeyPair::new_with_passphrase(&pk, "six words of no great meaning", key.share.clone())
            .unwrap();
    assert_eq!(pair.pk, VoterPublicKey::new(&pk, &key));
    if let Some(other) = VoterSecretKey::new_with_passphrase("other words", key.share.clone()) {
        assert_ne!(other.sk, key.sk);
    }
    let mut beyond = key.share.clone();
    let mask: Vec<u8> = key.share.iter().zip(key.sk.to_bytes()).map(|(a, b)| a ^ b).collect();
    for (byte, m) in beyond.iter_mut().zip(mask) {
        *byte = m ^ 0xff;
    }
    assert!(
        VoterSecretKey::new_with_passphrase("six words of no great meaning", beyond).is_none()
    );
}

#[test]
fn neutral_voter_key_is_refused() {
    let mut rng = StdRng::seed_from_u64(12);
    let (rt_pair, pk) = mock_election(&mut rng);
    let private = PrivateACC::new(&rt_pair, &pk, &mut rng);
    let builder = VotingCredentialBuilder::new(&private);
    let neutral = VoterPublicKey { pk: Point::identity() };
    assert_eq!(
        builder.finalize(&rt_pair, &pk, &neutral, &mut rng),
        Err(Error::DvKeysNotSet(3))
    );
}

#[test]
fn signature_satisfies_its_equation() {
    let mut rng = StdRng::seed_from_u64(13);
    let (rt_pair, pk) = mock_election(&mut rng);
    let private = PrivateACC::new(&rt_pair, &pk, &mut rng);
    let exponent = private.sign.r.plus(&rt_pair.sk.secret_scalar);
    let left = private.sign.A.times(&exponent);
    let right = pk.params.elgamal.g1.plus(&pk.params.g3.times(&private.pin.x));
    assert_eq!(left, right);
    let message = rt_pair.sk.meg_sk.decrypt(&private.enc_sign.enc_r.inner);
    assert_eq!(message, right);
}

#[test]
fn public_credential_with_another_signature() {
    let mut rng = StdRng::seed_from_u64(14);
    let (rt_pair, pk) = mock_election(&mut rng);
    let mut acc = PublicACC::new(&pk, &rt_pair, &mut rng);
    assert_eq!(acc.verify(&pk).unwrap(), acc.to_short());
    acc.sign.A = Point::generator();
    assert_eq!(acc.verify(&pk), Err(CryptoError::CommitmentMismatch));
}

#[test]
fn mask_can_be_set() {
    let mut rng = StdRng::seed_from_u64(15);
    let (rt_pair, pk) = mock_election(&mut rng);
    let private = PrivateACC::new(&rt_pair, &pk, &mut rng);
    let (_, voter_pk) = VoterKeyPair::new(&pk, "words", &mut rng).into_tuple();
    let credential = VotingCredentialBuilder::new(&private)
        .finalize(&rt_pair, &pk, &voter_pk, &mut rng)
        .unwrap();
    let other = credential.set_mask(Scalar::from_u64(5));
    assert_eq!(other.masked_pin.partial_mask, Scalar::from_u64(5));
    assert_eq!(other.masked_pin.masked_x, credential.masked_pin.masked_x);
    assert_eq!(
        other.get_x(2),
        credential.masked_pin.masked_x.minus(&Scalar::from_u64(7))
    );
}

#[test]
fn neutral_signature_is_not_proved() {
    let mut rng = StdRng::seed_from_u64(16);
    let (rt_pair, pk) = mock_election(&mut rng);
    let mut private = PrivateACC::new(&rt_pair, &pk, &mut rng);
    private.sign.A = Point::identity();
    let (_, voter_pk) = VoterKeyPair::new(&pk, "words", &mut rng).into_tuple();
    let credential = VotingCredentialBuilder::new(&private)
        .finalize(&rt_pair, &pk, &voter_pk, &mut rng)
        .unwrap();
    let ext = ExtendedEncrAuthValues::new(&credential, &pk, 1, &mut rng);
    let public = ProofAuthValuesPublic::new(&ext.to_encrypted(), &pk);
    let witness = ProofAuthValuesWitness::new(&ext, &credential, 1);
    let proof = ProofAuthValues::prove(&public, &witness, &mut rng);
    assert_eq!(proof.verify(&public), Err(CryptoError::CommitmentMismatch));
}

#[test]
fn different_pins_open_different_secrets() {
    let mut rng = StdRng::seed_from_u64(71);
    let (rt_pair, election_pk) = mock_election(&mut rng);
    let private = PrivateACC::new(&rt_pair, &election_pk, &mut rng);
    let masked = private.pin.to_masked();
    let pin = private.pin.get_pin_value();
    assert_eq!(masked.to_pin(pin).x, private.pin.x);
    for other in [0, 1, pin + 1, usize::MAX] {
        assert_eq!(masked.to_pin(other).x == private.pin.x, other == pin);
    }
}
