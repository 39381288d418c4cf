use evoting::elgamal::{ElGamalParams, SecretKey};
use evoting::error::{CryptoError, Error};
use evoting::group::Point;
use evoting::protocol::keys::{ElectionParams, ElectionPublicKey, RTKeyPair, VoterKeyPair};
use evoting::protocol::vote::auth::{
    PrivateACC, PublicACC, VotingCredential, VotingCredentialBuilder,
};
use evoting::protocol::vote::choice::{Choice, ChoiceParameters};
use evoting::protocol::vote::vote::VerVote;
use rand::rngs::StdRng;
use rand::SeedableRng;

fn mock_params(rng: &mut StdRng) -> ElectionParams {
    let elgamal = ElGamalParams::new(rng);
    let tally = SecretKey::new(rng).to_public(&elgamal);
    ElectionParams::new(&elgamal, &tally, rng)
}

fn mock_credential(rng: &mut StdRng) -> (ElectionPublicKey, VotingCredential, usize) {
    let params = mock_params(rng);
    let meg_sk = SecretKey::new(rng);
    let rt_pair = RTKeyPair::new(meg_sk, &params, rng);
    let election_pk = ElectionPublicKey::new(&rt_pair.pk, params);
    let private = PrivateACC::new(&rt_pair, &election_pk, rng);
    let public = PublicACC::from_private(&election_pk, &private, rng);
    public.verify(&election_pk).unwrap();
    let (_, voter_pk) = VoterKeyPair::new(&election_pk, "some words", rng).into_tuple();
    let builder = VotingCredentialBuilder::new(&private);
    let voting_credential = builder
        .finalize(&rt_pair, &election_pk, &voter_pk, rng)
        .unwrap();
    let pin = private.pin.get_pin_value();
    voting_credential
        .verify_pin(&election_pk, pin, &voter_pk)
        .unwrap();
    (election_pk, voting_credential, pin)
}

#[test]
fn verifiable_vote() {
    let mut rng = StdRng::from_entropy();
    let (election_pk, voting_credential, pin) = mock_credential(&mut rng);
    let choice_params = ChoiceParameters::new(3, vec![9, 13, 5], false).unwrap();
    let choice = Choice::new(2, vec![4], &choice_params).unwrap();
    let ver_vote = VerVote::new(
        &election_pk,
        &choice,
        &choice_params,
        &voting_credential,
        pin,
        &mut rng,
    );
    ver_vote.verify(&election_pk, &choice_params).unwrap();
}

#[test]
fn re_encryption() {
    let mut rng = StdRng::from_entropy();
    let (election_pk, voting_credential, pin) = mock_credential(&mut rng);
    let choice_params = ChoiceParameters::new(3, vec![9, 13, 5], false).unwrap();
    let choice = Choice::new(2, vec![4], &choice_params).unwrap();
    let ver_vote = VerVote::new(
        &election_pk,
        &choice,
        &choice_params,
        &voting_credential,
        pin,
        &mut rng,
    );
    let vote = ver_vote.verify(&election_pk, &choice_params).unwrap();
    let re_encryption = vote.re_encrypt(&election_pk, &mut rng);
    assert_ne!(vote, re_encryption.to_vote());
}

#[test]
fn swapped_parts_are_refused() {
    let mut rng = StdRng::seed_from_u64(21);
    let (pk, credential, pin) = mock_credential(&mut rng);
    let params = ChoiceParameters::new(2, vec![2, 2], false).unwrap();
    let choice = Choice::new(1, vec![0], &params).unwrap();
    let first = VerVote::new(&pk, &choice, &params, &credential, pin, &mut rng);
    let second = VerVote::new(&pk, &choice, &params, &credential, pin, &mut rng);
    let mut mixed = first.clone();
    assert_eq!(mixed, first);
    mixed.cai = second.cai;
    assert!(mixed.verify(&pk, &params).is_err());
    let mut mixed = first.clone();
    mixed.auth = second.auth;
    assert!(mixed.verify(&pk, &params).is_err());
    let mut mixed = first.clone();
    mixed.choice = second.choice.clone();
    assert!(mixed.verify(&pk, &params).is_err());
    first.verify(&pk, &params).unwrap();
}

#[test]
fn ballots_are_accepted_with_every_pin() {
    let mut rng = StdRng::seed_from_u64(25);
    let (pk, credential, pin) = mock_credential(&mut rng);
    let params = ChoiceParameters::new(2, vec![1, 1], false).unwrap();
    let choice = Choice::new(1, vec![0], &params).unwrap();
    for pin in [pin, pin + 1] {
        let ballot = VerVote::new(&pk, &choice, &params, &credential, pin, &mut rng);
        assert!(ballot.is_shaped(&pk, &params));
        assert_eq!(ballot.verify(&pk, &params), Ok(ballot.to_vote()));
    }
    let mut neutral = credential;
    neutral.sign.A = Point::identity();
    let ballot = VerVote::new(&pk, &choice, &params, &neutral, pin, &mut rng);
    assert_eq!(
        ballot.verify(&pk, &params),
        Err(Error::FailedVerification(CryptoError::CommitmentMismatch))
    );
}

#[test]
fn public_credentials_hold_the_signature() {
    let mut rng = StdRng::seed_from_u64(26);
    let elgamal = ElGamalParams::new(&mut rng);
    let tally = SecretKey::new(&mut rng);
    let params = ElectionParams::new(&elgamal, &tally.to_public(&elgamal), &mut rng);
    let registration = SecretKey::new(&mut rng);
    let rt_pair = RTKeyPair::new(registration.clone(), &params, &mut rng);
    let pk = ElectionPublicKey::new(&rt_pair.pk, params);
    let public = PublicACC::new(&pk, &rt_pair, &mut rng);
    assert_eq!(public.verify(&pk), Ok(public.to_short()));
    assert_eq!(tally.decrypt(&public.enc_sign.enc_A), public.sign.A);
    let exponent = public.sign.r.plus(&rt_pair.sk.secret_scalar);
    assert_eq!(registration.decrypt(&public.enc_sign.enc_r), public.sign.A.times(&exponent));
}
