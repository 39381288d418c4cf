use evoting::constants::CAI_POW;
use evoting::elgamal::{DlogTable, ElGamalParams, SecretKey};
use evoting::error::{CryptoError, DecryptionError, Error};
use evoting::group::Scalar;
use evoting::proofs::relation::SubProof;
use evoting::protocol::keys::{ElectionParams, ElectionPublicKey, RTKeyPair};
use evoting::protocol::vote::cai::{
    ChoiceDiscloseCAI, ChoiceRevealedCAI, DiscloseCAI, ExtendedEncrValuesCAI, ProofCAI,
    ProofCAIPublic, ProofCAIWitness, ValuesCAI,
};
use evoting::protocol::vote::choice::{
    Choice, ChoiceParameters, EncrChoice, ExtendedEncrChoice,
};
use evoting::protocol::vote::choice_proof::{
    ProofEncrChoice, ProofEncrChoicePublic, ProofEncrChoiceWitness,
};
use rand::rngs::StdRng;
use rand::{Rng, SeedableRng};

fn mock_params(rng: &mut StdRng) -> ElectionParams {
    let elgamal = ElGamalParams::new(rng);
    let tally = SecretKey::new(rng).to_public(&elgamal);
    ElectionParams::new(&elgamal, &tally, rng)
}

fn mock_key(rng: &mut StdRng) -> ElectionPublicKey {
    let params = mock_params(rng);
    let meg_sk = SecretKey::new(rng);
    let rt_pair = RTKeyPair::new(meg_sk, &params, rng);
    ElectionPublicKey::new(&rt_pair.pk, params)
}

fn dlog_table() -> DlogTable {
    DlogTable::new((0..100).collect())
}

#[test]
fn choice_expression() {
    let n1 = 10;
    let ln2 = vec![10; n1];
    let choice_parameters = ChoiceParameters::new(n1, ln2.clone(), false).unwrap();
    let mut rng = StdRng::from_entropy();
    let choice = Choice::new(
        rng.gen_range(0..n1),
        vec![rng.gen_range(0..10)],
        &choice_parameters,
    )
    .unwrap();
    println!("CHOSEN PARTY: {:?}", choice.l1);
    println!("CHOSEN CANDIDATE: {:?}", choice.l2);
    assert_eq!(choice.l1.iter().sum::<usize>(), 1);
    assert_eq!(choice.l2.iter().flatten().sum::<usize>(), 1);
    assert_eq!(choice.l1[choice.l1_value], 1);
    assert_eq!(choice.l2[choice.l1_value][choice.l2_value[0]], 1);
}

#[test]
fn choice_fail() {
    let choice_params = ChoiceParameters::new(3, vec![9, 13, 5], false).unwrap();

    assert_eq!(
        Choice::new(4, vec![5], &choice_params),
        Err(Error::InvalidSize(
            "l1 choice given in input: 4, limit: 2".to_string()
        ))
    );
    assert_eq!(
        Choice::new(2, vec![5], &choice_params),
        Err(Error::InvalidSize(
            "l2 choice given in input: 5, limit: 4".to_string()
        ))
    );
}

#[test]
fn choice_verifiable() {
    let mut rng = StdRng::from_entropy();
    let election_pk = mock_key(&mut rng);
    let choice_params = ChoiceParameters::new(3, vec![9, 13, 5], false).unwrap();
    let choice = Choice::new(2, vec![4], &choice_params).unwrap();
    let enc_choice = ExtendedEncrChoice::new(&choice, &election_pk, &mut rng);
    let binding = enc_choice.to_encryption();
    let public = ProofEncrChoicePublic::new(&binding, &election_pk, &choice_params);
    let witness = ProofEncrChoiceWitness::new(&public, &enc_choice, &choice);
    let proof = ProofEncrChoice::prove(&public, &witness, &mut rng);
    proof.verify(&public).unwrap();
}

fn some_choice(rng: &mut StdRng) -> Choice {
    let n1 = 10;
    let ln2 = vec![10; n1];
    let choice_parameters = ChoiceParameters::new(n1, ln2, false).unwrap();
    Choice::new(
        rng.gen_range(0..n1),
        vec![rng.gen_range(0..10)],
        &choice_parameters,
    )
    .unwrap()
}

#[test]
fn cai() {
    let mut rng = StdRng::from_entropy();
    let election_pk = mock_key(&mut rng);
    let choice = some_choice(&mut rng);
    let enc_choice = ExtendedEncrChoice::new(&choice, &election_pk, &mut rng);
    let cai = ValuesCAI::new(&choice, CAI_POW, &mut rng);
    let enc_cai = ExtendedEncrValuesCAI::new(&cai, &election_pk, &mut rng);
    let binding0 = enc_cai.to_encrypted();
    let binding = enc_choice.to_encryption();
    let public = ProofCAIPublic::new(&election_pk, &binding0, &binding);
    let witness = ProofCAIWitness::new(&cai, &enc_cai, &enc_choice);
    let proof = ProofCAI::prove(&public, &witness, &mut rng);
    proof.verify(&public).unwrap();
}

#[test]
fn disclose_cai() {
    let mut rng = StdRng::from_entropy();
    let election_pk = mock_key(&mut rng);
    let choice = some_choice(&mut rng);
    let cai = ValuesCAI::new(&choice, CAI_POW, &mut rng);
    let enc_cai = ExtendedEncrValuesCAI::new(&cai, &election_pk, &mut rng);
    let discl = DiscloseCAI {
        l1: ChoiceDiscloseCAI::Sum {
            l_r: enc_cai.l1_sum_enc.random_scalar,
        },
        l2: ChoiceDiscloseCAI::Code {
            l_r: enc_cai.l2_code_enc.random_scalar,
        },
    };
    let reveal = enc_cai
        .to_encrypted()
        .extract_CAI_values(discl, &election_pk, &dlog_table())
        .unwrap();
    match reveal.l1 {
        ChoiceRevealedCAI::Sum { l_v, .. } => {
            assert_eq!(l_v, Scalar::from_u64((cai.l1_sum % CAI_POW) as u64))
        }
        ChoiceRevealedCAI::Code { l_v, .. } => {
            assert_eq!(l_v, Scalar::from_u64(cai.l1_code as u64))
        }
    }
    match reveal.l2 {
        ChoiceRevealedCAI::Sum { l_v, .. } => {
            assert_eq!(l_v, Scalar::from_u64((cai.l2_sum % CAI_POW) as u64))
        }
        ChoiceRevealedCAI::Code { l_v, .. } => {
            assert_eq!(l_v, Scalar::from_u64(cai.l2_code as u64))
        }
    }
}

#[test]
fn parameters_of_wrong_sizes() {
    assert_eq!(
        ChoiceParameters::new(2, vec![3], false),
        Err(Error::InvalidSize("The length of ln2, the number of second-level choices, should be equal to the number of first-level choices".to_string()))
    );
    assert_eq!(
        ChoiceParameters::new(2, vec![3, 0], true),
        Err(Error::InvalidSize(
            "Invalid number of second-level choices in the sequence (should be all > 0)".to_string()
        ))
    );
}

#[test]
fn adjusted_parameters() {
    let mut params = ChoiceParameters::new(2, vec![3, 4], true).unwrap();
    assert_eq!(params.n1, 3);
    assert_eq!(params.ln2, vec![1, 3, 4]);
    params.add_no_preference_l2();
    assert_eq!(params.n1, 3);
    assert_eq!(params.ln2, vec![1, 4, 5]);
    assert!(params.is_encodable());
}

#[test]
fn parameters_too_large_to_encode() {
    let params = ChoiceParameters::new(1, vec![30_000_000], false).unwrap();
    assert!(!params.is_encodable());
    let params = ChoiceParameters::new(1, vec![29_000_000], false).unwrap();
    assert!(params.is_encodable());
}

#[test]
fn marks_of_a_choice() {
    let params = ChoiceParameters::new(3, vec![2, 3, 1], false).unwrap();
    let choice = Choice::new(1, vec![2, 0], &params).unwrap();
    assert_eq!(choice.l1, vec![0, 1, 0]);
    assert_eq!(choice.l2, vec![vec![0, 0], vec![1, 0, 1], vec![0]]);
    assert_eq!(choice.l2_value, vec![2, 0]);
}

#[test]
fn two_candidates_are_not_proved() {
    let mut rng = StdRng::seed_from_u64(1);
    let pk = mock_key(&mut rng);
    let params = ChoiceParameters::new(2, vec![2, 3], false).unwrap();
    let choice = Choice::new(1, vec![0, 2], &params).unwrap();
    let ext = ExtendedEncrChoice::new(&choice, &pk, &mut rng);
    let enc = ext.to_encryption();
    let public = ProofEncrChoicePublic::new(&enc, &pk, &params);
    let witness = ProofEncrChoiceWitness::new(&public, &ext, &choice);
    let proof = ProofEncrChoice::prove(&public, &witness, &mut rng);
    assert_eq!(proof.verify(&public), Err(CryptoError::CommitmentMismatch));
}

#[test]
fn tampered_choice_proofs() {
    let mut rng = StdRng::seed_from_u64(2);
    let pk = mock_key(&mut rng);
    let params = ChoiceParameters::new(2, vec![2, 3], false).unwrap();
    let choice = Choice::new(1, vec![2], &params).unwrap();
    let ext = ExtendedEncrChoice::new(&choice, &pk, &mut rng);
    let enc = ext.to_encryption();
    let public = ProofEncrChoicePublic::new(&enc, &pk, &params);
    let witness = ProofEncrChoiceWitness::new(&public, &ext, &choice);
    let proof = ProofEncrChoice::prove(&public, &witness, &mut rng);
    proof.verify(&public).unwrap();
    assert_eq!(proof.proofs.len(), 1 + 2 + 2 + 3 + 2);

    let mut shorter = proof.clone();
    if let SubProof::Or { responses, .. } = &mut shorter.proofs[1] {
        responses.pop();
    }
    assert_eq!(shorter.verify(&public), Err(CryptoError::InvalidInputShape));

    let mut other = proof.clone();
    if let SubProof::Or { challenges, .. } = &mut other.proofs[1] {
        challenges[0] = challenges[0].plus(&Scalar::from_u64(1));
    }
    assert_eq!(other.verify(&public), Err(CryptoError::ChallengeMismatch));

    let mut wrong = proof.clone();
    if let SubProof::Zero { response, .. } = &mut wrong.proofs[0] {
        *response = response.plus(&Scalar::from_u64(1));
    }
    assert_eq!(wrong.verify(&public), Err(CryptoError::CommitmentMismatch));

    let other_params = ChoiceParameters::new(2, vec![3, 3], false).unwrap();
    let elsewhere = ProofEncrChoicePublic {
        statements: public.statements.clone(),
        choice_params: &other_params,
        election_pk: &pk,
        enc_choice: &enc,
    };
    assert!(proof.verify(&elsewhere).is_err());
}

#[test]
fn codes_agree_with_the_choice() {
    let mut rng = StdRng::seed_from_u64(3);
    let params = ChoiceParameters::new(3, vec![2, 3, 9], false).unwrap();
    let choice = Choice::new(2, vec![7], &params).unwrap();
    for _ in 0..50 {
        let cai = ValuesCAI::new(&choice, CAI_POW, &mut rng);
        assert!(cai.l1_code < CAI_POW && cai.l2_code < CAI_POW);
        assert_eq!(cai.l1_sum, cai.l1_code + 2);
        assert_eq!(cai.l2_sum, cai.l2_code + 7);
    }
}

#[test]
fn codes_with_a_carry_are_proved() {
    let mut rng = StdRng::seed_from_u64(4);
    let pk = mock_key(&mut rng);
    let params = ChoiceParameters::new(3, vec![2, 3, 9], false).unwrap();
    let choice = Choice::new(2, vec![7], &params).unwrap();
    let ext = ExtendedEncrChoice::new(&choice, &pk, &mut rng);
    let enc = ext.to_encryption();
    let cai = ValuesCAI { l1_code: 99, l1_sum: 101, l2_code: 50, l2_sum: 57 };
    let ext_cai = ExtendedEncrValuesCAI::new(&cai, &pk, &mut rng);
    let public = ProofCAIPublic::new(&pk, &ext_cai.to_encrypted(), &enc);
    let witness = ProofCAIWitness::new(&cai, &ext_cai, &ext);
    ProofCAI::prove(&public, &witness, &mut rng).verify(&public).unwrap();

    let wrong = ValuesCAI { l1_code: 98, l1_sum: 101, l2_code: 50, l2_sum: 57 };
    let ext_cai = ExtendedEncrValuesCAI::new(&wrong, &pk, &mut rng);
    let public = ProofCAIPublic::new(&pk, &ext_cai.to_encrypted(), &enc);
    let witness = ProofCAIWitness::new(&wrong, &ext_cai, &ext);
    let proof = ProofCAI::prove(&public, &witness, &mut rng);
    assert_eq!(proof.verify(&public), Err(CryptoError::CommitmentMismatch));
}

#[test]
fn revealed_codes_are_extracted_again() {
    let mut rng = StdRng::seed_from_u64(5);
    let pk = mock_key(&mut rng);
    let cai = ValuesCAI { l1_code: 99, l1_sum: 101, l2_code: 0, l2_sum: 7 };
    let ext = ExtendedEncrValuesCAI::new(&cai, &pk, &mut rng);
    let enc = ext.to_encrypted();
    for (c1, c2) in [(true, true), (true, false), (false, true), (false, false)] {
        let revealed = ext.reveal_values(cai, c1, c2);
        let expected = [if c1 { 99 } else { 1 }, if c2 { 0 } else { 7 }];
        for (level, value) in [(revealed.l1, expected[0]), (revealed.l2, expected[1])] {
            match level {
                ChoiceRevealedCAI::Code { l_v, .. } | ChoiceRevealedCAI::Sum { l_v, .. } => {
                    assert_eq!(l_v, Scalar::from_u64(value))
                }
            }
        }
        let again = enc
            .extract_CAI_values(DiscloseCAI::from_reveal(revealed), &pk, &dlog_table())
            .unwrap();
        assert_eq!(again, revealed);
    }
}

#[test]
fn codes_that_do_not_open() {
    let mut rng = StdRng::seed_from_u64(6);
    let pk = mock_key(&mut rng);
    let cai = ValuesCAI { l1_code: 42, l1_sum: 43, l2_code: 5, l2_sum: 7 };
    let ext = ExtendedEncrValuesCAI::new(&cai, &pk, &mut rng);
    let enc = ext.to_encrypted();
    let good = DiscloseCAI::from_reveal(ext.reveal_values(cai, true, true));
    let wrong = DiscloseCAI { l1: ChoiceDiscloseCAI::Code { l_r: Scalar::from_u64(1) }, l2: good.l2 };
    assert_eq!(
        enc.extract_CAI_values(wrong, &pk, &dlog_table()),
        Err(Error::FailedVerification(CryptoError::RandomPointMismatch))
    );
    let small = DlogTable::new(vec![5]);
    assert_eq!(
        enc.extract_CAI_values(good, &pk, &small),
        Err(Error::FailedVerification(CryptoError::ElementNotFound))
    );
}

#[test]
fn sums_of_encrypted_choices() {
    let mut rng = StdRng::seed_from_u64(7);
    let elgamal = ElGamalParams::new(&mut rng);
    let sk = SecretKey::new(&mut rng);
    let params = ElectionParams::new(&elgamal, &sk.to_public(&elgamal), &mut rng);
    let rt_pair = RTKeyPair::new(SecretKey::new(&mut rng), &params, &mut rng);
    let pk = ElectionPublicKey::new(&rt_pair.pk, params);
    let shape = ChoiceParameters::new(2, vec![2, 3], false).unwrap();
    let mut acc = EncrChoice::identity(&shape);
    for (party, candidate) in [(0, 1), (1, 2), (1, 2), (1, 0)] {
        let choice = Choice::new(party, vec![candidate], &shape).unwrap();
        acc.add_assign(&ExtendedEncrChoice::new(&choice, &pk, &mut rng).to_encryption());
    }
    let acc = acc.re_encrypt(&pk.params.tally, &elgamal, &mut rng).to_encryption();
    let table = dlog_table();
    let count = |ct| table.get(&sk.decrypt(ct)).unwrap();
    assert_eq!(acc.l1.iter().map(count).collect::<Vec<u64>>(), vec![1, 3]);
    assert_eq!(acc.l2[0].iter().map(count).collect::<Vec<u64>>(), vec![0, 1]);
    assert_eq!(acc.l2[1].iter().map(count).collect::<Vec<u64>>(), vec![1, 0, 2]);
    assert_ne!(DecryptionError::ElementNotFound, DecryptionError::RandomPointMismatch);
}
