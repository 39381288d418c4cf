use evoting::api::server::bb::{Receipt, ValidVoteRecord, VerifiedVoteRecord};
use evoting::api::server::context::{ElectionContext, ElectionManifest};
use evoting::api::server::pipeline::{PublicElection, PublicPipeline};
use evoting::constants::{MIX_CREDS, TALLY};
use evoting::elgamal::{Ciphertext, DlogTable, ElGamalParams, SecretKey};
use evoting::error::{CryptoError, DecryptionError, Error};
use evoting::group::{Point, Scalar};
use evoting::proofs::decryption::DecOk;
use evoting::protocol::counting::homomorphic_sum;
use evoting::protocol::filter::{fingerprint_lists, fingerprints_agree};
use evoting::protocol::keys::{ElectionParams, ElectionPublicKey, RTKeyPair};
use evoting::protocol::tally::{CredentialControlProof, CredentialControlPublicBorrowed};
use evoting::protocol::teller::TTSecretKey;
use evoting::protocol::vote::auth::{PrivateACC, ShortPublicACC, VotingCredentialBuilder};
use evoting::protocol::vote::auth_proof::ShortEncrAuthValues;
use evoting::protocol::vote::choice::{Choice, ChoiceParameters, ExtendedEncrChoice};
use evoting::protocol::vote::vote::{VerVote, Vote, VoteWithEncPubCred};
use merlin::Transcript;
use rand::rngs::StdRng;
use rand::SeedableRng;

struct Setup {
    rng: StdRng,
    tt: TTSecretKey,
    rt: RTKeyPair,
    pk: ElectionPublicKey,
    shape: ChoiceParameters,
}

fn setup(seed: u64, ln2: Vec<usize>) -> Setup {
    let mut rng = StdRng::seed_from_u64(seed);
    let tt = TTSecretKey::new(&mut rng);
    let elgamal = ElGamalParams::new(&mut rng);
    let params = ElectionParams::new(&elgamal, &tt.meg_sk.to_public(&elgamal), &mut rng);
    let rt = RTKeyPair::new(SecretKey::new(&mut rng), &params, &mut rng);
    let pk = ElectionPublicKey::new(&rt.pk, params);
    let shape = ChoiceParameters::new(ln2.len(), ln2, false).unwrap();
    Setup { rng, tt, rt, pk, shape }
}

fn context(e: &Setup) -> ElectionContext {
    let manifest = ElectionManifest {
        election_id: "id".to_string(),
        title: "title".to_string(),
        authority: "authority".to_string(),
        version: 2,
    };
    ElectionContext::new(manifest, e.pk, e.shape.clone())
}

/// A vote for a party's first candidate, with a credential opened with a PIN.
fn vote(e: &mut Setup, private: &PrivateACC, pin: usize, party: usize) -> Vote {
    let choice = Choice::new(party, vec![0], &e.shape).unwrap();
    let x = private.pin.to_masked().to_pin(pin).x;
    let a = private.sign.A;
    Vote {
        choice: ExtendedEncrChoice::new(&choice, &e.pk, &mut e.rng).to_encryption(),
        auth: ShortEncrAuthValues {
            A_enc: e.pk.encrypt(&a, &mut e.rng).inner,
            Ar_enc: e.pk.encrypt(&a.times(&private.sign.r), &mut e.rng).inner,
            g3x_enc: e.pk.encrypt(&e.pk.params.g3.times(&x), &mut e.rng).inner,
        },
    }
}

fn control(e: &mut Setup, vote: &Vote) -> CredentialControlProof {
    let public = CredentialControlPublicBorrowed::new(
        &e.pk.params.g3,
        &e.pk.registration_pk,
        vote,
        vote.auth.A_enc,
    );
    CredentialControlProof::prove(&public, &e.rt.sk.secret_scalar, &mut e.rng)
}

fn decrypt(e: &mut Setup, ct: &Ciphertext) -> DecOk {
    let mut transcript = Transcript::new(b"decrypt");
    e.tt.meg_sk.ver_decrypt(&e.pk.params.elgamal, ct, &mut transcript, &mut e.rng)
}

/// All lists, with one secret exponent.
fn fingerprints(lists: &[Vec<Ciphertext>], rng: &mut StdRng) -> Vec<Vec<Ciphertext>> {
    let k = Scalar::random(rng);
    lists.iter().map(|list| list.iter().map(|ct| ct.times(&k)).collect()).collect()
}

#[test]
fn the_pin_decides() {
    let mut e = setup(41, vec![1]);
    let private = PrivateACC::new(&e.rt, &e.pk, &mut e.rng);
    let pin = private.pin.get_pin_value();
    let votes = vec![
        vote(&mut e, &private, pin, 0),
        vote(&mut e, &private, pin + 1, 0),
        vote(&mut e, &private, pin, 0),
    ];
    let controls: Vec<_> = votes.iter().map(|v| control(&mut e, v)).collect();
    let mut transcript = Transcript::new(b"checks");
    let checks = e
        .tt
        .gen_ACC_checks(&e.pk, &votes, &controls, &mut e.rng, &mut transcript)
        .unwrap();
    assert!(checks[0].plaintext.is_identity() && checks[2].plaintext.is_identity());
    let x = private.pin.x;
    let wrong = private.pin.to_masked().to_pin(pin + 1).x;
    assert_eq!(checks[1].plaintext, e.pk.params.g3.times(&x.minus(&wrong)));
    let valid = e.pk.filter_invalid(&votes, &controls, &checks).unwrap();
    assert_eq!(valid.iter().map(|v| v.0).collect::<Vec<_>>(), vec![0, 2]);
    assert_eq!(valid[1].1, votes[2].strip());
    let verify = |checks: &Vec<DecOk>, controls: &Vec<CredentialControlProof>| {
        let mut transcript = Transcript::new(b"checks");
        e.pk.verify_checks(checks, controls, &votes, &mut transcript)
    };
    assert_eq!(verify(&checks, &controls), Ok(()));

    let swapped = vec![checks[0].clone(), checks[2].clone(), checks[1].clone()];
    assert_eq!(
        e.pk.filter_invalid(&votes, &controls, &swapped),
        Err(Error::FailedVerifiableDecryption(1))
    );
    assert_eq!(
        verify(&swapped, &controls),
        Err(Error::CiphertextMismatch("check first failed at index 1".to_string()))
    );
    let mut lie = checks.clone();
    lie[0].plaintext = Point::generator();
    assert_eq!(
        verify(&lie, &controls),
        Err(Error::FailedVerification(CryptoError::CommitmentMismatch))
    );
    let mixed = vec![controls[1], controls[0], controls[2]];
    assert_eq!(
        e.pk.filter_invalid(&votes, &mixed, &checks),
        Err(Error::FailedVerification(CryptoError::CommitmentMismatch))
    );
}

#[test]
fn controls_need_the_registration_secret() {
    let mut e = setup(42, vec![1]);
    let private = PrivateACC::new(&e.rt, &e.pk, &mut e.rng);
    let ballot = vote(&mut e, &private, 7, 0);
    let public = CredentialControlPublicBorrowed::new(
        &e.pk.params.g3,
        &e.pk.registration_pk,
        &ballot,
        ballot.auth.A_enc,
    );
    let secret = e.rt.sk.secret_scalar;
    let proof = CredentialControlProof::prove(&public, &secret, &mut e.rng);
    assert_eq!(proof.verify(&public), Ok(()));
    assert_eq!(
        e.tt.meg_sk.decrypt(&proof.Ay_enc),
        private.sign.A.times(&secret)
    );
    let other = secret.plus(&Scalar::from_u64(1));
    let wrong = CredentialControlProof::prove(&public, &other, &mut e.rng);
    assert_eq!(wrong.verify(&public), Err(CryptoError::CommitmentMismatch));
    let check = e.pk.gen_credential_check(&ballot, &proof).unwrap();
    let expected = ballot
        .auth
        .Ar_enc
        .hom_sub(&e.pk.params.elgamal.g1)
        .minus(&ballot.auth.g3x_enc)
        .plus(&proof.Ay_enc);
    assert_eq!(check, expected);
    assert_eq!(
        e.pk.gen_credential_check(&ballot, &wrong),
        Err(Error::FailedVerification(CryptoError::CommitmentMismatch))
    );
}

#[test]
fn the_first_ballot_of_a_fingerprint_stays() {
    let mut e = setup(43, vec![1]);
    let private = PrivateACC::new(&e.rt, &e.pk, &mut e.rng);
    let builder = VotingCredentialBuilder::new(&private);
    let voter = evoting::protocol::keys::VoterKeyPair::new(&e.pk, "words", &mut e.rng);
    let credential = builder.finalize(&e.rt, &e.pk, &voter.pk, &mut e.rng).unwrap();
    let choice = Choice::new(0, vec![0], &e.shape).unwrap();
    let first = VerVote::new(&e.pk, &choice, &e.shape, &credential, 5, &mut e.rng);
    let mut second = first.clone();
    second.auth.ox_enc = e.pk.encrypt(&Point::generator(), &mut e.rng).inner;
    let mut third = first.clone();
    third.auth.A_enc = Ciphertext::zero();
    let ballots = vec![first.clone(), second.clone(), third];
    let inputs = ElectionPublicKey::ballot_fingerprint_inputs(&ballots);
    assert_eq!(inputs[1], second.auth.ox_enc);
    let fps = fingerprints(&[inputs], &mut e.rng);
    let mut transcript = Transcript::new(b"fps");
    let decs = e
        .tt
        .decrypt_ballot_fingerprints(&e.pk, &fps, Ok(()), &mut transcript, &mut e.rng)
        .unwrap();
    assert_eq!(decs[0].plaintext, decs[2].plaintext);
    assert_ne!(decs[0].plaintext, decs[1].plaintext);
    let filter = |fps: &Vec<Vec<Ciphertext>>, verified, decs: &Vec<DecOk>| {
        let mut transcript = Transcript::new(b"fps");
        e.pk.filter_duplicates(ballots.clone(), fps, verified, decs, &mut transcript)
    };
    assert_eq!(filter(&fps, Ok(()), &decs).unwrap(), vec![first, second]);
    let size = Err(Error::InvalidSize("".to_string()));
    assert_eq!(filter(&vec![], Ok(()), &decs), size);
    assert_eq!(filter(&fps, Ok(()), &decs[..2].to_vec()), size);
    let mut swapped = decs.clone();
    swapped.swap(0, 1);
    assert_eq!(filter(&fps, Ok(()), &swapped), size);
    assert_eq!(
        filter(&fps, Err(CryptoError::LengthMismatch), &decs),
        Err(Error::FailedVerification(CryptoError::LengthMismatch))
    );
    let mut lie = decs.clone();
    lie[2].plaintext = Point::generator();
    assert_eq!(
        filter(&fps, Ok(()), &lie),
        Err(Error::FailedVerification(CryptoError::CommitmentMismatch))
    );
    let refused = e.tt.decrypt_ballot_fingerprints(
        &e.pk,
        &fps,
        Err(CryptoError::ChallengeMismatch),
        &mut Transcript::new(b"fps"),
        &mut e.rng,
    );
    assert_eq!(refused, Err(Error::FailedVerification(CryptoError::ChallengeMismatch)));
}

#[test]
fn unregistered_votes_go_and_the_last_vote_stays() {
    let mut e = setup(44, vec![1, 1]);
    let ctx = context(&e);
    let bb = PublicPipeline::new(PublicElection::new(ctx.clone()));
    let points: Vec<Point> = (0..3).map(|_| Point::random(&mut e.rng)).collect();
    let creds: Vec<ShortPublicACC> = points[..2]
        .iter()
        .map(|point| ShortPublicACC { enc_A: e.pk.encrypt(point, &mut e.rng).inner })
        .collect();
    let cred_mix = bb.mix_credentials(&creds, &mut e.rng);
    let mut records = Vec::new();
    for (seq_no, owner, party) in [(9, 0, 0), (4, 0, 1), (5, 2, 1), (6, 1, 1)] {
        let choice = Choice::new(party, vec![0], &e.shape).unwrap();
        records.push(ValidVoteRecord {
            receipt: Receipt { seq_no, received_at_unix_ms: 100 - seq_no },
            vote: VoteWithEncPubCred {
                choice: ExtendedEncrChoice::new(&choice, &e.pk, &mut e.rng).to_encryption(),
                A_enc: e.pk.encrypt(&points[owner], &mut e.rng).inner,
            },
        });
    }
    let votes: Vec<VoteWithEncPubCred> = records.iter().map(|r| r.vote.clone()).collect();
    let lists = bb.credential_fingerprint_inputs(&creds, &cred_mix, &records).unwrap();
    assert_eq!(lists, fingerprint_lists(&cred_mix.shuffled, &votes));
    let fps = fingerprints(&lists, &mut e.rng);
    let (dec_pub, dec_votes) = e
        .tt
        .decrypt_credential_fingerprints(
            &e.pk,
            &votes,
            &fps,
            Ok(()),
            &cred_mix.shuffled,
            &mut ctx.tr(MIX_CREDS),
            &mut e.rng,
        )
        .unwrap();
    assert!(fingerprints_agree(&fps, &dec_pub, &dec_votes));
    assert!(!fingerprints_agree(&fps, &dec_votes, &dec_pub));
    let kept = bb
        .filter_illicit_keep_last(
            &records,
            &cred_mix,
            &fps,
            Ok(()),
            &dec_pub,
            &dec_votes,
            &mut ctx.tr(MIX_CREDS),
        )
        .unwrap();
    assert_eq!(kept, vec![votes[3].choice.clone(), votes[0].choice.clone()]);
    let all = e
        .pk
        .filter_illicit(
            &votes,
            &cred_mix.shuffled,
            &fps,
            Ok(()),
            &dec_pub,
            &dec_votes,
            &mut ctx.tr(MIX_CREDS),
        )
        .unwrap();
    assert_eq!(
        all,
        vec![votes[0].choice.clone(), votes[1].choice.clone(), votes[3].choice.clone()]
    );
    assert_eq!(
        bb.filter_illicit_keep_last(
            &records,
            &cred_mix,
            &fps,
            Err(CryptoError::LengthMismatch),
            &dec_pub,
            &dec_votes,
            &mut ctx.tr(MIX_CREDS),
        ),
        Err(Error::FailedVerification(CryptoError::LengthMismatch))
    );
    assert_eq!(
        bb.filter_illicit_keep_last(
            &records,
            &cred_mix,
            &fps,
            Ok(()),
            &dec_pub,
            &dec_votes,
            &mut ctx.tr(TALLY),
        ),
        Err(Error::FailedVerification(CryptoError::CommitmentMismatch))
    );
}

#[test]
fn fewer_votes_than_credentials() {
    let mut e = setup(49, vec![1]);
    let points: Vec<Point> = (0..3).map(|_| Point::random(&mut e.rng)).collect();
    let creds: Vec<ShortPublicACC> = points
        .iter()
        .map(|point| ShortPublicACC { enc_A: e.pk.encrypt(point, &mut e.rng).inner })
        .collect();
    let choice = Choice::new(0, vec![0], &e.shape).unwrap();
    let votes = vec![VoteWithEncPubCred {
        choice: ExtendedEncrChoice::new(&choice, &e.pk, &mut e.rng).to_encryption(),
        A_enc: e.pk.encrypt(&points[1], &mut e.rng).inner,
    }];
    let fps = fingerprints(&fingerprint_lists(&creds, &votes), &mut e.rng);
    let (dec_pub, mut dec_votes) = e
        .tt
        .decrypt_credential_fingerprints(
            &e.pk,
            &votes,
            &fps,
            Ok(()),
            &creds,
            &mut Transcript::new(b"fps"),
            &mut e.rng,
        )
        .unwrap();
    let filter = |dec_votes: &Vec<DecOk>| {
        let mut transcript = Transcript::new(b"fps");
        e.pk.filter_illicit(&votes, &creds, &fps, Ok(()), &dec_pub, dec_votes, &mut transcript)
    };
    assert_eq!(filter(&dec_votes), Ok(vec![votes[0].choice.clone()]));
    dec_votes[0].plaintext = Point::generator();
    assert_eq!(
        filter(&dec_votes),
        Err(Error::FailedVerification(CryptoError::CommitmentMismatch))
    );
}

#[test]
fn mixes_that_were_tampered_with() {
    let mut e = setup(45, vec![1]);
    let bb = PublicPipeline::new(PublicElection::new(context(&e)));
    let private = PrivateACC::new(&e.rt, &e.pk, &mut e.rng);
    let originals: Vec<VerifiedVoteRecord> = (0..2)
        .map(|seq_no| VerifiedVoteRecord {
            receipt: Receipt { seq_no, received_at_unix_ms: 0 },
            vote: vote(&mut e, &private, 3, 0),
        })
        .collect();
    let refused = Err(Error::FailedVerification(CryptoError::CommitmentMismatch));
    let mut mix = bb.mix_votes(&originals, &mut e.rng);
    assert_eq!(bb.verify_vote_mix(&originals, &mix), Ok(()));
    for record in &mix.shuffled {
        assert!(originals.iter().all(|o| o.vote != record.vote));
        let before = originals.iter().find(|o| o.receipt == record.receipt).unwrap();
        let open = |vote: &Vote| {
            [vote.choice.l2[0][0], vote.auth.Ar_enc, vote.auth.g3x_enc]
                .map(|ct| e.tt.meg_sk.decrypt(&ct))
        };
        assert_eq!(open(&record.vote), open(&before.vote));
    }
    let z = mix.proof.z_Ar;
    mix.proof.z_Ar = z.plus(&Scalar::from_u64(1));
    assert_eq!(bb.verify_vote_mix(&originals, &mix), refused);
    mix.proof.z_Ar = z;
    mix.shuffled[1].vote.auth.g3x_enc = Ciphertext::zero();
    assert_eq!(bb.verify_vote_mix(&originals, &mix), refused);
}

#[test]
fn credential_mixes_that_were_tampered_with() {
    let mut e = setup(46, vec![1]);
    let bb = PublicPipeline::new(PublicElection::new(context(&e)));
    let creds: Vec<ShortPublicACC> = (1..4)
        .map(|k| {
            let point = Point::generator().times(&Scalar::from_u64(k));
            ShortPublicACC { enc_A: e.pk.encrypt(&point, &mut e.rng).inner }
        })
        .collect();
    let refused = Err(Error::FailedVerification(CryptoError::CommitmentMismatch));
    let mut mix = bb.mix_credentials(&creds, &mut e.rng);
    assert_eq!(bb.verify_cred_mix(&creds, &mix), Ok(()));
    let table = DlogTable::new((0..10).collect());
    let mut opened: Vec<u64> = mix
        .shuffled
        .iter()
        .map(|c| table.get(&e.tt.meg_sk.decrypt(&c.enc_A)).unwrap())
        .collect();
    opened.sort();
    assert_eq!(opened, vec![1, 2, 3]);
    mix.shuffled[0] = creds[0].clone();
    assert_eq!(bb.verify_cred_mix(&creds, &mix), refused);
    assert_eq!(
        bb.credential_fingerprint_inputs(&creds, &mix, &vec![]),
        Err(Error::FailedVerification(CryptoError::CommitmentMismatch))
    );
}

#[test]
fn tallies_are_counted_and_verified() {
    let mut e = setup(47, vec![2, 1]);
    let ctx = context(&e);
    let bb = PublicPipeline::new(PublicElection::new(ctx.clone()));
    let mut choices = Vec::new();
    for (party, candidate) in [(0, 1), (1, 0), (0, 1)] {
        let choice = Choice::new(party, vec![candidate], &e.shape).unwrap();
        choices.push(ExtendedEncrChoice::new(&choice, &e.pk, &mut e.rng).to_encryption());
    }
    let sum = bb.homomorphic_sum(&choices);
    assert_eq!(sum, homomorphic_sum(&e.shape, &choices));
    let turned = vec![choices[2].clone(), choices[0].clone(), choices[1].clone()];
    assert_eq!(sum, homomorphic_sum(&e.shape, &turned));
    let table = DlogTable::new((0..4).collect());
    let decrypted = e
        .tt
        .decrypt_tally(&e.pk, &sum, &table, &mut e.rng, &mut ctx.tr(TALLY))
        .unwrap();
    assert_eq!(decrypted.tally.l1, vec![2, 1]);
    assert_eq!(decrypted.tally.l2, vec![vec![0, 2], vec![1]]);
    assert_eq!(bb.verify_decrypted_tally(&sum, &decrypted), Ok(()));

    let mut wrong = decrypted.clone();
    wrong.tally.l2[0][1] = 3;
    assert_eq!(
        bb.verify_decrypted_tally(&sum, &wrong),
        Err(Error::DlogMismatch("check first failed at layer l2, index (0,1)".to_string()))
    );
    let mut wrong = decrypted.clone();
    wrong.tally.l1[1] = 0;
    assert_eq!(
        bb.verify_decrypted_tally(&sum, &wrong),
        Err(Error::DlogMismatch("check first failed at layer l1, index 1".to_string()))
    );
    let mut wrong = decrypted.clone();
    wrong.l1_d.swap(0, 1);
    assert_eq!(
        bb.verify_decrypted_tally(&sum, &wrong),
        Err(Error::CiphertextMismatch("check first failed at layer l1, index 0".to_string()))
    );
    let mut wrong = decrypted.clone();
    wrong.l2_d[1][0] = decrypt(&mut e, &sum.l2[1][0]);
    assert_eq!(
        bb.verify_decrypted_tally(&sum, &wrong),
        Err(Error::FailedVerification(CryptoError::CommitmentMismatch))
    );
    let small = DlogTable::new(vec![1]);
    assert_eq!(
        e.tt.decrypt_tally(&e.pk, &sum, &small, &mut e.rng, &mut ctx.tr(TALLY)),
        Err(DecryptionError::ElementNotFound)
    );
}

#[test]
fn decryptions_prove_themselves() {
    let mut e = setup(48, vec![1]);
    let m = Point::random(&mut e.rng);
    let ct = e.pk.encrypt(&m, &mut e.rng).inner;
    let opened = decrypt(&mut e, &ct);
    assert_eq!(opened.plaintext, m);
    assert_eq!(opened.ciphertext, ct);
    let verify = |d: &DecOk, label: &'static [u8]| {
        d.verify(&e.pk.params.tally, &e.pk.params.elgamal, &mut Transcript::new(label))
    };
    assert_eq!(verify(&opened, b"decrypt"), Ok(()));
    assert_eq!(verify(&opened, b"elsewhere"), Err(CryptoError::CommitmentMismatch));
    let mut other = opened.clone();
    other.plaintext = m.plus(&m);
    assert_eq!(verify(&other, b"decrypt"), Err(CryptoError::CommitmentMismatch));
    other.proof = "no proof".to_string();
    assert_eq!(verify(&other, b"decrypt"), Err(CryptoError::CommitmentMismatch));
}

/// What a transcript gives next.
fn drawn(mut transcript: Transcript) -> [u8; 32] {
    let mut bytes = [0; 32];
    transcript.challenge_bytes(b"next", &mut bytes);
    bytes
}

#[test]
fn refusals_leave_the_transcript_where_they_stop() {
    let mut e = setup(50, vec![1]);
    let mut transcript = Transcript::new(b"fps");
    let refused = Err(Error::FailedVerification(CryptoError::ChallengeMismatch));
    assert_eq!(
        e.tt.decrypt_ballot_fingerprints(
            &e.pk,
            &vec![],
            Err(CryptoError::ChallengeMismatch),
            &mut transcript,
            &mut e.rng,
        ),
        refused
    );
    assert_eq!(drawn(transcript), drawn(Transcript::new(b"fps")));

    let private = PrivateACC::new(&e.rt, &e.pk, &mut e.rng);
    let pin = private.pin.get_pin_value();
    let votes = vec![vote(&mut e, &private, pin, 0), vote(&mut e, &private, pin, 0)];
    let mut controls: Vec<_> = votes.iter().map(|v| control(&mut e, v)).collect();
    controls[1] = controls[0];
    let mut transcript = Transcript::new(b"checks");
    assert_eq!(
        e.tt.gen_ACC_checks(&e.pk, &votes, &controls, &mut e.rng, &mut transcript),
        Err(Error::FailedCredentialControl(1))
    );
    assert_ne!(drawn(transcript), drawn(Transcript::new(b"checks")));
    let mut transcript = Transcript::new(b"checks");
    controls[0] = controls[1];
    let swapped = vec![votes[1].clone(), votes[0].clone()];
    assert_eq!(
        e.tt.gen_ACC_checks(&e.pk, &swapped, &controls, &mut e.rng, &mut transcript),
        Err(Error::FailedCredentialControl(0))
    );
    assert_eq!(drawn(transcript), drawn(Transcript::new(b"checks")));
}
