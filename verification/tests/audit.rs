//! What an observer checks again, on values that came from elsewhere.

use evoting::api::client::{BallotBuilder, VoterBuilder};
use evoting::api::server::bb::{Receipt, ValidVoteRecord, VerifiedVoteRecord};
use evoting::api::server::context::{ElectionContext, ElectionManifest};
use evoting::api::server::pipeline::{PublicElection, PublicPipeline};
use evoting::api::server::rt::RegistrationTeller;
use evoting::constants::{MIX_CREDS, TALLY};
use evoting::elgamal::{Ciphertext, DlogTable, ElGamalParams};
use evoting::error::{CryptoError, Error};
use evoting::group::{Point, Scalar};
use evoting::proofs::decryption::DecOk;
use evoting::proofs::shuffle::Shuffle;
use evoting::protocol::filter::fingerprint_lists;
use evoting::protocol::keys::{ElectionParams, ElectionPublicKey};
use evoting::protocol::teller::TTSecretKey;
use evoting::protocol::vote::auth::ShortPublicACC;
use evoting::protocol::vote::auth_proof::ShortEncrAuthValues;
use evoting::protocol::vote::choice::{Choice, ChoiceParameters, EncrChoice, ExtendedEncrChoice};
use evoting::protocol::vote::vote::{Vote, VoteWithEncPubCred};
use merlin::Transcript;
use rand::rngs::StdRng;
use rand::SeedableRng;

struct Setup {
    rng: StdRng,
    tt: TTSecretKey,
    rt: RegistrationTeller,
    pk: ElectionPublicKey,
    shape: ChoiceParameters,
    ctx: ElectionContext,
    bb: PublicPipeline,
}

fn setup(seed: u64, ln2: Vec<usize>) -> Setup {
    let mut rng = StdRng::seed_from_u64(seed);
    let tt = TTSecretKey::new(&mut rng);
    let elgamal = ElGamalParams::new(&mut rng);
    let params = ElectionParams::new(&elgamal, &tt.meg_sk.to_public(&elgamal), &mut rng);
    let rt = RegistrationTeller::new(params, &mut rng);
    let shape = ChoiceParameters::new(ln2.len(), ln2, false).unwrap();
    let manifest = ElectionManifest {
        election_id: "id".to_string(),
        title: "title".to_string(),
        authority: "authority".to_string(),
        version: 2,
    };
    let ctx = rt.election_context(manifest, shape.clone());
    let bb = PublicPipeline::new(PublicElection::new(ctx.clone()));
    Setup { pk: rt.election_pk(), rng, tt, rt, shape, ctx, bb }
}

fn choice(e: &mut Setup, party: usize) -> EncrChoice {
    let choice = Choice::new(party, vec![0], &e.shape).unwrap();
    ExtendedEncrChoice::new(&choice, &e.pk, &mut e.rng).to_encryption()
}

fn votes(e: &mut Setup, n: u64) -> Vec<VerifiedVoteRecord> {
    (0..n)
        .map(|seq_no| {
            let auth = [1, 2, 3].map(|_| e.pk.encrypt(&Point::generator(), &mut e.rng).inner);
            VerifiedVoteRecord {
                receipt: Receipt { seq_no, received_at_unix_ms: 0 },
                vote: Vote {
                    choice: choice(e, (seq_no % 2) as usize),
                    auth: ShortEncrAuthValues { A_enc: auth[0], Ar_enc: auth[1], g3x_enc: auth[2] },
                },
            }
        })
        .collect()
}

fn credentials(e: &mut Setup, n: usize) -> Vec<ShortPublicACC> {
    (0..n)
        .map(|_| {
            let point = Point::random(&mut e.rng);
            ShortPublicACC { enc_A: e.pk.encrypt(&point, &mut e.rng).inner }
        })
        .collect()
}

#[test]
fn vote_mixes_of_uneven_parties_are_accepted() {
    let mut e = setup(81, vec![1, 2]);
    let originals = votes(&mut e, 3);
    let mut mix = e.bb.mix_votes(&originals, &mut e.rng);
    assert_eq!(mix.pedersen.list_len, 3);
    assert!(e.bb.is_vote_mix_formed(&originals, &mix));
    assert_eq!(e.bb.verify_vote_mix(&originals, &mix), Ok(()));

    let text = mix.proof.core_proof.to_text().unwrap();
    mix.proof.core_proof = Shuffle::from_text(&text).unwrap();
    assert!(e.bb.is_vote_mix_formed(&originals, &mix));
    assert_eq!(e.bb.verify_vote_mix(&originals, &mix), Ok(()));

    mix.proof.z_L2.swap(1, 2);
    assert_eq!(
        e.bb.verify_vote_mix(&originals, &mix),
        Err(Error::FailedVerification(CryptoError::CommitmentMismatch))
    );
    mix.proof.z_L2.pop();
    assert!(!mix.proof.is_shaped(&e.shape));
    assert!(!e.bb.is_vote_mix_formed(&originals, &mix));
    mix.proof.z_L2.extend([Scalar::from_u64(1), Scalar::from_u64(2)]);
    assert!(mix.proof.is_shaped(&e.shape));
    mix.proof.ed_L2[1].pop();
    assert!(!mix.proof.is_shaped(&e.shape));
}

#[test]
fn vote_mixes_of_another_form_are_recognised() {
    let mut e = setup(82, vec![1, 1]);
    let originals = votes(&mut e, 2);
    let mut mix = e.bb.mix_votes(&originals, &mut e.rng);
    assert!(e.bb.is_vote_mix_formed(&originals, &mix));
    assert!(!e.bb.is_vote_mix_formed(&vec![], &mix));
    assert!(!e.bb.is_vote_mix_formed(&originals[..1].to_vec(), &mix));
    let row = mix.shuffled[1].vote.choice.l2.pop().unwrap();
    assert!(!e.bb.is_vote_mix_formed(&originals, &mix));
    mix.shuffled[1].vote.choice.l2.push(row);
    assert!(e.bb.is_vote_mix_formed(&originals, &mix));
    mix.pedersen.generators.pop();
    assert!(!e.bb.is_vote_mix_formed(&originals, &mix));
}

#[test]
fn shuffle_proofs_go_through_text() {
    let mut e = setup(83, vec![1]);
    let creds = credentials(&mut e, 3);
    let mut mix = e.bb.mix_credentials(&creds, &mut e.rng);
    let text = mix.proof.core_proof.to_text().unwrap();
    assert_eq!(Shuffle::from_text(&text).unwrap().to_text(), Some(text.clone()));
    assert!(Shuffle::from_text(&"{}".to_string()).is_none());
    mix.proof.core_proof = Shuffle::from_text(&text).unwrap();
    assert_eq!(mix.proof.core_proof.len(), 3);
    assert!(e.bb.is_cred_mix_formed(&creds, &mix));
    assert!(!e.bb.is_cred_mix_formed(&creds[..2].to_vec(), &mix));
    assert_eq!(e.bb.verify_cred_mix(&creds, &mix), Ok(()));

    let mut value: serde_json::Value = serde_json::from_str(&text).unwrap();
    value["f"].as_array_mut().unwrap().pop();
    mix.proof.core_proof = Shuffle::from_text(&value.to_string()).unwrap();
    assert_eq!(mix.proof.core_proof.len(), 2);
    assert!(e.bb.is_cred_mix_formed(&creds, &mix));
    assert_eq!(
        e.bb.verify_cred_mix(&creds, &mix),
        Err(Error::FailedVerification(CryptoError::CommitmentMismatch))
    );
    let edit = |list: &str, item: Option<String>| {
        let mut value: serde_json::Value = serde_json::from_str(&text).unwrap();
        let items = value["kcs"][list].as_array_mut().unwrap();
        match item {
            Some(item) => items.push(item.into()),
            None => {
                items.pop();
            }
        }
        Shuffle::from_text(&value.to_string())
    };
    let zero = "A".repeat(43);
    mix.proof.core_proof = edit("f_delta", Some(zero.clone())).unwrap();
    assert!(e.bb.is_cred_mix_formed(&creds, &mix));
    assert_eq!(
        e.bb.verify_cred_mix(&creds, &mix),
        Err(Error::FailedVerification(CryptoError::LengthMismatch))
    );
    mix.proof.core_proof = edit("f", None).unwrap();
    assert!(e.bb.is_cred_mix_formed(&creds, &mix));
    assert_eq!(
        e.bb.verify_cred_mix(&creds, &mix),
        Err(Error::FailedVerification(CryptoError::CommitmentMismatch))
    );
    mix.proof.core_proof = edit("f", Some(zero)).unwrap();
    assert!(!e.bb.is_cred_mix_formed(&creds, &mix));
    assert!(edit("f_delta", None).is_none());

    let pair = credentials(&mut e, 2);
    let mix = e.bb.mix_credentials(&pair, &mut e.rng);
    assert_eq!(mix.proof.core_proof.to_text(), None);
    assert_eq!(e.bb.verify_cred_mix(&pair, &mix), Ok(()));
}

#[test]
fn ballots_of_another_shape_are_recognised() {
    let mut e = setup(84, vec![1, 1]);
    let (builder, pin, _) = e.rt.gen_builder(&mut e.rng);
    let vb = VoterBuilder::new(&e.ctx, builder.clone(), "words", &mut e.rng);
    let credential = e.rt.gen_credential(&vb.voter_pk(), &builder, &mut e.rng).unwrap();
    let marks = Choice::new(0, vec![0], &e.shape).unwrap();
    let ballot = vb.finalize(credential).vote(&BallotBuilder::new(marks), pin, &mut e.rng);
    assert!(ballot.is_shaped(&e.ctx));
    let mut short = ballot.clone();
    short.ver_vote.proof.choice_proof.proofs.pop();
    assert!(!short.is_shaped(&e.ctx));
    let mut other = ballot.clone();
    other.ver_vote.proof.choice_proof.proofs.swap(0, 1);
    assert!(!other.is_shaped(&e.ctx));
    let mut row = ballot.clone();
    row.ver_vote.choice.l2[1].clear();
    assert!(!row.is_shaped(&e.ctx));
    row.election_ctx = [0; 32];
    assert!(row.is_shaped(&e.ctx));
    assert_eq!(
        row.verify(&e.ctx),
        Err(Error::Mismatch("election context hash mismatch".to_string()))
    );
    let params = ChoiceParameters { n1: 2, ln2: vec![1, 0] };
    assert!(!params.is_well_formed());
    assert!(!ballot.ver_vote.is_shaped(&e.pk, &params));
    assert!(!ChoiceParameters { n1: 2, ln2: vec![1] }.is_well_formed());
    assert!(!ChoiceParameters { n1: 1, ln2: vec![usize::MAX] }.is_encodable());
}

#[test]
fn tallies_of_another_shape_are_recognised() {
    let mut e = setup(85, vec![2, 1]);
    let sum = choice(&mut e, 0);
    let table = DlogTable::new(vec![1]);
    let tally = e
        .tt
        .decrypt_tally(&e.pk, &sum, &table, &mut e.rng, &mut e.ctx.tr(TALLY))
        .unwrap();
    assert!(tally.is_shaped(&sum));
    let mut short = tally.clone();
    short.l2_d[0].pop();
    assert!(!short.is_shaped(&sum));
    let mut short = tally.clone();
    short.tally.l2[1].pop();
    assert!(!short.is_shaped(&sum));
    let mut short = tally.clone();
    short.l1_d.pop();
    assert!(!short.is_shaped(&sum));
    let mut long = tally;
    long.tally.l1.push(3);
    assert!(long.is_shaped(&sum));
}

/// What a transcript gives next.
fn drawn(transcript: &mut Transcript) -> [u8; 32] {
    let mut bytes = [0; 32];
    transcript.challenge_bytes(b"next", &mut bytes);
    bytes
}

#[test]
fn fingerprints_start_where_the_credential_mix_did() {
    let mut e = setup(88, vec![1]);
    let creds = credentials(&mut e, 2);
    let mix = e.bb.mix_credentials(&creds, &mut e.rng);
    let transcript = e.ctx.tr(MIX_CREDS);
    let inputs = |creds: &Vec<ShortPublicACC>| {
        e.pk.credential_fingerprint_inputs(
            &mix.pedersen,
            creds,
            &mix.shuffled,
            &mix.proof,
            &vec![],
            &transcript,
        )
    };
    assert_eq!(inputs(&creds), Ok(fingerprint_lists(&mix.shuffled, &vec![])));
    assert!(inputs(&vec![creds[0].clone(), creds[0].clone()]).is_err());
    assert_eq!(drawn(&mut transcript.clone()), drawn(&mut e.ctx.tr(MIX_CREDS)));
}

/// The list, with one exponent.
fn raised(list: &[Ciphertext], k: &Scalar) -> Vec<Ciphertext> {
    list.iter().map(|ct| ct.times(k)).collect()
}

#[test]
fn every_decrypted_vote_fingerprint_is_verified() {
    let mut e = setup(86, vec![1]);
    let creds = credentials(&mut e, 1);
    let votes: Vec<VoteWithEncPubCred> = (0..3)
        .map(|_| VoteWithEncPubCred { choice: choice(&mut e, 0), A_enc: creds[0].enc_A })
        .collect();
    let k = Scalar::random(&mut e.rng);
    let fps: Vec<Vec<Ciphertext>> =
        fingerprint_lists(&creds, &votes).iter().map(|list| raised(list, &k)).collect();
    let mut made = Transcript::new(b"fps");
    let (dec_pub, dec_votes) = e
        .tt
        .decrypt_credential_fingerprints(
            &e.pk,
            &votes,
            &fps,
            Ok(()),
            &creds,
            &mut made,
            &mut e.rng,
        )
        .unwrap();
    let mut checked = Transcript::new(b"fps");
    e.pk.filter_illicit(&votes, &creds, &fps, Ok(()), &dec_pub, &dec_votes, &mut checked)
        .unwrap();
    assert_eq!(drawn(&mut made), drawn(&mut checked));
    let filter = |dec_votes: &Vec<DecOk>| {
        let mut transcript = Transcript::new(b"fps");
        e.pk.filter_illicit(&votes, &creds, &fps, Ok(()), &dec_pub, dec_votes, &mut transcript)
    };
    assert_eq!(filter(&dec_votes).unwrap().len(), 3);
    for forged in 1..3 {
        let mut dec_votes = dec_votes.clone();
        dec_votes[forged].plaintext = Point::generator();
        assert_eq!(
            filter(&dec_votes),
            Err(Error::FailedVerification(CryptoError::CommitmentMismatch))
        );
    }
}

#[test]
fn kept_votes_do_not_depend_on_the_order() {
    let mut e = setup(87, vec![1, 1]);
    let points = [Point::random(&mut e.rng), Point::random(&mut e.rng)];
    let creds: Vec<ShortPublicACC> = points
        .iter()
        .map(|point| ShortPublicACC { enc_A: e.pk.encrypt(point, &mut e.rng).inner })
        .collect();
    let mut records: Vec<ValidVoteRecord> = [(5, 0, 1), (8, 1, 0), (7, 0, 0)]
        .into_iter()
        .map(|(seq_no, owner, party)| ValidVoteRecord {
            receipt: Receipt { seq_no, received_at_unix_ms: seq_no },
            vote: VoteWithEncPubCred {
                choice: choice(&mut e, party),
                A_enc: e.pk.encrypt(&points[owner], &mut e.rng).inner,
            },
        })
        .collect();
    let expected = vec![records[2].vote.choice.clone(), records[1].vote.choice.clone()];
    let k = Scalar::random(&mut e.rng);
    for _ in 0..2 {
        let mix = e.bb.mix_credentials(&creds, &mut e.rng);
        let votes: Vec<VoteWithEncPubCred> = records.iter().map(|r| r.vote.clone()).collect();
        let fps: Vec<Vec<Ciphertext>> =
            fingerprint_lists(&mix.shuffled, &votes).iter().map(|list| raised(list, &k)).collect();
        let (dec_pub, dec_votes) = e
            .tt
            .decrypt_credential_fingerprints(
                &e.pk,
                &votes,
                &fps,
                Ok(()),
                &mix.shuffled,
                &mut e.ctx.tr(MIX_CREDS),
                &mut e.rng,
            )
            .unwrap();
        let kept = e.bb.filter_illicit_keep_last(
            &records,
            &mix,
            &fps,
            Ok(()),
            &dec_pub,
            &dec_votes,
            &mut e.ctx.tr(MIX_CREDS),
        );
        assert_eq!(kept, Ok(expected.clone()));
        records.reverse();
    }
}
