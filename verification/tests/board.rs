use evoting::api::client::{BallotBuilder, Voter, VoterBuilder};
use evoting::api::prelude::{Choice, ChoiceParameters, RegistrationTeller, TTSecretKey};
use evoting::api::server::bb::{BulletinBoardStore, InMemoryBB, Receipt, VerifiedVoteRecord};
use evoting::api::server::context::{ElectionContext, ElectionManifest};
use evoting::api::server::pipeline::{PublicElection, PublicPipeline};
use evoting::elgamal::ElGamalParams;
use evoting::error::{CryptoError, Error};
use evoting::group::Point;
use evoting::protocol::keys::ElectionParams;
use rand::rngs::StdRng;
use rand::{RngCore, SeedableRng};

fn manifest(title: &str) -> ElectionManifest {
    ElectionManifest {
        election_id: "board".to_string(),
        title: title.to_string(),
        authority: "authority".to_string(),
        version: 7,
    }
}

fn teller(rng: &mut StdRng) -> RegistrationTeller {
    let tt = TTSecretKey::new(rng);
    let elgamal = ElGamalParams::new(rng);
    let params = ElectionParams::new(&elgamal, &tt.meg_sk.to_public(&elgamal), rng);
    RegistrationTeller::new(params, rng)
}

fn voter(rt: &RegistrationTeller, ctx: &ElectionContext, rng: &mut StdRng) -> (Voter, usize) {
    let (builder, pin, _) = rt.gen_builder(rng);
    let vb = VoterBuilder::new(ctx, builder.clone(), "words", rng);
    let credential = rt.gen_credential(&vb.voter_pk(), &builder, rng).unwrap();
    (vb.finalize(credential), pin)
}

#[test]
fn transcripts_tell_step_and_election() {
    let mut rng = StdRng::seed_from_u64(52);
    let rt = teller(&mut rng);
    let shape = ChoiceParameters::new(1, vec![1], false).unwrap();
    let ctx = rt.election_context(manifest("title"), shape.clone());
    let other = rt.election_context(manifest("another"), shape);
    let draw = |ctx: &ElectionContext, label: &'static str| {
        let mut bytes = [0u8; 16];
        ctx.tr(label).challenge_bytes(b"", &mut bytes);
        bytes
    };
    assert_eq!(draw(&ctx, "a"), draw(&ctx.clone(), "a"));
    assert_ne!(draw(&ctx, "a"), draw(&ctx, "b"));
    assert_ne!(draw(&ctx, "a"), draw(&other, "a"));
}

#[test]
fn receipts_number_the_ballots() {
    let mut rng = StdRng::seed_from_u64(53);
    let rt = teller(&mut rng);
    let shape = ChoiceParameters::new(1, vec![1], false).unwrap();
    let ctx = rt.election_context(manifest("title"), shape.clone());
    let (voter, pin) = voter(&rt, &ctx, &mut rng);
    let choice = Choice::new(0, vec![0], &shape).unwrap();
    let ballot = voter.vote(&BallotBuilder::new(choice), pin, &mut rng);
    let mut board = InMemoryBB::default();
    assert!(board.list_ballots().is_empty());
    for (seq_no, time) in [(0, 70), (1, 60), (2, 65)] {
        let record = board.post_ballot(ballot.clone(), time).unwrap();
        assert_eq!(record.receipt, Receipt { seq_no, received_at_unix_ms: time });
        assert_eq!(record.ballot, ballot);
        assert_eq!(board.list_ballots().last(), Some(&record));
    }
    let numbers: Vec<u64> = board.list_ballots().iter().map(|r| r.receipt.seq_no).collect();
    assert_eq!(numbers, vec![0, 1, 2]);

    let vote = ballot.ver_vote.to_vote();
    let controls = rt.gen_controls(&vec![vote.clone()], &mut rng);
    board.post_controls(controls.clone()).unwrap();
    board.post_controls(controls.clone()).unwrap();
    assert_eq!(board.list_controls(), vec![controls[0], controls[0]]);
    let record = VerifiedVoteRecord {
        receipt: Receipt { seq_no: 1, received_at_unix_ms: 60 },
        vote,
    };
    board.post_verified_votes(vec![record.clone()]).unwrap();
    assert_eq!(board.list_verified_votes(), vec![record]);
    assert_eq!(board.list_ballots().len(), 3);
}

#[test]
fn ballots_of_another_election_are_refused() {
    let mut rng = StdRng::seed_from_u64(54);
    let rt = teller(&mut rng);
    let shape = ChoiceParameters::new(1, vec![1], false).unwrap();
    let ctx = rt.election_context(manifest("title"), shape.clone());
    let other = rt.election_context(manifest("another"), shape.clone());
    let (voter, pin) = voter(&rt, &ctx, &mut rng);
    assert_eq!(voter.verify_pin(pin), Ok(()));
    assert_eq!(
        voter.verify_pin(pin + 1),
        Err(Error::FailedVerification(CryptoError::ChallengeMismatch))
    );
    let choice = Choice::new(0, vec![0], &shape).unwrap();
    let mut ballot = voter.vote(&BallotBuilder::new(choice), pin, &mut rng);
    assert_eq!(ballot.election_ctx, ctx.context_hash);
    assert_eq!(ballot.verify(&ctx), Ok(ballot.ver_vote.to_vote()));
    let refused = Err(Error::Mismatch("election context hash mismatch".to_string()));
    assert_eq!(ballot.verify(&other), refused);
    let mut board = InMemoryBB::default();
    board.post_ballot(ballot.clone(), 1).unwrap();
    let good = PublicPipeline::new(PublicElection::new(ctx.clone()));
    let records = good.verify_ballots(&board.list_ballots()).unwrap();
    assert_eq!(records[0].vote, ballot.ver_vote.to_vote());
    assert_eq!(records[0].receipt, Receipt { seq_no: 0, received_at_unix_ms: 1 });
    ballot.ver_vote.auth.B = Point::generator();
    board.post_ballot(ballot, 2).unwrap();
    assert_eq!(
        good.verify_ballots(&board.list_ballots()),
        Err(Error::FailedVerification(CryptoError::CommitmentMismatch))
    );
}

#[test]
fn simulated_voters_pass_with_their_pin() {
    let mut rng = StdRng::seed_from_u64(55);
    let rt = teller(&mut rng);
    let shape = ChoiceParameters::new(1, vec![1], false).unwrap();
    let ctx = rt.election_context(manifest("title"), shape);
    let (builder, pin, public) = rt.gen_builder(&mut rng);
    assert_eq!(rt.short_public_acc(&public), Ok(public.to_short()));
    let false_pin = (rng.next_u32() as usize % 1000) + pin + 1;
    let vb = VoterBuilder::new(&ctx, builder, "words", &mut rng);
    let key = vb.voter_pk();
    let simulated = vb.simulate(false_pin, &mut rng).unwrap();
    assert_eq!(simulated.verify_pin(false_pin), Ok(()));
    assert!(simulated.verify_pin(pin).is_err());
    assert_eq!(simulated.voter_pk(), key);
    let (election, again, keys) = simulated.to_builder().into_inner();
    assert_eq!(election, ctx);
    assert_eq!(keys.pk, key);
    let credential = rt.gen_credential(&key, &again, &mut rng).unwrap();
    assert_eq!(credential.verify_pin(&ctx.pk, pin, &key), Ok(()));
}
