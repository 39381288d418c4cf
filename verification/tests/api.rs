use evoting::api::client::Voter;
use evoting::api::prelude::{
    BallotBuilder, Choice, ChoiceParameters, ElectionParams, EncrChoice, RegistrationTeller,
    ShortPublicACC, TTSecretKey, TabulationTeller, VoterBuilder,
};
use evoting::api::server::bb::{
    BulletinBoardStore, ElectionContext, ElectionManifest, InMemoryBB, PublicElection,
    PublicPipeline,
};
use evoting::constants::MIX_CREDS;
use evoting::elgamal::{Ciphertext, DlogTable, ElGamalParams};
use evoting::group::Scalar;
use evoting::protocol::tally::DecryptedTally;
use rand::rngs::StdRng;
use rand::SeedableRng;

// A ballot takes some hundred scalar multiplications, of over ten milliseconds
// each in an unoptimised build, so the elections here are small: two voters are
// registered, and where both filters are at work, the first `HONEST` of them cast
// a ballot that counts.
const NUM_VOTERS: usize = 2;
const HONEST: usize = 1;

fn dlog_table() -> DlogTable {
    DlogTable::new((0..=10).collect())
}

fn setup(ln2: Vec<usize>) -> (
    RegistrationTeller,
    TabulationTeller,
    ElectionContext,
    ChoiceParameters,
    PublicPipeline,
) {
    let mut rng = StdRng::from_entropy();
    let tt_sk = TTSecretKey::new(&mut rng);
    let elgamal = ElGamalParams::new(&mut rng);
    let params = ElectionParams::new(&elgamal, &tt_sk.meg_sk.to_public(&elgamal), &mut rng);
    let rt = RegistrationTeller::new(params, &mut rng);
    let choice_params = ChoiceParameters::new(ln2.len(), ln2, false).unwrap();
    let manifest = ElectionManifest {
        election_id: "test-election".to_string(),
        title: "Integration test election".to_string(),
        authority: "test-authority".to_string(),
        version: 1,
    };
    let ctx = rt.election_context(manifest, choice_params.clone());
    let tt = TabulationTeller::new(tt_sk, &ctx);
    let bb = PublicPipeline::new(PublicElection::new(ctx.clone()));
    (rt, tt, ctx, choice_params, bb)
}

#[derive(Clone)]
struct VoterMaterial {
    voter: Voter,
    pin: usize,
    builder: BallotBuilder,
    pub_cred: ShortPublicACC,
}

fn setup_voters(
    rt: &RegistrationTeller,
    ctx: &ElectionContext,
    choice_params: &ChoiceParameters,
) -> Vec<VoterMaterial> {
    let mut rng = StdRng::from_entropy();
    let fixed_party = choice_params.n1 - 1;
    let fixed_candidate = 0usize;
    let mut out = Vec::with_capacity(NUM_VOTERS);
    for _ in 0..NUM_VOTERS {
        let (cred_builder, pin, public_acc) = rt.gen_builder(&mut rng);
        let vb = VoterBuilder::new(ctx, cred_builder.clone(), "some words", &mut rng);
        let cred = rt
            .gen_credential(&vb.voter_pk(), &cred_builder, &mut rng)
            .unwrap();
        let voter = vb.finalize(cred);
        let pub_cred = rt.short_public_acc(&public_acc).unwrap();
        let choice = Choice::new(fixed_party, vec![fixed_candidate], choice_params).unwrap();
        let builder = BallotBuilder::new(choice);
        out.push(VoterMaterial {
            voter,
            pin,
            builder,
            pub_cred,
        });
    }
    out
}

fn post_ballots(
    store: &mut impl BulletinBoardStore,
    voters: &[VoterMaterial],
    honest: usize,
    wrong_pin_extra: usize,
    double_vote_extra: usize,
) -> Vec<ShortPublicACC> {
    let mut rng = StdRng::from_entropy();
    let mut now = 1_700_000_000_000u64;
    for vm in &voters[..honest] {
        let ballot = vm.voter.vote(&vm.builder, vm.pin, &mut rng);
        store.post_ballot(ballot, now).unwrap();
        now += 1;
    }
    if wrong_pin_extra > 0 {
        let vm = voters[1].clone();
        for _ in 0..wrong_pin_extra {
            let ballot = vm.voter.vote(&vm.builder, vm.pin + 1, &mut rng);
            store.post_ballot(ballot, now).unwrap();
            now += 1;
        }
    }
    if double_vote_extra > 0 {
        let vm = voters[0].clone();
        for _ in 0..double_vote_extra {
            let ballot = vm.voter.vote(&vm.builder, vm.pin, &mut rng);
            store.post_ballot(ballot, now).unwrap();
            now += 1;
        }
    }
    voters.iter().map(|v| v.pub_cred.clone()).collect()
}

struct PipelineArtifacts {
    originals_len: usize,
    valid_len: usize,
    legitimate_len: usize,
    enc_tally: EncrChoice,
}

/// Fingerprints of the ciphertexts of all lists, with one secret exponent.
fn fingerprints(lists: &[Vec<Ciphertext>], rng: &mut StdRng) -> Vec<Vec<Ciphertext>> {
    let exponent = Scalar::random(rng);
    lists
        .iter()
        .map(|list| list.iter().map(|ct| ct.times(&exponent)).collect())
        .collect()
}

fn run_pipeline(
    rt: &RegistrationTeller,
    tt: &TabulationTeller,
    bb: &PublicPipeline,
    store: &impl BulletinBoardStore,
    pub_creds: &Vec<ShortPublicACC>,
) -> PipelineArtifacts {
    let mut rng = StdRng::from_entropy();
    let ballots = store.list_ballots();
    let originals = bb.verify_ballots(&ballots).unwrap();
    let vote_mix = bb.mix_votes(&originals, &mut rng);
    bb.verify_vote_mix(&originals, &vote_mix).unwrap();
    let shuffled_votes = vote_mix
        .shuffled
        .iter()
        .map(|r| r.vote.clone())
        .collect::<Vec<_>>();
    let controls = rt.gen_controls(&shuffled_votes, &mut rng);
    let acc_checks = tt
        .gen_acc_checks(&shuffled_votes, &controls, &mut rng)
        .unwrap();
    let valid = bb
        .filter_invalid(&vote_mix.shuffled, &controls, &acc_checks)
        .unwrap();
    bb.verify_acc_checks(&acc_checks, &controls, &vote_mix.shuffled)
        .unwrap();
    let cred_mix = bb.mix_credentials(pub_creds, &mut rng);
    bb.verify_cred_mix(pub_creds, &cred_mix).unwrap();
    let inputs = bb
        .credential_fingerprint_inputs(pub_creds, &cred_mix, &valid)
        .unwrap();
    let fps = fingerprints(&inputs, &mut rng);
    let valid_votes_vec = valid.iter().map(|r| r.vote.clone()).collect::<Vec<_>>();
    let mut tr = tt.election().tr(MIX_CREDS);
    let (dec_pub_fps, dec_votes_fps) = tt
        .decrypt_credential_fingerprints(
            &valid_votes_vec,
            &fps,
            Ok(()),
            &cred_mix.shuffled,
            &mut tr,
            &mut rng,
        )
        .unwrap();
    let mut tr = bb.election.ctx.tr(MIX_CREDS);
    let legitimate = bb
        .filter_illicit_keep_last(
            &valid,
            &cred_mix,
            &fps,
            Ok(()),
            &dec_pub_fps,
            &dec_votes_fps,
            &mut tr,
        )
        .unwrap();
    let enc_tally = bb.homomorphic_sum(&legitimate);
    PipelineArtifacts {
        originals_len: originals.len(),
        valid_len: valid.len(),
        legitimate_len: legitimate.len(),
        enc_tally,
    }
}

fn decrypt_and_verify_tally(
    tt: &TabulationTeller,
    bb: &PublicPipeline,
    enc_tally: EncrChoice,
) -> DecryptedTally {
    let mut rng = StdRng::from_entropy();
    let decr_tally = tt
        .decrypt_tally(&enc_tally, &dlog_table(), &mut rng)
        .unwrap();
    bb.verify_decrypted_tally(&enc_tally, &decr_tally).unwrap();
    decr_tally
}

fn assert_all_for_one(tally: &DecryptedTally, votes: usize) {
    let last = tally.tally.l1.len() - 1;
    for (party, count) in tally.tally.l1.iter().enumerate() {
        let expected = if party == last { votes as u64 } else { 0 };
        assert_eq!(*count, expected);
        assert_eq!(tally.tally.l2[party], vec![expected]);
    }
}

#[test]
fn pipeline_no_filtering_expected() {
    let (rt, tt, ctx, choice_params, bb) = setup(vec![1, 1]);
    let voters = setup_voters(&rt, &ctx, &choice_params);
    let mut store = InMemoryBB::default();
    let pub_creds = post_ballots(&mut store, &voters, NUM_VOTERS, 0, 0);
    let art = run_pipeline(&rt, &tt, &bb, &store, &pub_creds);
    assert_eq!(art.originals_len, NUM_VOTERS);
    assert_eq!(art.valid_len, NUM_VOTERS);
    assert_eq!(art.legitimate_len, NUM_VOTERS);
    assert_all_for_one(&decrypt_and_verify_tally(&tt, &bb, art.enc_tally), NUM_VOTERS);
}

#[test]
fn pipeline_filters_wrong_pin_only() {
    let wrong_pin_extra = 1usize;
    let (rt, tt, ctx, choice_params, bb) = setup(vec![1]);
    let voters = setup_voters(&rt, &ctx, &choice_params);
    let mut store = InMemoryBB::default();
    let pub_creds = post_ballots(&mut store, &voters, NUM_VOTERS, wrong_pin_extra, 0);
    let art = run_pipeline(&rt, &tt, &bb, &store, &pub_creds);
    assert_eq!(art.originals_len, NUM_VOTERS + wrong_pin_extra);
    assert_eq!(art.valid_len, NUM_VOTERS);
    assert_eq!(art.legitimate_len, NUM_VOTERS);
    assert_all_for_one(&decrypt_and_verify_tally(&tt, &bb, art.enc_tally), NUM_VOTERS);
}

#[test]
fn pipeline_filters_double_voting_only() {
    let double_vote_extra = 1usize;
    let (rt, tt, ctx, choice_params, bb) = setup(vec![1]);
    let voters = setup_voters(&rt, &ctx, &choice_params);
    let mut store = InMemoryBB::default();
    let pub_creds = post_ballots(&mut store, &voters, NUM_VOTERS, 0, double_vote_extra);
    let art = run_pipeline(&rt, &tt, &bb, &store, &pub_creds);
    assert_eq!(art.originals_len, NUM_VOTERS + double_vote_extra);
    assert_eq!(art.valid_len, NUM_VOTERS + double_vote_extra);
    assert_eq!(art.legitimate_len, NUM_VOTERS);
    assert_all_for_one(&decrypt_and_verify_tally(&tt, &bb, art.enc_tally), NUM_VOTERS);
}

#[test]
fn pipeline_filters_wrong_pin_and_double_voting() {
    let wrong_pin_extra = 1usize;
    let double_vote_extra = 1usize;
    let (rt, tt, ctx, choice_params, bb) = setup(vec![1]);
    let voters = setup_voters(&rt, &ctx, &choice_params);
    let mut store = InMemoryBB::default();
    let pub_creds = post_ballots(&mut store, &voters, HONEST, wrong_pin_extra, double_vote_extra);
    let art = run_pipeline(&rt, &tt, &bb, &store, &pub_creds);
    assert_eq!(
        art.originals_len,
        HONEST + wrong_pin_extra + double_vote_extra
    );
    assert_eq!(art.valid_len, HONEST + double_vote_extra);
    assert_eq!(art.legitimate_len, HONEST);
    assert_all_for_one(&decrypt_and_verify_tally(&tt, &bb, art.enc_tally), HONEST);
}

#[test]
fn wrong_pin_does_not_cost_the_right_ballot() {
    let mut rng = StdRng::from_entropy();
    let (rt, tt, ctx, choice_params, bb) = setup(vec![1, 1]);
    let voters = setup_voters(&rt, &ctx, &choice_params);
    let mut store = InMemoryBB::default();
    let vm = &voters[1];
    for (now, pin) in [(1, vm.pin), (2, vm.pin + 1)] {
        let ballot = vm.voter.vote(&vm.builder, pin, &mut rng);
        store.post_ballot(ballot, now).unwrap();
    }
    let pub_creds = voters.iter().map(|v| v.pub_cred.clone()).collect();
    let art = run_pipeline(&rt, &tt, &bb, &store, &pub_creds);
    assert_eq!(art.originals_len, 2);
    assert_eq!(art.valid_len, 1);
    assert_eq!(art.legitimate_len, 1);
    assert_all_for_one(&decrypt_and_verify_tally(&tt, &bb, art.enc_tally), 1);
}
