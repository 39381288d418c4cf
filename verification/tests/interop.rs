//! The proofs of this library and those of `dlog-sigma-primitives` accept each
//! other.

use dlog_group::group::{GroupPoint, GroupScalar};
use dlog_group::ristretto::RistrettoGroup;
use dlog_sigma_primitives::elgamal::ciphertext::Ciphertext as OutsideCiphertext;
use dlog_sigma_primitives::elgamal::keys::{
    ElGamalParams as OutsideParams, PublicKey as OutsideKey, SecretKey as OutsideSecret,
    SecretScalar,
};
use dlog_sigma_primitives::proofs::disjunctive::{Or, OrProtocol, OrPublicBorrowed, OrWitness};
use dlog_sigma_primitives::proofs::dvzkp::{
    DesignatedPublic, DvProof as OutsideDv, DvProtocol, DvPublicBorrowed, DvWitness as OutsideDvWitness,
};
use dlog_sigma_primitives::proofs::log_equality::{
    LogEq, LogEqProtocol, LogEqPublicBorrowed, LogEqWitness,
};
use dlog_sigma_primitives::proofs::not_identity::{NotId, NotIdProtocol, NotIdPublicBorrowed};
use dlog_sigma_primitives::proofs::zero::{Zero, ZeroProtocol, ZeroPublicBorrowed};
use dlog_sigma_primitives::proofs::SigmaProtocol;
use evoting::elgamal::{Ciphertext, ElGamalParams, ExtendedCiphertext, PublicKey, SecretKey};
use evoting::error::CryptoError;
use evoting::group::{Point, Scalar};
use evoting::proofs::designated::{DvProof, DvPublic, DvWitness};
use evoting::proofs::relation::{
    commit, complete, update_transcript, verify_relation, Nonces, Relation, Statement, SubProof,
    Witness,
};
use merlin::Transcript;
use rand::rngs::StdRng;
use rand::SeedableRng;

type G = RistrettoGroup;
type P = <RistrettoGroup as GroupPoint>::Point;
type S = <RistrettoGroup as GroupScalar>::Scalar;

fn p(x: &Point) -> P {
    G::point_from_bytes(&x.to_bytes()).unwrap()
}

fn s(x: &Scalar) -> S {
    G::scalar_from_bytes(&x.to_bytes()).unwrap()
}

fn c(x: &Ciphertext) -> OutsideCiphertext<G> {
    OutsideCiphertext::from_bytes(&x.to_bytes()).unwrap()
}

fn secret(x: &Scalar) -> SecretScalar<G> {
    let mut out = SecretScalar::from(0u64);
    out += &s(x);
    out
}

fn point(x: &P) -> Point {
    let mut bytes = [0u8; 32];
    G::point_to_bytes(&mut bytes, x);
    Point::from_bytes(&bytes).unwrap()
}

fn scalar(x: &S) -> Scalar {
    let mut bytes = [0u8; 32];
    G::scalar_to_bytes(&mut bytes, x);
    Scalar::from_bytes(&bytes).unwrap()
}

fn ciphertext(x: &OutsideCiphertext<G>) -> Ciphertext {
    Ciphertext {
        random_point: point(&x.random_point),
        random_point2: point(&x.random_point2),
        blinded_point: point(&x.blinded_point),
    }
}

struct Setup {
    rng: StdRng,
    params: ElGamalParams,
    sk: SecretKey,
    pk: PublicKey,
    out_params: OutsideParams<G>,
    out_pk: OutsideKey<G>,
}

fn setup(seed: u64) -> Setup {
    let mut rng = StdRng::seed_from_u64(seed);
    let params = ElGamalParams::new(&mut rng);
    let sk = SecretKey::new(&mut rng);
    let pk = sk.to_public(&params);
    let out_params = OutsideParams { g1: p(&params.g1), g2: p(&params.g2) };
    let out_pk = OutsideKey { h: p(&pk.h) };
    Setup { rng, params, sk, pk, out_params, out_pk }
}

/// A proof of this library, on a transcript with a fixed label.
fn prove(st: &Statement, w: &Witness, rng: &mut StdRng) -> SubProof {
    let mut transcript = Transcript::new(b"interop");
    let nonces = Nonces::random(&st.relation, rng);
    let cts = commit(st, w, &nonces, &mut transcript);
    complete(st, w, &nonces, &cts, &mut transcript)
}

fn verify(st: &Statement, proof: &SubProof) -> Result<(), CryptoError> {
    let mut transcript = Transcript::new(b"interop");
    update_transcript(proof, &mut transcript);
    verify_relation(st, proof, &mut transcript)
}

/// The same, by the other library.
fn outside_prove<T: SigmaProtocol>(public: T::Public<'_>, again: T::Public<'_>, w: &T::Witness, rng: &mut StdRng) -> T::Proof {
    let mut transcript = Transcript::new(b"interop");
    let mut state = T::init(public, rng);
    T::commit(again, &mut state, w, &mut transcript);
    T::complete(state, w, &mut transcript)
}

fn outside_verify<T: SigmaProtocol>(public: T::Public<'_>, proof: &T::Proof) -> bool {
    let mut transcript = Transcript::new(b"interop");
    T::update_transcript(proof, &mut transcript).unwrap();
    T::verify_relation(public, proof, &mut transcript).is_ok()
}

#[test]
fn encryption_agrees() {
    let mut e = setup(101);
    let m = Point::random(&mut e.rng);
    let ct = ExtendedCiphertext::new(&e.pk, &e.params, &m, &mut e.rng);
    let bytes = [e.sk.x1.to_bytes(), e.sk.x2.to_bytes()].concat();
    let out_sk = OutsideSecret::<G>::from_bytes(&bytes).unwrap();
    assert_eq!(point(&out_sk.decrypt(&c(&ct.inner))), m);
    assert_eq!(e.sk.decrypt(&ct.inner), m);
    let other = OutsideCiphertext::new(&e.out_pk, &e.out_params, p(&m), &mut e.rng);
    assert_eq!(e.sk.decrypt(&ciphertext(&other)), m);
    let sum = c(&ct.inner) + other;
    assert_eq!(ciphertext(&sum), ct.inner.plus(&ciphertext(&other)));
    let difference = c(&ct.inner) - other;
    assert_eq!(ciphertext(&difference), ct.inner.minus(&ciphertext(&other)));
    let k = Scalar::random(&mut e.rng);
    assert_eq!(ciphertext(&(other * &s(&k))), ciphertext(&other).times(&k));
}

#[test]
fn zero_proofs_agree() {
    let mut e = setup(102);
    let ct = ExtendedCiphertext::new(&e.pk, &e.params, &Point::identity(), &mut e.rng);
    let st = Statement { pk: e.pk, params: e.params, relation: Relation::Zero { ct: ct.inner } };
    let out_ct = c(&ct.inner);
    let public = ZeroPublicBorrowed::new(&e.out_pk, &e.out_params, &out_ct);
    let ours = prove(&st, &Witness::Zero { r: ct.random_scalar }, &mut e.rng);
    let theirs = match &ours {
        SubProof::Zero { commitment, response } => {
            Zero { commitment: c(commitment), response: s(response) }
        }
        _ => unreachable!(),
    };
    assert!(outside_verify::<ZeroProtocol<G>>(public, &theirs));
    let proof = outside_prove::<ZeroProtocol<G>>(public, public, &secret(&ct.random_scalar), &mut e.rng);
    let back = SubProof::Zero {
        commitment: ciphertext(&proof.commitment),
        response: scalar(&proof.response),
    };
    assert_eq!(verify(&st, &back), Ok(()));
    let wrong = SubProof::Zero {
        commitment: ciphertext(&proof.commitment),
        response: scalar(&proof.response).plus(&Scalar::from_u64(1)),
    };
    assert_eq!(verify(&st, &wrong), Err(CryptoError::CommitmentMismatch));
}

#[test]
fn or_proofs_agree() {
    let mut e = setup(103);
    for (index, value) in [(0usize, 3u64), (1, 8)] {
        let m = Point::generator().times(&Scalar::from_u64(value));
        let ct = ExtendedCiphertext::new(&e.pk, &e.params, &m, &mut e.rng);
        let relation = Relation::Or { ct: ct.inner, values: [3, 8] };
        let st = Statement { pk: e.pk, params: e.params, relation };
        let out_ct = c(&ct.inner);
        let values = [S::from(3u64), S::from(8u64)];
        let public = OrPublicBorrowed::new(&e.out_pk, &e.out_params, &out_ct, &values);
        let ours = prove(&st, &Witness::Or { index, r: ct.random_scalar }, &mut e.rng);
        let theirs = match &ours {
            SubProof::Or { commitments, responses, challenges } => Or {
                commitments: commitments.iter().map(c).collect(),
                responses: responses.iter().map(s).collect(),
                challenges: challenges.iter().map(s).collect(),
            },
            _ => unreachable!(),
        };
        assert!(outside_verify::<OrProtocol<G>>(public, &theirs));
        let witness = OrWitness::new(index, secret(&ct.random_scalar), 2).unwrap();
        let proof = outside_prove::<OrProtocol<G>>(public, public, &witness, &mut e.rng);
        let back = SubProof::Or {
            commitments: proof.commitments.iter().map(ciphertext).collect(),
            responses: proof.responses.iter().map(scalar).collect(),
            challenges: proof.challenges.iter().map(scalar).collect(),
        };
        assert_eq!(verify(&st, &back), Ok(()));
    }
}

#[test]
fn log_equality_proofs_agree() {
    let mut e = setup(104);
    let base = Point::random(&mut e.rng);
    let o = Point::random(&mut e.rng);
    let m = Scalar::random(&mut e.rng);
    let c1 = ExtendedCiphertext::new(&e.pk, &e.params, &base.times(&m), &mut e.rng);
    let c2 = ExtendedCiphertext::new(&e.pk, &e.params, &o.times(&m), &mut e.rng);
    let relation = Relation::LogEq { c1: c1.inner, c2: c2.inner, g3: base, o };
    let st = Statement { pk: e.pk, params: e.params, relation };
    let (out_c1, out_c2, g3, out_o) = (c(&c1.inner), c(&c2.inner), p(&base), p(&o));
    let public =
        LogEqPublicBorrowed::new(&e.out_pk, &e.out_params, &out_c1, &out_c2, &g3, &out_o);
    let delta = c1.random_scalar.minus(&c2.random_scalar);
    let ours = prove(&st, &Witness::LogEq { m, delta_r: delta }, &mut e.rng);
    let theirs = match &ours {
        SubProof::LogEq { commitment, response_delta, response_m } => LogEq {
            commitment: c(commitment),
            response_delta: s(response_delta),
            response_m: s(response_m),
        },
        _ => unreachable!(),
    };
    assert!(outside_verify::<LogEqProtocol<G>>(public, &theirs));
    let witness = LogEqWitness::new(s(&m), secret(&delta));
    let proof = outside_prove::<LogEqProtocol<G>>(public, public, &witness, &mut e.rng);
    let back = SubProof::LogEq {
        commitment: ciphertext(&proof.commitment),
        response_delta: scalar(&proof.response_delta),
        response_m: scalar(&proof.response_m),
    };
    assert_eq!(verify(&st, &back), Ok(()));
}

/// The JSON texts of a ciphertext and of a scalar.
fn texts(ct: &Ciphertext, x: &Scalar) -> (serde_json::Value, serde_json::Value) {
    let value = serde_json::to_value(Zero::<G> { commitment: c(ct), response: s(x) }).unwrap();
    (value["commitment"].clone(), value["response"].clone())
}

#[test]
fn not_identity_proofs_agree() {
    let mut e = setup(105);
    let ct = ExtendedCiphertext::new(&e.pk, &e.params, &Point::generator(), &mut e.rng);
    let relation = Relation::NotId { ct: ct.inner };
    let st = Statement { pk: e.pk, params: e.params, relation };
    let out_ct = c(&ct.inner);
    let public = NotIdPublicBorrowed::new(&e.out_pk, &e.out_params, &out_ct);
    let ours = prove(&st, &Witness::NotId { r: ct.random_scalar }, &mut e.rng);
    let (commitments_pk, commitments_ct, z) = match &ours {
        SubProof::NotId { commitments_pk, commitments_ct, z } => (commitments_pk, commitments_ct, z),
        _ => unreachable!(),
    };
    let mut object = serde_json::Map::new();
    let list = |cts: &[Ciphertext; 2]| {
        serde_json::Value::Array(cts.iter().map(|ct| texts(ct, &z[0]).0).collect())
    };
    object.insert("commitments_pk".to_string(), list(commitments_pk));
    object.insert("commitments_ct".to_string(), list(commitments_ct));
    let responses = z.iter().map(|x| texts(&ct.inner, x).1).collect();
    object.insert("responses".to_string(), serde_json::Value::Array(responses));
    let theirs: NotId<G> = serde_json::from_value(serde_json::Value::Object(object)).unwrap();
    assert!(outside_verify::<NotIdProtocol<G>>(public, &theirs));
    assert_eq!(verify(&st, &ours), Ok(()));
}

#[test]
fn designated_proofs_agree() {
    let mut e = setup(106);
    let x = Scalar::random(&mut e.rng);
    let sv = Scalar::random(&mut e.rng);
    let base0 = Point::random(&mut e.rng);
    let b1a = Point::random(&mut e.rng);
    let b1b = Point::random(&mut e.rng);
    let public = DvPublic {
        base0,
        pv: base0.times(&sv),
        b1a,
        b1b,
        p1a: b1a.times(&x),
        p1b: b1b.times(&x),
    };
    let dv = DesignatedPublic { base0: p(&base0), pv: p(&public.pv) };
    let (b1a, b1b, p1a, p1b) = (p(&b1a), p(&b1b), p(&public.p1a), p(&public.p1b));
    let borrowed = DvPublicBorrowed::new(&dv, &b1a, &b1b, &p1a, &p1b);
    for (witness, outside) in [
        (DvWitness::First { x: sv }, OutsideDvWitness::new_simulate(secret(&sv))),
        (DvWitness::Second { x }, OutsideDvWitness::new(secret(&x))),
    ] {
        let ours = DvProof::prove(&public, &witness, &mut e.rng);
        let theirs = OutsideDv::<G> {
            i0: p(&ours.i0),
            i1a: p(&ours.i1a),
            i1b: p(&ours.i1b),
            c0: s(&ours.c0),
            c1: s(&ours.c1),
            z0: s(&ours.z0),
            z1: s(&ours.z1),
        };
        let mut transcript = Transcript::new(b"");
        assert!(DvProtocol::<G>::verify(borrowed, &theirs, &mut transcript).is_ok());
        let mut transcript = Transcript::new(b"");
        let proof = DvProtocol::<G>::prove(borrowed, &outside, &mut transcript, &mut e.rng);
        let back = DvProof {
            i0: point(&proof.i0),
            i1a: point(&proof.i1a),
            i1b: point(&proof.i1b),
            c0: scalar(&proof.c0),
            c1: scalar(&proof.c1),
            z0: scalar(&proof.z0),
            z1: scalar(&proof.z1),
        };
        assert_eq!(back.verify(&public), Ok(()));
    }
    let wrong = DvProof::prove(&public, &DvWitness::First { x }, &mut e.rng);
    assert_eq!(wrong.verify(&public), Err(CryptoError::CommitmentMismatch));
    let mut other = DvProof::prove(&public, &DvWitness::Second { x }, &mut e.rng);
    other.c0 = other.c0.plus(&Scalar::from_u64(1));
    assert_eq!(other.verify(&public), Err(CryptoError::ChallengeMismatch));
}
