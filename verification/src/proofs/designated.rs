//! Proofs for a designated verifier.
//!
//! The proof shows that `p1a = [x]b1a` and `p1b = [x]b1b` for one `x`, or that
//! its maker knows the secret of `pv = [x]base0`.  The designated verifier, who
//! knows that secret, can make such proofs too, so they convince no one else.

use dlog_group::group::{GroupPoint, GroupScalar};
use dlog_group::ristretto::RistrettoGroup;
use dlog_sigma_primitives::error::Error as GroupError;
use dlog_sigma_primitives::proofs::dvzkp::{
    DesignatedPublic, DvProof as GroupDvProof, DvPublicBorrowed,
};
use dlog_sigma_primitives::proofs::Proof;
use merlin::Transcript;
use rand::rngs::StdRng;
use vstd::prelude::*;

use crate::arith::{lemma_red_add, lemma_red_mul, lemma_red_sub, red};
use crate::error::CryptoError;
use crate::group::{Point, Scalar};
use crate::proofs::relation::verdict;
use crate::transcript::{
    append_point, append_text, challenge_scalar, challenge_value, lemma_utf8_len, new_transcript,
    point_message, text_message, transcript_entries, Entry,
};

verus! {

/// The public values of the statement.
#[derive(Clone, Copy, Debug, PartialEq)]
pub struct DvPublic {
    pub base0: Point,
    pub pv: Point,
    pub b1a: Point,
    pub b1b: Point,
    pub p1a: Point,
    pub p1b: Point,
}

/// The statement by its values.
pub struct DvView {
    pub base0: int,
    pub pv: int,
    pub b1a: int,
    pub b1b: int,
    pub p1a: int,
    pub p1b: int,
}

impl View for DvPublic {
    type V = DvView;

    open spec fn view(&self) -> DvView {
        DvView {
            base0: self.base0.log(),
            pv: self.pv.log(),
            b1a: self.b1a.log(),
            b1b: self.b1b.log(),
            p1a: self.p1a.log(),
            p1b: self.p1b.log(),
        }
    }
}

/// What the prover knows: the verifier's secret, or the common logarithm.
#[derive(Clone, Copy, Debug)]
pub enum DvWitness {
    First { x: Scalar },
    Second { x: Scalar },
}

/// The randomness of one run of the prover: the nonce of the branch that is
/// proved, challenge and response of the other.
#[derive(Clone, Copy, Debug)]
pub struct DvNonces {
    pub t: Scalar,
    pub c_sim: Scalar,
    pub z_sim: Scalar,
}

/// The proof.
#[derive(Clone, Copy, Debug, PartialEq)]
pub struct DvProof {
    pub i0: Point,
    pub i1a: Point,
    pub i1b: Point,
    pub c0: Scalar,
    pub c1: Scalar,
    pub z0: Scalar,
    pub z1: Scalar,
}

impl DvView {
    /// The steps up to the challenge, for the commitments `i0`, `i1a`, `i1b`.
    pub open spec fn steps(self, i0: int, i1a: int, i1b: int) -> Seq<Entry> {
        seq![
            text_message("dom-sep"@, ""@),
            text_message("dom-sep"@, "DV-NIZKP"@),
            point_message("B0"@, self.base0),
            point_message("B1A"@, self.b1a),
            point_message("B1B"@, self.b1b),
            point_message("P0"@, self.pv),
            point_message("P1A"@, self.p1a),
            point_message("P1B"@, self.p1b),
            point_message("I0"@, i0),
            point_message("I1A"@, i1a),
            point_message("I1B"@, i1b),
        ]
    }

    /// The challenge for the commitments `i0`, `i1a`, `i1b`.
    pub open spec fn challenge(self, i0: int, i1a: int, i1b: int) -> int {
        challenge_value(self.steps(i0, i1a, i1b), "c"@)
    }

    /// Whether the witness belongs to the statement.
    pub open spec fn shown_by(self, w: DvWitness) -> bool {
        match w {
            DvWitness::First { x } => self.pv == red(self.base0 * x@),
            DvWitness::Second { x } => self.p1a == red(self.b1a * x@)
                && self.p1b == red(self.b1b * x@),
        }
    }

    /// The proof that the prover gives.
    pub open spec fn proof_by(self, w: DvWitness, n: DvNonces, p: DvProof) -> bool {
        let c = self.challenge(p.i0.log(), p.i1a.log(), p.i1b.log());
        let t = n.t@;
        let cs = n.c_sim@;
        let zs = n.z_sim@;
        let own = red(c - cs);
        match w {
            DvWitness::First { x } => {
                &&& p.i0.log() == red(self.base0 * t)
                &&& p.i1a.log() == red(self.b1a * zs - self.p1a * cs)
                &&& p.i1b.log() == red(self.b1b * zs - self.p1b * cs)
                &&& p.c0@ == own && p.c1@ == cs
                &&& p.z0@ == red(own * x@ + t) && p.z1@ == zs
            },
            DvWitness::Second { x } => {
                &&& p.i0.log() == red(self.base0 * zs - self.pv * cs)
                &&& p.i1a.log() == red(self.b1a * t)
                &&& p.i1b.log() == red(self.b1b * t)
                &&& p.c0@ == cs && p.c1@ == own
                &&& p.z0@ == zs && p.z1@ == red(own * x@ + t)
            },
        }
    }

    /// Whether the proof is one that the prover gives for some randomness.
    pub open spec fn made_by(self, w: DvWitness, p: DvProof) -> bool {
        exists|n: DvNonces| self.proof_by(w, n, p)
    }

    /// What the verifier says to a proof.
    pub open spec fn objection(self, p: DvProof) -> Option<CryptoError> {
        if red(p.c0@ + p.c1@) != red(self.challenge(p.i0.log(), p.i1a.log(), p.i1b.log())) {
            Some(CryptoError::ChallengeMismatch)
        } else if red(self.base0 * p.z0@) == red(p.i0.log() + self.pv * p.c0@) && red(
            self.b1a * p.z1@,
        ) == red(p.i1a.log() + self.p1a * p.c1@) && red(self.b1b * p.z1@) == red(
            p.i1b.log() + self.p1b * p.c1@,
        ) {
            None
        } else {
            Some(CryptoError::CommitmentMismatch)
        }
    }
}

impl DvPublic {
    fn start(&self, i0: &Point, i1a: &Point, i1b: &Point) -> (r: Transcript)
        ensures
            transcript_entries(r) == self@.steps(i0.log(), i1a.log(), i1b.log()),
    {
        proof {
            reveal_strlit("");
            lemma_utf8_len(""@);
            reveal_strlit("DV-NIZKP");
        }
        let mut transcript = new_transcript("");
        append_text(&mut transcript, "dom-sep", "DV-NIZKP");
        append_point(&mut transcript, "B0", &self.base0);
        append_point(&mut transcript, "B1A", &self.b1a);
        append_point(&mut transcript, "B1B", &self.b1b);
        append_point(&mut transcript, "P0", &self.pv);
        append_point(&mut transcript, "P1A", &self.p1a);
        append_point(&mut transcript, "P1B", &self.p1b);
        append_point(&mut transcript, "I0", i0);
        append_point(&mut transcript, "I1A", i1a);
        append_point(&mut transcript, "I1B", i1b);
        proof {
            assert(transcript_entries(transcript) =~= self@.steps(i0.log(), i1a.log(), i1b.log()));
        }
        transcript
    }
}

impl DvProof {
    /// Proves with fresh randomness.
    pub fn prove(public: &DvPublic, witness: &DvWitness, rng: &mut StdRng) -> (r: Self)
        ensures
            public@.made_by(*witness, r),
    {
        let nonces = DvNonces {
            t: Scalar::random(rng),
            c_sim: Scalar::random(rng),
            z_sim: Scalar::random(rng),
        };
        let out = Self::prove_with(public, witness, &nonces);
        proof {
            assert(public@.proof_by(*witness, nonces, out));
        }
        out
    }

    /// Proves with the given randomness.
    pub fn prove_with(public: &DvPublic, witness: &DvWitness, nonces: &DvNonces) -> (r: Self)
        ensures
            public@.proof_by(*witness, *nonces, r),
    {
        let n = *nonces;
        match witness {
            DvWitness::First { x } => {
                let i0 = public.base0.times(&n.t);
                let i1a = public.b1a.times(&n.z_sim).minus(&public.p1a.times(&n.c_sim));
                let i1b = public.b1b.times(&n.z_sim).minus(&public.p1b.times(&n.c_sim));
                let mut transcript = public.start(&i0, &i1a, &i1b);
                let c = challenge_scalar(&mut transcript, "c");
                let c0 = c.minus(&n.c_sim);
                let z0 = c0.times(x).plus(&n.t);
                proof {
                    lemma_red_sub(public.b1a.log() * n.z_sim@, public.p1a.log() * n.c_sim@);
                    lemma_red_sub(public.b1b.log() * n.z_sim@, public.p1b.log() * n.c_sim@);
                    lemma_red_add(c0@ * x@, n.t@);
                }
                DvProof { i0, i1a, i1b, c0, c1: n.c_sim, z0, z1: n.z_sim }
            },
            DvWitness::Second { x } => {
                let i0 = public.base0.times(&n.z_sim).minus(&public.pv.times(&n.c_sim));
                let i1a = public.b1a.times(&n.t);
                let i1b = public.b1b.times(&n.t);
                let mut transcript = public.start(&i0, &i1a, &i1b);
                let c = challenge_scalar(&mut transcript, "c");
                let c1 = c.minus(&n.c_sim);
                let z1 = c1.times(x).plus(&n.t);
                proof {
                    lemma_red_sub(public.base0.log() * n.z_sim@, public.pv.log() * n.c_sim@);
                    lemma_red_add(c1@ * x@, n.t@);
                }
                DvProof { i0, i1a, i1b, c0: n.c_sim, c1, z0: n.z_sim, z1 }
            },
        }
    }

    /// Checks the proof.
    pub fn verify(&self, public: &DvPublic) -> (r: Result<(), CryptoError>)
        ensures
            r == verdict(public@.objection(*self)),
    {
        check(
            [public.base0, public.pv, public.b1a, public.b1b, public.p1a, public.p1b],
            [self.i0, self.i1a, self.i1b],
            [self.c0, self.c1, self.z0, self.z1],
        )
    }
}

/// Calls `verify` of `dlog-sigma-primitives` on a designated-verifier proof
/// with the given commitments and scalars: the challenges must add up to the one
/// drawn, and the equation of each branch must hold.
#[verifier::external_body]
fn check(statement: [Point; 6], commitments: [Point; 3], scalars: [Scalar; 4]) -> (r: Result<
    (),
    CryptoError,
>)
    ensures
        r == verdict(statement_of(statement@).objection(proof_from(commitments@, scalars@))),
{
    let p = |x: Point| RistrettoGroup::point_from_bytes(&x.to_bytes()).unwrap();
    let [base0, pv, b1a, b1b, p1a, p1b] = statement.map(p);
    let [i0, i1a, i1b] = commitments.map(p);
    let [c0, c1, z0, z1] = scalars.map(
        |x| RistrettoGroup::scalar_from_bytes(&x.to_bytes()).unwrap(),
    );
    let dv = DesignatedPublic::<RistrettoGroup> { base0, pv };
    let proof = GroupDvProof { i0, i1a, i1b, c0, c1, z0, z1 };
    match proof.verify(DvPublicBorrowed::new(&dv, &b1a, &b1b, &p1a, &p1b)) {
        Ok(()) => Ok(()),
        Err(GroupError::ChallengeMismatch) => Err(CryptoError::ChallengeMismatch),
        Err(_) => Err(CryptoError::CommitmentMismatch),
    }
}

/// The statement about six points.
pub open spec fn statement_of(p: Seq<Point>) -> DvView {
    DvView {
        base0: p[0].log(),
        pv: p[1].log(),
        b1a: p[2].log(),
        b1b: p[3].log(),
        p1a: p[4].log(),
        p1b: p[5].log(),
    }
}

/// The proof with three commitments, two challenges and two responses.
pub open spec fn proof_from(i: Seq<Point>, s: Seq<Scalar>) -> DvProof {
    DvProof { i0: i[0], i1a: i[1], i1b: i[2], c0: s[0], c1: s[1], z0: s[2], z1: s[3] }
}

/// The equation of a branch that is proved.
proof fn lemma_honest_branch(base: int, p: int, x: int, t: int, c: int)
    requires
        p == red(base * x),
    ensures
        red(base * red(c * x + t)) == red(red(base * t) + p * c),
{
    lemma_red_mul(base, c * x + t);
    lemma_red_mul(base * x, c);
    lemma_red_add(base * t, p * c);
    lemma_red_add(base * t, (base * x) * c);
    assert(base * (c * x + t) == base * t + (base * x) * c) by (nonlinear_arith);
}

/// The equation of a branch that is simulated.
proof fn lemma_simulated_branch(base: int, p: int, c: int, z: int)
    ensures
        red(base * z) == red(red(base * z - p * c) + p * c),
{
    lemma_red_add(base * z - p * c, p * c);
}

/// Whoever knows the common logarithm, or the verifier's secret, makes proofs
/// that are accepted, whatever the randomness.
pub proof fn law_designated_proof(public: DvView, w: DvWitness, p: DvProof)
    requires
        public.shown_by(w),
        public.made_by(w, p),
    ensures
        public.objection(p) is None,
{
    let n = choose|n: DvNonces| public.proof_by(w, n, p);
    let c = public.challenge(p.i0.log(), p.i1a.log(), p.i1b.log());
    let cs = n.c_sim@;
    let zs = n.z_sim@;
    let own = red(c - cs);
    lemma_red_add(c - cs, cs);
    match w {
        DvWitness::First { x } => {
            lemma_honest_branch(public.base0, public.pv, x@, n.t@, own);
            lemma_simulated_branch(public.b1a, public.p1a, cs, zs);
            lemma_simulated_branch(public.b1b, public.p1b, cs, zs);
        },
        DvWitness::Second { x } => {
            lemma_simulated_branch(public.base0, public.pv, cs, zs);
            lemma_honest_branch(public.b1a, public.p1a, x@, n.t@, own);
            lemma_honest_branch(public.b1b, public.p1b, x@, n.t@, own);
        },
    }
}

} // verus!
