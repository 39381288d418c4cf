//! The relations that are proved about ciphertexts, each by a three-move
//! protocol: commitments, a challenge drawn from the transcript, responses.
//! The equations are checked by `dlog-sigma-primitives`, but for the exponent
//! proof, which that crate does not have.

use dlog_group::group::{GroupPoint, GroupScalar};
use dlog_group::ristretto::RistrettoGroup;
use dlog_sigma_primitives::elgamal::ciphertext::Ciphertext as GroupCiphertext;
use dlog_sigma_primitives::elgamal::keys::{
    ElGamalParams as GroupParams, PublicKey as GroupPublicKey,
};
use dlog_sigma_primitives::proofs::disjunctive::{Or, OrProtocol, OrPublicBorrowed};
use dlog_sigma_primitives::proofs::log_equality::{LogEq, LogEqProtocol, LogEqPublicBorrowed};
use dlog_sigma_primitives::proofs::not_identity::{NotIdProtocol, NotIdPublicBorrowed};
use dlog_sigma_primitives::proofs::zero::{Zero, ZeroProtocol, ZeroPublicBorrowed};
use dlog_sigma_primitives::proofs::SigmaProtocol;
use merlin::Transcript;
use rand::rngs::StdRng;
use std::collections::BTreeMap;
use vstd::prelude::*;

use crate::arith::{
    has_inverse, lemma_order, lemma_red_add, lemma_red_mul, lemma_red_nonzero, lemma_red_small,
    lemma_red_sub, red,
};
use crate::elgamal::{
    ct_add, ct_encrypt, ct_put, ct_scale, ct_strip, ct_sub, ct_views, lemma_encrypt_add,
    lemma_encrypt_red, lemma_encrypt_scale, lemma_encrypt_strip,
    lemma_encrypt_sub, Ciphertext, CtView, ElGamalParams, PublicKey,
};
use crate::error::CryptoError;
use crate::group::{Point, Scalar};
use crate::transcript::{
    append_ciphertext, challenge, challenge_scalar, challenge_value, ct_message,
    transcript_entries, Entry,
};

verus! {

/// What is claimed of one or two ciphertexts.
#[derive(Clone, Copy, Debug, PartialEq)]
pub enum Relation {
    /// The ciphertext encrypts the neutral element.
    Zero { ct: Ciphertext },
    /// The ciphertext encrypts `[v]G` for one of two values.
    Or { ct: Ciphertext, values: [u64; 2] },
    /// The ciphertext encrypts a known multiple of `base`.
    Exp { ct: Ciphertext, base: Point },
    /// The ciphertext does not encrypt the neutral element.
    NotId { ct: Ciphertext },
    /// `c1` encrypts `[m]g3` and `c2` encrypts `[m]o` for one `m`.
    LogEq { c1: Ciphertext, c2: Ciphertext, g3: Point, o: Point },
}

/// A claim under a public key.
#[derive(Clone, Copy, Debug, PartialEq)]
pub struct Statement {
    pub pk: PublicKey,
    pub params: ElGamalParams,
    pub relation: Relation,
}

/// A relation by its values.
pub enum RelationView {
    Zero { ct: CtView },
    Or { ct: CtView, values: Seq<int> },
    Exp { ct: CtView, base: int },
    NotId { ct: CtView },
    /// Both ciphertexts, and the difference of the logarithms of both bases.
    LogEq { c1: CtView, c2: CtView, d: int },
}

impl View for Relation {
    type V = RelationView;

    open spec fn view(&self) -> RelationView {
        match *self {
            Relation::Zero { ct } => RelationView::Zero { ct: ct@ },
            Relation::Or { ct, values } => RelationView::Or {
                ct: ct@,
                values: seq![values@[0] as int, values@[1] as int],
            },
            Relation::Exp { ct, base } => RelationView::Exp { ct: ct@, base: base.log() },
            Relation::NotId { ct } => RelationView::NotId { ct: ct@ },
            Relation::LogEq { c1, c2, g3, o } => RelationView::LogEq {
                c1: c1@,
                c2: c2@,
                d: g3.log() - o.log(),
            },
        }
    }
}

/// A claim by its values; the key is the triple of both bases and the public
/// point.
pub struct StatementView {
    pub key: CtView,
    pub relation: RelationView,
}

impl View for Statement {
    type V = StatementView;

    open spec fn view(&self) -> StatementView {
        StatementView { key: self.pk.key(self.params), relation: self.relation@ }
    }
}

impl RelationView {
    /// Which of the relations this is for.
    pub open spec fn kind(self) -> Kind {
        match self {
            RelationView::Zero { .. } => Kind::Zero,
            RelationView::Or { .. } => Kind::Or,
            RelationView::Exp { .. } => Kind::Exp,
            RelationView::NotId { .. } => Kind::NotId,
            RelationView::LogEq { .. } => Kind::LogEq,
        }
    }
}

impl StatementView {
    /// Which of the relations this is for.
    pub open spec fn kind(self) -> Kind {
        self.relation.kind()
    }
}

/// What the prover knows.
#[derive(Clone, Copy, Debug)]
pub enum Witness {
    /// The randomness of the ciphertext.
    Zero { r: Scalar },
    /// Which value is encrypted, and the randomness.
    Or { index: usize, r: Scalar },
    /// The randomness and the multiple.
    Exp { r: Scalar, x: Scalar },
    /// The randomness.
    NotId { r: Scalar },
    /// The common logarithm, and the difference of both randomness values.
    LogEq { m: Scalar, delta_r: Scalar },
}

/// The randomness of one run of the prover.
#[derive(Clone, Copy, Debug)]
pub enum Nonces {
    Zero { t: Scalar },
    Or { t: Scalar, sim_c: [Scalar; 2], sim_z: [Scalar; 2] },
    Exp { t_r: Scalar, t_x: Scalar },
    NotId { t: Scalar, t1: Scalar, t2: Scalar },
    LogEq { t: Scalar },
}

/// A proof: the commitments and the responses.
#[derive(Debug, PartialEq)]
pub enum SubProof {
    Zero { commitment: Ciphertext, response: Scalar },
    Or { commitments: Vec<Ciphertext>, responses: Vec<Scalar>, challenges: Vec<Scalar> },
    Exp { commitment: Ciphertext, z_r: Scalar, z_x: Scalar },
    NotId { commitments_pk: [Ciphertext; 2], commitments_ct: [Ciphertext; 2], z: [Scalar; 2] },
    LogEq { commitment: Ciphertext, response_delta: Scalar, response_m: Scalar },
}

/// A proof by its values.
#[verifier::ext_equal]
pub struct ProofView {
    pub commitments: Seq<CtView>,
    pub responses: Seq<int>,
    pub challenges: Seq<int>,
}

/// The values of a list of scalars.
pub open spec fn scalar_views(scalars: Seq<Scalar>) -> Seq<int> {
    scalars.map_values(|s: Scalar| s@)
}

impl View for SubProof {
    type V = ProofView;

    open spec fn view(&self) -> ProofView {
        match *self {
            SubProof::Zero { commitment, response } => ProofView {
                commitments: seq![commitment@],
                responses: seq![response@],
                challenges: seq![],
            },
            SubProof::Or { commitments, responses, challenges } => ProofView {
                commitments: ct_views(commitments@),
                responses: scalar_views(responses@),
                challenges: scalar_views(challenges@),
            },
            SubProof::Exp { commitment, z_r, z_x } => ProofView {
                commitments: seq![commitment@],
                responses: seq![z_r@, z_x@],
                challenges: seq![],
            },
            SubProof::NotId { commitments_pk, commitments_ct, z } => ProofView {
                commitments: seq![
                    commitments_pk@[0]@,
                    commitments_pk@[1]@,
                    commitments_ct@[0]@,
                    commitments_ct@[1]@,
                ],
                responses: seq![z@[0]@, z@[1]@],
                challenges: seq![],
            },
            SubProof::LogEq { commitment, response_delta, response_m } => ProofView {
                commitments: seq![commitment@],
                responses: seq![response_delta@, response_m@],
                challenges: seq![],
            },
        }
    }
}

/// The kind of a relation.
#[derive(Clone, Copy, Debug, PartialEq, Eq)]
pub enum Kind {
    Zero,
    Or,
    Exp,
    NotId,
    LogEq,
}

impl Witness {
    /// The values that the prover knows.
    pub open spec fn values(self) -> Seq<int> {
        match self {
            Witness::Zero { r } => seq![r@],
            Witness::Or { index, r } => seq![index as int, r@],
            Witness::Exp { r, x } => seq![r@, x@],
            Witness::NotId { r } => seq![r@],
            Witness::LogEq { m, delta_r } => seq![m@, delta_r@],
        }
    }

    /// Whether this is a witness for relations of the kind.
    pub open spec fn fits(self, kind: Kind) -> bool {
        match self {
            Witness::Zero { .. } => kind == Kind::Zero,
            Witness::Or { index, .. } => kind == Kind::Or && index < 2,
            Witness::Exp { .. } => kind == Kind::Exp,
            Witness::NotId { .. } => kind == Kind::NotId,
            Witness::LogEq { .. } => kind == Kind::LogEq,
        }
    }
}

impl Nonces {
    /// Which of the relations this is for.
    pub open spec fn kind(self) -> Kind {
        match self {
            Nonces::Zero { .. } => Kind::Zero,
            Nonces::Or { .. } => Kind::Or,
            Nonces::Exp { .. } => Kind::Exp,
            Nonces::NotId { .. } => Kind::NotId,
            Nonces::LogEq { .. } => Kind::LogEq,
        }
    }

    /// Whether this is the randomness of a not-identity proof without effect:
    /// the factor that hides the plaintext is zero.
    pub open spec fn vanishes(self) -> bool {
        match self {
            Nonces::NotId { t, .. } => t@ == 0,
            _ => false,
        }
    }

    /// Whether the factor that hides the plaintext in a not-identity proof is
    /// zero or has an inverse.
    pub open spec fn drawn(self) -> bool {
        match self {
            Nonces::NotId { t, .. } => t@ != 0 ==> has_inverse(t@),
            _ => true,
        }
    }

    /// Fresh randomness for a proof of the relation.
    pub fn random(relation: &Relation, rng: &mut StdRng) -> (r: Nonces)
        ensures
            r.kind() == relation@.kind(),
            r.drawn(),
    {
        match relation {
            Relation::Zero { .. } => Nonces::Zero { t: Scalar::random(rng) },
            Relation::Or { .. } => {
                let sim_c = [Scalar::random(rng), Scalar::random(rng)];
                let sim_z = [Scalar::random(rng), Scalar::random(rng)];
                Nonces::Or { t: Scalar::random(rng), sim_c, sim_z }
            },
            Relation::Exp { .. } => Nonces::Exp {
                t_r: Scalar::random(rng),
                t_x: Scalar::random(rng),
            },
            Relation::NotId { .. } => Nonces::NotId {
                t: Scalar::random(rng),
                t1: Scalar::random(rng),
                t2: Scalar::random(rng),
            },
            Relation::LogEq { .. } => Nonces::LogEq { t: Scalar::random(rng) },
        }
    }
}

impl SubProof {
    /// Which of the relations this is for.
    pub open spec fn kind(self) -> Kind {
        match self {
            SubProof::Zero { .. } => Kind::Zero,
            SubProof::Or { .. } => Kind::Or,
            SubProof::Exp { .. } => Kind::Exp,
            SubProof::NotId { .. } => Kind::NotId,
            SubProof::LogEq { .. } => Kind::LogEq,
        }
    }
}

impl Clone for SubProof {
    fn clone(&self) -> (r: Self)
        ensures
            r@ == self@,
            r.kind() == self.kind(),
    {
        match self {
            SubProof::Zero { commitment, response } => SubProof::Zero {
                commitment: *commitment,
                response: *response,
            },
            SubProof::Or { commitments, responses, challenges } => {
                let cts = commitments.clone();
                let answers = responses.clone();
                let parts = challenges.clone();
                proof {
                    assert(ct_views(cts@) =~= ct_views(commitments@));
                    assert(scalar_views(answers@) =~= scalar_views(responses@));
                    assert(scalar_views(parts@) =~= scalar_views(challenges@));
                }
                SubProof::Or { commitments: cts, responses: answers, challenges: parts }
            },
            SubProof::Exp { commitment, z_r, z_x } => SubProof::Exp {
                commitment: *commitment,
                z_r: *z_r,
                z_x: *z_x,
            },
            SubProof::NotId { commitments_pk, commitments_ct, z } => SubProof::NotId {
                commitments_pk: *commitments_pk,
                commitments_ct: *commitments_ct,
                z: *z,
            },
            SubProof::LogEq { commitment, response_delta, response_m } => SubProof::LogEq {
                commitment: *commitment,
                response_delta: *response_delta,
                response_m: *response_m,
            },
        }
    }
}

/// The label under which the commitment at position `i` is appended.
pub open spec fn commit_label(kind: Kind, i: int) -> Seq<char> {
    match kind {
        Kind::Zero => "[t]PK"@,
        Kind::Or => "I"@,
        Kind::Exp => "commitment"@,
        Kind::NotId => if i == 0 {
            "[t1]PK"@
        } else if i == 1 {
            "[t*r]PK"@
        } else if i == 2 {
            "[t2]C"@
        } else {
            "[-t]C"@
        },
        Kind::LogEq => "I"@,
    }
}

/// The steps that append the commitments.
pub open spec fn commit_steps(kind: Kind, commitments: Seq<CtView>) -> Seq<Entry> {
    Seq::new(commitments.len(), |i: int| ct_message(commit_label(kind, i), commitments[i]))
}

/// The steps that draw the challenges.
pub open spec fn challenge_steps(kind: Kind) -> Seq<Entry> {
    if kind == Kind::NotId {
        seq![challenge("c1"@), challenge("c2"@)]
    } else {
        seq![challenge("c"@)]
    }
}

/// The challenges drawn from a transcript that holds `entries`.
pub open spec fn challenges(kind: Kind, entries: Seq<Entry>) -> Seq<int> {
    if kind == Kind::NotId {
        seq![
            challenge_value(entries, "c1"@),
            challenge_value(entries.push(challenge("c1"@)), "c2"@),
        ]
    } else {
        seq![challenge_value(entries, "c"@)]
    }
}

/// The commitment of the branch of a disjunction that is not proved: it is
/// made to fit the challenge `c` and the response `z` chosen beforehand.
pub open spec fn simulated(key: CtView, ct: CtView, v: int, c: int, z: int) -> CtView {
    ct_sub(ct_scale(key, z), ct_scale(ct_strip(ct, v), c))
}

/// The commitments that the prover makes.
pub open spec fn commitments(s: StatementView, w: Witness, n: Nonces) -> Seq<CtView> {
    let key = s.key;
    match (s.relation, w, n) {
        (RelationView::Zero { ct }, Witness::Zero { r }, Nonces::Zero { t }) => seq![ct_scale(key, t@)],
        (RelationView::Or { ct, values }, Witness::Or { index, r }, Nonces::Or { t, sim_c, sim_z }) =>
            Seq::new(
                2,
                |i: int|
                    if i == index {
                        ct_scale(key, t@)
                    } else {
                        simulated(key, ct, values[i], sim_c@[i]@, sim_z@[i]@)
                    },
            ),
        (RelationView::Exp { ct, base }, Witness::Exp { r, x }, Nonces::Exp { t_r, t_x }) => seq![
            ct_encrypt(key, base * t_x@, t_r@),
        ],
        (RelationView::NotId { ct }, Witness::NotId { r }, Nonces::NotId { t, t1, t2 }) => seq![
            ct_scale(key, t1@),
            ct_scale(key, r@ * t@),
            ct_scale(ct, t2@),
            ct_scale(ct, -t@),
        ],
        (RelationView::LogEq { c1, c2, d }, Witness::LogEq { m, delta_r }, Nonces::LogEq { t }) =>
            seq![ct_encrypt(key, d * t@, t@)],
        _ => seq![],
    }
}

/// The proof that the prover gives for the challenges `c`.
pub open spec fn proof_of(s: StatementView, w: Witness, n: Nonces, c: Seq<int>) -> ProofView {
    let cts = commitments(s, w, n);
    match (w, n) {
        (Witness::Zero { r }, Nonces::Zero { t }) => ProofView {
            commitments: cts,
            responses: seq![red(c[0] * r@ + t@)],
            challenges: seq![],
        },
        (Witness::Or { index, r }, Nonces::Or { t, sim_c, sim_z }) => {
            let own = red(c[0] - sim_c@[1 - index]@);
            ProofView {
                commitments: cts,
                responses: Seq::new(
                    2,
                    |i: int|
                        if i == index {
                            red(own * r@ + t@)
                        } else {
                            sim_z@[i]@
                        },
                ),
                challenges: Seq::new(
                    2,
                    |i: int|
                        if i == index {
                            own
                        } else {
                            sim_c@[i]@
                        },
                ),
            }
        },
        (Witness::Exp { r, x }, Nonces::Exp { t_r, t_x }) => ProofView {
            commitments: cts,
            responses: seq![red(c[0] * r@ + t_r@), red(c[0] * x@ + t_x@)],
            challenges: seq![],
        },
        (Witness::NotId { r }, Nonces::NotId { t, t1, t2 }) => ProofView {
            commitments: cts,
            responses: seq![red(c[0] * (r@ * t@) + t1@), red(t2@ - c[1] * t@)],
            challenges: seq![],
        },
        (Witness::LogEq { m, delta_r }, Nonces::LogEq { t }) => ProofView {
            commitments: cts,
            responses: seq![red(c[0] * delta_r@ + t@), red(c[0] * m@ + t@)],
            challenges: seq![],
        },
        _ => ProofView { commitments: seq![], responses: seq![], challenges: seq![] },
    }
}

/// One branch of a disjunction: the equation for the value `v`.
pub open spec fn branch_holds(key: CtView, ct: CtView, v: int, i: CtView, c: int, z: int) -> bool {
    ct_scale(key, z) == ct_add(i, ct_scale(ct_strip(ct, v), c))
}

/// What the verifier says to a proof under the challenges `c`: nothing, or why
/// the proof is refused.
pub open spec fn objection(s: StatementView, p: ProofView, c: Seq<int>) -> Option<CryptoError> {
    let key = s.key;
    let cts = p.commitments;
    let z = p.responses;
    let refused = match s.relation {
        RelationView::Zero { ct } => ct_scale(key, z[0]) != ct_add(cts[0], ct_scale(ct, c[0])),
        RelationView::Or { ct, values } => !(branch_holds(
            key,
            ct,
            values[0],
            cts[0],
            p.challenges[0],
            z[0],
        ) && branch_holds(key, ct, values[1], cts[1], p.challenges[1], z[1])),
        RelationView::Exp { ct, base } => ct_encrypt(key, base * z[1], z[0]) != ct_add(
            cts[0],
            ct_scale(ct, c[0]),
        ),
        RelationView::NotId { ct } => {
            let sum = ct_add(cts[1], cts[3]);
            ct_scale(key, z[0]) != ct_add(cts[0], ct_scale(cts[1], c[0])) || ct_scale(ct, z[1])
                != ct_add(cts[2], ct_scale(cts[3], c[1])) || sum.r1 != 0 || sum.r2 != 0 || sum.b
                == 0
        },
        RelationView::LogEq { c1, c2, d } => ct_encrypt(
            key,
            d * z[1],
            z[0],
        ) != ct_add(cts[0], ct_scale(ct_sub(c1, c2), c[0])),
    };
    if s.relation is Or && (cts.len() != 2 || z.len() != 2 || p.challenges.len() != 2) {
        Some(CryptoError::InvalidInputShape)
    } else if s.relation is Or && red(p.challenges[0] + p.challenges[1]) != red(
        c[0],
    ) {
        Some(CryptoError::ChallengeMismatch)
    } else if refused {
        Some(CryptoError::CommitmentMismatch)
    } else {
        None
    }
}

/// Whether the values that a prover knows show the statement.
pub open spec fn shown(s: StatementView, v: Seq<int>) -> bool {
    match s.relation {
        RelationView::Zero { ct } => ct == ct_encrypt(s.key, 0, v[0]),
        RelationView::Or { ct, values } => 0 <= v[0] < 2 && ct == ct_encrypt(
            s.key,
            values[v[0]],
            v[1],
        ),
        RelationView::Exp { ct, base } => ct == ct_encrypt(s.key, base * v[1], v[0]),
        RelationView::NotId { ct } => exists|m: int|
            ct == #[trigger] ct_encrypt(s.key, m, v[0]) && red(m) != 0,
        RelationView::LogEq { c1, c2, d } => ct_sub(c1, c2) == ct_encrypt(s.key, d * v[0], v[1]),
    }
}

/// Whether the witness shows the statement.
pub open spec fn shows(s: StatementView, w: Witness) -> bool {
    w.fits(s.kind()) && shown(s, w.values())
}

/// Makes the commitments and appends them.
pub fn commit(s: &Statement, w: &Witness, n: &Nonces, transcript: &mut Transcript) -> (r: Vec<
    Ciphertext,
>)
    requires
        w.fits(s@.kind()),
        n.kind() == s@.kind(),
    ensures
        ct_views(r@) == commitments(s@, *w, *n),
        transcript_entries(*final(transcript)) == transcript_entries(*old(transcript))
            + commit_steps(s@.kind(), ct_views(r@)),
{
    let key = s.pk.to_ciphertext(&s.params);
    let ghost before = transcript_entries(*transcript);
    let mut out: Vec<Ciphertext> = Vec::new();
    match (s.relation, *w, *n) {
        (Relation::Zero { ct: _ }, Witness::Zero { r: _ }, Nonces::Zero { t }) => {
            let i = key.times(&t);
            append_ciphertext(transcript, "[t]PK", &i);
            out.push(i);
        },
        (Relation::Or { ct, values }, Witness::Or { index, r: _ }, Nonces::Or { t, sim_c, sim_z }) => {
            let honest = key.times(&t);
            let other = 1 - index;
            let value = Point::generator().times(&Scalar::from_u64(values[other]));
            let fake = key.times(&sim_z[other]).minus(&ct.hom_sub(&value).times(&sim_c[other]));
            proof {
                lemma_small_value(values@[other as int]);
            }
            let (first, second) = if index == 0 {
                (honest, fake)
            } else {
                (fake, honest)
            };
            append_ciphertext(transcript, "I", &first);
            append_ciphertext(transcript, "I", &second);
            out.push(first);
            out.push(second);
        },
        (Relation::Exp { ct: _, base }, Witness::Exp { r: _, x: _ }, Nonces::Exp { t_r, t_x }) => {
            let i = key.times(&t_r).hom_add(&base.times(&t_x));
            proof {
                lemma_put(s@.key, base.log() * t_x@, t_r@);
            }
            append_ciphertext(transcript, "commitment", &i);
            out.push(i);
        },
        (Relation::NotId { ct }, Witness::NotId { r }, Nonces::NotId { t, t1, t2 }) => {
            let i1 = key.times(&t1);
            let i2 = key.times(&r.times(&t));
            let i3 = ct.times(&t2);
            let i4 = Ciphertext::zero().minus(&ct).times(&t);
            proof {
                lemma_scale_red(s@.key, r@ * t@);
                lemma_negated_scale(ct@, t@);
            }
            append_ciphertext(transcript, "[t1]PK", &i1);
            append_ciphertext(transcript, "[t*r]PK", &i2);
            append_ciphertext(transcript, "[t2]C", &i3);
            append_ciphertext(transcript, "[-t]C", &i4);
            out.push(i1);
            out.push(i2);
            out.push(i3);
            out.push(i4);
        },
        (
            Relation::LogEq { c1: _, c2: _, g3, o },
            Witness::LogEq { m: _, delta_r: _ },
            Nonces::LogEq { t },
        ) => {
            let i = key.hom_add(&g3.minus(&o)).times(&t);
            proof {
                lemma_put_scale(s@.key, g3.log() - o.log(), t@);
            }
            append_ciphertext(transcript, "I", &i);
            out.push(i);
        },
        _ => {},
    }
    proof {
        assert(ct_views(out@) =~= commitments(s@, *w, *n));
        assert(transcript_entries(*transcript) =~= before + commit_steps(
            s@.kind(),
            ct_views(out@),
        ));
    }
    out
}

/// Draws the challenges and answers them.
pub fn complete(
    s: &Statement,
    w: &Witness,
    n: &Nonces,
    cts: &Vec<Ciphertext>,
    transcript: &mut Transcript,
) -> (r: SubProof)
    requires
        w.fits(s@.kind()),
        n.kind() == s@.kind(),
        ct_views(cts@) == commitments(s@, *w, *n),
    ensures
        r.kind() == s@.kind(),
        r@ == proof_of(
            s@,
            *w,
            *n,
            challenges(s@.kind(), transcript_entries(*old(transcript))),
        ),
        transcript_entries(*final(transcript)) == transcript_entries(*old(transcript))
            + challenge_steps(s@.kind()),
{
    let ghost before = transcript_entries(*transcript);
    let ghost c = challenges(s@.kind(), before);
    proof {
        assert(ct_views(cts@).len() == cts@.len());
        assert forall|i: int| 0 <= i < cts@.len() implies cts@[i]@ == commitments(s@, *w, *n)[i] by {
            assert(ct_views(cts@)[i] == cts@[i]@);
        }
    }
    let result = match (*w, *n) {
        (Witness::Zero { r }, Nonces::Zero { t }) => {
            let c = challenge_scalar(transcript, "c");
            let response = c.times(&r).plus(&t);
            proof {
                lemma_red_add(c@ * r@, t@);
            }
            SubProof::Zero { commitment: cts[0], response }
        },
        (Witness::Or { index, r }, Nonces::Or { t, sim_c, sim_z }) => {
            let c = challenge_scalar(transcript, "c");
            let other = 1 - index;
            let own = c.minus(&sim_c[other]);
            let answer = own.times(&r).plus(&t);
            proof {
                lemma_red_add(own@ * r@, t@);
            }
            let mut responses: Vec<Scalar> = Vec::new();
            let mut parts: Vec<Scalar> = Vec::new();
            if index == 0 {
                responses.push(answer);
                responses.push(sim_z[1]);
                parts.push(own);
                parts.push(sim_c[1]);
            } else {
                responses.push(sim_z[0]);
                responses.push(answer);
                parts.push(sim_c[0]);
                parts.push(own);
            }
            let mut copies: Vec<Ciphertext> = Vec::new();
            copies.push(cts[0]);
            copies.push(cts[1]);
            SubProof::Or { commitments: copies, responses, challenges: parts }
        },
        (Witness::Exp { r, x }, Nonces::Exp { t_r, t_x }) => {
            let c = challenge_scalar(transcript, "c");
            proof {
                lemma_red_add(c@ * r@, t_r@);
                lemma_red_add(c@ * x@, t_x@);
            }
            SubProof::Exp {
                commitment: cts[0],
                z_r: c.times(&r).plus(&t_r),
                z_x: c.times(&x).plus(&t_x),
            }
        },
        (Witness::NotId { r }, Nonces::NotId { t, t1, t2 }) => {
            let c1 = challenge_scalar(transcript, "c1");
            let c2 = challenge_scalar(transcript, "c2");
            let z1 = c1.times(&t).times(&r).plus(&t1);
            let z2 = t2.minus(&c2.times(&t));
            proof {
                lemma_red_mul(c1@ * t@, r@);
                lemma_red_add((c1@ * t@) * r@, t1@);
                assert((c1@ * t@) * r@ == c1@ * (r@ * t@)) by (nonlinear_arith);
                lemma_red_sub(t2@, c2@ * t@);
            }
            SubProof::NotId {
                commitments_pk: [cts[0], cts[1]],
                commitments_ct: [cts[2], cts[3]],
                z: [z1, z2],
            }
        },
        (Witness::LogEq { m, delta_r }, Nonces::LogEq { t }) => {
            let c = challenge_scalar(transcript, "c");
            proof {
                lemma_red_add(c@ * delta_r@, t@);
                lemma_red_add(c@ * m@, t@);
            }
            SubProof::LogEq {
                commitment: cts[0],
                response_delta: c.times(&delta_r).plus(&t),
                response_m: c.times(&m).plus(&t),
            }
        },
        _ => {
            // The kinds of witness and nonces agree.
            SubProof::Zero { commitment: Ciphertext::zero(), response: Scalar::from_u64(0) }
        },
    };
    proof {
        let expected = proof_of(s@, *w, *n, c);
        assert(result@.commitments =~= expected.commitments);
        assert(result@.responses =~= expected.responses);
        assert(result@.challenges =~= expected.challenges);
        assert(transcript_entries(*transcript) =~= before + challenge_steps(s@.kind()));
    }
    result
}

/// Appends the commitments of a proof.
pub fn update_transcript(p: &SubProof, transcript: &mut Transcript)
    ensures
        transcript_entries(*final(transcript)) == transcript_entries(*old(transcript))
            + commit_steps(p.kind(), p@.commitments),
{
    let ghost before = transcript_entries(*transcript);
    match p {
        SubProof::Zero { commitment, response: _ } => {
            append_ciphertext(transcript, "[t]PK", commitment);
        },
        SubProof::Or { commitments, responses: _, challenges: _ } => {
            let mut i: usize = 0;
            proof {
                assert(transcript_entries(*transcript) =~= before + commit_steps(
                    Kind::Or,
                    ct_views(commitments@).take(0),
                ));
            }
            while i < commitments.len()
                invariant
                    i <= commitments@.len(),
                    transcript_entries(*transcript) == before + commit_steps(
                        Kind::Or,
                        ct_views(commitments@).take(i as int),
                    ),
                decreases commitments@.len() - i,
            {
                append_ciphertext(transcript, "I", &commitments[i]);
                i += 1;
                proof {
                    assert(transcript_entries(*transcript) =~= before + commit_steps(
                        Kind::Or,
                        ct_views(commitments@).take(i as int),
                    ));
                }
            }
            proof {
                assert(ct_views(commitments@).take(i as int) =~= p@.commitments);
            }
        },
        SubProof::Exp { commitment, z_r: _, z_x: _ } => {
            append_ciphertext(transcript, "commitment", commitment);
        },
        SubProof::NotId { commitments_pk, commitments_ct, z: _ } => {
            append_ciphertext(transcript, "[t1]PK", &commitments_pk[0]);
            append_ciphertext(transcript, "[t*r]PK", &commitments_pk[1]);
            append_ciphertext(transcript, "[t2]C", &commitments_ct[0]);
            append_ciphertext(transcript, "[-t]C", &commitments_ct[1]);
        },
        SubProof::LogEq { commitment, response_delta: _, response_m: _ } => {
            append_ciphertext(transcript, "I", commitment);
        },
    }
    proof {
        assert(transcript_entries(*transcript) =~= before + commit_steps(
            p.kind(),
            p@.commitments,
        ));
    }
}

/// Calls `ZeroProtocol::verify_relation` of `dlog-sigma-primitives`, which
/// draws the challenge and compares `[z]K` with `I + [c]C`.
#[verifier::external_body]
fn check_zero(
    key: &Ciphertext,
    ct: &Ciphertext,
    commitment: &Ciphertext,
    response: &Scalar,
    transcript: &mut Transcript,
) -> (r: bool)
    ensures
        r == (ct_scale(key@, response@) == ct_add(
            commitment@,
            ct_scale(ct@, challenge_value(transcript_entries(*old(transcript)), "c"@)),
        )),
        transcript_entries(*final(transcript)) == transcript_entries(*old(transcript)).push(
            challenge("c"@),
        ),
{
    let c = |x: &Ciphertext| GroupCiphertext::<RistrettoGroup>::from_bytes(&x.to_bytes()).unwrap();
    let (key, ct, commitment) = (c(key), c(ct), c(commitment));
    let params = GroupParams { g1: key.random_point, g2: key.random_point2 };
    let pk = GroupPublicKey { h: key.blinded_point };
    let public = ZeroPublicBorrowed::new(&pk, &params, &ct);
    let response = RistrettoGroup::scalar_from_bytes(&response.to_bytes()).unwrap();
    ZeroProtocol::verify_relation(public, &Zero { commitment, response }, transcript).is_ok()
}

/// Calls `OrProtocol::verify_relation` of `dlog-sigma-primitives` on a copy of
/// the transcript: it asks for two entries in each list, for challenges that add
/// up to the one drawn, and for the equation of each branch.
#[verifier::external_body]
fn check_or(
    key: &Ciphertext,
    ct: &Ciphertext,
    values: [u64; 2],
    commitments: &Vec<Ciphertext>,
    responses: &Vec<Scalar>,
    challenges: &Vec<Scalar>,
    transcript: &Transcript,
) -> (r: bool)
    ensures
        r == (commitments@.len() == 2 && responses@.len() == 2 && challenges@.len() == 2 && red(
            challenges@[0]@ + challenges@[1]@,
        ) == red(challenge_value(transcript_entries(*transcript), "c"@)) && branch_holds(
            key@,
            ct@,
            values@[0] as int,
            commitments@[0]@,
            challenges@[0]@,
            responses@[0]@,
        ) && branch_holds(
            key@,
            ct@,
            values@[1] as int,
            commitments@[1]@,
            challenges@[1]@,
            responses@[1]@,
        )),
{
    let c = |x: &Ciphertext| GroupCiphertext::<RistrettoGroup>::from_bytes(&x.to_bytes()).unwrap();
    let s = |x: &Scalar| RistrettoGroup::scalar_from_bytes(&x.to_bytes()).unwrap();
    let (key, values) = (c(key), values.map(Into::into));
    let proof = Or {
        commitments: commitments.iter().map(c).collect(),
        responses: responses.iter().map(s).collect(),
        challenges: challenges.iter().map(s).collect(),
    };
    let params = GroupParams { g1: key.random_point, g2: key.random_point2 };
    OrProtocol::verify_relation(
        OrPublicBorrowed::new(&GroupPublicKey { h: key.blinded_point }, &params, &c(ct), &values),
        &proof,
        &mut transcript.clone(),
    ).is_ok()
}

/// Calls `LogEqProtocol::verify_relation` of `dlog-sigma-primitives`, which
/// draws the challenge and compares `[z1]K + [z2](g3 - o)` with
/// `I + [c](C1 - C2)`; `cts` holds `K`, `I`, `C1` and `C2`.
#[verifier::external_body]
fn check_log_eq(
    cts: [&Ciphertext; 4],
    bases: [&Point; 2],
    z: [&Scalar; 2],
    transcript: &mut Transcript,
) -> (r: bool)
    ensures
        r == (ct_encrypt(cts@[0]@, (bases@[0].log() - bases@[1].log()) * z@[1]@, z@[0]@) == ct_add(
            cts@[1]@,
            ct_scale(
                ct_sub(cts@[2]@, cts@[3]@),
                challenge_value(transcript_entries(*old(transcript)), "c"@),
            ),
        )),
        transcript_entries(*final(transcript)) == transcript_entries(*old(transcript)).push(
            challenge("c"@),
        ),
{
    let [key, commitment, c1, c2] = cts.map(
        |x| GroupCiphertext::<RistrettoGroup>::from_bytes(&x.to_bytes()).unwrap(),
    );
    let params = GroupParams { g1: key.random_point, g2: key.random_point2 };
    let pk = GroupPublicKey { h: key.blinded_point };
    let [g3, o] = bases.map(|x| RistrettoGroup::point_from_bytes(&x.to_bytes()).unwrap());
    let public = LogEqPublicBorrowed::new(&pk, &params, &c1, &c2, &g3, &o);
    let [response_delta, response_m] = z.map(
        |x| RistrettoGroup::scalar_from_bytes(&x.to_bytes()).unwrap(),
    );
    let proof = LogEq { commitment, response_delta, response_m };
    LogEqProtocol::verify_relation(public, &proof, transcript).is_ok()
}

/// Calls `NotIdProtocol::verify_relation` of `dlog-sigma-primitives` on the
/// proof that CBOR reads from its fields: it draws two challenges, compares
/// `[z1]K` with `I1 + [c1]I2` and `[z2]C` with `I3 + [c2]I4`, and asks that `I2 + I4`
/// has two neutral points and then another; `cts` holds `K` and `C`.
#[verifier::external_body]
fn check_not_id(
    cts: [&Ciphertext; 2],
    i: [Ciphertext; 2],
    j: [Ciphertext; 2],
    z: [Scalar; 2],
    transcript: &mut Transcript,
) -> (r: bool)
    ensures
        r == (ct_scale(cts@[0]@, z@[0]@) == ct_add(
            i@[0]@,
            ct_scale(i@[1]@, challenges(Kind::NotId, transcript_entries(*old(transcript)))[0]),
        ) && ct_scale(cts@[1]@, z@[1]@) == ct_add(
            j@[0]@,
            ct_scale(j@[1]@, challenges(Kind::NotId, transcript_entries(*old(transcript)))[1]),
        ) && ct_add(i@[1]@, j@[1]@).r1 == 0 && ct_add(i@[1]@, j@[1]@).r2 == 0 && ct_add(
            i@[1]@,
            j@[1]@,
        ).b != 0),
        transcript_entries(*final(transcript)) == transcript_entries(*old(transcript)).push(
            challenge("c1"@),
        ).push(challenge("c2"@)),
{
    let [key, ct] = cts.map(
        |x| GroupCiphertext::<RistrettoGroup>::from_bytes(&x.to_bytes()).unwrap(),
    );
    let params = GroupParams { g1: key.random_point, g2: key.random_point2 };
    let pk = GroupPublicKey { h: key.blinded_point };
    let public = NotIdPublicBorrowed::new(&pk, &params, &ct);
    let fields = BTreeMap::from([
        ("commitments_pk", i.map(|x| x.to_bytes())),
        ("commitments_ct", j.map(|x| x.to_bytes())),
        ("responses", z.map(|x| x.to_bytes().to_vec())),
    ]);
    let proof = serde_cbor::from_slice(&serde_cbor::to_vec(&fields).unwrap()).unwrap();
    NotIdProtocol::verify_relation(public, &proof, transcript).is_ok()
}

/// Draws the challenges again and checks the equations.
pub fn verify_relation(s: &Statement, p: &SubProof, transcript: &mut Transcript) -> (r: Result<
    (),
    CryptoError,
>)
    requires
        p.kind() == s@.kind(),
    ensures
        r == verdict(
            objection(
                s@,
                p@,
                challenges(s@.kind(), transcript_entries(*old(transcript))),
            ),
        ),
        transcript_entries(*final(transcript)) == transcript_entries(*old(transcript))
            + challenge_steps(s@.kind()),
{
    let key = s.pk.to_ciphertext(&s.params);
    let ghost before = transcript_entries(*transcript);
    match (s.relation, p) {
        (Relation::Zero { ct }, SubProof::Zero { commitment, response }) => {
            let holds = check_zero(&key, &ct, commitment, response, transcript);
            proof {
                assert(transcript_entries(*transcript) =~= before + challenge_steps(Kind::Zero));
            }
            mismatch_unless(holds)
        },
        (Relation::Or { ct, values }, SubProof::Or { commitments, responses, challenges }) => {
            let holds = check_or(&key, &ct, values, commitments, responses, challenges, transcript);
            let c = challenge_scalar(transcript, "c");
            proof {
                assert(transcript_entries(*transcript) =~= before + challenge_steps(Kind::Or));
            }
            if commitments.len() != 2 || responses.len() != 2 || challenges.len() != 2 {
                return Err(CryptoError::InvalidInputShape);
            }
            proof {
                c.lemma_bounds();
                lemma_red_small(c@);
            }
            if !challenges[0].plus(&challenges[1]).equals(&c) {
                return Err(CryptoError::ChallengeMismatch);
            }
            mismatch_unless(holds)
        },
        (Relation::Exp { ct, base }, SubProof::Exp { commitment, z_r, z_x }) => {
            let c = challenge_scalar(transcript, "c");
            proof {
                assert(transcript_entries(*transcript) =~= before + challenge_steps(Kind::Exp));
                lemma_put(s@.key, base.log() * z_x@, z_r@);
            }
            let lhs = key.times(z_r).hom_add(&base.times(z_x));
            mismatch_unless(lhs.equals(&commitment.plus(&ct.times(&c))))
        },
        (Relation::NotId { ct }, SubProof::NotId { commitments_pk, commitments_ct, z }) => {
            let holds = check_not_id(
                [&key, &ct],
                *commitments_pk,
                *commitments_ct,
                *z,
                transcript,
            );
            proof {
                assert(transcript_entries(*transcript) =~= before + challenge_steps(Kind::NotId));
            }
            mismatch_unless(holds)
        },
        (
            Relation::LogEq { c1, c2, g3, o },
            SubProof::LogEq { commitment, response_delta, response_m },
        ) => {
            let holds = check_log_eq(
                [&key, commitment, &c1, &c2],
                [&g3, &o],
                [response_delta, response_m],
                transcript,
            );
            proof {
                assert(transcript_entries(*transcript) =~= before + challenge_steps(Kind::LogEq));
            }
            mismatch_unless(holds)
        },
        _ => Ok(()),
    }
}

/// The result that goes with an objection.
pub open spec fn verdict(objection: Option<CryptoError>) -> Result<(), CryptoError> {
    match objection {
        Some(error) => Err(error),
        None => Ok(()),
    }
}

fn mismatch_unless(holds: bool) -> (r: Result<(), CryptoError>)
    ensures
        r == if holds {
            Ok::<(), CryptoError>(())
        } else {
            Err(CryptoError::CommitmentMismatch)
        },
{
    if holds {
        Ok(())
    } else {
        Err(CryptoError::CommitmentMismatch)
    }
}

// Algebra.

proof fn lemma_small_value(v: u64)
    ensures
        red(1 * v as int) == v,
{
    lemma_order();
    lemma_red_small(v as int);
}

proof fn lemma_scale_red(x: CtView, k: int)
    ensures
        ct_scale(x, red(k)) == ct_scale(x, k),
{
    lemma_red_mul(x.r1, k);
    lemma_red_mul(x.r2, k);
    lemma_red_mul(x.b, k);
}

proof fn lemma_negated_scale(x: CtView, k: int)
    ensures
        ct_scale(ct_sub(crate::elgamal::ct_zero(), x), k) == ct_scale(x, -k),
{
    lemma_red_mul(0 - x.r1, k);
    lemma_red_mul(0 - x.r2, k);
    lemma_red_mul(0 - x.b, k);
    assert((0 - x.r1) * k == x.r1 * (-k)) by (nonlinear_arith);
    assert((0 - x.r2) * k == x.r2 * (-k)) by (nonlinear_arith);
    assert((0 - x.b) * k == x.b * (-k)) by (nonlinear_arith);
}

proof fn lemma_put(key: CtView, m: int, r: int)
    ensures
        ct_put(ct_scale(key, r), red(m)) == ct_encrypt(key, m, r),
{
    lemma_red_add(key.b * r, m);
}

proof fn lemma_put_scale(key: CtView, d: int, t: int)
    ensures
        ct_scale(ct_put(key, red(d)), t) == ct_encrypt(key, d * t, t),
{
    lemma_red_add(key.b, d);
    lemma_red_mul(key.b + d, t);
    assert((key.b + d) * t == key.b * t + d * t) by (nonlinear_arith);
}

/// An honest proof is accepted: where the witness shows the statement, the
/// verifier has nothing to object to the prover's proof, whatever the nonces
/// and the challenges; with the exception of a not-identity proof whose nonce
/// is zero.
pub proof fn law_honest_proof(s: StatementView, w: Witness, n: Nonces, c: Seq<int>)
    requires
        w.fits(s.kind()),
        n.kind() == s.kind(),
        n.drawn(),
        !n.vanishes(),
        shows(s, w),
        c.len() == challenge_steps(s.kind()).len(),
    ensures
        objection(s, proof_of(s, w, n, c), c) is None,
{
    let key = s.key;
    let p = proof_of(s, w, n, c);
    match (s.relation, w, n) {
        (RelationView::Zero { ct }, Witness::Zero { r }, Nonces::Zero { t }) => {
            lemma_linear(key, 0, r@, 0, t@, c[0]);
        },
        (RelationView::Or { ct, values }, Witness::Or { index, r }, Nonces::Or { t, sim_c, sim_z }) => {
            let own = p.challenges[index as int];
            let other = 1 - index;
            let sim = sim_c@[other]@;
            lemma_red_add(c[0] - sim, sim);
            assert(red(p.challenges[0] + p.challenges[1]) == red(c[0]));
            let v = values[index as int];
            lemma_encrypt_strip(key, v, r@, v);
            lemma_linear(key, 0, r@, 0, t@, own);
            assert(branch_holds(
                key,
                ct,
                v,
                p.commitments[index as int],
                own,
                p.responses[index as int],
            ));
            let u = values[other];
            let z = sim_z@[other]@;
            lemma_encrypt_strip(key, v, r@, u);
            lemma_encrypt_scale(key, v - u, r@, sim);
            lemma_encrypt_sub(key, 0, z, (v - u) * sim, r@ * sim);
            lemma_encrypt_add(
                key,
                0 - (v - u) * sim,
                z - r@ * sim,
                (v - u) * sim,
                r@ * sim,
            );
            assert(branch_holds(key, ct, u, p.commitments[other], sim, z));
        },
        (RelationView::Exp { ct, base }, Witness::Exp { r, x }, Nonces::Exp { t_r, t_x }) => {
            let b = base;
            lemma_linear(key, b * x@, r@, b * t_x@, t_r@, c[0]);
            let zx = c[0] * x@ + t_x@;
            lemma_red_mul(b, zx);
            lemma_encrypt_red(key, b * zx, p.responses[0]);
            lemma_encrypt_red(key, b * red(zx), p.responses[0]);
            assert((b * x@) * c[0] + b * t_x@ == b * zx) by (nonlinear_arith)
                requires
                    zx == c[0] * x@ + t_x@,
            ;
        },
        (RelationView::NotId { ct }, Witness::NotId { r }, Nonces::NotId { t, t1, t2 }) => {
            let m = choose|m: int| ct == #[trigger] ct_encrypt(key, m, r@) && red(m) != 0;
            let rt = r@ * t@;
            lemma_linear(key, 0, rt, 0, t1@, c[0]);
            let k = t2@ - c[1] * t@;
            lemma_scale_red(ct, k);
            lemma_encrypt_scale(key, m, r@, k);
            lemma_encrypt_scale(key, m, r@, t2@);
            lemma_encrypt_scale(key, m, r@, -t@);
            lemma_encrypt_scale(key, m * (-t@), r@ * (-t@), c[1]);
            lemma_encrypt_add(key, m * t2@, r@ * t2@, (m * (-t@)) * c[1], (r@ * (-t@)) * c[1]);
            assert(m * t2@ + (m * (-t@)) * c[1] == m * k) by (nonlinear_arith)
                requires
                    k == t2@ - c[1] * t@,
            ;
            assert(r@ * t2@ + (r@ * (-t@)) * c[1] == r@ * k) by (nonlinear_arith)
                requires
                    k == t2@ - c[1] * t@,
            ;
            lemma_encrypt_add(key, 0, rt, m * (-t@), r@ * (-t@));
            assert(rt + r@ * (-t@) == 0) by (nonlinear_arith)
                requires
                    rt == r@ * t@,
            ;
            assert(key.r1 * 0 == 0 && key.r2 * 0 == 0 && key.b * 0 == 0);
            lemma_order();
            lemma_red_small(0);
            lemma_red_nonzero(m, t@);
            assert(m * (-t@) == 0 - m * t@) by (nonlinear_arith);
            if red(m * (-t@)) == 0 {
                lemma_red_sub(0, m * (-t@));
            }
        },
        (RelationView::LogEq { c1, c2, d }, Witness::LogEq { m, delta_r }, Nonces::LogEq { t }) => {
            lemma_linear(key, d * m@, delta_r@, d * t@, t@, c[0]);
            let zm = c[0] * m@ + t@;
            lemma_red_mul(d, zm);
            lemma_encrypt_red(key, d * zm, p.responses[0]);
            lemma_encrypt_red(key, d * red(zm), p.responses[0]);
            assert((d * m@) * c[0] + d * t@ == d * zm) by (nonlinear_arith)
                requires
                    zm == c[0] * m@ + t@,
            ;
        },
        _ => {},
    }
}

/// The verifier's equation in its general form: an encryption of `n` with
/// nonce `t`, plus `c` times an encryption of `m` with randomness `r`.
proof fn lemma_linear(key: CtView, m: int, r: int, n: int, t: int, c: int)
    ensures
        ct_add(ct_encrypt(key, n, t), ct_scale(ct_encrypt(key, m, r), c)) == ct_encrypt(
            key,
            m * c + n,
            red(c * r + t),
        ),
{
    lemma_encrypt_scale(key, m, r, c);
    lemma_encrypt_add(key, n, t, m * c, r * c);
    lemma_encrypt_red(key, m * c + n, c * r + t);
    assert(t + r * c == c * r + t) by (nonlinear_arith);
}

} // verus!
