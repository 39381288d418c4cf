//! The encrypted credential of a ballot, and the proof that it is one.

use rand::rngs::StdRng;
use vstd::prelude::*;

use crate::arith::{lemma_red_mul, lemma_red_small, red};
use crate::elgamal::{
    ct_add, ct_encrypt, lemma_encrypt_red, lemma_encrypt_sub, Ciphertext, CtView,
    ExtendedCiphertext,
};
use crate::error::CryptoError;
use crate::group::{Point, Scalar};
use crate::proofs::compound::{
    all_shown, check_all, copy_proofs, kinds, list_proved, list_verdict, proof_kinds, proof_views, prove_all,
    statement_views,
};
use crate::proofs::relation::{
    shown, shows, Kind, Relation, RelationView, Statement, StatementView, SubProof, Witness,
};
use crate::protocol::keys::ElectionPublicKey;
use crate::protocol::vote::auth::VotingCredential;
use crate::transcript::{prelude, start_proof};

verus! {

/// The encrypted credential with the randomness.
#[allow(non_snake_case)]
#[derive(Clone, Copy, Debug)]
pub struct ExtendedEncrAuthValues {
    pub B: Point,
    pub s: Scalar,
    pub A_enc: ExtendedCiphertext,
    pub Ar_enc: ExtendedCiphertext,
    pub g3x_enc: ExtendedCiphertext,
    pub ox_enc: ExtendedCiphertext,
}

impl ExtendedEncrAuthValues {
    /// Whether this encrypts the credential, opened with the secret `x`.
    pub open spec fn encrypts(self, credential: VotingCredential, pk: ElectionPublicKey, x: int) -> bool {
        let a = credential.sign.A.log();
        &&& self.B.log() == red(a * self.s@)
        &&& self.A_enc.encrypts(pk.key(), a)
        &&& self.Ar_enc.encrypts(pk.key(), red(a * credential.sign.r@))
        &&& self.g3x_enc.encrypts(pk.key(), red(pk.params.g3.log() * x))
        &&& self.ox_enc.encrypts(pk.key(), red(pk.params.o.log() * x))
    }

    /// Encrypts a credential, opened with a PIN.
    #[allow(non_snake_case)]
    pub fn new(credential: &VotingCredential, pk: &ElectionPublicKey, pin: usize, rng: &mut StdRng) -> (r:
        Self)
        ensures
            r.encrypts(*credential, *pk, credential.masked_pin.secret(pin as int)),
    {
        let x = credential.get_x(pin);
        let g3x_enc = pk.encrypt(&pk.params.g3.times(&x), rng);
        let A_enc = pk.encrypt(&credential.sign.A, rng);
        let Ar_enc = pk.encrypt(&credential.sign.A.times(&credential.sign.r), rng);
        let s = Scalar::random(rng);
        let B = credential.sign.A.times(&s);
        let ox_enc = pk.encrypt(&pk.params.o.times(&x), rng);
        ExtendedEncrAuthValues { B, s, A_enc, Ar_enc, g3x_enc, ox_enc }
    }

    /// Forgets the randomness.
    pub fn to_encrypted(&self) -> (r: EncrAuthValues)
        ensures
            r == (EncrAuthValues {
                B: self.B,
                A_enc: self.A_enc.inner,
                Ar_enc: self.Ar_enc.inner,
                g3x_enc: self.g3x_enc.inner,
                ox_enc: self.ox_enc.inner,
            }),
    {
        EncrAuthValues {
            B: self.B,
            A_enc: self.A_enc.inner,
            Ar_enc: self.Ar_enc.inner,
            g3x_enc: self.g3x_enc.inner,
            ox_enc: self.ox_enc.inner,
        }
    }
}

/// The encrypted credential.
#[allow(non_snake_case)]
#[derive(Clone, Copy, Debug, PartialEq)]
pub struct EncrAuthValues {
    pub B: Point,
    pub A_enc: Ciphertext,
    pub Ar_enc: Ciphertext,
    pub g3x_enc: Ciphertext,
    pub ox_enc: Ciphertext,
}

impl EncrAuthValues {
    /// What is kept once the proof was checked.
    pub fn to_short(&self) -> (r: ShortEncrAuthValues)
        ensures
            r == (ShortEncrAuthValues {
                A_enc: self.A_enc,
                Ar_enc: self.Ar_enc,
                g3x_enc: self.g3x_enc,
            }),
    {
        ShortEncrAuthValues { A_enc: self.A_enc, Ar_enc: self.Ar_enc, g3x_enc: self.g3x_enc }
    }
}

/// The part of the encrypted credential that is kept.
#[allow(non_snake_case)]
#[derive(Clone, Copy, Debug, PartialEq)]
pub struct ShortEncrAuthValues {
    pub A_enc: Ciphertext,
    pub Ar_enc: Ciphertext,
    pub g3x_enc: Ciphertext,
}

/// Whether `new` is `old`, re-encrypted with the randomness it carries.
pub open spec fn re_encryption(new: ExtendedCiphertext, old: CtView, key: CtView) -> bool {
    new.inner@ == ct_add(ct_encrypt(key, 0, new.random_scalar@), old)
}

impl ShortEncrAuthValues {
    /// Re-encrypts.
    #[allow(non_snake_case)]
    pub fn re_encrypt(&self, pk: &ElectionPublicKey, rng: &mut StdRng) -> (r:
        ExtendedShortEncrAuthValues)
        ensures
            re_encryption(r.A_enc, self.A_enc@, pk.key()),
            re_encryption(r.Ar_enc, self.Ar_enc@, pk.key()),
            re_encryption(r.g3x_enc, self.g3x_enc@, pk.key()),
    {
        let tally = &pk.params.tally;
        let elgamal = &pk.params.elgamal;
        let A_enc = ExtendedCiphertext::re_encrypt(&self.A_enc, tally, elgamal, rng);
        let Ar_enc = ExtendedCiphertext::re_encrypt(&self.Ar_enc, tally, elgamal, rng);
        let g3x_enc = ExtendedCiphertext::re_encrypt(&self.g3x_enc, tally, elgamal, rng);
        ExtendedShortEncrAuthValues { A_enc, Ar_enc, g3x_enc }
    }
}

/// The part that is kept, with the randomness.
#[allow(non_snake_case)]
#[derive(Clone, Copy, Debug)]
pub struct ExtendedShortEncrAuthValues {
    pub A_enc: ExtendedCiphertext,
    pub Ar_enc: ExtendedCiphertext,
    pub g3x_enc: ExtendedCiphertext,
}

impl ExtendedShortEncrAuthValues {
    /// Forgets the randomness.
    pub fn to_short(&self) -> (r: ShortEncrAuthValues)
        ensures
            r == (ShortEncrAuthValues {
                A_enc: self.A_enc.inner,
                Ar_enc: self.Ar_enc.inner,
                g3x_enc: self.g3x_enc.inner,
            }),
    {
        ShortEncrAuthValues {
            A_enc: self.A_enc.inner,
            Ar_enc: self.Ar_enc.inner,
            g3x_enc: self.g3x_enc.inner,
        }
    }
}

/// The claims on the encrypted credential: `A` and `[r]A` are known multiples
/// of `B`, `A` is not neutral, and both encryptions of the secret agree.
pub open spec fn auth_claims(pk: ElectionPublicKey, auth: EncrAuthValues) -> Seq<StatementView> {
    let key = pk.key();
    let base = auth.B.log();
    seq![
        StatementView { key, relation: RelationView::Exp { ct: auth.A_enc@, base } },
        StatementView { key, relation: RelationView::Exp { ct: auth.Ar_enc@, base } },
        StatementView { key, relation: RelationView::NotId { ct: auth.A_enc@ } },
        StatementView {
            key,
            relation: RelationView::LogEq {
                c1: auth.g3x_enc@,
                c2: auth.ox_enc@,
                d: pk.params.g3.log() - pk.params.o.log(),
            },
        },
    ]
}

/// What is claimed of the encrypted credential.
pub struct ProofAuthValuesPublic {
    pub statements: Vec<Statement>,
}

impl ProofAuthValuesPublic {
    /// The claims on the encrypted credential.
    pub fn new(auth: &EncrAuthValues, election_pk: &ElectionPublicKey) -> (r: Self)
        ensures
            statement_views(r.statements@) == auth_claims(*election_pk, *auth),
    {
        let pk = election_pk.params.tally;
        let params = election_pk.params.elgamal;
        let mut statements: Vec<Statement> = Vec::new();
        statements.push(
            Statement { pk, params, relation: Relation::Exp { ct: auth.A_enc, base: auth.B } },
        );
        statements.push(
            Statement { pk, params, relation: Relation::Exp { ct: auth.Ar_enc, base: auth.B } },
        );
        statements.push(Statement { pk, params, relation: Relation::NotId { ct: auth.A_enc } });
        statements.push(
            Statement {
                pk,
                params,
                relation: Relation::LogEq {
                    c1: auth.g3x_enc,
                    c2: auth.ox_enc,
                    g3: election_pk.params.g3,
                    o: election_pk.params.o,
                },
            },
        );
        proof {
            assert(statement_views(statements@) =~= auth_claims(*election_pk, *auth));
        }
        ProofAuthValuesPublic { statements }
    }
}

/// What the prover knows.
pub struct ProofAuthValuesWitness {
    pub witnesses: Vec<Witness>,
}

impl ProofAuthValuesWitness {
    /// Whether the witnesses are those for the encrypted credential, opened with
    /// the secret `x`: the multiples are the inverse of `s`, and `r` times it.
    pub open spec fn knows(self, auth: ExtendedEncrAuthValues, credential: VotingCredential, x: int) -> bool {
        let w = self.witnesses@;
        let inverse = w[0].values()[1];
        &&& w.len() == 4
        &&& w[0].fits(Kind::Exp)
        &&& w[1].fits(Kind::Exp)
        &&& w[2].fits(Kind::NotId)
        &&& w[3].fits(Kind::LogEq)
        &&& w[0].values() == seq![auth.A_enc.random_scalar@, inverse]
        &&& auth.s@ != 0 ==> red(inverse * auth.s@) == 1
        &&& w[1].values() == seq![
            auth.Ar_enc.random_scalar@,
            red(credential.sign.r@ * inverse),
        ]
        &&& w[2].values() == seq![auth.A_enc.random_scalar@]
        &&& w[3].values() == seq![
            x,
            red(auth.g3x_enc.random_scalar@ - auth.ox_enc.random_scalar@),
        ]
    }

    /// The witness for the claims on the encrypted credential.
    pub fn new(auth: &ExtendedEncrAuthValues, credential: &VotingCredential, pin: usize) -> (r: Self)
        ensures
            r.knows(*auth, *credential, credential.masked_pin.secret(pin as int)),
    {
        let x = credential.get_x(pin);
        let inverse = auth.s.inverse();
        let mut witnesses: Vec<Witness> = Vec::new();
        witnesses.push(Witness::Exp { r: auth.A_enc.random_scalar, x: inverse });
        witnesses.push(
            Witness::Exp { r: auth.Ar_enc.random_scalar, x: credential.sign.r.times(&inverse) },
        );
        witnesses.push(Witness::NotId { r: auth.A_enc.random_scalar });
        witnesses.push(
            Witness::LogEq {
                m: x,
                delta_r: auth.g3x_enc.random_scalar.minus(&auth.ox_enc.random_scalar),
            },
        );
        ProofAuthValuesWitness { witnesses }
    }
}

/// The proof that a ballot holds a credential.
#[derive(Debug, PartialEq)]
pub struct ProofAuthValues {
    pub proofs: Vec<SubProof>,
}

impl Clone for ProofAuthValues {
    fn clone(&self) -> (r: Self)
        ensures
            proof_views(r.proofs@) == proof_views(self.proofs@),
            proof_kinds(r.proofs@) == proof_kinds(self.proofs@),
    {
        ProofAuthValues { proofs: copy_proofs(&self.proofs) }
    }
}

impl ProofAuthValues {
    /// What the verifier says to the proof when it stands alone.
    pub open spec fn verdict(self, public: ProofAuthValuesPublic) -> Result<(), CryptoError> {
        list_verdict(
            statement_views(public.statements@),
            proof_views(self.proofs@),
            prelude("auth-values"@),
        )
    }

    /// Proves the claims, with fresh randomness.
    pub fn prove(
        public: &ProofAuthValuesPublic,
        witness: &ProofAuthValuesWitness,
        rng: &mut StdRng,
    ) -> (r: Self)
        requires
            witness.witnesses@.len() == public.statements@.len(),
            forall|k: int|
                #![trigger public.statements@[k]]
                0 <= k < public.statements@.len() ==> witness.witnesses@[k].fits(
                    public.statements@[k]@.kind(),
                ),
        ensures
            proof_kinds(r.proofs@) == kinds(statement_views(public.statements@)),
            list_proved(
                statement_views(public.statements@),
                witness.witnesses@,
                proof_views(r.proofs@),
                prelude("auth-values"@),
            ),
    {
        proof {
            reveal_strlit("auth-values");
        }
        let mut transcript = start_proof("auth-values");
        let proofs = prove_all(&public.statements, &witness.witnesses, &mut transcript, rng);
        ProofAuthValues { proofs }
    }

    /// Checks the proof.
    pub fn verify(&self, public: &ProofAuthValuesPublic) -> (r: Result<(), CryptoError>)
        requires
            proof_kinds(self.proofs@) == kinds(statement_views(public.statements@)),
        ensures
            r == self.verdict(*public),
    {
        proof {
            reveal_strlit("auth-values");
        }
        let mut transcript = start_proof("auth-values");
        check_all(&public.statements, &self.proofs, &mut transcript)
    }
}

/// An honest ballot shows its claims: what the prover knows shows every claim on
/// the encrypted credential, unless the blinding factor `s` is zero or the
/// signature's point is neutral.
pub proof fn law_honest_credential(
    pk: ElectionPublicKey,
    credential: VotingCredential,
    ext: ExtendedEncrAuthValues,
    auth: EncrAuthValues,
    x: int,
    witness: ProofAuthValuesWitness,
)
    requires
        ext.encrypts(credential, pk, x),
        ext.s@ != 0,
        credential.sign.A.log() != 0,
        auth.B.log() == ext.B.log(),
        auth.A_enc@ == ext.A_enc.inner@,
        auth.Ar_enc@ == ext.Ar_enc.inner@,
        auth.g3x_enc@ == ext.g3x_enc.inner@,
        auth.ox_enc@ == ext.ox_enc.inner@,
        witness.knows(ext, credential, x),
    ensures
        all_shown(auth_claims(pk, auth), witness.witnesses@),
{
    let key = pk.key();
    let a = credential.sign.A.log();
    let r = credential.sign.r@;
    let s = ext.s@;
    let w = witness.witnesses@;
    let claims = auth_claims(pk, auth);
    let inverse = w[0].values()[1];
    // [inverse]B = A
    lemma_red_mul(a * s, inverse);
    lemma_red_mul(a, inverse * s);
    assert((a * s) * inverse == a * (inverse * s)) by (nonlinear_arith);
    assert(a * 1 == a);
    assert(red(ext.B.log() * inverse) == red(a));
    lemma_encrypt_red(key, ext.B.log() * inverse, ext.A_enc.random_scalar@);
    lemma_encrypt_red(key, a, ext.A_enc.random_scalar@);
    assert(shown(claims[0], w[0].values()));
    // [r * inverse]B = [r]A
    let b = ext.B.log();
    lemma_red_mul(b, r * inverse);
    lemma_red_mul(b * inverse, r);
    lemma_red_mul(a, r);
    assert(b * (r * inverse) == (b * inverse) * r) by (nonlinear_arith);
    assert(red(b * red(r * inverse)) == red(a * r));
    lemma_encrypt_red(key, b * red(r * inverse), ext.Ar_enc.random_scalar@);
    lemma_encrypt_red(key, a * r, ext.Ar_enc.random_scalar@);
    assert(shown(claims[1], w[1].values()));
    // A is encrypted with the known randomness.
    let known = w[2].values();
    assert(claims[2].relation == RelationView::NotId { ct: auth.A_enc@ });
    assert(known[0] == ext.A_enc.random_scalar@);
    assert(auth.A_enc@ == ct_encrypt(claims[2].key, a, known[0]));
    credential.sign.A.lemma_bounds();
    lemma_red_small(a);
    assert(shown(claims[2], known));
    // Both encryptions of the secret.
    let g3 = pk.params.g3.log();
    let o = pk.params.o.log();
    let r1 = ext.g3x_enc.random_scalar@;
    let r2 = ext.ox_enc.random_scalar@;
    lemma_encrypt_red(key, g3 * x, r1);
    lemma_encrypt_red(key, o * x, r2);
    lemma_encrypt_sub(key, g3 * x, r1, o * x, r2);
    assert(g3 * x - o * x == (g3 - o) * x) by (nonlinear_arith);
    lemma_encrypt_red(key, (g3 - o) * x, r1 - r2);
    assert(shown(claims[3], w[3].values()));
    assert forall|k: int| #![trigger claims[k]] 0 <= k < claims.len() implies shows(
        claims[k],
        w[k],
    ) by {}
}

} // verus!
