//! Verification codes for cast-as-intended checks.
//!
//! A ballot carries, for each level, an encrypted code and the encrypted sum of
//! code and choice modulo the code's modulus.  The voter may ask for one of
//! both to be opened.

use rand::rngs::StdRng;
use vstd::prelude::*;

use crate::arith::{lemma_order, lemma_red_add, lemma_red_small, lemma_red_sub, red};
use crate::constants::CAI_POW;
use crate::elgamal::{
    ct_add, ct_encrypt, ct_ranked_sum, ct_sub, ct_views, ct_zero, dlog_table_values,
    lemma_encrypt_add, lemma_encrypt_red, lemma_encrypt_scale, lemma_encrypt_sub, table_lookup,
    Ciphertext, CtView, DlogTable, ExtendedCiphertext,
};
use crate::error::{CryptoError, Error};
use crate::group::Scalar;
use crate::proofs::compound::{
    all_shown, check_all, copy_proofs, kinds, lemma_list_accepted, list_proved, list_verdict,
    proof_kinds, proof_views, prove_all, statement_views,
};
use crate::proofs::relation::{
    shown, shows, Kind, Relation, RelationView, Statement, StatementView, SubProof, Witness,
};
use crate::protocol::keys::ElectionPublicKey;
use crate::protocol::vote::choice::{
    bit, encrypts_marks, inner_views, randomness, Choice, ChoiceParameters, EncrChoice,
    EncrChoiceView, ExtendedEncrChoice,
};
use crate::protocol::vote::choice_proof::{
    encrypted, lemma_party_marks, mark_values, witness_values,
};
use crate::random::next_u32;
use crate::transcript::{prelude, start_proof};

verus! {

/// The codes, and the sums of code and choice.
#[derive(Clone, Copy, Debug, PartialEq, Eq)]
pub struct ValuesCAI {
    pub l1_code: u32,
    pub l1_sum: u32,
    pub l2_code: u32,
    pub l2_sum: u32,
}

impl ValuesCAI {
    /// The number of the chosen candidate: the first one, or zero where there
    /// are no candidates at all.
    pub open spec fn candidate(choice: Choice) -> u32 {
        if choice.l2@.len() == 0 {
            0
        } else {
            choice.l2_value@[0] as u32
        }
    }

    /// Whether the values belong to the choice.
    pub open spec fn belongs(self, choice: Choice, n_digits: u32) -> bool {
        &&& self.l1_code < n_digits
        &&& self.l2_code < n_digits
        &&& self.l1_sum == self.l1_code + (choice.l1_value as u32)
        &&& self.l2_sum == self.l2_code + Self::candidate(choice)
    }

    /// Random codes below `n_digits` for a choice.
    pub fn new(choice: &Choice, n_digits: u32, rng: &mut StdRng) -> (r: ValuesCAI)
        requires
            n_digits > 0,
            (choice.l1_value as u32) + n_digits - 1 <= u32::MAX,
            choice.l2@.len() > 0 ==> choice.l2_value@.len() > 0,
            Self::candidate(*choice) + n_digits - 1 <= u32::MAX,
        ensures
            r.belongs(*choice, n_digits),
    {
        let l1_code = next_u32(rng) % n_digits;
        let l2_code = next_u32(rng) % n_digits;
        let l1_sum = l1_code + (choice.l1_value as u32);
        let l2c: u32 = if choice.l2.len() == 0 {
            0
        } else {
            choice.l2_value[0] as u32
        };
        let l2_sum = l2_code + l2c;
        ValuesCAI { l1_code, l1_sum, l2_code, l2_sum }
    }
}

/// The encrypted values with the randomness.
#[derive(Clone, Copy, Debug)]
pub struct ExtendedEncrValuesCAI {
    pub l1_code_enc: ExtendedCiphertext,
    pub l1_sum_enc: ExtendedCiphertext,
    pub l2_code_enc: ExtendedCiphertext,
    pub l2_sum_enc: ExtendedCiphertext,
}

/// The encrypted values.
#[derive(Clone, Copy, Debug, PartialEq)]
pub struct EncrValuesCAI {
    pub l1_code_enc: Ciphertext,
    pub l1_sum_enc: Ciphertext,
    pub l2_code_enc: Ciphertext,
    pub l2_sum_enc: Ciphertext,
}

/// An opened value: the code or the sum, with the randomness.
#[derive(Clone, Copy, Debug, PartialEq)]
pub enum ChoiceRevealedCAI {
    Code { l_v: Scalar, l_r: Scalar },
    Sum { l_v: Scalar, l_r: Scalar },
}

/// The opened values of both levels.
#[derive(Clone, Copy, Debug, PartialEq)]
pub struct RevealedCAI {
    pub l1: ChoiceRevealedCAI,
    pub l2: ChoiceRevealedCAI,
}

/// The randomness that opens the code or the sum.
#[derive(Clone, Copy, Debug, PartialEq)]
pub enum ChoiceDiscloseCAI {
    Code { l_r: Scalar },
    Sum { l_r: Scalar },
}

/// The randomness that opens both levels.
#[derive(Clone, Copy, Debug, PartialEq)]
pub struct DiscloseCAI {
    pub l1: ChoiceDiscloseCAI,
    pub l2: ChoiceDiscloseCAI,
}

impl ChoiceRevealedCAI {
    /// Whether the code is opened, with which value and randomness.
    pub open spec fn parts(self) -> (bool, int, int) {
        match self {
            ChoiceRevealedCAI::Code { l_v, l_r } => (true, l_v@, l_r@),
            ChoiceRevealedCAI::Sum { l_v, l_r } => (false, l_v@, l_r@),
        }
    }

    fn disclose(self) -> (r: ChoiceDiscloseCAI)
        ensures
            r.parts() == (self.parts().0, self.parts().2),
    {
        match self {
            ChoiceRevealedCAI::Code { l_v: _, l_r } => ChoiceDiscloseCAI::Code { l_r },
            ChoiceRevealedCAI::Sum { l_v: _, l_r } => ChoiceDiscloseCAI::Sum { l_r },
        }
    }
}

impl ChoiceDiscloseCAI {
    /// Whether the code is opened, with which randomness.
    pub open spec fn parts(self) -> (bool, int) {
        match self {
            ChoiceDiscloseCAI::Code { l_r } => (true, l_r@),
            ChoiceDiscloseCAI::Sum { l_r } => (false, l_r@),
        }
    }
}

impl DiscloseCAI {
    /// Keeps only the randomness.
    pub fn from_reveal(reveal: RevealedCAI) -> (r: Self)
        ensures
            r.l1.parts() == (reveal.l1.parts().0, reveal.l1.parts().2),
            r.l2.parts() == (reveal.l2.parts().0, reveal.l2.parts().2),
    {
        DiscloseCAI { l1: reveal.l1.disclose(), l2: reveal.l2.disclose() }
    }
}

impl ExtendedEncrValuesCAI {
    /// Whether these are encryptions of the values.
    pub open spec fn encrypts(self, key: CtView, cai: ValuesCAI) -> bool {
        &&& self.l1_code_enc.encrypts(key, cai.l1_code as int)
        &&& self.l1_sum_enc.encrypts(key, (cai.l1_sum % CAI_POW) as int)
        &&& self.l2_code_enc.encrypts(key, cai.l2_code as int)
        &&& self.l2_sum_enc.encrypts(key, (cai.l2_sum % CAI_POW) as int)
    }

    /// Encrypts the codes and the sums modulo the code's modulus.
    pub fn new(cai: &ValuesCAI, pk: &ElectionPublicKey, rng: &mut StdRng) -> (r: Self)
        ensures
            r.encrypts(pk.key(), *cai),
    {
        let l1_code_enc = pk.exp_encrypt(&Scalar::from_u64(cai.l1_code as u64), rng);
        let l1_sum_enc = pk.exp_encrypt(&Scalar::from_u64((cai.l1_sum % CAI_POW) as u64), rng);
        let l2_code_enc = pk.exp_encrypt(&Scalar::from_u64(cai.l2_code as u64), rng);
        let l2_sum_enc = pk.exp_encrypt(&Scalar::from_u64((cai.l2_sum % CAI_POW) as u64), rng);
        ExtendedEncrValuesCAI { l1_code_enc, l1_sum_enc, l2_code_enc, l2_sum_enc }
    }

    /// Forgets the randomness.
    pub fn to_encrypted(&self) -> (r: EncrValuesCAI)
        ensures
            r.l1_code_enc@ == self.l1_code_enc.inner@,
            r.l1_sum_enc@ == self.l1_sum_enc.inner@,
            r.l2_code_enc@ == self.l2_code_enc.inner@,
            r.l2_sum_enc@ == self.l2_sum_enc.inner@,
    {
        EncrValuesCAI {
            l1_code_enc: self.l1_code_enc.inner,
            l1_sum_enc: self.l1_sum_enc.inner,
            l2_code_enc: self.l2_code_enc.inner,
            l2_sum_enc: self.l2_sum_enc.inner,
        }
    }

    /// Opens the code (`true`) or the sum (`false`) of each level.
    pub fn reveal_values(&self, values: ValuesCAI, l1_c: bool, l2_c: bool) -> (r: RevealedCAI)
        ensures
            r.l1.parts() == if l1_c {
                (true, values.l1_code as int, self.l1_code_enc.random_scalar@)
            } else {
                (false, (values.l1_sum % CAI_POW) as int, self.l1_sum_enc.random_scalar@)
            },
            r.l2.parts() == if l2_c {
                (true, values.l2_code as int, self.l2_code_enc.random_scalar@)
            } else {
                (false, (values.l2_sum % CAI_POW) as int, self.l2_sum_enc.random_scalar@)
            },
    {
        let l1 = if l1_c {
            ChoiceRevealedCAI::Code {
                l_v: Scalar::from_u64(values.l1_code as u64),
                l_r: self.l1_code_enc.random_scalar,
            }
        } else {
            ChoiceRevealedCAI::Sum {
                l_v: Scalar::from_u64((values.l1_sum % CAI_POW) as u64),
                l_r: self.l1_sum_enc.random_scalar,
            }
        };
        let l2 = if l2_c {
            ChoiceRevealedCAI::Code {
                l_v: Scalar::from_u64(values.l2_code as u64),
                l_r: self.l2_code_enc.random_scalar,
            }
        } else {
            ChoiceRevealedCAI::Sum {
                l_v: Scalar::from_u64((values.l2_sum % CAI_POW) as u64),
                l_r: self.l2_sum_enc.random_scalar,
            }
        };
        RevealedCAI { l1, l2 }
    }
}

/// What comes of opening a ciphertext with the randomness `r`: the value, or
/// why there is none.
pub open spec fn opening(key: CtView, values: Set<u64>, ct: CtView, r: int) -> Result<int, CryptoError> {
    if ct.r1 != red(key.r1 * r) || ct.r2 != red(key.r2 * r) {
        Err(CryptoError::RandomPointMismatch)
    } else {
        match table_lookup(values, red(ct.b - key.b * r)) {
            Some(v) => Ok(v as int),
            None => Err(CryptoError::ElementNotFound),
        }
    }
}

impl EncrValuesCAI {
    /// The ciphertexts that a disclosure opens.
    pub open spec fn opened(self, discl: DiscloseCAI) -> (CtView, CtView) {
        (
            if discl.l1.parts().0 {
                self.l1_code_enc@
            } else {
                self.l1_sum_enc@
            },
            if discl.l2.parts().0 {
                self.l2_code_enc@
            } else {
                self.l2_sum_enc@
            },
        )
    }

    /// Opens one level.
    fn extract(
        code: &Ciphertext,
        sum: &Ciphertext,
        discl: ChoiceDiscloseCAI,
        pk: &ElectionPublicKey,
        table: &DlogTable,
    ) -> (r: Result<ChoiceRevealedCAI, CryptoError>)
        ensures
            ({
                let ct = if discl.parts().0 {
                    code@
                } else {
                    sum@
                };
                match opening(pk.key(), dlog_table_values(*table), ct, discl.parts().1) {
                    Ok(v) => r.is_ok() && r->Ok_0.parts() == (discl.parts().0, v, discl.parts().1),
                    Err(e) => r == Err::<ChoiceRevealedCAI, CryptoError>(e),
                }
            }),
    {
        match discl {
            ChoiceDiscloseCAI::Code { l_r } => {
                match pk.params.tally.exp_dec_with_rnd(&pk.params.elgamal, table, code, &l_r) {
                    Ok(l_v) => Ok(ChoiceRevealedCAI::Code { l_v, l_r }),
                    Err(e) => Err(e),
                }
            },
            ChoiceDiscloseCAI::Sum { l_r } => {
                match pk.params.tally.exp_dec_with_rnd(&pk.params.elgamal, table, sum, &l_r) {
                    Ok(l_v) => Ok(ChoiceRevealedCAI::Sum { l_v, l_r }),
                    Err(e) => Err(e),
                }
            },
        }
    }

    /// Recovers the values that a disclosure opens.
    #[allow(non_snake_case)]
    pub fn extract_CAI_values(&self, discl: DiscloseCAI, pk: &ElectionPublicKey, table: &DlogTable) -> (r:
        Result<RevealedCAI, Error>)
        ensures
            ({
                let (ct1, ct2) = self.opened(discl);
                let values = dlog_table_values(*table);
                let first = opening(pk.key(), values, ct1, discl.l1.parts().1);
                let second = opening(pk.key(), values, ct2, discl.l2.parts().1);
                match (first, second) {
                    (Ok(v1), Ok(v2)) => {
                        &&& r.is_ok()
                        &&& r->Ok_0.l1.parts() == (discl.l1.parts().0, v1, discl.l1.parts().1)
                        &&& r->Ok_0.l2.parts() == (discl.l2.parts().0, v2, discl.l2.parts().1)
                    },
                    (Err(e), _) => r == Err::<RevealedCAI, Error>(Error::FailedVerification(e)),
                    (_, Err(e)) => r == Err::<RevealedCAI, Error>(Error::FailedVerification(e)),
                }
            }),
    {
        let l1 = match Self::extract(&self.l1_code_enc, &self.l1_sum_enc, discl.l1, pk, table) {
            Ok(l1) => l1,
            Err(e) => return Err(Error::FailedVerification(e)),
        };
        let l2 = match Self::extract(&self.l2_code_enc, &self.l2_sum_enc, discl.l2, pk, table) {
            Ok(l2) => l2,
            Err(e) => return Err(Error::FailedVerification(e)),
        };
        Ok(RevealedCAI { l1, l2 })
    }
}

/// Opening gives back what was encrypted: with the right randomness, and where
/// the table knows the value.
pub proof fn law_opening(key: CtView, values: Set<u64>, v: u64, r: int)
    requires
        v == 0 || values.contains(v),
    ensures
        opening(key, values, ct_encrypt(key, v as int, r), r) == Ok::<int, CryptoError>(v as int),
{
    let m = key.b * r;
    lemma_red_sub(m + v as int, m);
    lemma_order();
    lemma_red_small(v as int);
}

// The proof that code, choice and sum agree.

/// The sum in which the value at position `i` counts `i + 1` times.
pub open spec fn ranked(q: Seq<int>) -> int
    decreases q.len(),
{
    if q.len() == 0 {
        0
    } else {
        ranked(q.drop_last()) + q.last() * (q.len() as int)
    }
}

/// `start`, plus the ranked sums of all rows without their first entries.
pub open spec fn with_candidates(start: CtView, rows: Seq<Seq<CtView>>) -> CtView
    decreases rows.len(),
{
    if rows.len() == 0 {
        start
    } else {
        ct_add(with_candidates(start, rows.drop_last()), ct_ranked_sum(rows.last().skip(1)))
    }
}

/// `start`, plus the ranked sums of the randomness of all rows.
pub open spec fn with_candidate_randomness(start: int, rows: Seq<Vec<ExtendedCiphertext>>) -> int
    decreases rows.len(),
{
    if rows.len() == 0 {
        start
    } else {
        with_candidate_randomness(start, rows.drop_last()) + ranked(
            randomness(rows.last()@).skip(1),
        )
    }
}

/// The claim that a ciphertext encrypts zero or the code's modulus.
pub open spec fn carry_claim(key: CtView, ct: CtView) -> StatementView {
    StatementView { key, relation: RelationView::Or { ct, values: seq![0, CAI_POW as int] } }
}

/// The claims that code plus choice is the sum, up to a carry.
pub open spec fn cai_claims(key: CtView, cai: EncrValuesCAI, v: EncrChoiceView) -> Seq<StatementView> {
    seq![
        carry_claim(
            key,
            ct_add(cai.l1_code_enc@, ct_sub(ct_ranked_sum(v.l1.skip(1)), cai.l1_sum_enc@)),
        ),
        carry_claim(key, ct_sub(with_candidates(cai.l2_code_enc@, v.l2), cai.l2_sum_enc@)),
    ]
}

/// What the prover knows: each carry, and the randomness.
pub open spec fn cai_knowledge(
    cai: ValuesCAI,
    ext: ExtendedEncrValuesCAI,
    choice: ExtendedEncrChoice,
) -> Seq<Seq<int>> {
    seq![
        seq![
            (cai.l1_sum / CAI_POW) as int,
            red(
                ext.l1_code_enc.random_scalar@ + (ranked(randomness(choice.l1@).skip(1))
                    - ext.l1_sum_enc.random_scalar@),
            ),
        ],
        seq![
            (cai.l2_sum / CAI_POW) as int,
            red(
                with_candidate_randomness(ext.l2_code_enc.random_scalar@, choice.l2@)
                    - ext.l2_sum_enc.random_scalar@,
            ),
        ],
    ]
}

/// What is claimed of the encrypted values.
pub struct ProofCAIPublic {
    pub statements: Vec<Statement>,
}

/// Whether there is a first entry on both levels.
pub open spec fn has_firsts(v: EncrChoiceView) -> bool {
    &&& v.l1.len() > 0
    &&& forall|i: int| #![trigger v.l2[i]] 0 <= i < v.l2.len() ==> v.l2[i].len() > 0
}

impl ProofCAIPublic {
    /// The claims on the encrypted values of an encrypted choice.
    pub fn new(pk: &ElectionPublicKey, enc_cai: &EncrValuesCAI, choice_enc: &EncrChoice) -> (r: Self)
        requires
            has_firsts(choice_enc@),
        ensures
            statement_views(r.statements@) == cai_claims(pk.key(), *enc_cai, choice_enc@),
    {
        let ranked_l1 = Ciphertext::ranked_sum(choice_enc.l1.as_slice(), 1);
        let ct1 = enc_cai.l1_code_enc.plus(&ranked_l1.minus(&enc_cai.l1_sum_enc));
        let ghost v = choice_enc@;
        let mut sum = enc_cai.l2_code_enc;
        let mut i: usize = 0;
        proof {
            assert(v.l2.take(0) =~= Seq::empty());
        }
        while i < choice_enc.l2.len()
            invariant
                i <= choice_enc.l2@.len(),
                v == choice_enc@,
                has_firsts(v),
                sum@ == with_candidates(enc_cai.l2_code_enc@, v.l2.take(i as int)),
            decreases choice_enc.l2@.len() - i,
        {
            proof {
                assert(v.l2[i as int] == ct_views(choice_enc.l2@[i as int]@));
                assert(v.l2.take(i + 1).drop_last() =~= v.l2.take(i as int));
                assert(v.l2.take(i + 1).last() == v.l2[i as int]);
            }
            sum = sum.plus(&Ciphertext::ranked_sum(choice_enc.l2[i].as_slice(), 1));
            i += 1;
        }
        proof {
            assert(v.l2.take(i as int) =~= v.l2);
        }
        let ct2 = sum.minus(&enc_cai.l2_sum_enc);
        let tally = pk.params.tally;
        let params = pk.params.elgamal;
        let values: [u64; 2] = [0, 100];
        let mut statements: Vec<Statement> = Vec::new();
        statements.push(Statement { pk: tally, params, relation: Relation::Or { ct: ct1, values } });
        statements.push(Statement { pk: tally, params, relation: Relation::Or { ct: ct2, values } });
        proof {
            assert(statements@[0]@.relation->Or_values =~= seq![0, CAI_POW as int]);
            assert(statements@[1]@.relation->Or_values =~= seq![0, CAI_POW as int]);
            assert(statement_views(statements@) =~= cai_claims(pk.key(), *enc_cai, v));
        }
        ProofCAIPublic { statements }
    }
}

/// What the prover knows.
pub struct ProofCAIWitness {
    pub witnesses: Vec<Witness>,
}

/// The ranked sum of the randomness of a list without its first entry.
fn ranked_randomness(cts: &Vec<ExtendedCiphertext>) -> (r: Scalar)
    requires
        cts@.len() > 0,
    ensures
        r@ == red(ranked(randomness(cts@).skip(1))),
{
    let mut sum = Scalar::from_u64(0);
    let ghost all = randomness(cts@);
    let mut i: usize = 1;
    proof {
        lemma_order();
        lemma_red_small(0);
        assert(all.subrange(1, 1) =~= Seq::<int>::empty());
    }
    while i < cts.len()
        invariant
            1 <= i <= cts@.len(),
            all == randomness(cts@),
            sum@ == red(ranked(all.subrange(1, i as int))),
        decreases cts@.len() - i,
    {
        let weight = Scalar::from_u64(i as u64);
        sum = sum.plus(&weight.times(&cts[i].random_scalar));
        proof {
            let next = all.subrange(1, i + 1);
            assert(next.drop_last() =~= all.subrange(1, i as int));
            let r = next.last();
            assert(weight@ * r == r * (i as int)) by (nonlinear_arith)
                requires
                    weight@ == i,
            ;
            lemma_red_add(ranked(next.drop_last()), r * (i as int));
        }
        i += 1;
    }
    proof {
        assert(all.subrange(1, i as int) =~= all.skip(1));
    }
    sum
}

impl ProofCAIWitness {
    /// The witness for the claims on the encrypted values.
    pub fn new(cai: &ValuesCAI, ext_cai: &ExtendedEncrValuesCAI, choice_enc: &ExtendedEncrChoice) -> (r:
        Self)
        requires
            cai.l1_sum / CAI_POW < 2,
            cai.l2_sum / CAI_POW < 2,
            has_firsts(choice_enc.inner()),
        ensures
            witness_values(r.witnesses@) == cai_knowledge(*cai, *ext_cai, *choice_enc),
            r.witnesses@.len() == 2,
            forall|k: int|
                #![trigger r.witnesses@[k]]
                0 <= k < r.witnesses@.len() ==> r.witnesses@[k].fits(Kind::Or),
    {
        proof {
            assert(choice_enc.inner().l1.len() == choice_enc.l1@.len());
        }
        let ranked_l1 = ranked_randomness(&choice_enc.l1);
        let r1 = ext_cai.l1_code_enc.random_scalar.plus(
            &ranked_l1.minus(&ext_cai.l1_sum_enc.random_scalar),
        );
        proof {
            let a = ext_cai.l1_code_enc.random_scalar@;
            let b = ranked(randomness(choice_enc.l1@).skip(1));
            let c = ext_cai.l1_sum_enc.random_scalar@;
            lemma_red_sub(b, c);
            lemma_red_add(a, b - c);
        }
        let mut sum = ext_cai.l2_code_enc.random_scalar;
        let ghost start = sum@;
        let mut i: usize = 0;
        proof {
            sum.lemma_bounds();
            lemma_red_small(start);
            assert(choice_enc.l2@.take(0) =~= Seq::<Vec<ExtendedCiphertext>>::empty());
        }
        while i < choice_enc.l2.len()
            invariant
                i <= choice_enc.l2@.len(),
                has_firsts(choice_enc.inner()),
                sum@ == red(with_candidate_randomness(start, choice_enc.l2@.take(i as int))),
            decreases choice_enc.l2@.len() - i,
        {
            proof {
                assert(choice_enc.inner().l2[i as int] == inner_views(choice_enc.l2@[i as int]@));
                let next = choice_enc.l2@.take(i + 1);
                assert(next.drop_last() =~= choice_enc.l2@.take(i as int));
                lemma_red_add(
                    with_candidate_randomness(start, next.drop_last()),
                    ranked(randomness(next.last()@).skip(1)),
                );
            }
            sum = sum.plus(&ranked_randomness(&choice_enc.l2[i]));
            i += 1;
        }
        let r2 = sum.minus(&ext_cai.l2_sum_enc.random_scalar);
        proof {
            assert(choice_enc.l2@.take(i as int) =~= choice_enc.l2@);
            lemma_red_sub(
                with_candidate_randomness(start, choice_enc.l2@),
                ext_cai.l2_sum_enc.random_scalar@,
            );
        }
        let mut witnesses: Vec<Witness> = Vec::new();
        witnesses.push(Witness::Or { index: (cai.l1_sum / CAI_POW) as usize, r: r1 });
        witnesses.push(Witness::Or { index: (cai.l2_sum / CAI_POW) as usize, r: r2 });
        proof {
            let knowledge = cai_knowledge(*cai, *ext_cai, *choice_enc);
            assert(witnesses@[0].values() =~= knowledge[0]);
            assert(witnesses@[1].values() =~= knowledge[1]);
            assert(witness_values(witnesses@) =~= knowledge);
        }
        ProofCAIWitness { witnesses }
    }
}

/// The proof that code, choice and sum agree.
#[derive(Debug, PartialEq)]
pub struct ProofCAI {
    pub proofs: Vec<SubProof>,
}

impl Clone for ProofCAI {
    fn clone(&self) -> (r: Self)
        ensures
            proof_views(r.proofs@) == proof_views(self.proofs@),
            proof_kinds(r.proofs@) == proof_kinds(self.proofs@),
    {
        ProofCAI { proofs: copy_proofs(&self.proofs) }
    }
}

impl ProofCAI {
    /// What the verifier says to the proof when it stands alone.
    pub open spec fn verdict(self, public: ProofCAIPublic) -> Result<(), CryptoError> {
        list_verdict(
            statement_views(public.statements@),
            proof_views(self.proofs@),
            prelude("cai"@),
        )
    }

    /// Proves the claims.
    pub fn prove(public: &ProofCAIPublic, witness: &ProofCAIWitness, rng: &mut StdRng) -> (r: Self)
        requires
            witness.witnesses@.len() == public.statements@.len(),
            forall|k: int|
                #![trigger public.statements@[k]]
                0 <= k < public.statements@.len() ==> public.statements@[k]@.kind() == Kind::Or,
            forall|k: int|
                #![trigger witness.witnesses@[k]]
                0 <= k < witness.witnesses@.len() ==> witness.witnesses@[k].fits(Kind::Or),
        ensures
            proof_kinds(r.proofs@) == kinds(statement_views(public.statements@)),
            list_proved(
                statement_views(public.statements@),
                witness.witnesses@,
                proof_views(r.proofs@),
                prelude("cai"@),
            ),
            all_shown(statement_views(public.statements@), witness.witnesses@) ==> r.verdict(
                *public,
            ) == Ok::<(), CryptoError>(()),
    {
        proof {
            reveal_strlit("cai");
        }
        let mut transcript = start_proof("cai");
        proof {
            assert forall|k: int| #![trigger public.statements@[k]] 0 <= k
                < public.statements@.len() implies witness.witnesses@[k].fits(
                public.statements@[k]@.kind(),
            ) by {
                assert(witness.witnesses@[k].fits(Kind::Or));
            }
        }
        let proofs = prove_all(&public.statements, &witness.witnesses, &mut transcript, rng);
        proof {
            let claims = statement_views(public.statements@);
            assert forall|k: int| #![trigger claims[k]] 0 <= k < claims.len() implies claims[k].kind()
                != Kind::NotId by {
                assert(public.statements@[k]@.kind() == Kind::Or);
            }
            if all_shown(claims, witness.witnesses@) {
                lemma_list_accepted(claims, witness.witnesses@, proof_views(proofs@), prelude("cai"@));
            }
        }
        ProofCAI { proofs }
    }

    /// Checks the proof.
    pub fn verify(&self, public: &ProofCAIPublic) -> (r: Result<(), CryptoError>)
        requires
            proof_kinds(self.proofs@) == kinds(statement_views(public.statements@)),
        ensures
            r == self.verdict(*public),
    {
        proof {
            reveal_strlit("cai");
        }
        let mut transcript = start_proof("cai");
        check_all(&public.statements, &self.proofs, &mut transcript)
    }
}

/// The ranked sum of encrypted marks encrypts their ranked sum.
proof fn lemma_ranked_encrypted(key: CtView, cts: Seq<CtView>, ms: Seq<int>, rs: Seq<int>)
    requires
        cts.len() == ms.len() == rs.len(),
        forall|i: int| #![trigger cts[i]] 0 <= i < cts.len() ==> cts[i] == ct_encrypt(key, ms[i], rs[i]),
    ensures
        ct_ranked_sum(cts) == ct_encrypt(key, ranked(ms), ranked(rs)),
    decreases cts.len(),
{
    lemma_order();
    lemma_red_small(0);
    if cts.len() == 0 {
        assert(ct_zero() == ct_encrypt(key, 0, 0));
    } else {
        let n = cts.len() - 1;
        let k = cts.len() as int;
        assert forall|i: int| #![trigger cts.drop_last()[i]] 0 <= i < n implies cts.drop_last()[i]
            == ct_encrypt(key, ms.drop_last()[i], rs.drop_last()[i]) by {
            assert(cts[i] == ct_encrypt(key, ms[i], rs[i]));
        }
        lemma_ranked_encrypted(key, cts.drop_last(), ms.drop_last(), rs.drop_last());
        assert(cts[n] == ct_encrypt(key, ms[n], rs[n]));
        lemma_encrypt_scale(key, ms[n], rs[n], k);
        lemma_encrypt_add(
            key,
            ranked(ms.drop_last()),
            ranked(rs.drop_last()),
            ms[n] * k,
            rs[n] * k,
        );
    }
}

/// The ranked sum without the first entry, of marks of which only the one at
/// `at` is one, is `at`; zero where there is none.
proof fn lemma_ranked_mark(marks: Seq<usize>, at: int)
    requires
        marks.len() > 0,
        forall|i: int| #![trigger marks[i]] 0 <= i < marks.len() ==> marks[i] == bit(i == at),
    ensures
        ranked(mark_values(marks).skip(1)) == if 0 <= at < marks.len() {
            at
        } else {
            0
        },
    decreases marks.len(),
{
    let q = mark_values(marks).skip(1);
    assert(marks[marks.len() - 1] == bit(marks.len() - 1 == at));
    if marks.len() > 1 {
        let less = marks.drop_last();
        assert forall|i: int| #![trigger less[i]] 0 <= i < less.len() implies less[i] == bit(
            i == at,
        ) by {
            assert(less[i] == marks[i]);
        }
        lemma_ranked_mark(less, at);
        assert(q.drop_last() =~= mark_values(less).skip(1));
        assert(q.last() == bit(marks.len() - 1 == at));
        assert(0int * (q.len() as int) == 0);
    } else {
        assert(q.len() == 0);
    }
}

/// Encrypted marks without the first one, ranked.
proof fn lemma_ranked_marks(key: CtView, cts: Seq<ExtendedCiphertext>, marks: Seq<usize>)
    requires
        marks.len() > 0,
        encrypts_marks(cts, key, marks),
    ensures
        ct_ranked_sum(inner_views(cts).skip(1)) == ct_encrypt(
            key,
            ranked(mark_values(marks).skip(1)),
            ranked(randomness(cts).skip(1)),
        ),
{
    let c = inner_views(cts).skip(1);
    let m = mark_values(marks).skip(1);
    let r = randomness(cts).skip(1);
    assert forall|i: int| #![trigger c[i]] 0 <= i < c.len() implies c[i] == ct_encrypt(
        key,
        m[i],
        r[i],
    ) by {
        assert(cts[i + 1].encrypts(key, bit(marks[i + 1] == 1) as int));
    }
    lemma_ranked_encrypted(key, c, m, r);
}

/// The candidates of the first `n` parties add the number of the chosen one,
/// as soon as the chosen party is among them.
proof fn lemma_candidates(
    key: CtView,
    choice: Choice,
    ext: ExtendedEncrChoice,
    params: ChoiceParameters,
    code: int,
    r: int,
    n: int,
)
    requires
        params.wf(),
        choice.marks(params),
        choice.l2_value@.len() == 1,
        encrypted(ext, key, choice),
        0 <= n <= params.n1,
    ensures
        with_candidates(ct_encrypt(key, code, r), ext.inner().l2.take(n)) == ct_encrypt(
            key,
            code + if choice.l1_value < n {
                choice.l2_value@[0] as int
            } else {
                0
            },
            with_candidate_randomness(r, ext.l2@.take(n)),
        ),
    decreases n,
{
    let rows = ext.inner().l2;
    if n == 0 {
        assert(rows.take(0) =~= Seq::empty());
        assert(ext.l2@.take(0) =~= Seq::<Vec<ExtendedCiphertext>>::empty());
    } else {
        lemma_candidates(key, choice, ext, params, code, r, n - 1);
        let i = n - 1;
        assert(rows.take(n).drop_last() =~= rows.take(i));
        assert(ext.l2@.take(n).drop_last() =~= ext.l2@.take(i));
        assert(rows.take(n).last() == inner_views(ext.l2@[i]@));
        assert(ext.l2@.take(n).last() == ext.l2@[i]);
        lemma_party_marks(choice, params, i);
        assert(encrypts_marks(ext.l2@[i]@, key, choice.l2@[i]@));
        lemma_ranked_marks(key, ext.l2@[i]@, choice.l2@[i]@);
        let at = if i == choice.l1_value {
            choice.l2_value@[0] as int
        } else {
            -1
        };
        lemma_ranked_mark(choice.l2@[i]@, at);
        assert(choice.l2_value@[0] < params.ln2@[choice.l1_value as int]);
        let sofar = code + if choice.l1_value < i {
            choice.l2_value@[0] as int
        } else {
            0
        };
        lemma_encrypt_add(
            key,
            sofar,
            with_candidate_randomness(r, ext.l2@.take(i)),
            ranked(mark_values(choice.l2@[i]@).skip(1)),
            ranked(randomness(ext.l2@[i]@).skip(1)),
        );
    }
}

/// Honest codes show their claims: where the codes belong to a choice of one
/// party and one of its candidates, and both are encrypted, what the prover
/// knows shows that code plus choice is the sum, up to a carry.
pub proof fn law_honest_codes(
    key: CtView,
    cai: ValuesCAI,
    ext_cai: ExtendedEncrValuesCAI,
    enc_cai: EncrValuesCAI,
    choice: Choice,
    ext: ExtendedEncrChoice,
    params: ChoiceParameters,
    witnesses: Seq<Witness>,
)
    requires
        params.wf(),
        choice.marks(params),
        choice.l2_value@.len() == 1,
        choice.l1_value <= u32::MAX,
        choice.l2_value@[0] <= u32::MAX,
        encrypted(ext, key, choice),
        cai.belongs(choice, CAI_POW),
        cai.l1_sum / CAI_POW < 2,
        cai.l2_sum / CAI_POW < 2,
        ext_cai.encrypts(key, cai),
        enc_cai.l1_code_enc@ == ext_cai.l1_code_enc.inner@,
        enc_cai.l1_sum_enc@ == ext_cai.l1_sum_enc.inner@,
        enc_cai.l2_code_enc@ == ext_cai.l2_code_enc.inner@,
        enc_cai.l2_sum_enc@ == ext_cai.l2_sum_enc.inner@,
        witness_values(witnesses) == cai_knowledge(cai, ext_cai, ext),
        forall|k: int| #![trigger witnesses[k]] 0 <= k < witnesses.len() ==> witnesses[k].fits(Kind::Or),
    ensures
        all_shown(cai_claims(key, enc_cai, ext.inner()), witnesses),
{
    let v = ext.inner();
    let claims = cai_claims(key, enc_cai, v);
    let knowledge = cai_knowledge(cai, ext_cai, ext);
    assert(witnesses.len() == witness_values(witnesses).len());
    // The party.
    assert(choice.l1@.len() == params.n1);
    lemma_ranked_marks(key, ext.l1@, choice.l1@);
    lemma_ranked_mark(choice.l1@, choice.l1_value as int);
    let rr = ranked(randomness(ext.l1@).skip(1));
    let s1 = ext_cai.l1_sum_enc.random_scalar@;
    let c1 = ext_cai.l1_code_enc.random_scalar@;
    let m1 = (cai.l1_sum % CAI_POW) as int;
    let carry1 = (cai.l1_sum / CAI_POW) as int;
    lemma_encrypt_sub(key, choice.l1_value as int, rr, m1, s1);
    lemma_encrypt_add(key, cai.l1_code as int, c1, choice.l1_value as int - m1, rr - s1);
    lemma_encrypt_red(key, carry1 * 100, c1 + (rr - s1));
    assert(cai.l1_code + choice.l1_value as int - m1 == carry1 * 100);
    assert(seq![0int, CAI_POW as int][carry1] == carry1 * 100);
    assert(shown(claims[0], knowledge[0]));
    // The candidate.
    let n1 = params.n1 as int;
    let c2 = ext_cai.l2_code_enc.random_scalar@;
    let s2 = ext_cai.l2_sum_enc.random_scalar@;
    let m2 = (cai.l2_sum % CAI_POW) as int;
    let carry2 = (cai.l2_sum / CAI_POW) as int;
    lemma_candidates(key, choice, ext, params, cai.l2_code as int, c2, n1);
    assert(v.l2.take(n1) =~= v.l2);
    assert(ext.l2@.take(n1) =~= ext.l2@);
    let r2 = with_candidate_randomness(c2, ext.l2@);
    let total = cai.l2_code as int + choice.l2_value@[0] as int;
    lemma_encrypt_sub(key, total, r2, m2, s2);
    lemma_encrypt_red(key, carry2 * 100, r2 - s2);
    assert(total - m2 == carry2 * 100);
    assert(seq![0int, CAI_POW as int][carry2] == carry2 * 100);
    assert(shown(claims[1], knowledge[1]));
    assert forall|k: int| #![trigger claims[k]] 0 <= k < claims.len() implies shows(
        claims[k],
        witnesses[k],
    ) by {
        assert(witness_values(witnesses)[k] == witnesses[k].values());
        assert(witnesses[k].fits(Kind::Or));
    }
}

} // verus!
