//! The proof that an encrypted choice is well formed: every ciphertext holds
//! zero or one, one party is chosen, and of each party as many candidates as
//! the party was chosen.

use merlin::Transcript;
use rand::rngs::StdRng;
use vstd::prelude::*;

use crate::arith::{lemma_red_add, lemma_red_small, red};
use crate::elgamal::{
    ct_encrypt, ct_strip, ct_sub, ct_sum, ct_views, ct_zero, lemma_encrypt_add,
    lemma_encrypt_red, lemma_encrypt_strip, lemma_encrypt_sub, Ciphertext, CtView,
    ExtendedCiphertext,
};
use crate::encoding::{
    cbor_bound, cbor_list, cbor_number, cbor_rows, cbor_sizes, encode_list, encode_number, encode_rows,
    encode_sizes, field, put_field,
};
use crate::error::CryptoError;
use crate::group::{Point, Scalar};
use crate::proofs::compound::{
    all_shown, check_all, copy_proofs, kinds, lemma_list_accepted, list_proved, list_verdict,
    proof_kinds, proof_views, prove_all, statement_views,
};
use crate::proofs::linkage::int_sum;
use crate::proofs::relation::{
    shown, shows, Kind, Relation, RelationView, Statement, StatementView, SubProof, Witness,
};
use crate::protocol::keys::ElectionPublicKey;
use crate::protocol::vote::cai::has_firsts;
use crate::protocol::vote::choice::{
    bit, encrypts_marks, inner_views, randomness, Choice, ChoiceParameters,
    EncrChoice, EncrChoiceView, ExtendedEncrChoice,
};
use crate::transcript::{
    append_message, message, prelude, start_proof, transcript_entries, Entry,
};

verus! {

/// The claim that a ciphertext encrypts zero.
pub open spec fn zero_claim(key: CtView, ct: CtView) -> StatementView {
    StatementView { key, relation: RelationView::Zero { ct } }
}

/// The claim that a ciphertext encrypts zero or one.
pub open spec fn bit_claim(key: CtView, ct: CtView) -> StatementView {
    StatementView { key, relation: RelationView::Or { ct, values: seq![0, 1] } }
}

/// The claims on one party: on each candidate, on the party, and that the sums
/// agree.
pub open spec fn party_claims(key: CtView, v: EncrChoiceView, ln2: Seq<usize>, i: int) -> Seq<
    StatementView,
> {
    Seq::new(ln2[i] as nat, |j: int| bit_claim(key, v.l2[i][j])).push(
        bit_claim(key, v.l1[i]),
    ).push(zero_claim(key, ct_sub(v.l1[i], ct_sum(v.l2[i]))))
}

/// The claim that one party is chosen, then those on the first `n` parties.
pub open spec fn choice_claims(key: CtView, v: EncrChoiceView, ln2: Seq<usize>, n: int) -> Seq<
    StatementView,
>
    decreases n,
{
    if n <= 0 {
        seq![zero_claim(key, ct_strip(ct_sum(v.l1), 1))]
    } else {
        choice_claims(key, v, ln2, n - 1) + party_claims(key, v, ln2, n - 1)
    }
}

/// What the prover knows about one party.
pub open spec fn party_knowledge(choice: Choice, ext: ExtendedEncrChoice, i: int) -> Seq<Seq<int>> {
    Seq::new(
        choice.l2@[i]@.len(),
        |j: int| seq![choice.l2@[i]@[j] as int, ext.l2@[i]@[j].random_scalar@],
    ).push(seq![choice.l1@[i] as int, ext.l1@[i].random_scalar@]).push(
        seq![red(ext.l1@[i].random_scalar@ - red(int_sum(randomness(ext.l2@[i]@))))],
    )
}

/// What the prover knows: the sum of the randomness of the parties, then what
/// it knows about the first `n` parties.
pub open spec fn choice_knowledge(choice: Choice, ext: ExtendedEncrChoice, n: int) -> Seq<Seq<int>>
    decreases n,
{
    if n <= 0 {
        seq![seq![red(int_sum(randomness(ext.l1@)))]]
    } else {
        choice_knowledge(choice, ext, n - 1) + party_knowledge(choice, ext, n - 1)
    }
}

/// The values of a list of witnesses.
pub open spec fn witness_values(witnesses: Seq<Witness>) -> Seq<Seq<int>> {
    witnesses.map_values(|w: Witness| w.values())
}

/// The rows of an encrypted choice: the parties, then the candidates of each.
pub open spec fn choice_rows(v: EncrChoiceView) -> Seq<Seq<CtView>> {
    seq![v.l1] + v.l2
}

impl EncrChoiceView {
    /// Whether the encoding fits into one message of a transcript.
    pub open spec fn encodable(self) -> bool {
        cbor_bound(choice_rows(self)) + 100 <= u32::MAX
    }

    /// The encoding: a record of both levels.
    pub open spec fn encoding(self) -> Seq<u8> {
        seq![0xa2u8] + field("l1"@, cbor_list(self.l1)) + field("l2"@, cbor_rows(self.l2))
    }
}

/// An upper bound on the length of the encoding of rows with these lengths.
pub open spec fn rows_bound(lens: Seq<usize>) -> int
    decreases lens.len(),
{
    if lens.len() == 0 {
        0
    } else {
        rows_bound(lens.drop_last()) + 9 + 144 * lens.last()
    }
}

impl ChoiceParameters {
    /// Whether the encodings of the parameters, of an encrypted choice and of a
    /// vote each fit into one message of a transcript.
    pub open spec fn encodable(self) -> bool {
        &&& 100 + 9 * self.ln2@.len() <= u32::MAX
        &&& 818 + 144 * self.n1 + rows_bound(self.ln2@) <= u32::MAX
    }

    /// The encoding: a record of the numbers.
    pub open spec fn encoding(self) -> Seq<u8> {
        seq![0xa2u8] + field("n1"@, cbor_number(self.n1 as int)) + field(
            "ln2"@,
            cbor_sizes(self.ln2@),
        )
    }

    /// The encoding.
    pub fn to_bytes(&self) -> (r: Vec<u8>)
        ensures
            r@ == self.encoding(),
            r@.len() <= 100 + 9 * self.ln2@.len(),
    {
        proof {
            reveal_strlit("n1");
            reveal_strlit("ln2");
        }
        let mut out: Vec<u8> = Vec::new();
        out.push(0xa2);
        proof {
            assert(out@ =~= seq![0xa2u8]);
        }
        put_field(&mut out, "n1", &encode_number(self.n1 as u64));
        put_field(&mut out, "ln2", &encode_sizes(&self.ln2));
        out
    }

    /// Whether the encodings of the parameters, of an encrypted choice and of a
    /// vote each fit into one message of a transcript.
    pub fn is_encodable(&self) -> (r: bool)
        ensures
            r == self.encodable(),
    {
        (self.ln2.len() as u64) <= (u32::MAX as u64 - 100) / 9 && is_bounded(818, self.n1, &self.ln2)
    }
}

/// Whether an encoding of `n1` and `lens` ciphertexts, with `extra` bytes, fits
/// into one message of a transcript.
fn is_bounded(extra: u64, n1: usize, lens: &Vec<usize>) -> (r: bool)
    requires
        extra <= 1000,
    ensures
        r == (extra + 144 * n1 + rows_bound(lens@) <= u32::MAX),
{
    let limit: u64 = u32::MAX as u64;
    proof {
        lemma_rows_bound(lens@, 0);
    }
    if n1 as u64 > (limit - extra) / 144 {
        return false;
    }
    let mut bound: u64 = extra + 144 * (n1 as u64);
    let mut i: usize = 0;
    proof {
        assert(lens@.take(0) =~= Seq::<usize>::empty());
    }
    while i < lens.len()
        invariant
            i <= lens@.len(),
            limit == u32::MAX,
            bound <= limit,
            bound == extra + 144 * n1 + rows_bound(lens@.take(i as int)),
        decreases lens@.len() - i,
    {
        proof {
            let next = lens@.take(i + 1);
            assert(next.drop_last() =~= lens@.take(i as int));
            lemma_rows_bound(lens@, i + 1);
        }
        let n = lens[i] as u64;
        if n > limit / 144 || 9 + 144 * n > limit - bound {
            return false;
        }
        bound = bound + 9 + 144 * n;
        i += 1;
    }
    proof {
        assert(lens@.take(i as int) =~= lens@);
    }
    true
}

/// The bound grows with the list.
proof fn lemma_rows_bound(lens: Seq<usize>, n: int)
    requires
        0 <= n <= lens.len(),
    ensures
        0 <= rows_bound(lens.take(n)) <= rows_bound(lens),
    decreases lens.len(),
{
    if n == lens.len() {
        assert(lens.take(n) =~= lens);
        if lens.len() > 0 {
            lemma_rows_bound(lens.drop_last(), 0);
            assert(lens.drop_last().take(0) =~= Seq::<usize>::empty());
            lemma_rows_bound(lens.drop_last(), lens.len() - 1);
            assert(lens.drop_last().take(lens.len() - 1) =~= lens.drop_last());
        }
    } else {
        lemma_rows_bound(lens.drop_last(), n);
        assert(lens.drop_last().take(n) =~= lens.take(n));
    }
}

/// The encoding of rows with these lengths stays within the bound.
proof fn lemma_cbor_bound(rows: Seq<Seq<CtView>>, lens: Seq<usize>)
    requires
        rows.len() == lens.len() + 1,
        forall|i: int| #![trigger lens[i]] 0 <= i < lens.len() ==> rows[i + 1].len() == lens[i],
    ensures
        cbor_bound(rows) == 18 + 144 * rows[0].len() + rows_bound(lens),
    decreases lens.len(),
{
    if lens.len() == 0 {
        assert(rows.drop_last() =~= Seq::empty());
        assert(cbor_bound(Seq::<Seq<CtView>>::empty()) == 9);
    } else {
        let less = rows.drop_last();
        assert forall|i: int| #![trigger lens.drop_last()[i]] 0 <= i < lens.len() - 1 implies less[i
            + 1].len() == lens.drop_last()[i] by {
            assert(rows[i + 1].len() == lens[i]);
        }
        lemma_cbor_bound(less, lens.drop_last());
        assert(rows[lens.len() as int].len() == lens[lens.len() - 1]);
    }
}

/// An encrypted choice of the shape of the parameters can be encoded.
pub proof fn lemma_encodable(v: EncrChoiceView, params: ChoiceParameters)
    requires
        params.encodable(),
        params.wf(),
        v.l1.len() == params.n1,
        v.l2.len() == params.n1,
        forall|i: int| #![trigger v.l2[i]] 0 <= i < params.n1 ==> v.l2[i].len() == params.ln2@[i],
    ensures
        v.encodable(),
        cbor_bound(choice_rows(v)) + 800 <= u32::MAX,
{
    let rows = choice_rows(v);
    assert forall|i: int| #![trigger params.ln2@[i]] 0 <= i < params.ln2@.len() implies rows[i
        + 1].len() == params.ln2@[i] by {
        assert(rows[i + 1] == v.l2[i]);
    }
    lemma_cbor_bound(rows, params.ln2@);
}

impl EncrChoice {
    /// Whether the encoding, with `extra` bytes, fits into one message of a
    /// transcript.
    pub(crate) fn is_encodable_with(&self, extra: u64) -> (r: bool)
        requires
            extra <= 900,
        ensures
            r == (cbor_bound(choice_rows(self@)) + extra <= u32::MAX),
    {
        let mut lens: Vec<usize> = Vec::new();
        let mut i: usize = 0;
        while i < self.l2.len()
            invariant
                i <= self.l2@.len(),
                lens@.len() == i,
                forall|k: int| #![trigger lens@[k]] 0 <= k < i ==> lens@[k] == self@.l2[k].len(),
            decreases self.l2@.len() - i,
        {
            lens.push(self.l2[i].len());
            i += 1;
        }
        proof {
            let rows = choice_rows(self@);
            assert forall|i: int| #![trigger lens@[i]] 0 <= i < lens@.len() implies rows[i
                + 1].len() == lens@[i] by {
                assert(rows[i + 1] == self@.l2[i]);
            }
            lemma_cbor_bound(rows, lens@);
        }
        is_bounded(18 + extra, self.l1.len(), &lens)
    }

    /// Whether the encoding fits into one message of a transcript.
    pub fn is_encodable(&self) -> (r: bool)
        ensures
            r == self@.encodable(),
    {
        self.is_encodable_with(100)
    }

    /// Whether there is a ciphertext for each party and candidate.
    pub fn is_covering(&self, params: &ChoiceParameters) -> (r: bool)
        requires
            params.wf(),
        ensures
            r == self@.covers(*params),
    {
        if self.l1.len() < params.n1 || self.l2.len() < params.n1 {
            return false;
        }
        let mut i: usize = 0;
        while i < params.n1
            invariant
                i <= params.n1,
                params.n1 == params.ln2@.len(),
                params.n1 <= self.l1@.len(),
                params.n1 <= self.l2@.len(),
                forall|k: int| #![trigger self@.l2[k]] 0 <= k < i ==> self@.l2[k].len() >= params.ln2@[k],
            decreases params.n1 - i,
        {
            if self.l2[i].len() < params.ln2[i] {
                proof {
                    assert(self@.l2[i as int].len() < params.ln2@[i as int]);
                }
                return false;
            }
            i += 1;
        }
        true
    }

    /// Whether there is a first party, and a first candidate in each row.
    pub fn has_first_entries(&self) -> (r: bool)
        ensures
            r == has_firsts(self@),
    {
        if self.l1.len() == 0 {
            return false;
        }
        let mut i: usize = 0;
        while i < self.l2.len()
            invariant
                i <= self.l2@.len(),
                forall|k: int| #![trigger self@.l2[k]] 0 <= k < i ==> self@.l2[k].len() > 0,
            decreases self.l2@.len() - i,
        {
            if self.l2[i].len() == 0 {
                proof {
                    assert(self@.l2[i as int].len() == 0);
                }
                return false;
            }
            i += 1;
        }
        true
    }

    /// The encoding.
    pub fn to_bytes(&self) -> (r: Vec<u8>)
        ensures
            r@ == self@.encoding(),
            r@.len() <= cbor_bound(choice_rows(self@)) + 100,
    {
        proof {
            reveal_strlit("l1");
            reveal_strlit("l2");
            lemma_rows_split(self@.l1, self@.l2);
        }
        let mut out: Vec<u8> = Vec::new();
        out.push(0xa2);
        proof {
            assert(out@ =~= seq![0xa2u8]);
        }
        put_field(&mut out, "l1", &encode_list(&self.l1));
        put_field(&mut out, "l2", &encode_rows(&self.l2));
        out
    }
}

/// A row more.
proof fn lemma_rows_split(first: Seq<CtView>, rest: Seq<Seq<CtView>>)
    ensures
        cbor_bound(seq![first] + rest) == cbor_bound(rest) + 9 + 144 * first.len(),
    decreases rest.len(),
{
    let rows = seq![first] + rest;
    if rest.len() == 0 {
        assert(rows.drop_last() =~= rest);
    } else {
        assert(rows.drop_last() =~= seq![first] + rest.drop_last());
        lemma_rows_split(first, rest.drop_last());
    }

}

/// What is claimed of an encrypted choice.
pub struct ProofEncrChoicePublic<'a> {
    pub statements: Vec<Statement>,
    pub choice_params: &'a ChoiceParameters,
    pub election_pk: &'a ElectionPublicKey,
    pub enc_choice: &'a EncrChoice,
}

impl<'a> ProofEncrChoicePublic<'a> {
    /// Whether the claims are those on the encrypted choice.
    pub open spec fn wf(self) -> bool {
        &&& self.choice_params.wf()
        &&& self.enc_choice@.covers(*self.choice_params)
        &&& statement_views(self.statements@) == self.claims()
    }

    /// The claims.
    pub open spec fn claims(self) -> Seq<StatementView> {
        choice_claims(
            self.election_pk.key(),
            self.enc_choice@,
            self.choice_params.ln2@,
            self.choice_params.n1 as int,
        )
    }

    /// The claims on an encrypted choice.
    pub fn new(
        enc_choice: &'a EncrChoice,
        election_pk: &'a ElectionPublicKey,
        choice_params: &'a ChoiceParameters,
    ) -> (r: Self)
        requires
            choice_params.wf(),
            enc_choice@.covers(*choice_params),
        ensures
            r.wf(),
            r.choice_params == choice_params,
            r.election_pk == election_pk,
            r.enc_choice == enc_choice,
    {
        let pk = election_pk.params.tally;
        let params = election_pk.params.elgamal;
        let ghost key = election_pk.key();
        let ghost v = enc_choice@;
        let ghost ln2 = choice_params.ln2@;
        let mut statements: Vec<Statement> = Vec::new();
        let one_l1 = Ciphertext::sum(enc_choice.l1.as_slice()).hom_sub(&Point::generator());
        statements.push(Statement { pk, params, relation: Relation::Zero { ct: one_l1 } });
        proof {
            assert(statement_views(statements@) =~= choice_claims(key, v, ln2, 0));
        }
        let mut i: usize = 0;
        while i < choice_params.n1
            invariant
                i <= choice_params.n1,
                choice_params.wf(),
                v == enc_choice@,
                v.covers(*choice_params),
                ln2 == choice_params.ln2@,
                key == pk.key(params),
                statement_views(statements@) == choice_claims(key, v, ln2, i as int),
            decreases choice_params.n1 - i,
        {
            let ghost done = choice_claims(key, v, ln2, i as int);
            let ghost claims = party_claims(key, v, ln2, i as int);
            let row = &enc_choice.l2[i];
            let ct = enc_choice.l1[i];
            proof {
                assert(v.l2[i as int] == ct_views(row@));
                assert(v.l1[i as int] == ct@);
                assert(row@.len() >= ln2[i as int]);
                assert(claims.take(0) =~= Seq::empty());
                assert(done + claims.take(0) =~= done);
            }
            let mut j: usize = 0;
            while j < choice_params.ln2[i]
                invariant
                    i < choice_params.n1,
                    choice_params.wf(),
                    j <= ln2[i as int] <= row@.len(),
                    ln2 == choice_params.ln2@,
                    v.l2[i as int] == ct_views(row@),
                    claims == party_claims(key, v, ln2, i as int),
                    key == pk.key(params),
                    statement_views(statements@) == done + claims.take(j as int),
                decreases ln2[i as int] - j,
            {
                let ghost before = statements@;
                statements.push(
                    Statement { pk, params, relation: Relation::Or { ct: row[j], values: [0, 1] } },
                );
                proof {
                    assert(ct_views(row@)[j as int] == row@[j as int]@);
                    assert(statements@.last()@.relation->Or_values =~= seq![0int, 1]);
                    assert(statements@.last()@ == claims[j as int]);
                    assert(statement_views(statements@) =~= statement_views(before).push(
                        claims[j as int],
                    ));
                    assert(statement_views(statements@) =~= done + claims.take(j + 1));
                }
                j += 1;
            }
            let ghost before = statements@;
            statements.push(Statement { pk, params, relation: Relation::Or { ct, values: [0, 1] } });
            let difference = ct.minus(&Ciphertext::sum(row.as_slice()));
            statements.push(Statement { pk, params, relation: Relation::Zero { ct: difference } });
            proof {
                let n = ln2[i as int] as int;
                assert(statements@[before.len() as int]@.relation->Or_values =~= seq![0int, 1]);
                assert(statements@[before.len() as int]@ == claims[n]);
                assert(statements@[(before.len() + 1) as int]@ == claims[n + 1]);
                assert(statement_views(statements@) =~= statement_views(before).push(
                    claims[n],
                ).push(claims[n + 1]));
                assert(statement_views(statements@) =~= done + claims);
            }
            i += 1;
        }
        ProofEncrChoicePublic { statements, choice_params, election_pk, enc_choice }
    }

    /// The steps that append the claims.
    pub open spec fn steps(self) -> Seq<Entry> {
        self.election_pk.steps().push(
            message("CHOICE"@, self.enc_choice@.encoding()),
        ).push(message("PARAM"@, self.choice_params.encoding()))
    }

    /// Appends the claims to a transcript.
    pub fn absorb_public(&self, transcript: &mut Transcript)
        requires
            self.enc_choice@.encodable(),
            self.choice_params.encodable(),
        ensures
            transcript_entries(*final(transcript)) == transcript_entries(*old(transcript))
                + self.steps(),
    {
        let ghost before = transcript_entries(*transcript);
        self.election_pk.into_transcript(transcript);
        let bytes = self.enc_choice.to_bytes();
        append_message(transcript, "CHOICE", bytes.as_slice());
        let bytes = self.choice_params.to_bytes();
        append_message(transcript, "PARAM", bytes.as_slice());
        proof {
            assert(transcript_entries(*transcript) =~= before + self.steps());
        }
    }
}

/// What the prover of a choice knows.
pub struct ProofEncrChoiceWitness {
    pub witnesses: Vec<Witness>,
}

/// The sum of the randomness of a list.
fn sum_randomness(cts: &Vec<ExtendedCiphertext>) -> (r: Scalar)
    ensures
        r@ == red(int_sum(randomness(cts@))),
{
    let mut sum = Scalar::from_u64(0);
    let mut i: usize = 0;
    proof {
        crate::arith::lemma_order();
        lemma_red_small(0);
        assert(randomness(cts@).take(0) =~= Seq::<int>::empty());
    }
    while i < cts.len()
        invariant
            i <= cts@.len(),
            sum@ == red(int_sum(randomness(cts@).take(i as int))),
        decreases cts@.len() - i,
    {
        sum = sum.plus(&cts[i].random_scalar);
        proof {
            let next = randomness(cts@).take(i + 1);
            assert(next.drop_last() =~= randomness(cts@).take(i as int));
            lemma_red_add(int_sum(next.drop_last()), next.last());
        }
        i += 1;
    }
    proof {
        assert(randomness(cts@).take(i as int) =~= randomness(cts@));
    }
    sum
}

/// Whether the randomness belongs to the choice: one for each mark, and every
/// mark is zero or one.
pub open spec fn knows(ext: ExtendedEncrChoice, choice: Choice, n: int) -> bool {
    &&& choice.l1@.len() == n
    &&& choice.l2@.len() == n
    &&& ext.l1@.len() == n
    &&& ext.l2@.len() == n
    &&& forall|i: int| #![trigger choice.l1@[i]] 0 <= i < n ==> choice.l1@[i] <= 1
    &&& forall|i: int|
        #![trigger choice.l2@[i]]
        #![trigger ext.l2@[i]]
        0 <= i < n ==> {
            &&& ext.l2@[i]@.len() == choice.l2@[i]@.len()
            &&& forall|j: int|
                #![trigger choice.l2@[i]@[j]]
                0 <= j < choice.l2@[i]@.len() ==> choice.l2@[i]@[j] <= 1
        }
}

impl ProofEncrChoiceWitness {
    /// The witness for the claims on an encrypted choice.
    pub fn new(public: &ProofEncrChoicePublic, ext_choice: &ExtendedEncrChoice, choice: &Choice) -> (r:
        Self)
        requires
            public.wf(),
            knows(*ext_choice, *choice, public.choice_params.n1 as int),
            forall|i: int|
                #![trigger choice.l2@[i]]
                0 <= i < public.choice_params.n1 ==> choice.l2@[i]@.len()
                    == public.choice_params.ln2@[i],
        ensures
            witness_values(r.witnesses@) == choice_knowledge(
                *choice,
                *ext_choice,
                public.choice_params.n1 as int,
            ),
            r.witnesses@.len() == public.statements@.len(),
            forall|k: int|
                #![trigger r.witnesses@[k]]
                0 <= k < r.witnesses@.len() ==> r.witnesses@[k].fits(public.claims()[k].kind()),
    {
        let params = public.choice_params;
        let ghost n1 = params.n1 as int;
        let ghost key = public.election_pk.key();
        let ghost v = public.enc_choice@;
        let mut witnesses: Vec<Witness> = Vec::new();
        witnesses.push(Witness::Zero { r: sum_randomness(&ext_choice.l1) });
        proof {
            assert(witness_values(witnesses@) =~= choice_knowledge(*choice, *ext_choice, 0));
        }
        let mut i: usize = 0;
        while i < params.n1
            invariant
                i <= params.n1,
                params == public.choice_params,
                n1 == params.n1,
                params.wf(),
                v == public.enc_choice@,
                key == public.election_pk.key(),
                v.covers(*params),
                knows(*ext_choice, *choice, n1),
                forall|i: int|
                    #![trigger choice.l2@[i]]
                    0 <= i < n1 ==> choice.l2@[i]@.len() == params.ln2@[i],
                witness_values(witnesses@) == choice_knowledge(*choice, *ext_choice, i as int),
                witnesses@.len() == choice_claims(key, v, params.ln2@, i as int).len(),
                forall|k: int|
                    #![trigger witnesses@[k]]
                    0 <= k < witnesses@.len() ==> witnesses@[k].fits(
                        choice_claims(key, v, params.ln2@, i as int)[k].kind(),
                    ),
            decreases params.n1 - i,
        {
            let ghost done = choice_claims(key, v, params.ln2@, i as int);
            let ghost claims = party_claims(key, v, params.ln2@, i as int);
            let ghost known = choice_knowledge(*choice, *ext_choice, i as int);
            let ghost knowledge = party_knowledge(*choice, *ext_choice, i as int);
            let marks = &choice.l2[i];
            let row = &ext_choice.l2[i];
            let mark = choice.l1[i];
            let own = ext_choice.l1[i].random_scalar;
            proof {
                assert(known + knowledge.take(0) =~= known);
            }
            let mut j: usize = 0;
            while j < params.ln2[i]
                invariant
                    i < params.n1,
                    params.wf(),
                    j <= marks@.len(),
                    marks@.len() == params.ln2@[i as int],
                    row@.len() == marks@.len(),
                    marks@ == choice.l2@[i as int]@,
                    row@ == ext_choice.l2@[i as int]@,
                    forall|j: int| #![trigger marks@[j]] 0 <= j < marks@.len() ==> marks@[j] <= 1,
                    claims == party_claims(key, v, params.ln2@, i as int),
                    knowledge == party_knowledge(*choice, *ext_choice, i as int),
                    witnesses@.len() == done.len() + j,
                    witness_values(witnesses@) == known + knowledge.take(j as int),
                    forall|k: int|
                        #![trigger witnesses@[k]]
                        0 <= k < witnesses@.len() ==> witnesses@[k].fits((done + claims)[k].kind()),
                decreases marks@.len() - j,
            {
                let ghost before = witnesses@;
                witnesses.push(Witness::Or { index: marks[j], r: row[j].random_scalar });
                proof {
                    assert((done + claims)[before.len() as int] == claims[j as int]);
                    assert(witnesses@.last().values() =~= knowledge[j as int]);
                    assert(witness_values(witnesses@) =~= witness_values(before).push(
                        knowledge[j as int],
                    ));
                    assert(witness_values(witnesses@) =~= known + knowledge.take(j + 1));
                }
                j += 1;
            }
            let ghost before = witnesses@;
            witnesses.push(Witness::Or { index: mark, r: own });
            let rest = sum_randomness(row);
            witnesses.push(Witness::Zero { r: own.minus(&rest) });
            proof {
                let n = params.ln2@[i as int] as int;
                assert((done + claims)[before.len() as int] == claims[n]);
                assert((done + claims)[(before.len() + 1) as int] == claims[n + 1]);
                assert(witnesses@[before.len() as int].values() =~= knowledge[n]);
                assert(witnesses@[(before.len() + 1) as int].values() =~= knowledge[n + 1]);
                assert(witness_values(witnesses@) =~= witness_values(before).push(
                    knowledge[n],
                ).push(knowledge[n + 1]));
                assert(witness_values(witnesses@) =~= known + knowledge);
                assert(choice_claims(key, v, params.ln2@, i + 1) =~= done + claims);
            }
            i += 1;
        }
        proof {
            assert(public.statements@.len() == statement_views(public.statements@).len());
        }
        ProofEncrChoiceWitness { witnesses }
    }
}

/// The proof that an encrypted choice is well formed.
#[derive(Debug, PartialEq)]
pub struct ProofEncrChoice {
    pub proofs: Vec<SubProof>,
}

impl Clone for ProofEncrChoice {
    fn clone(&self) -> (r: Self)
        ensures
            proof_views(r.proofs@) == proof_views(self.proofs@),
            proof_kinds(r.proofs@) == proof_kinds(self.proofs@),
    {
        ProofEncrChoice { proofs: copy_proofs(&self.proofs) }
    }
}

impl ProofEncrChoice {
    /// Whether there is a proof of the right kind for each claim.
    pub open spec fn fits(self, public: ProofEncrChoicePublic) -> bool {
        proof_kinds(self.proofs@) == kinds(public.claims())
    }

    /// What the verifier says to the proof when it stands alone.
    pub open spec fn verdict(self, public: ProofEncrChoicePublic) -> Result<(), CryptoError> {
        list_verdict(
            public.claims(),
            proof_views(self.proofs@),
            prelude("PROOF"@) + public.steps(),
        )
    }

    /// Proves the claims.
    pub fn prove(
        public: &ProofEncrChoicePublic,
        witness: &ProofEncrChoiceWitness,
        rng: &mut StdRng,
    ) -> (r: Self)
        requires
            public.wf(),
            public.enc_choice@.encodable(),
            public.choice_params.encodable(),
            witness.witnesses@.len() == public.statements@.len(),
            forall|k: int|
                #![trigger witness.witnesses@[k]]
                0 <= k < witness.witnesses@.len() ==> witness.witnesses@[k].fits(
                    public.claims()[k].kind(),
                ),
        ensures
            r.fits(*public),
            list_proved(
                public.claims(),
                witness.witnesses@,
                proof_views(r.proofs@),
                prelude("PROOF"@) + public.steps(),
            ),
            all_shown(public.claims(), witness.witnesses@) ==> r.verdict(*public) == Ok::<
                (),
                CryptoError,
            >(()),
    {
        proof {
            reveal_strlit("PROOF");
        }
        let mut transcript = start_proof("PROOF");
        public.absorb_public(&mut transcript);
        proof {
            lemma_claim_kinds(
                public.election_pk.key(),
                public.enc_choice@,
                public.choice_params.ln2@,
                public.choice_params.n1 as int,
            );
            assert forall|k: int| #![trigger public.statements@[k]] 0 <= k
                < public.statements@.len() implies witness.witnesses@[k].fits(
                public.statements@[k]@.kind(),
            ) && public.statements@[k]@.kind() != Kind::NotId by {
                assert(public.claims()[k] == public.statements@[k]@);
                assert(witness.witnesses@[k].fits(public.claims()[k].kind()));
            }
        }
        let ghost start = transcript_entries(transcript);
        let proofs = prove_all(&public.statements, &witness.witnesses, &mut transcript, rng);
        proof {
            assert(start =~= prelude("PROOF"@) + public.steps());
            if all_shown(public.claims(), witness.witnesses@) {
                lemma_list_accepted(
                    public.claims(),
                    witness.witnesses@,
                    proof_views(proofs@),
                    start,
                );
            }
        }
        ProofEncrChoice { proofs }
    }

    /// Checks the proof.
    pub fn verify(&self, public: &ProofEncrChoicePublic) -> (r: Result<(), CryptoError>)
        requires
            public.wf(),
            public.enc_choice@.encodable(),
            public.choice_params.encodable(),
            self.fits(*public),
        ensures
            r == self.verdict(*public),
    {
        proof {
            reveal_strlit("PROOF");
        }
        let mut transcript = start_proof("PROOF");
        public.absorb_public(&mut transcript);
        check_all(&public.statements, &self.proofs, &mut transcript)
    }
}

/// No claim on a choice is a not-identity claim.
pub proof fn lemma_claim_kinds(key: CtView, v: EncrChoiceView, ln2: Seq<usize>, n: int)
    ensures
        forall|k: int|
            #![trigger choice_claims(key, v, ln2, n)[k]]
            0 <= k < choice_claims(key, v, ln2, n).len() ==> choice_claims(
                key,
                v,
                ln2,
                n,
            )[k].kind() != Kind::NotId,
    decreases n,
{
    if n > 0 {
        lemma_claim_kinds(key, v, ln2, n - 1);
        let done = choice_claims(key, v, ln2, n - 1);
        let more = party_claims(key, v, ln2, n - 1);
        assert forall|k: int|
            #![trigger choice_claims(key, v, ln2, n)[k]]
            0 <= k < choice_claims(key, v, ln2, n).len() implies choice_claims(
            key,
            v,
            ln2,
            n,
        )[k].kind() != Kind::NotId by {
            if k < done.len() {
                assert(choice_claims(key, v, ln2, n)[k] == done[k]);
            } else {
                assert(choice_claims(key, v, ln2, n)[k] == more[k - done.len()]);
            }
        }
    }
}

/// The plaintexts of a list of marks.
pub open spec fn mark_values(marks: Seq<usize>) -> Seq<int> {
    marks.map_values(|m: usize| bit(m == 1) as int)
}

/// The sum of encrypted marks encrypts the sum of the marks.
pub proof fn lemma_sum_encrypted(key: CtView, cts: Seq<ExtendedCiphertext>, marks: Seq<usize>)
    requires
        encrypts_marks(cts, key, marks),
    ensures
        ct_sum(inner_views(cts)) == ct_encrypt(
            key,
            int_sum(mark_values(marks)),
            int_sum(randomness(cts)),
        ),
    decreases cts.len(),
{
    crate::arith::lemma_order();
    lemma_red_small(0);
    if cts.len() == 0 {
        assert(ct_zero() == ct_encrypt(key, 0, 0));
    } else {
        let n = cts.len() - 1;
        let less = cts.drop_last();
        assert(encrypts_marks(less, key, marks.drop_last())) by {
            assert forall|i: int| #![trigger less[i]] 0 <= i < less.len() implies less[i].encrypts(
                key,
                bit(marks.drop_last()[i] == 1) as int,
            ) by {
                assert(less[i] == cts[i]);
            }
        }
        lemma_sum_encrypted(key, less, marks.drop_last());
        assert(inner_views(cts).drop_last() =~= inner_views(less));
        assert(mark_values(marks).drop_last() =~= mark_values(marks.drop_last()));
        assert(randomness(cts).drop_last() =~= randomness(less));
        assert(cts[n].encrypts(key, bit(marks[n] == 1) as int));
        lemma_encrypt_add(
            key,
            int_sum(mark_values(marks.drop_last())),
            int_sum(randomness(less)),
            bit(marks[n] == 1) as int,
            cts[n].random_scalar@,
        );
    }
}

/// The sum of marks of which only the one at `at` is one.
pub proof fn lemma_single_mark(marks: Seq<usize>, at: int)
    requires
        forall|i: int|
            #![trigger marks[i]]
            0 <= i < marks.len() ==> marks[i] == bit(i == at),
    ensures
        int_sum(mark_values(marks)) == if 0 <= at < marks.len() {
            1int
        } else {
            0
        },
    decreases marks.len(),
{
    if marks.len() > 0 {
        let less = marks.drop_last();
        assert forall|i: int| #![trigger less[i]] 0 <= i < less.len() implies less[i] == bit(
            i == at,
        ) by {
            assert(less[i] == marks[i]);
        }
        lemma_single_mark(less, at);
        assert(mark_values(marks).drop_last() =~= mark_values(less));
        assert(marks[marks.len() - 1] == bit(marks.len() - 1 == at));
    }
}

/// Whether the encryption is one of the choice.
pub open spec fn encrypted(ext: ExtendedEncrChoice, key: CtView, choice: Choice) -> bool {
    &&& encrypts_marks(ext.l1@, key, choice.l1@)
    &&& ext.l2@.len() == choice.l2@.len()
    &&& forall|i: int|
        #![trigger ext.l2@[i]]
        0 <= i < ext.l2@.len() ==> encrypts_marks(ext.l2@[i]@, key, choice.l2@[i]@)
}

/// The marks of one party, where one candidate was chosen.
pub proof fn lemma_party_marks(choice: Choice, params: ChoiceParameters, i: int)
    requires
        choice.marks(params),
        choice.l2_value@.len() == 1,
        0 <= i < params.n1,
    ensures
        choice.l1@[i] == bit(i == choice.l1_value),
        choice.l2@[i]@.len() == params.ln2@[i],
        forall|j: int|
            #![trigger choice.l2@[i]@[j]]
            0 <= j < params.ln2@[i] ==> choice.l2@[i]@[j] == bit(
                j == if i == choice.l1_value {
                    choice.l2_value@[0] as int
                } else {
                    -1
                },
            ),
{
    assert(choice.l2_value@[0] == choice.l2_value@[0]);
    assert forall|j: int| #![trigger choice.l2@[i]@[j]] 0 <= j < params.ln2@[i] implies choice.l2@[i]@[j]
        == bit(
        j == if i == choice.l1_value {
            choice.l2_value@[0] as int
        } else {
            -1
        },
    ) by {
        let chosen = exists|k: int| 0 <= k < choice.l2_value@.len() && choice.l2_value@[k] == j;
        if choice.l2_value@[0] == j {
            assert(0 <= 0 < choice.l2_value@.len() && choice.l2_value@[0] == j);
        }
        assert(choice.l2@[i]@[j] == bit(i == choice.l1_value && chosen));
    }
}

proof fn lemma_party_shown(
    key: CtView,
    choice: Choice,
    ext: ExtendedEncrChoice,
    params: ChoiceParameters,
    i: int,
)
    requires
        params.wf(),
        choice.marks(params),
        choice.l2_value@.len() == 1,
        encrypted(ext, key, choice),
        0 <= i < params.n1,
    ensures
        party_claims(key, ext.inner(), params.ln2@, i).len() == party_knowledge(choice, ext, i).len(),
        forall|k: int|
            #![trigger party_claims(key, ext.inner(), params.ln2@, i)[k]]
            0 <= k < party_claims(key, ext.inner(), params.ln2@, i).len() ==> shown(
                party_claims(key, ext.inner(), params.ln2@, i)[k],
                party_knowledge(choice, ext, i)[k],
            ),
{
    let v = ext.inner();
    let claims = party_claims(key, v, params.ln2@, i);
    let knowledge = party_knowledge(choice, ext, i);
    let n = params.ln2@[i] as int;
    let at = if i == choice.l1_value {
        choice.l2_value@[0] as int
    } else {
        -1
    };
    lemma_party_marks(choice, params, i);
    assert(encrypts_marks(ext.l2@[i]@, key, choice.l2@[i]@));
    assert(v.l2[i] == inner_views(ext.l2@[i]@));
    assert(ext.l1@[i].encrypts(key, bit(choice.l1@[i] == 1) as int));
    assert forall|k: int| #![trigger claims[k]] 0 <= k < claims.len() implies shown(
        claims[k],
        knowledge[k],
    ) by {
        if k < n {
            assert(ext.l2@[i]@[k].encrypts(key, bit(choice.l2@[i]@[k] == 1) as int));
            assert(v.l2[i][k] == ext.l2@[i]@[k].inner@);
        } else if k == n {
            assert(v.l1[i] == ext.l1@[i].inner@);
        } else {
            let r = ext.l1@[i].random_scalar@;
            let rest = int_sum(randomness(ext.l2@[i]@));
            lemma_sum_encrypted(key, ext.l2@[i]@, choice.l2@[i]@);
            lemma_single_mark(choice.l2@[i]@, at);
            assert(choice.l2_value@[0] < params.ln2@[choice.l1_value as int]);
            let b = bit(choice.l1@[i] == 1) as int;
            assert(int_sum(mark_values(choice.l2@[i]@)) == b);
            lemma_encrypt_sub(key, b, r, b, rest);
            crate::arith::lemma_red_sub(r, rest);
            lemma_encrypt_red(key, 0, r - rest);
            assert(v.l1[i] == ext.l1@[i].inner@);
        }
    }
}

proof fn lemma_choice_shown(
    key: CtView,
    choice: Choice,
    ext: ExtendedEncrChoice,
    params: ChoiceParameters,
    n: int,
)
    requires
        params.wf(),
        choice.marks(params),
        choice.l2_value@.len() == 1,
        encrypted(ext, key, choice),
        0 <= n <= params.n1,
    ensures
        choice_claims(key, ext.inner(), params.ln2@, n).len() == choice_knowledge(
            choice,
            ext,
            n,
        ).len(),
        forall|k: int|
            #![trigger choice_claims(key, ext.inner(), params.ln2@, n)[k]]
            0 <= k < choice_claims(key, ext.inner(), params.ln2@, n).len() ==> shown(
                choice_claims(key, ext.inner(), params.ln2@, n)[k],
                choice_knowledge(choice, ext, n)[k],
            ),
    decreases n,
{
    let v = ext.inner();
    if n == 0 {
        lemma_sum_encrypted(key, ext.l1@, choice.l1@);
        lemma_single_mark(choice.l1@, choice.l1_value as int);
        let r = int_sum(randomness(ext.l1@));
        lemma_encrypt_strip(key, 1, r, 1);
        lemma_encrypt_red(key, 0, r);
    } else {
        lemma_choice_shown(key, choice, ext, params, n - 1);
        lemma_party_shown(key, choice, ext, params, n - 1);
        let done = choice_claims(key, v, params.ln2@, n - 1);
        let more = party_claims(key, v, params.ln2@, n - 1);
        let all = choice_claims(key, v, params.ln2@, n);
        assert forall|k: int| #![trigger all[k]] 0 <= k < all.len() implies shown(
            all[k],
            choice_knowledge(choice, ext, n)[k],
        ) by {
            if k < done.len() {
                assert(all[k] == done[k]);
            } else {
                assert(all[k] == more[k - done.len()]);
            }
        }
    }
}

/// An honest vote shows its claims: where a choice of one party and one of its
/// candidates was encrypted, what the prover knows shows every claim on the
/// encryption.
pub proof fn law_honest_choice(
    key: CtView,
    choice: Choice,
    ext: ExtendedEncrChoice,
    params: ChoiceParameters,
    witnesses: Seq<Witness>,
)
    requires
        params.wf(),
        choice.marks(params),
        choice.l2_value@.len() == 1,
        encrypted(ext, key, choice),
        witness_values(witnesses) == choice_knowledge(choice, ext, params.n1 as int),
        forall|k: int|
            #![trigger witnesses[k]]
            0 <= k < witnesses.len() ==> witnesses[k].fits(
                choice_claims(key, ext.inner(), params.ln2@, params.n1 as int)[k].kind(),
            ),
    ensures
        all_shown(
            choice_claims(key, ext.inner(), params.ln2@, params.n1 as int),
            witnesses,
        ),
{
    lemma_choice_shown(key, choice, ext, params, params.n1 as int);
    let claims = choice_claims(key, ext.inner(), params.ln2@, params.n1 as int);
    assert(witnesses.len() == witness_values(witnesses).len());
    assert forall|k: int| #![trigger claims[k]] 0 <= k < claims.len() implies shows(
        claims[k],
        witnesses[k],
    ) by {
        assert(witness_values(witnesses)[k] == witnesses[k].values());
        assert(witnesses[k].fits(claims[k].kind()));
    }
}

} // verus!
