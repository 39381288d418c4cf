//! The encoding of a ballot, and the commitment to it.

use rand::rngs::StdRng;
use vstd::prelude::*;

use crate::elgamal::{ct_encoding, ct_views, Ciphertext, CtView};
use crate::encoding::{
    cbor_array, cbor_bytes, cbor_ciphertext, digest, encode_bytes, encode_ciphertext, encode_items,
    field, item_views, put_field, sha3_256,
};
use crate::group::{point_encoding, scalar_encoding, Scalar};
use crate::proofs::compound::{kinds, proof_kinds};
use crate::proofs::relation::{scalar_views, Kind, ProofView, SubProof};
use crate::protocol::keys::ElectionPublicKey;
use crate::protocol::mix::{lemma_offset, offset};
use crate::protocol::vote::auth_proof::EncrAuthValues;
use crate::protocol::vote::ballot_proof::Proof;
use crate::protocol::vote::cai::EncrValuesCAI;
use crate::protocol::vote::choice::{ChoiceParameters, EncrChoiceView};
use crate::protocol::vote::choice_proof::{choice_claims, party_claims};
use crate::protocol::vote::vote::VerVote;
use crate::random::random_bytes;

verus! {

/// The encoding of a ciphertext in a proof: a string of all its bytes.
pub open spec fn ct_string(ct: CtView) -> Seq<u8> {
    cbor_bytes(ct_encoding(ct))
}

/// The encoding of a scalar.
pub open spec fn scalar_string(x: int) -> Seq<u8> {
    cbor_bytes(scalar_encoding(x))
}

/// The encoding of the ciphertexts of a proof.
pub open spec fn ct_strings(cts: Seq<CtView>) -> Seq<u8> {
    cbor_array(cts.map_values(|ct: CtView| ct_string(ct)))
}

/// The encoding of the scalars of a proof.
pub open spec fn scalar_strings(scalars: Seq<int>) -> Seq<u8> {
    cbor_array(scalars.map_values(|x: int| scalar_string(x)))
}

/// The encoding of a proof: a record that depends on the kind.
pub open spec fn proof_encoding(kind: Kind, p: ProofView) -> Seq<u8> {
    match kind {
        Kind::Zero => seq![0xa2u8] + field("commitment"@, ct_string(p.commitments[0])) + field(
            "response"@,
            scalar_string(p.responses[0]),
        ),
        Kind::Or => seq![0xa3u8] + field("commitments"@, ct_strings(p.commitments)) + field(
            "responses"@,
            scalar_strings(p.responses),
        ) + field("challenges"@, scalar_strings(p.challenges)),
        Kind::Exp => seq![0xa3u8] + field("commitment"@, ct_string(p.commitments[0])) + field(
            "z_r"@,
            scalar_string(p.responses[0]),
        ) + field("z_x"@, scalar_string(p.responses[1])),
        Kind::NotId => seq![0xa3u8] + field(
            "commitments_pk"@,
            ct_strings(p.commitments.subrange(0, 2)),
        ) + field("commitments_ct"@, ct_strings(p.commitments.subrange(2, 4))) + field(
            "responses"@,
            scalar_strings(p.responses),
        ),
        Kind::LogEq => seq![0xa3u8] + field("commitment"@, ct_string(p.commitments[0])) + field(
            "response_delta"@,
            scalar_string(p.responses[0]),
        ) + field("response_m"@, scalar_string(p.responses[1])),
    }
}

/// The encodings of proofs.
pub open spec fn proof_encodings(proofs: Seq<SubProof>) -> Seq<Seq<u8>> {
    proofs.map_values(|p: SubProof| proof_encoding(p.kind(), p@))
}

/// Where the proofs on the party at `i` begin.
pub open spec fn party_start(ln2: Seq<usize>, i: int) -> int {
    1 + offset(ln2, i) + 2 * i
}

/// The encoding of the proofs on a choice: those on the sum of the parties, on
/// the candidates of each party, on the parties, and on their candidates' sums.
pub open spec fn choice_proof_encoding(proofs: Seq<Seq<u8>>, ln2: Seq<usize>) -> Seq<u8> {
    seq![0xa4u8] + field("one_l1_nizkp"@, proofs[0]) + field(
        "l2_01_nizkp"@,
        cbor_array(candidate_lists(proofs, ln2)),
    ) + field("l1_01_nizkp"@, cbor_array(party_list(proofs, ln2, 0))) + field(
        "l1_eq_sum_l2_nizkp"@,
        cbor_array(party_list(proofs, ln2, 1)),
    )
}

/// For each party, the encoding of the proofs on its candidates.
pub open spec fn candidate_lists(proofs: Seq<Seq<u8>>, ln2: Seq<usize>) -> Seq<Seq<u8>> {
    Seq::new(
        ln2.len(),
        |i: int|
            cbor_array(
                proofs.subrange(party_start(ln2, i), party_start(ln2, i) + ln2[i]),
            ),
    )
}

/// For each party, the proof that comes `k` after those on its candidates.
pub open spec fn party_list(proofs: Seq<Seq<u8>>, ln2: Seq<usize>, k: int) -> Seq<Seq<u8>> {
    Seq::new(ln2.len(), |i: int| proofs[party_start(ln2, i) + ln2[i] + k])
}

impl Proof {
    /// Whether there are as many proofs as a ballot for the parameters has.
    pub open spec fn listed(self, params: ChoiceParameters) -> bool {
        &&& self.choice_proof.proofs@.len() == party_start(
            params.ln2@,
            params.ln2@.len() as int,
        )
        &&& self.cai_proof.proofs@.len() == 2
        &&& self.auth_proof.proofs@.len() == 4
    }

    /// The encoding: a record of the proofs on choice, codes and credential.
    pub open spec fn encoding(self, params: ChoiceParameters) -> Seq<u8> {
        let cai = proof_encodings(self.cai_proof.proofs@);
        let auth = proof_encodings(self.auth_proof.proofs@);
        seq![0xa3u8] + field(
            "choice_proof"@,
            choice_proof_encoding(
                proof_encodings(self.choice_proof.proofs@),
                params.ln2@,
            ),
        ) + field(
            "cai_proof"@,
            seq![0xa2u8] + field("l1_codesum_nizkp"@, cai[0]) + field("l2_codesum_nizkp"@, cai[1]),
        ) + field(
            "auth_proof"@,
            seq![0xa4u8] + field("A_pt_nizkp"@, auth[0]) + field("Ar_pt_nizkp"@, auth[1]) + field(
                "A_notid_nizkp"@,
                auth[2],
            ) + field("g3x_ox_ptdlogeq_nizkp"@, auth[3]),
        )
    }
}

/// The encoding of encrypted codes.
pub open spec fn codes_encoding(cai: EncrValuesCAI) -> Seq<u8> {
    seq![0xa4u8] + field("l1_code_enc"@, cbor_ciphertext(cai.l1_code_enc@)) + field(
        "l1_sum_enc"@,
        cbor_ciphertext(cai.l1_sum_enc@),
    ) + field("l2_code_enc"@, cbor_ciphertext(cai.l2_code_enc@)) + field(
        "l2_sum_enc"@,
        cbor_ciphertext(cai.l2_sum_enc@),
    )
}

/// The encoding of an encrypted credential.
pub open spec fn credential_encoding(auth: EncrAuthValues) -> Seq<u8> {
    seq![0xa5u8] + field("B"@, cbor_bytes(point_encoding(auth.B.log()))) + field(
        "A_enc"@,
        cbor_ciphertext(auth.A_enc@),
    ) + field("Ar_enc"@, cbor_ciphertext(auth.Ar_enc@)) + field(
        "g3x_enc"@,
        cbor_ciphertext(auth.g3x_enc@),
    ) + field("ox_enc"@, cbor_ciphertext(auth.ox_enc@))
}

fn encode_ct(ct: &Ciphertext) -> (r: Vec<u8>)
    ensures
        r@ == ct_string(ct@),
{
    encode_bytes(ct.to_bytes().as_slice())
}

fn encode_scalar(x: &Scalar) -> (r: Vec<u8>)
    ensures
        r@ == scalar_string(x@),
{
    encode_bytes(x.to_bytes().as_slice())
}

fn encode_cts(cts: &Vec<Ciphertext>) -> (r: Vec<u8>)
    ensures
        r@ == ct_strings(ct_views(cts@)),
{
    let mut items: Vec<Vec<u8>> = Vec::new();
    let mut i: usize = 0;
    while i < cts.len()
        invariant
            i <= cts@.len(),
            items@.len() == i,
            forall|k: int| #![trigger items@[k]] 0 <= k < i ==> items@[k]@ == ct_string(cts@[k]@),
        decreases cts@.len() - i,
    {
        items.push(encode_ct(&cts[i]));
        i += 1;
    }
    proof {
        assert(item_views(items@) =~= ct_views(cts@).map_values(|ct: CtView| ct_string(ct)));
    }
    encode_items(&items)
}

fn encode_scalars(scalars: &Vec<Scalar>) -> (r: Vec<u8>)
    ensures
        r@ == scalar_strings(scalar_views(scalars@)),
{
    let mut items: Vec<Vec<u8>> = Vec::new();
    let mut i: usize = 0;
    while i < scalars.len()
        invariant
            i <= scalars@.len(),
            items@.len() == i,
            forall|k: int|
                #![trigger items@[k]]
                0 <= k < i ==> items@[k]@ == scalar_string(scalars@[k]@),
        decreases scalars@.len() - i,
    {
        items.push(encode_scalar(&scalars[i]));
        i += 1;
    }
    proof {
        assert(item_views(items@) =~= scalar_views(scalars@).map_values(
            |x: int| scalar_string(x),
        ));
    }
    encode_items(&items)
}

/// A record with room for its fields: the head alone.
fn record(head: u8) -> (r: Vec<u8>)
    ensures
        r@ == seq![head],
{
    let mut out: Vec<u8> = Vec::new();
    out.push(head);
    proof {
        assert(out@ =~= seq![head]);
    }
    out
}

impl SubProof {
    /// The encoding.
    pub fn to_bytes(&self) -> (r: Vec<u8>)
        ensures
            r@ == proof_encoding(self.kind(), self@),
    {
        match self {
            SubProof::Zero { commitment, response } => {
                let mut out = record(0xa2);
                put_field(&mut out, "commitment", &encode_ct(commitment));
                put_field(&mut out, "response", &encode_scalar(response));
                out
            },
            SubProof::Or { commitments, responses, challenges } => {
                let mut out = record(0xa3);
                put_field(&mut out, "commitments", &encode_cts(commitments));
                put_field(&mut out, "responses", &encode_scalars(responses));
                put_field(&mut out, "challenges", &encode_scalars(challenges));
                out
            },
            SubProof::Exp { commitment, z_r, z_x } => {
                let mut out = record(0xa3);
                put_field(&mut out, "commitment", &encode_ct(commitment));
                put_field(&mut out, "z_r", &encode_scalar(z_r));
                put_field(&mut out, "z_x", &encode_scalar(z_x));
                out
            },
            SubProof::NotId { commitments_pk, commitments_ct, z } => {
                let first = vec![commitments_pk[0], commitments_pk[1]];
                let second = vec![commitments_ct[0], commitments_ct[1]];
                let scalars = vec![z[0], z[1]];
                proof {
                    assert(ct_views(first@) =~= self@.commitments.subrange(0, 2));
                    assert(ct_views(second@) =~= self@.commitments.subrange(2, 4));
                    assert(scalar_views(scalars@) =~= self@.responses);
                }
                let mut out = record(0xa3);
                put_field(&mut out, "commitments_pk", &encode_cts(&first));
                put_field(&mut out, "commitments_ct", &encode_cts(&second));
                put_field(&mut out, "responses", &encode_scalars(&scalars));
                out
            },
            SubProof::LogEq { commitment, response_delta, response_m } => {
                let mut out = record(0xa3);
                put_field(&mut out, "commitment", &encode_ct(commitment));
                put_field(&mut out, "response_delta", &encode_scalar(response_delta));
                put_field(&mut out, "response_m", &encode_scalar(response_m));
                out
            },
        }
    }
}

/// Encodes each of a list of proofs.
fn encode_proofs(proofs: &Vec<SubProof>) -> (r: Vec<Vec<u8>>)
    ensures
        item_views(r@) == proof_encodings(proofs@),
{
    let mut items: Vec<Vec<u8>> = Vec::new();
    let mut i: usize = 0;
    while i < proofs.len()
        invariant
            i <= proofs@.len(),
            items@.len() == i,
            forall|k: int|
                #![trigger items@[k]]
                0 <= k < i ==> items@[k]@ == proof_encoding(proofs@[k].kind(), proofs@[k]@),
        decreases proofs@.len() - i,
    {
        items.push(proofs[i].to_bytes());
        i += 1;
    }
    proof {
        assert(item_views(items@) =~= proof_encodings(proofs@));
    }
    items
}

/// The items from `start` on, `n` of them.
fn items_from(items: &Vec<Vec<u8>>, start: usize, n: usize) -> (r: Vec<Vec<u8>>)
    requires
        start + n <= items@.len(),
    ensures
        item_views(r@) == item_views(items@).subrange(start as int, start + n),
{
    let mut out: Vec<Vec<u8>> = Vec::new();
    let total = items.len();
    let mut j: usize = 0;
    while j < n
        invariant
            j <= n,
            total == items@.len(),
            start + n <= total,
            out@.len() == j,
            forall|k: int| #![trigger out@[k]] 0 <= k < j ==> out@[k]@ == items@[start + k]@,
        decreases n - j,
    {
        out.push(items[start + j].clone());
        j += 1;
    }
    proof {
        assert(item_views(out@) =~= item_views(items@).subrange(start as int, start + n));
    }
    out
}

/// Encodes the proofs on a choice.
fn encode_choice_proof(proofs: &Vec<SubProof>, ln2: &Vec<usize>) -> (r: Vec<u8>)
    requires
        proofs@.len() == party_start(ln2@, ln2@.len() as int),
    ensures
        r@ == choice_proof_encoding(proof_encodings(proofs@), ln2@),
{
    let items = encode_proofs(proofs);
    let ghost views = proof_encodings(proofs@);
    let total = items.len();
    let mut rows: Vec<Vec<u8>> = Vec::new();
    let mut parties: Vec<Vec<u8>> = Vec::new();
    let mut sums: Vec<Vec<u8>> = Vec::new();
    let mut start: usize = 1;
    let mut i: usize = 0;
    proof {
        assert(item_views(items@).len() == items@.len());
        assert(views.len() == proofs@.len());
        if ln2@.len() > 0 {
            lemma_offset(ln2@, 0, ln2@.len() as int);
        }
    }
    while i < ln2.len()
        invariant
            i <= ln2@.len(),
            views == item_views(items@),
            total == items@.len(),
            total == party_start(ln2@, ln2@.len() as int),
            start == party_start(ln2@, i as int),
            start <= total,
            rows@.len() == i,
            parties@.len() == i,
            sums@.len() == i,
            forall|k: int|
                #![trigger rows@[k]]
                0 <= k < i ==> rows@[k]@ == candidate_lists(views, ln2@)[k],
            forall|k: int|
                #![trigger parties@[k]]
                0 <= k < i ==> parties@[k]@ == party_list(views, ln2@, 0)[k],
            forall|k: int|
                #![trigger sums@[k]]
                0 <= k < i ==> sums@[k]@ == party_list(views, ln2@, 1)[k],
        decreases ln2@.len() - i,
    {
        let n = ln2[i];
        proof {
            lemma_offset(ln2@, i as int, ln2@.len() as int);
            assert(offset(ln2@, i + 1) == offset(ln2@, i as int) + n);
            assert(start + n + 2 <= total);
        }
        rows.push(encode_items(&items_from(&items, start, n)));
        parties.push(items[start + n].clone());
        sums.push(items[start + n + 1].clone());
        start = start + n + 2;
        i += 1;
    }
    proof {
        assert(item_views(rows@) =~= candidate_lists(views, ln2@));
        assert(item_views(parties@) =~= party_list(views, ln2@, 0));
        assert(item_views(sums@) =~= party_list(views, ln2@, 1));
        assert(item_views(items@)[0] == items@[0]@);
    }
    let mut out = record(0xa4);
    put_field(&mut out, "one_l1_nizkp", &items[0]);
    put_field(&mut out, "l2_01_nizkp", &encode_items(&rows));
    put_field(&mut out, "l1_01_nizkp", &encode_items(&parties));
    put_field(&mut out, "l1_eq_sum_l2_nizkp", &encode_items(&sums));
    out
}

impl Proof {
    /// The encoding.
    pub fn to_bytes(&self, params: &ChoiceParameters) -> (r: Vec<u8>)
        requires
            self.listed(*params),
        ensures
            r@ == self.encoding(*params),
    {
        let choice = encode_choice_proof(&self.choice_proof.proofs, &params.ln2);
        let codes = encode_proofs(&self.cai_proof.proofs);
        let credential = encode_proofs(&self.auth_proof.proofs);
        proof {
            assert(item_views(codes@).len() == 2 && item_views(credential@).len() == 4);
            assert(item_views(codes@)[0] == codes@[0]@);
            assert(item_views(codes@)[1] == codes@[1]@);
            assert(item_views(credential@)[0] == credential@[0]@);
            assert(item_views(credential@)[1] == credential@[1]@);
            assert(item_views(credential@)[2] == credential@[2]@);
            assert(item_views(credential@)[3] == credential@[3]@);
        }
        let mut cai = record(0xa2);
        put_field(&mut cai, "l1_codesum_nizkp", &codes[0]);
        put_field(&mut cai, "l2_codesum_nizkp", &codes[1]);
        let mut auth = record(0xa4);
        put_field(&mut auth, "A_pt_nizkp", &credential[0]);
        put_field(&mut auth, "Ar_pt_nizkp", &credential[1]);
        put_field(&mut auth, "A_notid_nizkp", &credential[2]);
        put_field(&mut auth, "g3x_ox_ptdlogeq_nizkp", &credential[3]);
        let mut out = record(0xa3);
        put_field(&mut out, "choice_proof", &choice);
        put_field(&mut out, "cai_proof", &cai);
        put_field(&mut out, "auth_proof", &auth);
        out
    }
}

fn encode_codes(cai: &EncrValuesCAI) -> (r: Vec<u8>)
    ensures
        r@ == codes_encoding(*cai),
{
    let mut out = record(0xa4);
    put_field(&mut out, "l1_code_enc", &encode_ciphertext(&cai.l1_code_enc));
    put_field(&mut out, "l1_sum_enc", &encode_ciphertext(&cai.l1_sum_enc));
    put_field(&mut out, "l2_code_enc", &encode_ciphertext(&cai.l2_code_enc));
    put_field(&mut out, "l2_sum_enc", &encode_ciphertext(&cai.l2_sum_enc));
    out
}

fn encode_credential(auth: &EncrAuthValues) -> (r: Vec<u8>)
    ensures
        r@ == credential_encoding(*auth),
{
    let mut out = record(0xa5);
    put_field(&mut out, "B", &encode_bytes(auth.B.to_bytes().as_slice()));
    put_field(&mut out, "A_enc", &encode_ciphertext(&auth.A_enc));
    put_field(&mut out, "Ar_enc", &encode_ciphertext(&auth.Ar_enc));
    put_field(&mut out, "g3x_enc", &encode_ciphertext(&auth.g3x_enc));
    put_field(&mut out, "ox_enc", &encode_ciphertext(&auth.ox_enc));
    out
}

/// The bytes, the digest of them and of random bytes, and these bytes.
fn sealed(bytes: Vec<u8>, rng: &mut StdRng) -> (r: (Vec<u8>, [u8; 32], [u8; 32]))
    ensures
        r.0@ == bytes@,
        r.1@ == sha3_256(r.0@ + r.2@),
{
    let random = random_bytes(rng);
    let mut data = bytes.clone();
    data.extend_from_slice(random.as_slice());
    proof {
        assert(data@ =~= bytes@ + random@);
    }
    let value = digest(data.as_slice());
    (bytes, value, random)
}

impl VerVote {
    /// The encoding: a record of choice, codes, credential and proof.
    pub open spec fn encoding(self, params: ChoiceParameters) -> Seq<u8> {
        seq![0xa4u8] + field("choice"@, self.choice@.encoding()) + field(
            "cai"@,
            codes_encoding(self.cai),
        ) + field("auth"@, credential_encoding(self.auth)) + field(
            "proof"@,
            self.proof.encoding(params),
        )
    }

    /// The encoding.
    pub fn to_bytes(&self, params: &ChoiceParameters) -> (r: Vec<u8>)
        requires
            self.proof.listed(*params),
        ensures
            r@ == self.encoding(*params),
    {
        let mut out = record(0xa4);
        put_field(&mut out, "choice", &self.choice.to_bytes());
        put_field(&mut out, "cai", &encode_codes(&self.cai));
        put_field(&mut out, "auth", &encode_credential(&self.auth));
        put_field(&mut out, "proof", &self.proof.to_bytes(params));
        out
    }

    /// Commits to the ballot: the encoding, the digest of it and of random
    /// bytes, and these bytes.
    pub fn commit(&self, params: &ChoiceParameters, rng: &mut StdRng) -> (r: (
        Vec<u8>,
        [u8; 32],
        [u8; 32],
    ))
        requires
            self.proof.listed(*params),
        ensures
            r.0@ == self.encoding(*params),
            r.1@ == sha3_256(r.0@ + r.2@),
    {
        sealed(self.to_bytes(params), rng)
    }

    /// A ballot of the shape that belongs to the parameters has as many proofs
    /// as its encoding needs.
    pub proof fn lemma_listed(self, pk: ElectionPublicKey, params: ChoiceParameters)
        requires
            self.shaped(pk, params),
        ensures
            self.proof.listed(params),
    {
        let claims = self.claims(pk, params);
        lemma_claim_count(pk.key(), self.choice@, params.ln2@, params.n1 as int);
        assert(kinds(claims.choice).len() == claims.choice.len());
        assert(kinds(claims.cai).len() == 2 && kinds(claims.auth).len() == 4);
        assert(proof_kinds(self.proof.choice_proof.proofs@).len()
            == self.proof.choice_proof.proofs@.len());
        assert(proof_kinds(self.proof.cai_proof.proofs@).len()
            == self.proof.cai_proof.proofs@.len());
        assert(proof_kinds(self.proof.auth_proof.proofs@).len()
            == self.proof.auth_proof.proofs@.len());
    }
}

/// The number of claims on a choice.
proof fn lemma_claim_count(key: CtView, v: EncrChoiceView, ln2: Seq<usize>, n: int)
    requires
        n >= 0,
    ensures
        choice_claims(key, v, ln2, n).len() == party_start(ln2, n),
    decreases n,
{
    if n > 0 {
        lemma_claim_count(key, v, ln2, n - 1);
        assert(party_claims(key, v, ln2, n - 1).len() == ln2[n - 1] + 2);
    }
}

} // verus!
