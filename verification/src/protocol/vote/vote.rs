//! Ballots and votes.

use rand::rngs::StdRng;
use vstd::prelude::*;

use crate::constants::CAI_POW;
use crate::elgamal::{Ciphertext, CtView};
use crate::encoding::{
    cbor_bound, cbor_ciphertext, encode_ciphertext, field, put_field,
};
use crate::error::{CryptoError, Error};
use crate::proofs::compound::kinds_match;
use crate::proofs::relation::Kind;
use crate::protocol::keys::ElectionPublicKey;
use crate::protocol::vote::auth::VotingCredential;
use crate::protocol::vote::auth_proof::{
    auth_claims, law_honest_credential, re_encryption, EncrAuthValues, ExtendedEncrAuthValues,
    ExtendedShortEncrAuthValues, ProofAuthValuesPublic, ProofAuthValuesWitness,
    ShortEncrAuthValues,
};
use crate::protocol::vote::ballot_proof::{
    ballot_verdict, law_honest_ballot, part, proved_by, Claims, Proof, ProofNonces,
    ProofPublicBorrowed, ProofWitness,
};
use crate::protocol::vote::cai::{
    cai_claims, cai_knowledge, has_firsts, law_honest_codes, EncrValuesCAI, ExtendedEncrValuesCAI, ProofCAIPublic,
    ProofCAIWitness, ValuesCAI,
};
use crate::protocol::vote::choice::{
    encrypts_marks, inner_views, re_encrypts, Choice, ChoiceParameters, EncrChoice,
    EncrChoiceView, ExtendedEncrChoice,
};
use crate::protocol::vote::choice_proof::{
    choice_claims, choice_knowledge, choice_rows, encrypted, knows, law_honest_choice,
    lemma_encodable, witness_values, ProofEncrChoicePublic, ProofEncrChoiceWitness,
};
use crate::transcript::{message, prelude, Entry};

verus! {

/// A ballot with its proof.
#[derive(Debug, PartialEq)]
pub struct VerVote {
    pub choice: EncrChoice,
    pub cai: EncrValuesCAI,
    pub auth: EncrAuthValues,
    pub proof: Proof,
}

impl VerVote {
    /// Whether the other is the same ballot.
    pub open spec fn same(self, other: VerVote) -> bool {
        &&& self.choice@ == other.choice@
        &&& self.cai == other.cai
        &&& self.auth == other.auth
        &&& self.proof.same(other.proof)
    }
}

impl Clone for VerVote {
    fn clone(&self) -> (r: Self)
        ensures
            r.same(*self),
    {
        VerVote {
            choice: self.choice.clone(),
            cai: self.cai,
            auth: self.auth,
            proof: self.proof.clone(),
        }
    }
}

/// The claims on a ballot.
pub open spec fn ballot_claims(
    pk: ElectionPublicKey,
    choice: EncrChoiceView,
    cai: EncrValuesCAI,
    auth: EncrAuthValues,
    params: ChoiceParameters,
) -> Claims {
    Claims {
        choice: choice_claims(pk.key(), choice, params.ln2@, params.n1 as int),
        cai: cai_claims(pk.key(), cai, choice),
        auth: auth_claims(pk, auth),
    }
}

/// The steps of a ballot's transcript up to the first commitment.
pub open spec fn ballot_steps(
    pk: ElectionPublicKey,
    choice: EncrChoiceView,
    params: ChoiceParameters,
) -> Seq<Entry> {
    prelude("vote-proof"@) + seq![
        part("choice"@),
    ] + choice_steps(pk, choice, params) + seq![
        part("cai"@),
        part("auth"@),
    ]
}

/// The steps that append the claims on the choice.
pub open spec fn choice_steps(
    pk: ElectionPublicKey,
    choice: EncrChoiceView,
    params: ChoiceParameters,
) -> Seq<Entry> {
    pk.steps().push(
        message("CHOICE"@, choice.encoding()),
    ).push(message("PARAM"@, params.encoding()))
}

/// Whether a ballot has the shape that belongs to the parameters.
pub open spec fn ballot_shaped(choice: EncrChoiceView, params: ChoiceParameters) -> bool {
    &&& params.wf()
    &&& params.encodable()
    &&& choice.covers(params)
    &&& choice.encodable()
    &&& has_firsts(choice)
}

/// What is drawn and derived while a ballot is made: the encrypted choice, the
/// codes and their encryption, the encrypted credential, each with its
/// randomness, and witness and nonces of the proof.
pub struct Draws {
    pub choice: ExtendedEncrChoice,
    pub cai: ValuesCAI,
    pub codes: ExtendedEncrValuesCAI,
    pub auth: ExtendedEncrAuthValues,
    pub witness: ProofWitness,
    pub nonces: ProofNonces,
}

impl Draws {
    /// Whether what must not be zero is: the factor that blinds the credential,
    /// or the nonce of the not-identity proof.
    pub open spec fn degenerate(self) -> bool {
        self.auth.s@ == 0 || self.nonces.vanishes()
    }

    /// Whether the witness holds what the maker of the ballot knows.
    pub open spec fn known(
        self,
        choice: Choice,
        params: ChoiceParameters,
        credential: VotingCredential,
        x: int,
    ) -> bool {
        &&& witness_values(self.witness.choice_wit.witnesses@) == choice_knowledge(
            choice,
            self.choice,
            params.n1 as int,
        )
        &&& witness_values(self.witness.cai_wit.witnesses@) == cai_knowledge(
            self.cai,
            self.codes,
            self.choice,
        )
        &&& self.witness.auth_wit.knows(self.auth, credential, x)
    }
}

impl VerVote {
    /// The claims on the ballot.
    pub open spec fn claims(self, pk: ElectionPublicKey, params: ChoiceParameters) -> Claims {
        ballot_claims(pk, self.choice@, self.cai, self.auth, params)
    }

    /// Whether the ballot has the shape that belongs to the parameters.
    pub open spec fn shaped(self, pk: ElectionPublicKey, params: ChoiceParameters) -> bool {
        &&& ballot_shaped(self.choice@, params)
        &&& self.proof.fits(self.claims(pk, params))
    }

    /// Whether the ballot has the shape that belongs to the parameters.
    pub fn is_shaped(&self, pk: &ElectionPublicKey, params: &ChoiceParameters) -> (r: bool)
        ensures
            r == self.shaped(*pk, *params),
    {
        if !params.is_well_formed() || !params.is_encodable() || !self.choice.is_covering(params)
            || !self.choice.is_encodable() || !self.choice.has_first_entries() {
            return false;
        }
        let choice = ProofEncrChoicePublic::new(&self.choice, pk, params);
        let cai = ProofCAIPublic::new(pk, &self.cai, &self.choice);
        let auth = ProofAuthValuesPublic::new(&self.auth, pk);
        kinds_match(&self.proof.choice_proof.proofs, &choice.statements) && kinds_match(
            &self.proof.cai_proof.proofs,
            &cai.statements,
        ) && kinds_match(&self.proof.auth_proof.proofs, &auth.statements)
    }

    /// What the verifier says to the ballot.
    pub open spec fn verdict(self, pk: ElectionPublicKey, params: ChoiceParameters) -> Result<
        (),
        CryptoError,
    > {
        ballot_verdict(
            self.claims(pk, params),
            self.proof.views(),
            ballot_steps(pk, self.choice@, params),
        )
    }

    /// Whether the ballot is one for the choice and the credential, opened with
    /// the secret `x`.
    pub open spec fn encrypts(
        self,
        pk: ElectionPublicKey,
        choice: Choice,
        credential: VotingCredential,
        x: int,
    ) -> bool {
        &&& exists|ext: ExtendedEncrChoice| #[trigger]
            encrypted(ext, pk.key(), choice) && self.choice@ == ext.inner()
        &&& exists|cai: ValuesCAI, ext: ExtendedEncrValuesCAI| #[trigger]
            ext.encrypts(pk.key(), cai) && cai.belongs(choice, CAI_POW) && holds_codes(self.cai, ext)
        &&& exists|ext: ExtendedEncrAuthValues| #[trigger]
            ext.encrypts(credential, pk, x) && holds_auth(self.auth, ext)
    }

    /// Whether the ballot is the one for the choice and the credential, opened
    /// with the secret `x`, that is made with these draws.
    pub open spec fn made_with(
        self,
        pk: ElectionPublicKey,
        choice: Choice,
        params: ChoiceParameters,
        credential: VotingCredential,
        x: int,
        d: Draws,
    ) -> bool {
        &&& encrypted(d.choice, pk.key(), choice)
        &&& self.choice@ == d.choice.inner()
        &&& d.codes.encrypts(pk.key(), d.cai)
        &&& d.cai.belongs(choice, CAI_POW)
        &&& holds_codes(self.cai, d.codes)
        &&& d.auth.encrypts(credential, pk, x)
        &&& holds_auth(self.auth, d.auth)
        &&& d.known(choice, params, credential, x)
        &&& d.witness.fits(self.claims(pk, params))
        &&& proved_by(
            self.claims(pk, params),
            d.witness,
            d.nonces,
            self.proof.views(),
            ballot_steps(pk, self.choice@, params),
        )
    }

    /// Makes a ballot for a choice, with a credential opened with a PIN, right or
    /// wrong.  With one candidate chosen, the ballot is accepted, unless the
    /// draws are degenerate.
    #[verifier::spinoff_prover]
    #[verifier::rlimit(60)]
    pub fn new(
        pk: &ElectionPublicKey,
        choice: &Choice,
        choice_params: &ChoiceParameters,
        credential: &VotingCredential,
        pin: usize,
        rng: &mut StdRng,
    ) -> (r: Self)
        requires
            choice_params.wf(),
            choice_params.encodable(),
            choice.marks(*choice_params),
            choice.l2_value@.len() > 0,
            choice.l1_value <= 100,
            choice.l2_value@[0] <= 100,
        ensures
            r.shaped(*pk, *choice_params),
            r.encrypts(
                *pk,
                *choice,
                *credential,
                credential.masked_pin.secret(pin as int),
            ),
            exists|d: Draws|
                {
                    &&& #[trigger] r.made_with(
                        *pk,
                        *choice,
                        *choice_params,
                        *credential,
                        credential.masked_pin.secret(pin as int),
                        d,
                    )
                    &&& choice.l2_value@.len() == 1 && credential.sign.A.log() != 0
                        && !d.degenerate() ==> r.verdict(*pk, *choice_params) == Ok::<
                        (),
                        CryptoError,
                    >(())
                },
    {
        let ghost key = pk.key();
        let ext_choice = ExtendedEncrChoice::new(choice, pk, rng);
        let enc_choice = ext_choice.to_encryption();
        proof {
            assert(encrypted(ext_choice, key, *choice));
            lemma_shape(key, *choice, ext_choice, *choice_params);
        }
        let cai = ValuesCAI::new(choice, CAI_POW, rng);
        let ext_cai = ExtendedEncrValuesCAI::new(&cai, pk, rng);
        let enc_cai = ext_cai.to_encrypted();
        let ext_auth = ExtendedEncrAuthValues::new(credential, pk, pin, rng);
        let enc_auth = ext_auth.to_encrypted();
        let ghost x = credential.masked_pin.secret(pin as int);
        let choice_public = ProofEncrChoicePublic::new(&enc_choice, pk, choice_params);
        let cai_public = ProofCAIPublic::new(pk, &enc_cai, &enc_choice);
        let auth_public = ProofAuthValuesPublic::new(&enc_auth, pk);
        let choice_wit = ProofEncrChoiceWitness::new(&choice_public, &ext_choice, choice);
        let cai_wit = ProofCAIWitness::new(&cai, &ext_cai, &ext_choice);
        let auth_wit = ProofAuthValuesWitness::new(&ext_auth, credential, pin);
        let public = ProofPublicBorrowed { choice_public, cai_public, auth_public };
        let witness = ProofWitness { choice_wit, cai_wit, auth_wit };
        let ghost claims = ballot_claims(*pk, enc_choice@, enc_cai, enc_auth, *choice_params);
        proof {
            assert(public.claims().choice =~= claims.choice);
            assert(public.claims().cai =~= claims.cai);
            assert(public.claims().auth =~= claims.auth);
            lemma_witnesses_fit(claims, witness, ext_auth, *credential, x);
            assert(public.steps() =~= ballot_steps(*pk, enc_choice@, *choice_params));
        }
        let ballot_proof = Proof::prove(&public, &witness, rng);
        let out = VerVote { choice: enc_choice, cai: enc_cai, auth: enc_auth, proof: ballot_proof };
        proof {
            assert(encrypted(ext_choice, key, *choice) && out.choice@ == ext_choice.inner());
            assert(ext_cai.encrypts(key, cai) && cai.belongs(*choice, CAI_POW) && holds_codes(
                out.cai,
                ext_cai,
            ));
            assert(ext_auth.encrypts(*credential, *pk, x) && holds_auth(out.auth, ext_auth));
            let nonces = choose|n: ProofNonces| #[trigger]
                proved_by(
                    public.claims(),
                    witness,
                    n,
                    ballot_proof.views(),
                    ballot_steps(*pk, enc_choice@, *choice_params),
                );
            let d = Draws {
                choice: ext_choice,
                cai,
                codes: ext_cai,
                auth: ext_auth,
                witness,
                nonces,
            };
            assert(out.claims(*pk, *choice_params) == public.claims());
            assert(out.made_with(*pk, *choice, *choice_params, *credential, x, d));
            if choice.l2_value@.len() == 1 && credential.sign.A.log() != 0 && !d.degenerate() {
                law_made_ballot(out, *pk, *choice, *choice_params, *credential, x, d);
            }
        }
        out
    }

    /// The vote of the ballot.
    pub fn to_vote(&self) -> (r: Vote)
        ensures
            r@ == self.vote(),
    {
        Vote { choice: self.choice.clone(), auth: self.auth.to_short() }
    }

    /// The vote of the ballot.
    pub open spec fn vote(self) -> VoteView {
        VoteView {
            choice: self.choice@,
            a: self.auth.A_enc@,
            ar: self.auth.Ar_enc@,
            g3x: self.auth.g3x_enc@,
        }
    }

    /// Checks the ballot; gives its vote.
    pub fn verify(&self, pk: &ElectionPublicKey, choice_params: &ChoiceParameters) -> (r: Result<
        Vote,
        Error,
    >)
        requires
            self.shaped(*pk, *choice_params),
        ensures
            match self.verdict(*pk, *choice_params) {
                Ok(()) => r.is_ok() && r->Ok_0@ == self.vote(),
                Err(e) => r == Err::<Vote, Error>(Error::FailedVerification(e)),
            },
    {
        let choice_public = ProofEncrChoicePublic::new(&self.choice, pk, choice_params);
        let cai_public = ProofCAIPublic::new(pk, &self.cai, &self.choice);
        let auth_public = ProofAuthValuesPublic::new(&self.auth, pk);
        let public = ProofPublicBorrowed { choice_public, cai_public, auth_public };
        proof {
            let claims = self.claims(*pk, *choice_params);
            assert(public.claims().choice =~= claims.choice);
            assert(public.claims().cai =~= claims.cai);
            assert(public.claims().auth =~= claims.auth);
            assert(public.steps() =~= ballot_steps(*pk, self.choice@, *choice_params));
        }
        match self.proof.verify(&public) {
            Ok(()) => Ok(self.to_vote()),
            Err(e) => Err(Error::FailedVerification(e)),
        }
    }
}

/// Whether the encrypted codes are these.
pub open spec fn holds_codes(cai: EncrValuesCAI, ext: ExtendedEncrValuesCAI) -> bool {
    &&& cai.l1_code_enc@ == ext.l1_code_enc.inner@
    &&& cai.l1_sum_enc@ == ext.l1_sum_enc.inner@
    &&& cai.l2_code_enc@ == ext.l2_code_enc.inner@
    &&& cai.l2_sum_enc@ == ext.l2_sum_enc.inner@
}

/// Whether the encrypted credential is this.
pub open spec fn holds_auth(auth: EncrAuthValues, ext: ExtendedEncrAuthValues) -> bool {
    &&& auth.B.log() == ext.B.log()
    &&& auth.A_enc@ == ext.A_enc.inner@
    &&& auth.Ar_enc@ == ext.Ar_enc.inner@
    &&& auth.g3x_enc@ == ext.g3x_enc.inner@
    &&& auth.ox_enc@ == ext.ox_enc.inner@
}

/// The encryption of a choice has its shape.
pub proof fn lemma_shape(key: CtView, choice: Choice, ext: ExtendedEncrChoice, params: ChoiceParameters)
    requires
        params.wf(),
        choice.marks(params),
        encrypted(ext, key, choice),
    ensures
        ext.inner().covers(params),
        has_firsts(ext.inner()),
        params.encodable() ==> ext.inner().encodable(),
        knows(ext, choice, params.n1 as int),
        forall|i: int|
            #![trigger choice.l2@[i]]
            0 <= i < params.n1 ==> choice.l2@[i]@.len() == params.ln2@[i],
{
    let v = ext.inner();
    assert forall|i: int| #![trigger v.l2[i]] 0 <= i < params.n1 implies v.l2[i].len()
        == params.ln2@[i] by {
        assert(encrypts_marks(ext.l2@[i]@, key, choice.l2@[i]@));
        assert(v.l2[i] == inner_views(ext.l2@[i]@));
        assert(choice.l2@[i]@.len() == params.ln2@[i]);
    }
    if params.encodable() {
        lemma_encodable(v, params);
    }
    assert forall|i: int|
        #![trigger choice.l2@[i]]
        #![trigger ext.l2@[i]]
        0 <= i < params.n1 implies {
        &&& ext.l2@[i]@.len() == choice.l2@[i]@.len()
        &&& forall|j: int|
            #![trigger choice.l2@[i]@[j]]
            0 <= j < choice.l2@[i]@.len() ==> choice.l2@[i]@[j] <= 1
    } by {
        assert(encrypts_marks(ext.l2@[i]@, key, choice.l2@[i]@));
    }
}

proof fn lemma_witnesses_fit(
    claims: Claims,
    w: ProofWitness,
    ext: ExtendedEncrAuthValues,
    credential: VotingCredential,
    x: int,
)
    requires
        w.choice_wit.witnesses@.len() == claims.choice.len(),
        forall|k: int|
            #![trigger w.choice_wit.witnesses@[k]]
            0 <= k < w.choice_wit.witnesses@.len() ==> w.choice_wit.witnesses@[k].fits(
                claims.choice[k].kind(),
            ),
        w.cai_wit.witnesses@.len() == claims.cai.len(),
        forall|k: int|
            #![trigger w.cai_wit.witnesses@[k]]
            0 <= k < w.cai_wit.witnesses@.len() ==> w.cai_wit.witnesses@[k].fits(Kind::Or),
        forall|k: int|
            #![trigger claims.cai[k]]
            0 <= k < claims.cai.len() ==> claims.cai[k].kind() == Kind::Or,
        w.auth_wit.knows(ext, credential, x),
        claims.auth.len() == 4,
        claims.auth[0].kind() == Kind::Exp,
        claims.auth[1].kind() == Kind::Exp,
        claims.auth[2].kind() == Kind::NotId,
        claims.auth[3].kind() == Kind::LogEq,
    ensures
        w.fits(claims),
{
    assert forall|k: int| #![trigger claims.choice[k]] 0 <= k < claims.choice.len() implies w.choice_wit.witnesses@[k].fits(
        claims.choice[k].kind(),
    ) by {
        assert(w.choice_wit.witnesses@[k].fits(claims.choice[k].kind()));
    }
    assert forall|k: int| #![trigger claims.cai[k]] 0 <= k < claims.cai.len() implies w.cai_wit.witnesses@[k].fits(
        claims.cai[k].kind(),
    ) by {
        assert(w.cai_wit.witnesses@[k].fits(Kind::Or));
    }
    assert forall|k: int| #![trigger claims.auth[k]] 0 <= k < claims.auth.len() implies w.auth_wit.witnesses@[k].fits(
        claims.auth[k].kind(),
    ) by {}
}

/// A ballot that was made is accepted, with the right PIN or a wrong one: where
/// one candidate is chosen, the verifier accepts what the maker of the ballot
/// gives; with the exception of a signature whose point is neutral, and of
/// degenerate draws.
pub proof fn law_made_ballot(
    ballot: VerVote,
    pk: ElectionPublicKey,
    choice: Choice,
    params: ChoiceParameters,
    credential: VotingCredential,
    x: int,
    d: Draws,
)
    requires
        params.wf(),
        choice.marks(params),
        choice.l2_value@.len() == 1,
        choice.l1_value <= 100,
        choice.l2_value@[0] <= 100,
        ballot.made_with(pk, choice, params, credential, x, d),
        credential.sign.A.log() != 0,
        !d.degenerate(),
    ensures
        ballot.verdict(pk, params) == Ok::<(), CryptoError>(()),
{
    let key = pk.key();
    let claims = ballot.claims(pk, params);
    let w = d.witness;
    assert forall|k: int|
        #![trigger w.choice_wit.witnesses@[k]]
        0 <= k < w.choice_wit.witnesses@.len() implies w.choice_wit.witnesses@[k].fits(
        claims.choice[k].kind(),
    ) by {
        assert(w.choice_wit.witnesses@[k].fits(claims.choice[k].kind()));
    }
    law_honest_choice(key, choice, d.choice, params, w.choice_wit.witnesses@);
    assert forall|k: int|
        #![trigger w.cai_wit.witnesses@[k]]
        0 <= k < w.cai_wit.witnesses@.len() implies w.cai_wit.witnesses@[k].fits(Kind::Or) by {
        assert(claims.cai[k].kind() == Kind::Or);
    }
    law_honest_codes(
        key,
        d.cai,
        d.codes,
        ballot.cai,
        choice,
        d.choice,
        params,
        w.cai_wit.witnesses@,
    );
    law_honest_credential(pk, credential, d.auth, ballot.auth, x, w.auth_wit);
    law_honest_ballot(
        claims,
        w,
        d.nonces,
        ballot.proof.views(),
        ballot_steps(pk, ballot.choice@, params),
    );
}

/// A vote.
#[derive(Debug, PartialEq)]
pub struct Vote {
    pub choice: EncrChoice,
    pub auth: ShortEncrAuthValues,
}

/// A vote by its values.
#[verifier::ext_equal]
pub struct VoteView {
    pub choice: EncrChoiceView,
    pub a: CtView,
    pub ar: CtView,
    pub g3x: CtView,
}

impl View for Vote {
    type V = VoteView;

    open spec fn view(&self) -> VoteView {
        VoteView {
            choice: self.choice@,
            a: self.auth.A_enc@,
            ar: self.auth.Ar_enc@,
            g3x: self.auth.g3x_enc@,
        }
    }
}

impl VoteView {
    /// The encoding of the credential: a record of three ciphertexts.
    pub open spec fn auth_encoding(self) -> Seq<u8> {
        seq![0xa3u8] + field("A_enc"@, cbor_ciphertext(self.a)) + field(
            "Ar_enc"@,
            cbor_ciphertext(self.ar),
        ) + field("g3x_enc"@, cbor_ciphertext(self.g3x))
    }

    /// The encoding: a record of choice and credential.
    pub open spec fn encoding(self) -> Seq<u8> {
        seq![0xa2u8] + field("choice"@, self.choice.encoding()) + field(
            "auth"@,
            self.auth_encoding(),
        )
    }

    /// Whether the encoding fits into one message of a transcript.
    pub open spec fn encodable(self) -> bool {
        cbor_bound(choice_rows(self.choice)) + 800 <= u32::MAX
    }
}

impl Clone for Vote {
    fn clone(&self) -> (r: Self)
        ensures
            r@ == self@,
    {
        Vote { choice: self.choice.clone(), auth: self.auth }
    }
}

impl Vote {
    /// Re-encrypts.
    pub fn re_encrypt(&self, pk: &ElectionPublicKey, rng: &mut StdRng) -> (r: ExtendedVote)
        ensures
            r.re_encrypts(self@, pk.key()),
    {
        let choice = self.choice.re_encrypt(&pk.params.tally, &pk.params.elgamal, rng);
        let auth = self.auth.re_encrypt(pk, rng);
        ExtendedVote { choice, auth }
    }

    /// The encoding.
    pub fn to_bytes(&self) -> (r: Vec<u8>)
        ensures
            r@ == self@.encoding(),
            self@.encodable() ==> r@.len() <= u32::MAX,
    {
        proof {
            reveal_strlit("A_enc");
            reveal_strlit("Ar_enc");
            reveal_strlit("g3x_enc");
            reveal_strlit("choice");
            reveal_strlit("auth");
        }
        let mut auth: Vec<u8> = Vec::new();
        auth.push(0xa3);
        proof {
            assert(auth@ =~= seq![0xa3u8]);
        }
        put_field(&mut auth, "A_enc", &encode_ciphertext(&self.auth.A_enc));
        put_field(&mut auth, "Ar_enc", &encode_ciphertext(&self.auth.Ar_enc));
        put_field(&mut auth, "g3x_enc", &encode_ciphertext(&self.auth.g3x_enc));
        let mut out: Vec<u8> = Vec::new();
        out.push(0xa2);
        proof {
            assert(out@ =~= seq![0xa2u8]);
        }
        put_field(&mut out, "choice", &self.choice.to_bytes());
        put_field(&mut out, "auth", &auth);
        out
    }

    /// Whether the encoding fits into one message of a transcript.
    pub fn is_encodable(&self) -> (r: bool)
        ensures
            r == self@.encodable(),
    {
        self.choice.is_encodable_with(800)
    }

    /// What is left once the credential was checked.
    pub fn strip(&self) -> (r: VoteWithEncPubCred)
        ensures
            r.choice@ == self@.choice,
            r.A_enc@ == self@.a,
    {
        VoteWithEncPubCred { choice: self.choice.clone(), A_enc: self.auth.A_enc }
    }
}

/// A vote with the randomness of its ciphertexts.
#[derive(Clone, Debug)]
pub struct ExtendedVote {
    pub choice: ExtendedEncrChoice,
    pub auth: ExtendedShortEncrAuthValues,
}

impl ExtendedVote {
    /// Whether this is the other vote, re-encrypted with the randomness it
    /// carries.
    pub open spec fn re_encrypts(self, old: VoteView, key: CtView) -> bool {
        &&& re_encrypts(self.choice.l1@, old.choice.l1, key)
        &&& self.choice.l2@.len() == old.choice.l2.len()
        &&& forall|i: int|
            #![trigger self.choice.l2@[i]]
            0 <= i < self.choice.l2@.len() ==> re_encrypts(
                self.choice.l2@[i]@,
                old.choice.l2[i],
                key,
            )
        &&& re_encryption(self.auth.A_enc, old.a, key)
        &&& re_encryption(self.auth.Ar_enc, old.ar, key)
        &&& re_encryption(self.auth.g3x_enc, old.g3x, key)
    }

    /// The vote without the randomness.
    pub open spec fn vote(self) -> VoteView {
        VoteView {
            choice: self.choice.inner(),
            a: self.auth.A_enc.inner@,
            ar: self.auth.Ar_enc.inner@,
            g3x: self.auth.g3x_enc.inner@,
        }
    }

    /// Forgets the randomness.
    pub fn to_vote(&self) -> (r: Vote)
        ensures
            r@ == self.vote(),
    {
        Vote { choice: self.choice.to_encryption(), auth: self.auth.to_short() }
    }
}

/// A vote with the encrypted signature of its credential.
#[allow(non_snake_case)]
#[derive(Debug, PartialEq)]
pub struct VoteWithEncPubCred {
    pub choice: EncrChoice,
    pub A_enc: Ciphertext,
}

impl Clone for VoteWithEncPubCred {
    fn clone(&self) -> (r: Self)
        ensures
            r.choice@ == self.choice@,
            r.A_enc == self.A_enc,
    {
        VoteWithEncPubCred { choice: self.choice.clone(), A_enc: self.A_enc }
    }
}

} // verus!
