//! The proof of a ballot: those of the choice, of the codes and of the
//! credential, over one transcript.

use merlin::Transcript;
use rand::rngs::StdRng;
use vstd::prelude::*;

use crate::elgamal::{ct_rows, Ciphertext};
use crate::error::CryptoError;
use crate::proofs::compound::{
    all_commitments, all_drawn, all_shown, challenge_trace, commit_all, commit_trace, complete_all,
    first_objection, fit, init_all, kinds, law_honest_proofs, law_same_commitments,
    lemma_all_looked_at, none_vanish, objections, proof_commitments,
    proof_kinds, proof_views, proofs_of, statement_views, update_all, verify_all,
};
use crate::proofs::relation::{
    Nonces, ProofView, Statement, StatementView, Witness,
};
use crate::protocol::vote::auth_proof::{
    ProofAuthValues, ProofAuthValuesPublic, ProofAuthValuesWitness,
};
use crate::protocol::vote::cai::{ProofCAI, ProofCAIPublic, ProofCAIWitness};
use crate::protocol::vote::choice_proof::{
    ProofEncrChoice, ProofEncrChoicePublic, ProofEncrChoiceWitness,
};
use crate::transcript::{
    append_text, prelude, start_proof, text_message, transcript_entries, Entry,
};

verus! {

/// What is claimed of a ballot.
pub struct ProofPublicBorrowed<'a> {
    pub choice_public: ProofEncrChoicePublic<'a>,
    pub cai_public: ProofCAIPublic,
    pub auth_public: ProofAuthValuesPublic,
}

/// What the prover knows.
pub struct ProofWitness {
    pub choice_wit: ProofEncrChoiceWitness,
    pub cai_wit: ProofCAIWitness,
    pub auth_wit: ProofAuthValuesWitness,
}

/// The randomness of the prover.
pub struct ProofNonces {
    pub choice: Vec<Nonces>,
    pub cai: Vec<Nonces>,
    pub auth: Vec<Nonces>,
}

impl ProofNonces {
    /// Whether the randomness is such as is drawn.
    pub open spec fn drawn(self) -> bool {
        &&& all_drawn(self.choice@)
        &&& all_drawn(self.cai@)
        &&& all_drawn(self.auth@)
    }

    /// Whether a not-identity proof has a nonce of zero.
    pub open spec fn vanishes(self) -> bool {
        !(none_vanish(self.choice@) && none_vanish(self.cai@) && none_vanish(self.auth@))
    }
}

/// The commitments of the prover.
pub struct ProofCommitments {
    pub choice: Vec<Vec<Ciphertext>>,
    pub cai: Vec<Vec<Ciphertext>>,
    pub auth: Vec<Vec<Ciphertext>>,
}

/// The proof of a ballot.
#[derive(Debug, PartialEq)]
pub struct Proof {
    pub choice_proof: ProofEncrChoice,
    pub cai_proof: ProofCAI,
    pub auth_proof: ProofAuthValues,
}

/// The claims of the three parts.
pub struct Claims {
    pub choice: Seq<StatementView>,
    pub cai: Seq<StatementView>,
    pub auth: Seq<StatementView>,
}

/// The proofs of the three parts.
#[verifier::ext_equal]
pub struct ProofViews {
    pub choice: Seq<ProofView>,
    pub cai: Seq<ProofView>,
    pub auth: Seq<ProofView>,
}

/// The step that announces a part.
pub open spec fn part(name: Seq<char>) -> Entry {
    text_message("sub"@, name)
}

impl<'a> ProofPublicBorrowed<'a> {
    /// The claims.
    pub open spec fn claims(self) -> Claims {
        Claims {
            choice: statement_views(self.choice_public.statements@),
            cai: statement_views(self.cai_public.statements@),
            auth: statement_views(self.auth_public.statements@),
        }
    }

    /// The steps up to the first commitment.
    pub open spec fn steps(self) -> Seq<Entry> {
        prelude("vote-proof"@) + seq![part("choice"@)] + self.choice_public.steps() + seq![
            part("cai"@),
            part("auth"@),
        ]
    }

    /// Whether the claims on the choice are complete and can be appended.
    pub open spec fn wf(self) -> bool {
        &&& self.choice_public.wf()
        &&& self.choice_public.enc_choice@.encodable()
        &&& self.choice_public.choice_params.encodable()
    }
}

impl ProofWitness {
    /// Whether there is a witness of the right kind for each claim.
    pub open spec fn fits(self, claims: Claims) -> bool {
        &&& list_fits(claims.choice, self.choice_wit.witnesses@)
        &&& list_fits(claims.cai, self.cai_wit.witnesses@)
        &&& list_fits(claims.auth, self.auth_wit.witnesses@)
    }

    /// Whether each witness shows its claim.
    pub open spec fn shows(self, claims: Claims) -> bool {
        &&& all_shown(claims.choice, self.choice_wit.witnesses@)
        &&& all_shown(claims.cai, self.cai_wit.witnesses@)
        &&& all_shown(claims.auth, self.auth_wit.witnesses@)
    }
}

/// Whether there is a witness of the right kind for each claim of a list.
pub open spec fn list_fits(claims: Seq<StatementView>, witnesses: Seq<Witness>) -> bool {
    &&& witnesses.len() == claims.len()
    &&& forall|k: int|
        #![trigger claims[k]]
        0 <= k < claims.len() ==> witnesses[k].fits(claims[k].kind())
}

impl Proof {
    /// The values of the proofs.
    pub open spec fn views(self) -> ProofViews {
        ProofViews {
            choice: proof_views(self.choice_proof.proofs@),
            cai: proof_views(self.cai_proof.proofs@),
            auth: proof_views(self.auth_proof.proofs@),
        }
    }

    /// Whether there is a proof of the right kind for each claim.
    pub open spec fn fits(self, claims: Claims) -> bool {
        &&& proof_kinds(self.choice_proof.proofs@) == kinds(claims.choice)
        &&& proof_kinds(self.cai_proof.proofs@) == kinds(claims.cai)
        &&& proof_kinds(self.auth_proof.proofs@) == kinds(claims.auth)
    }
}

impl Proof {
    /// Whether the other holds the same proofs.
    pub open spec fn same(self, other: Proof) -> bool {
        &&& self.views() == other.views()
        &&& proof_kinds(self.choice_proof.proofs@) == proof_kinds(other.choice_proof.proofs@)
        &&& proof_kinds(self.cai_proof.proofs@) == proof_kinds(other.cai_proof.proofs@)
        &&& proof_kinds(self.auth_proof.proofs@) == proof_kinds(other.auth_proof.proofs@)
    }
}

impl Clone for Proof {
    fn clone(&self) -> (r: Self)
        ensures
            r.same(*self),
    {
        Proof {
            choice_proof: self.choice_proof.clone(),
            cai_proof: self.cai_proof.clone(),
            auth_proof: self.auth_proof.clone(),
        }
    }
}

/// What the transcript holds after all commitments of the proofs.
pub open spec fn committed(claims: Claims, proofs: ProofViews, entries: Seq<Entry>) -> Seq<Entry> {
    entries.push(part("choice"@)) + commit_trace(
        kinds(claims.choice),
        proof_commitments(proofs.choice),
    ) + seq![part("cai"@)] + commit_trace(kinds(claims.cai), proof_commitments(proofs.cai)) + seq![
        part("auth"@),
    ] + commit_trace(kinds(claims.auth), proof_commitments(proofs.auth))
}

/// What the transcript holds before the challenges of the choice.
pub open spec fn before_choice(entries: Seq<Entry>) -> Seq<Entry> {
    entries.push(part("choice"@))
}

/// What the transcript holds before the challenges of the codes.
pub open spec fn before_cai(claims: Claims, entries: Seq<Entry>) -> Seq<Entry> {
    (before_choice(entries) + challenge_trace(kinds(claims.choice))).push(part("cai"@))
}

/// What the transcript holds before the challenges of the credential.
pub open spec fn before_auth(claims: Claims, entries: Seq<Entry>) -> Seq<Entry> {
    (before_cai(claims, entries) + challenge_trace(kinds(claims.cai))).push(part("auth"@))
}

/// What the verifier says to the three parts, where the transcript held
/// `entries` after the commitments: the first objection, if there is one.
pub open spec fn parts_verdict(claims: Claims, proofs: ProofViews, entries: Seq<Entry>) -> Result<
    (),
    CryptoError,
> {
    let choice = first_objection(
        objections(claims.choice, proofs.choice, before_choice(entries)),
    );
    let cai = first_objection(objections(claims.cai, proofs.cai, before_cai(claims, entries)));
    let auth = first_objection(objections(claims.auth, proofs.auth, before_auth(claims, entries)));
    if choice.is_err() {
        choice
    } else if cai.is_err() {
        cai
    } else {
        auth
    }
}

/// What the verifier says to the proof of a ballot.
pub open spec fn ballot_verdict(claims: Claims, proofs: ProofViews, start: Seq<Entry>) -> Result<
    (),
    CryptoError,
> {
    parts_verdict(claims, proofs, committed(claims, proofs, start))
}

/// The proofs that the prover gives for the randomness `n`, where the transcript
/// held `entries` after the commitments.
pub open spec fn answers(claims: Claims, w: ProofWitness, n: ProofNonces, entries: Seq<Entry>) -> ProofViews {
    ProofViews {
        choice: proofs_of(
            claims.choice,
            w.choice_wit.witnesses@,
            n.choice@,
            before_choice(entries),
        ),
        cai: proofs_of(
            claims.cai,
            w.cai_wit.witnesses@,
            n.cai@,
            before_cai(claims, entries),
        ),
        auth: proofs_of(
            claims.auth,
            w.auth_wit.witnesses@,
            n.auth@,
            before_auth(claims, entries),
        ),
    }
}

/// Whether there are nonces for each claim.
pub open spec fn nonces_fit(claims: Claims, w: ProofWitness, n: ProofNonces) -> bool {
    &&& fit(claims.choice, w.choice_wit.witnesses@, n.choice@)
    &&& fit(claims.cai, w.cai_wit.witnesses@, n.cai@)
    &&& fit(claims.auth, w.auth_wit.witnesses@, n.auth@)
}

/// What the transcript holds after the prover's commitments.
pub open spec fn prover_committed(claims: Claims, w: ProofWitness, n: ProofNonces, entries: Seq<Entry>) -> Seq<
    Entry,
> {
    entries.push(part("choice"@)) + commit_trace(
        kinds(claims.choice),
        all_commitments(claims.choice, w.choice_wit.witnesses@, n.choice@),
    ) + seq![part("cai"@)] + commit_trace(
        kinds(claims.cai),
        all_commitments(claims.cai, w.cai_wit.witnesses@, n.cai@),
    ) + seq![part("auth"@)] + commit_trace(
        kinds(claims.auth),
        all_commitments(claims.auth, w.auth_wit.witnesses@, n.auth@),
    )
}

/// Whether the proof is the one that the prover gives for the randomness `n`.
pub open spec fn proved_by(
    claims: Claims,
    w: ProofWitness,
    n: ProofNonces,
    p: ProofViews,
    start: Seq<Entry>,
) -> bool {
    &&& nonces_fit(claims, w, n)
    &&& n.drawn()
    &&& p == answers(claims, w, n, prover_committed(claims, w, n, start))
}

/// Announces a part.
fn announce(transcript: &mut Transcript, name: &'static str)
    requires
        name@.len() <= 1000,
    ensures
        transcript_entries(*final(transcript)) == transcript_entries(*old(transcript)).push(
            part(name@),
        ),
{
    append_text(transcript, "sub", name);
}

impl<'a> ProofPublicBorrowed<'a> {
    /// A transcript that holds the claims.
    pub fn absorb_public(&self) -> (r: Transcript)
        requires
            self.wf(),
        ensures
            transcript_entries(r) == self.steps(),
    {
        proof {
            reveal_strlit("vote-proof");
            reveal_strlit("choice");
            reveal_strlit("cai");
            reveal_strlit("auth");
        }
        let mut transcript = start_proof("vote-proof");
        announce(&mut transcript, "choice");
        self.choice_public.absorb_public(&mut transcript);
        announce(&mut transcript, "cai");
        announce(&mut transcript, "auth");
        proof {
            assert(transcript_entries(transcript) =~= self.steps());
        }
        transcript
    }

    /// Nonces for all claims.
    pub fn init(&self, rng: &mut StdRng) -> (r: ProofNonces)
        ensures
            forall|w: ProofWitness|
                w.fits(self.claims()) ==> #[trigger] nonces_fit(self.claims(), w, r),
            r.drawn(),
    {
        let choice = init_all(&self.choice_public.statements, rng);
        let cai = init_all(&self.cai_public.statements, rng);
        let auth = init_all(&self.auth_public.statements, rng);
        let out = ProofNonces { choice, cai, auth };
        proof {
            assert forall|w: ProofWitness| w.fits(self.claims()) implies #[trigger] nonces_fit(
                self.claims(),
                w,
                out,
            ) by {
                lemma_fit(self.choice_public.statements@, w.choice_wit.witnesses@, choice@);
                lemma_fit(self.cai_public.statements@, w.cai_wit.witnesses@, cai@);
                lemma_fit(self.auth_public.statements@, w.auth_wit.witnesses@, auth@);
            }
        }
        out
    }

    /// Makes and appends all commitments.
    pub fn commit(&self, witness: &ProofWitness, nonces: &ProofNonces, transcript: &mut Transcript) -> (r:
        ProofCommitments)
        requires
            nonces_fit(self.claims(), *witness, *nonces),
        ensures
            ct_rows(r.choice@) == all_commitments(
                self.claims().choice,
                witness.choice_wit.witnesses@,
                nonces.choice@,
            ),
            ct_rows(r.cai@) == all_commitments(
                self.claims().cai,
                witness.cai_wit.witnesses@,
                nonces.cai@,
            ),
            ct_rows(r.auth@) == all_commitments(
                self.claims().auth,
                witness.auth_wit.witnesses@,
                nonces.auth@,
            ),
            transcript_entries(*final(transcript)) == prover_committed(
                self.claims(),
                *witness,
                *nonces,
                transcript_entries(*old(transcript)),
            ),
    {
        proof {
            reveal_strlit("choice");
            reveal_strlit("cai");
            reveal_strlit("auth");
        }
        let ghost before = transcript_entries(*transcript);
        announce(transcript, "choice");
        let choice = commit_all(
            &self.choice_public.statements,
            &witness.choice_wit.witnesses,
            &nonces.choice,
            transcript,
        );
        announce(transcript, "cai");
        let cai = commit_all(
            &self.cai_public.statements,
            &witness.cai_wit.witnesses,
            &nonces.cai,
            transcript,
        );
        announce(transcript, "auth");
        let auth = commit_all(
            &self.auth_public.statements,
            &witness.auth_wit.witnesses,
            &nonces.auth,
            transcript,
        );
        proof {
            assert(transcript_entries(*transcript) =~= prover_committed(
                self.claims(),
                *witness,
                *nonces,
                before,
            ));
        }
        ProofCommitments { choice, cai, auth }
    }

    /// Draws all challenges and answers them.
    pub fn complete(
        &self,
        witness: &ProofWitness,
        nonces: &ProofNonces,
        commitments: &ProofCommitments,
        transcript: &mut Transcript,
    ) -> (r: Proof)
        requires
            nonces_fit(self.claims(), *witness, *nonces),
            ct_rows(commitments.choice@) == all_commitments(
                self.claims().choice,
                witness.choice_wit.witnesses@,
                nonces.choice@,
            ),
            ct_rows(commitments.cai@) == all_commitments(
                self.claims().cai,
                witness.cai_wit.witnesses@,
                nonces.cai@,
            ),
            ct_rows(commitments.auth@) == all_commitments(
                self.claims().auth,
                witness.auth_wit.witnesses@,
                nonces.auth@,
            ),
        ensures
            r.fits(self.claims()),
            r.views() == answers(
                self.claims(),
                *witness,
                *nonces,
                transcript_entries(*old(transcript)),
            ),
            transcript_entries(*final(transcript)) == before_auth(
                self.claims(),
                transcript_entries(*old(transcript)),
            ) + challenge_trace(kinds(self.claims().auth)),
    {
        proof {
            reveal_strlit("choice");
            reveal_strlit("cai");
            reveal_strlit("auth");
        }
        announce(transcript, "choice");
        let choice = complete_all(
            &self.choice_public.statements,
            &witness.choice_wit.witnesses,
            &nonces.choice,
            &commitments.choice,
            transcript,
        );
        announce(transcript, "cai");
        let cai = complete_all(
            &self.cai_public.statements,
            &witness.cai_wit.witnesses,
            &nonces.cai,
            &commitments.cai,
            transcript,
        );
        announce(transcript, "auth");
        let auth = complete_all(
            &self.auth_public.statements,
            &witness.auth_wit.witnesses,
            &nonces.auth,
            &commitments.auth,
            transcript,
        );
        Proof {
            choice_proof: ProofEncrChoice { proofs: choice },
            cai_proof: ProofCAI { proofs: cai },
            auth_proof: ProofAuthValues { proofs: auth },
        }
    }

    /// Checks the equations of all parts, up to the first proof that fails.
    pub fn verify_relation(&self, p: &Proof, transcript: &mut Transcript) -> (r: Result<
        (),
        CryptoError,
    >)
        requires
            p.fits(self.claims()),
        ensures
            r == parts_verdict(
                self.claims(),
                p.views(),
                transcript_entries(*old(transcript)),
            ),
            r.is_ok() ==> transcript_entries(*final(transcript)) == before_auth(
                self.claims(),
                transcript_entries(*old(transcript)),
            ) + challenge_trace(kinds(self.claims().auth)),
    {
        proof {
            reveal_strlit("choice");
            reveal_strlit("cai");
            reveal_strlit("auth");
        }
        let ghost claims = self.claims();
        let ghost before = transcript_entries(*transcript);
        announce(transcript, "choice");
        let choice = verify_all(
            &self.choice_public.statements,
            &p.choice_proof.proofs,
            transcript,
        );
        if choice.is_err() {
            return choice;
        }
        proof {
            let found = objections(claims.choice, p.views().choice, before_choice(before));
            lemma_all_looked_at(found);
            assert(kinds(claims.choice).take(found.len() as int) =~= kinds(claims.choice));
        }
        announce(transcript, "cai");
        let cai = verify_all(&self.cai_public.statements, &p.cai_proof.proofs, transcript);
        if cai.is_err() {
            return cai;
        }
        proof {
            let found = objections(claims.cai, p.views().cai, before_cai(claims, before));
            lemma_all_looked_at(found);
            assert(kinds(claims.cai).take(found.len() as int) =~= kinds(claims.cai));
        }
        announce(transcript, "auth");
        let auth = verify_all(&self.auth_public.statements, &p.auth_proof.proofs, transcript);
        proof {
            let found = objections(claims.auth, p.views().auth, before_auth(claims, before));
            if auth.is_ok() {
                lemma_all_looked_at(found);
                assert(kinds(claims.auth).take(found.len() as int) =~= kinds(claims.auth));
            }
        }
        auth
    }
}

/// Nonces of the right kinds fit.
proof fn lemma_fit(statements: Seq<Statement>, witnesses: Seq<Witness>, nonces: Seq<Nonces>)
    requires
        list_fits(statement_views(statements), witnesses),
        nonces.len() == statements.len(),
        forall|k: int|
            #![trigger nonces[k]]
            0 <= k < nonces.len() ==> nonces[k].kind() == statements[k]@.kind(),
    ensures
        fit(statement_views(statements), witnesses, nonces),
{
    let views = statement_views(statements);
    assert forall|k: int| #![trigger views[k]] 0 <= k < views.len() implies witnesses[k].fits(
        views[k].kind(),
    ) && nonces[k].kind() == views[k].kind() by {
        assert(nonces[k].kind() == statements[k]@.kind());
    }
}

impl Proof {
    /// Appends all commitments of the proof.
    fn update_transcript(&self, Ghost(claims): Ghost<Claims>, transcript: &mut Transcript)
        requires
            self.fits(claims),
        ensures
            transcript_entries(*final(transcript)) == committed(
                claims,
                self.views(),
                transcript_entries(*old(transcript)),
            ),
    {
        proof {
            reveal_strlit("choice");
            reveal_strlit("cai");
            reveal_strlit("auth");
        }
        let ghost before = transcript_entries(*transcript);
        announce(transcript, "choice");
        update_all(&self.choice_proof.proofs, transcript);
        announce(transcript, "cai");
        update_all(&self.cai_proof.proofs, transcript);
        announce(transcript, "auth");
        update_all(&self.auth_proof.proofs, transcript);
        proof {
            assert(transcript_entries(*transcript) =~= committed(claims, self.views(), before));
        }
    }

    /// Proves the claims on a ballot.
    pub fn prove(public: &ProofPublicBorrowed, witness: &ProofWitness, rng: &mut StdRng) -> (r: Proof)
        requires
            public.wf(),
            witness.fits(public.claims()),
        ensures
            r.fits(public.claims()),
            exists|n: ProofNonces| #[trigger]
                proved_by(public.claims(), *witness, n, r.views(), public.steps()),
    {
        let mut transcript = public.absorb_public();
        let nonces = public.init(rng);
        proof {
            assert(nonces_fit(public.claims(), *witness, nonces));
        }
        let commitments = public.commit(witness, &nonces, &mut transcript);
        let out = public.complete(witness, &nonces, &commitments, &mut transcript);
        proof {
            assert(proved_by(public.claims(), *witness, nonces, out.views(), public.steps()));
        }
        out
    }

    /// Checks the proof of a ballot.
    pub fn verify(&self, public: &ProofPublicBorrowed) -> (r: Result<(), CryptoError>)
        requires
            public.wf(),
            self.fits(public.claims()),
        ensures
            r == ballot_verdict(public.claims(), self.views(), public.steps()),
    {
        let mut transcript = public.absorb_public();
        self.update_transcript(Ghost(public.claims()), &mut transcript);
        public.verify_relation(self, &mut transcript)
    }
}

proof fn lemma_part_accepted(
    claims: Seq<StatementView>,
    witnesses: Seq<Witness>,
    nonces: Seq<Nonces>,
    entries: Seq<Entry>,
)
    requires
        fit(claims, witnesses, nonces),
        all_shown(claims, witnesses),
        all_drawn(nonces),
        none_vanish(nonces),
    ensures
        first_objection(
            objections(claims, proofs_of(claims, witnesses, nonces, entries), entries),
        ) == Ok::<(), CryptoError>(()),
        proof_commitments(proofs_of(claims, witnesses, nonces, entries)) == all_commitments(
            claims,
            witnesses,
            nonces,
        ),
{
    law_honest_proofs(claims, witnesses, nonces, entries);
    law_same_commitments(claims, witnesses, nonces, entries);
}

/// An honest ballot is accepted: where what the prover knows shows every claim,
/// the verifier accepts its proof; with the exception of a not-identity proof
/// whose nonce is zero.
pub proof fn law_honest_ballot(
    claims: Claims,
    w: ProofWitness,
    n: ProofNonces,
    p: ProofViews,
    start: Seq<Entry>,
)
    requires
        w.shows(claims),
        proved_by(claims, w, n, p, start),
        !n.vanishes(),
    ensures
        ballot_verdict(claims, p, start) == Ok::<(), CryptoError>(()),
{
    let entries = prover_committed(claims, w, n, start);
    lemma_part_accepted(
        claims.choice,
        w.choice_wit.witnesses@,
        n.choice@,
        before_choice(entries),
    );
    lemma_part_accepted(
        claims.cai,
        w.cai_wit.witnesses@,
        n.cai@,
        before_cai(claims, entries),
    );
    lemma_part_accepted(
        claims.auth,
        w.auth_wit.witnesses@,
        n.auth@,
        before_auth(claims, entries),
    );
    assert(committed(claims, p, start) == entries);
}

} // verus!
