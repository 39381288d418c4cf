//! Proofs of several statements over one transcript: all commitments are
//! appended before the first challenge is drawn.

use merlin::Transcript;
use rand::rngs::StdRng;
use vstd::prelude::*;

use crate::elgamal::{ct_views, Ciphertext, CtView};
use crate::error::CryptoError;
use crate::proofs::relation::{
    challenge_steps, challenges, commit, commit_steps, commitments, complete, law_honest_proof,
    objection, proof_of, shows, update_transcript, verdict, verify_relation, Kind,
    Nonces, ProofView, Relation, Statement, StatementView, SubProof, Witness,
};
use crate::transcript::{transcript_entries, Entry};

verus! {

/// The values of the statements.
pub open spec fn statement_views(statements: Seq<Statement>) -> Seq<StatementView> {
    statements.map_values(|s: Statement| s@)
}

/// The kinds of the statements.
pub open spec fn kinds(statements: Seq<StatementView>) -> Seq<Kind> {
    statements.map_values(|s: StatementView| s.kind())
}

/// The kinds of the proofs.
pub open spec fn proof_kinds(proofs: Seq<SubProof>) -> Seq<Kind> {
    proofs.map_values(|p: SubProof| p.kind())
}

/// Whether a proof is for the relation of a statement.
fn same_kind(p: &SubProof, s: &Statement) -> (r: bool)
    ensures
        r == (p.kind() == s@.kind()),
{
    match (p, &s.relation) {
        (SubProof::Zero { .. }, Relation::Zero { .. }) => true,
        (SubProof::Or { .. }, Relation::Or { .. }) => true,
        (SubProof::Exp { .. }, Relation::Exp { .. }) => true,
        (SubProof::NotId { .. }, Relation::NotId { .. }) => true,
        (SubProof::LogEq { .. }, Relation::LogEq { .. }) => true,
        _ => false,
    }
}

/// Whether there is a proof of the right kind for each statement.
pub fn kinds_match(proofs: &Vec<SubProof>, statements: &Vec<Statement>) -> (r: bool)
    ensures
        r == (proof_kinds(proofs@) == kinds(statement_views(statements@))),
{
    let ghost a = proof_kinds(proofs@);
    let ghost b = kinds(statement_views(statements@));
    if proofs.len() != statements.len() {
        proof {
            assert(a.len() == proofs@.len() && b.len() == statements@.len());
        }
        return false;
    }
    let mut i: usize = 0;
    while i < proofs.len()
        invariant
            i <= proofs@.len(),
            proofs@.len() == statements@.len(),
            a == proof_kinds(proofs@),
            b == kinds(statement_views(statements@)),
            forall|k: int| 0 <= k < i ==> a[k] == b[k],
        decreases proofs@.len() - i,
    {
        if !same_kind(&proofs[i], &statements[i]) {
            proof {
                assert(a[i as int] != b[i as int]);
            }
            return false;
        }
        i += 1;
    }
    proof {
        assert(a =~= b);
    }
    true
}

/// The values of the proofs.
pub open spec fn proof_views(proofs: Seq<SubProof>) -> Seq<ProofView> {
    proofs.map_values(|p: SubProof| p@)
}

/// The commitments of the proofs.
pub open spec fn proof_commitments(proofs: Seq<ProofView>) -> Seq<Seq<CtView>> {
    proofs.map_values(|p: ProofView| p.commitments)
}

/// Whether there is a witness for each statement, and nonces.
pub open spec fn fit(
    statements: Seq<StatementView>,
    witnesses: Seq<Witness>,
    nonces: Seq<Nonces>,
) -> bool {
    &&& witnesses.len() == statements.len()
    &&& nonces.len() == statements.len()
    &&& forall|k: int|
        #![trigger statements[k]]
        0 <= k < statements.len() ==> witnesses[k].fits(statements[k].kind())
            && nonces[k].kind() == statements[k].kind()
}

/// The steps that append all commitments.
pub open spec fn commit_trace(kinds: Seq<Kind>, cts: Seq<Seq<CtView>>) -> Seq<Entry>
    decreases kinds.len(),
{
    if kinds.len() == 0 {
        seq![]
    } else {
        commit_trace(kinds.drop_last(), cts.drop_last()) + commit_steps(kinds.last(), cts.last())
    }
}

/// The steps that draw all challenges.
pub open spec fn challenge_trace(kinds: Seq<Kind>) -> Seq<Entry>
    decreases kinds.len(),
{
    if kinds.len() == 0 {
        seq![]
    } else {
        challenge_trace(kinds.drop_last()) + challenge_steps(kinds.last())
    }
}

/// The commitments of all statements.
pub open spec fn all_commitments(
    statements: Seq<StatementView>,
    witnesses: Seq<Witness>,
    nonces: Seq<Nonces>,
) -> Seq<Seq<CtView>> {
    Seq::new(statements.len(), |k: int| commitments(statements[k], witnesses[k], nonces[k]))
}

/// The challenges of the statement at position `k`, where the transcript held
/// `entries` when the first challenge was drawn.
pub open spec fn challenges_at(kinds: Seq<Kind>, entries: Seq<Entry>, k: int) -> Seq<int> {
    challenges(kinds[k], entries + challenge_trace(kinds.take(k)))
}

/// The proofs of all statements.
pub open spec fn proofs_of(
    statements: Seq<StatementView>,
    witnesses: Seq<Witness>,
    nonces: Seq<Nonces>,
    entries: Seq<Entry>,
) -> Seq<ProofView> {
    Seq::new(
        statements.len(),
        |k: int|
            proof_of(
                statements[k],
                witnesses[k],
                nonces[k],
                challenges_at(kinds(statements), entries, k),
            ),
    )
}

/// What the verifier says to each proof.
pub open spec fn objections(
    statements: Seq<StatementView>,
    proofs: Seq<ProofView>,
    entries: Seq<Entry>,
) -> Seq<Option<CryptoError>> {
    Seq::new(
        statements.len(),
        |k: int| objection(statements[k], proofs[k], challenges_at(kinds(statements), entries, k)),
    )
}

/// The first objection, if there is one.
pub open spec fn first_objection(objections: Seq<Option<CryptoError>>) -> Result<(), CryptoError>
    decreases objections.len(),
{
    if objections.len() == 0 {
        Ok(())
    } else {
        match objections[0] {
            Some(error) => Err(error),
            None => first_objection(objections.skip(1)),
        }
    }
}

/// How many proofs were looked at: up to the first objection, or all.
pub open spec fn looked_at(objections: Seq<Option<CryptoError>>) -> int
    decreases objections.len(),
{
    if objections.len() == 0 {
        0
    } else if objections[0] is Some {
        1
    } else {
        1 + looked_at(objections.skip(1))
    }
}

proof fn lemma_no_objection_before(objections: Seq<Option<CryptoError>>, k: int)
    requires
        0 <= k <= objections.len(),
        forall|j: int| 0 <= j < k ==> objections[j] is None,
    ensures
        first_objection(objections) == first_objection(objections.skip(k)),
        looked_at(objections) == k + looked_at(objections.skip(k)),
    decreases k,
{
    if k == 0 {
        assert(objections.skip(0) =~= objections);
    } else {
        let rest = objections.skip(1);
        assert forall|j: int| 0 <= j < k - 1 implies rest[j] is None by {
            assert(rest[j] == objections[j + 1]);
        }
        lemma_no_objection_before(rest, k - 1);
        assert(rest.skip(k - 1) =~= objections.skip(k));
    }
}

/// A copy of the proofs.
pub fn copy_proofs(proofs: &Vec<SubProof>) -> (r: Vec<SubProof>)
    ensures
        proof_views(r@) == proof_views(proofs@),
        proof_kinds(r@) == proof_kinds(proofs@),
{
    let mut out: Vec<SubProof> = Vec::new();
    let mut k: usize = 0;
    while k < proofs.len()
        invariant
            k <= proofs@.len(),
            out@.len() == k,
            forall|j: int|
                #![trigger out@[j]]
                0 <= j < k ==> out@[j]@ == proofs@[j]@ && out@[j].kind() == proofs@[j].kind(),
        decreases proofs@.len() - k,
    {
        out.push(proofs[k].clone());
        k += 1;
    }
    proof {
        assert(proof_views(out@) =~= proof_views(proofs@));
        assert(proof_kinds(out@) =~= proof_kinds(proofs@));
    }
    out
}

/// Whether the randomness is such as is drawn.
pub open spec fn all_drawn(nonces: Seq<Nonces>) -> bool {
    forall|k: int| #![trigger nonces[k]] 0 <= k < nonces.len() ==> nonces[k].drawn()
}

/// Whether no not-identity proof has a nonce of zero.
pub open spec fn none_vanish(nonces: Seq<Nonces>) -> bool {
    forall|k: int| #![trigger nonces[k]] 0 <= k < nonces.len() ==> !nonces[k].vanishes()
}

/// Nonces for all statements.
pub fn init_all(statements: &Vec<Statement>, rng: &mut StdRng) -> (r: Vec<Nonces>)
    ensures
        r@.len() == statements@.len(),
        forall|k: int|
            #![trigger r@[k]]
            0 <= k < r@.len() ==> r@[k].kind() == statements@[k]@.kind(),
        all_drawn(r@),
{
    let mut out: Vec<Nonces> = Vec::new();
    let mut k: usize = 0;
    while k < statements.len()
        invariant
            k <= statements@.len(),
            out@.len() == k,
            forall|j: int|
                #![trigger out@[j]]
                0 <= j < k ==> out@[j].kind() == statements@[j]@.kind(),
            all_drawn(out@),
        decreases statements@.len() - k,
    {
        let nonces = Nonces::random(&statements[k].relation, rng);
        out.push(nonces);
        k += 1;
    }
    out
}

/// Makes and appends all commitments.
pub fn commit_all(
    statements: &Vec<Statement>,
    witnesses: &Vec<Witness>,
    nonces: &Vec<Nonces>,
    transcript: &mut Transcript,
) -> (r: Vec<Vec<Ciphertext>>)
    requires
        fit(statement_views(statements@), witnesses@, nonces@),
    ensures
        crate::elgamal::ct_rows(r@) == all_commitments(statement_views(statements@), witnesses@, nonces@),
        transcript_entries(*final(transcript)) == transcript_entries(*old(transcript))
            + commit_trace(
            kinds(statement_views(statements@)),
            all_commitments(statement_views(statements@), witnesses@, nonces@),
        ),
{
    let ghost before = transcript_entries(*transcript);
    let ghost all = all_commitments(statement_views(statements@), witnesses@, nonces@);
    let ghost ks = kinds(statement_views(statements@));
    let mut out: Vec<Vec<Ciphertext>> = Vec::new();
    let mut k: usize = 0;
    proof {
        assert(before + commit_trace(ks.take(0), all.take(0)) =~= before);
    }
    while k < statements.len()
        invariant
            k <= statements@.len(),
            fit(statement_views(statements@), witnesses@, nonces@),
            ks == kinds(statement_views(statements@)),
            all == all_commitments(statement_views(statements@), witnesses@, nonces@),
            out@.len() == k,
            crate::elgamal::ct_rows(out@) =~= all.take(k as int),
            transcript_entries(*transcript) == before + commit_trace(
                ks.take(k as int),
                all.take(k as int),
            ),
        decreases statements@.len() - k,
    {
        proof {
            assert(statement_views(statements@)[k as int] == statements@[k as int]@);
        }
        let cts = commit(&statements[k], &witnesses[k], &nonces[k], transcript);
        proof {
            assert(ks.take(k + 1).drop_last() =~= ks.take(k as int));
            assert(all.take(k + 1).drop_last() =~= all.take(k as int));
            assert(ks.take(k + 1).last() == ks[k as int]);
            assert(all.take(k + 1).last() == ct_views(cts@));
            assert(transcript_entries(*transcript) =~= before + commit_trace(
                ks.take(k + 1),
                all.take(k + 1),
            ));
        }
        out.push(cts);
        k += 1;
    }
    proof {
        assert(ks.take(k as int) =~= ks);
        assert(all.take(k as int) =~= all);
    }
    out
}

/// Draws all challenges and answers them.
pub fn complete_all(
    statements: &Vec<Statement>,
    witnesses: &Vec<Witness>,
    nonces: &Vec<Nonces>,
    cts: &Vec<Vec<Ciphertext>>,
    transcript: &mut Transcript,
) -> (r: Vec<SubProof>)
    requires
        fit(statement_views(statements@), witnesses@, nonces@),
        crate::elgamal::ct_rows(cts@) == all_commitments(statement_views(statements@), witnesses@, nonces@),
    ensures
        proof_kinds(r@) == kinds(statement_views(statements@)),
        proof_views(r@) == proofs_of(
            statement_views(statements@),
            witnesses@,
            nonces@,
            transcript_entries(*old(transcript)),
        ),
        transcript_entries(*final(transcript)) == transcript_entries(*old(transcript))
            + challenge_trace(kinds(statement_views(statements@))),
{
    let ghost before = transcript_entries(*transcript);
    let ghost ks = kinds(statement_views(statements@));
    let ghost expected = proofs_of(statement_views(statements@), witnesses@, nonces@, before);
    let ghost rows = crate::elgamal::ct_rows(cts@);
    let mut out: Vec<SubProof> = Vec::new();
    let mut k: usize = 0;
    proof {
        assert(before + challenge_trace(ks.take(0)) =~= before);
        assert(rows.len() == cts@.len());
    }
    while k < statements.len()
        invariant
            k <= statements@.len(),
            cts@.len() == statements@.len(),
            fit(statement_views(statements@), witnesses@, nonces@),
            rows == crate::elgamal::ct_rows(cts@),
            rows == all_commitments(statement_views(statements@), witnesses@, nonces@),
            ks == kinds(statement_views(statements@)),
            expected == proofs_of(statement_views(statements@), witnesses@, nonces@, before),
            out@.len() == k,
            proof_views(out@) =~= expected.take(k as int),
            proof_kinds(out@) =~= ks.take(k as int),
            transcript_entries(*transcript) == before + challenge_trace(ks.take(k as int)),
        decreases statements@.len() - k,
    {
        proof {
            assert(rows[k as int] == ct_views(cts@[k as int]@));
            assert(statement_views(statements@)[k as int] == statements@[k as int]@);
        }
        let sub = complete(&statements[k], &witnesses[k], &nonces[k], &cts[k], transcript);
        proof {
            assert(ks.take(k + 1).drop_last() =~= ks.take(k as int));
            assert(ks.take(k + 1).last() == ks[k as int]);
            assert(sub@ == expected[k as int]);
            assert(transcript_entries(*transcript) =~= before + challenge_trace(ks.take(k + 1)));
        }
        out.push(sub);
        k += 1;
    }
    proof {
        assert(ks.take(k as int) =~= ks);
        assert(expected.take(k as int) =~= expected);
    }
    out
}

/// Appends the commitments of all proofs.
pub fn update_all(proofs: &Vec<SubProof>, transcript: &mut Transcript)
    ensures
        transcript_entries(*final(transcript)) == transcript_entries(*old(transcript))
            + commit_trace(proof_kinds(proofs@), proof_commitments(proof_views(proofs@))),
{
    let ghost before = transcript_entries(*transcript);
    let ghost ks = proof_kinds(proofs@);
    let ghost all = proof_commitments(proof_views(proofs@));
    let mut k: usize = 0;
    proof {
        assert(before + commit_trace(ks.take(0), all.take(0)) =~= before);
    }
    while k < proofs.len()
        invariant
            k <= proofs@.len(),
            ks == proof_kinds(proofs@),
            all == proof_commitments(proof_views(proofs@)),
            transcript_entries(*transcript) == before + commit_trace(
                ks.take(k as int),
                all.take(k as int),
            ),
        decreases proofs@.len() - k,
    {
        update_transcript(&proofs[k], transcript);
        proof {
            assert(ks.take(k + 1).drop_last() =~= ks.take(k as int));
            assert(all.take(k + 1).drop_last() =~= all.take(k as int));
            assert(ks.take(k + 1).last() == proofs@[k as int].kind());
            assert(all.take(k + 1).last() == proofs@[k as int]@.commitments);
            assert(transcript_entries(*transcript) =~= before + commit_trace(
                ks.take(k + 1),
                all.take(k + 1),
            ));
        }
        k += 1;
    }
    proof {
        assert(ks.take(k as int) =~= ks);
        assert(all.take(k as int) =~= all);
    }
}

/// Draws all challenges again and checks the equations, up to the first proof
/// that fails.
pub fn verify_all(statements: &Vec<Statement>, proofs: &Vec<SubProof>, transcript: &mut Transcript) -> (r:
    Result<(), CryptoError>)
    requires
        proof_kinds(proofs@) == kinds(statement_views(statements@)),
    ensures
        ({
            let found = objections(
                statement_views(statements@),
                proof_views(proofs@),
                transcript_entries(*old(transcript)),
            );
            &&& r == first_objection(found)
            &&& transcript_entries(*final(transcript)) == transcript_entries(*old(transcript))
                + challenge_trace(kinds(statement_views(statements@)).take(looked_at(found)))
        }),
{
    let ghost before = transcript_entries(*transcript);
    let ghost ks = kinds(statement_views(statements@));
    let ghost found = objections(statement_views(statements@), proof_views(proofs@), before);
    let mut k: usize = 0;
    proof {
        assert(before + challenge_trace(ks.take(0)) =~= before);
        assert(proof_kinds(proofs@).len() == proofs@.len());
        assert(ks.len() == statements@.len());
    }
    while k < statements.len()
        invariant
            k <= statements@.len(),
            proofs@.len() == statements@.len(),
            proof_kinds(proofs@) == ks,
            ks == kinds(statement_views(statements@)),
            before == transcript_entries(*old(transcript)),
            found == objections(statement_views(statements@), proof_views(proofs@), before),
            forall|j: int| 0 <= j < k ==> found[j] is None,
            transcript_entries(*transcript) == before + challenge_trace(ks.take(k as int)),
        decreases statements@.len() - k,
    {
        proof {
            assert(proof_kinds(proofs@)[k as int] == proofs@[k as int].kind());
            assert(statement_views(statements@)[k as int] == statements@[k as int]@);
            assert(ks[k as int] == statements@[k as int]@.kind());
            assert(proof_views(proofs@)[k as int] == proofs@[k as int]@);
        }
        let result = verify_relation(&statements[k], &proofs[k], transcript);
        proof {
            assert(ks.take(k + 1).drop_last() =~= ks.take(k as int));
            assert(ks.take(k + 1).last() == ks[k as int]);
            assert(transcript_entries(*transcript) =~= before + challenge_trace(ks.take(k + 1)));
        }
        if result.is_err() {
            proof {
                lemma_no_objection_before(found, k as int);
                let rest = found.skip(k as int);
                assert(rest.len() > 0 && rest[0] == found[k as int]);
                assert(result == verdict(found[k as int]));
            }
            return result;
        }
        k += 1;
    }
    proof {
        lemma_no_objection_before(found, k as int);
    }
    Ok(())
}

/// What the verifier says to a list of proofs whose commitments follow on
/// `entries`.
pub open spec fn list_verdict(
    statements: Seq<StatementView>,
    proofs: Seq<ProofView>,
    entries: Seq<Entry>,
) -> Result<(), CryptoError> {
    first_objection(
        objections(
            statements,
            proofs,
            entries + commit_trace(kinds(statements), proof_commitments(proofs)),
        ),
    )
}

/// Whether each witness shows its statement.
pub open spec fn all_shown(statements: Seq<StatementView>, witnesses: Seq<Witness>) -> bool {
    &&& witnesses.len() == statements.len()
    &&& forall|k: int|
        #![trigger statements[k]]
        0 <= k < statements.len() ==> shows(statements[k], witnesses[k])
}

/// Whether the proofs are those that the prover gives for the randomness
/// `nonces`, where the transcript held `start` before the first commitment.
pub open spec fn proved_with(
    statements: Seq<StatementView>,
    witnesses: Seq<Witness>,
    nonces: Seq<Nonces>,
    proofs: Seq<ProofView>,
    start: Seq<Entry>,
) -> bool {
    &&& fit(statements, witnesses, nonces)
    &&& all_drawn(nonces)
    &&& proofs == proofs_of(
        statements,
        witnesses,
        nonces,
        start + commit_trace(kinds(statements), all_commitments(statements, witnesses, nonces)),
    )
}

/// Whether the proofs are those that the prover gives for some randomness.  Where
/// each witness shows its statement, they are accepted, unless that randomness
/// holds a nonce of zero for a not-identity proof.
pub open spec fn list_proved(
    statements: Seq<StatementView>,
    witnesses: Seq<Witness>,
    proofs: Seq<ProofView>,
    start: Seq<Entry>,
) -> bool {
    exists|nonces: Seq<Nonces>|
        {
            &&& #[trigger] proved_with(statements, witnesses, nonces, proofs, start)
            &&& all_shown(statements, witnesses) && none_vanish(nonces) ==> list_verdict(
                statements,
                proofs,
                start,
            ) == Ok::<(), CryptoError>(())
        }
}

/// Proves all statements.
pub fn prove_all(
    statements: &Vec<Statement>,
    witnesses: &Vec<Witness>,
    transcript: &mut Transcript,
    rng: &mut StdRng,
) -> (r: Vec<SubProof>)
    requires
        witnesses@.len() == statements@.len(),
        forall|k: int|
            #![trigger statements@[k]]
            0 <= k < statements@.len() ==> witnesses@[k].fits(statements@[k]@.kind()),
    ensures
        proof_kinds(r@) == kinds(statement_views(statements@)),
        list_proved(
            statement_views(statements@),
            witnesses@,
            proof_views(r@),
            transcript_entries(*old(transcript)),
        ),
        transcript_entries(*final(transcript)) == transcript_entries(*old(transcript))
            + commit_trace(
            kinds(statement_views(statements@)),
            proof_commitments(proof_views(r@)),
        ) + challenge_trace(kinds(statement_views(statements@))),
{
    let ghost before = transcript_entries(*transcript);
    let ghost s = statement_views(statements@);
    let nonces = init_all(statements, rng);
    proof {
        assert forall|k: int| #![trigger s[k]] 0 <= k < s.len() implies witnesses@[k].fits(
            s[k].kind(),
        ) && nonces@[k].kind() == s[k].kind() by {
            assert(s[k] == statements@[k]@);
            assert(nonces@[k].kind() == statements@[k]@.kind());
        }
    }
    let cts = commit_all(statements, witnesses, &nonces, transcript);
    let ghost middle = transcript_entries(*transcript);
    let proofs = complete_all(statements, witnesses, &nonces, &cts, transcript);
    proof {
        law_same_commitments(s, witnesses@, nonces@, middle);
        let trace = commit_trace(kinds(s), all_commitments(s, witnesses@, nonces@));
        assert(middle == before + trace);
        assert(proved_with(s, witnesses@, nonces@, proof_views(proofs@), before));
        if all_shown(s, witnesses@) && none_vanish(nonces@) {
            law_honest_proofs(s, witnesses@, nonces@, middle);
        }
    }
    proofs
}

/// Where each witness shows its statement and none is a not-identity statement,
/// the proofs are accepted.
pub proof fn lemma_list_accepted(
    statements: Seq<StatementView>,
    witnesses: Seq<Witness>,
    proofs: Seq<ProofView>,
    start: Seq<Entry>,
)
    requires
        list_proved(statements, witnesses, proofs, start),
        all_shown(statements, witnesses),
        forall|k: int|
            #![trigger statements[k]]
            0 <= k < statements.len() ==> statements[k].kind() != Kind::NotId,
    ensures
        list_verdict(statements, proofs, start) == Ok::<(), CryptoError>(()),
{
    let nonces = choose|nonces: Seq<Nonces>|
        {
            &&& #[trigger] proved_with(statements, witnesses, nonces, proofs, start)
            &&& all_shown(statements, witnesses) && none_vanish(nonces) ==> list_verdict(
                statements,
                proofs,
                start,
            ) == Ok::<(), CryptoError>(())
        };
    assert forall|k: int| #![trigger nonces[k]] 0 <= k < nonces.len() implies !nonces[k].vanishes() by {
        assert(nonces[k].kind() == statements[k].kind());
    }
}

/// Checks the proofs of all statements.
pub fn check_all(statements: &Vec<Statement>, proofs: &Vec<SubProof>, transcript: &mut Transcript) -> (r:
    Result<(), CryptoError>)
    requires
        proof_kinds(proofs@) == kinds(statement_views(statements@)),
    ensures
        r == list_verdict(
            statement_views(statements@),
            proof_views(proofs@),
            transcript_entries(*old(transcript)),
        ),
        r.is_ok() ==> transcript_entries(*final(transcript)) == transcript_entries(*old(transcript))
            + commit_trace(
            kinds(statement_views(statements@)),
            proof_commitments(proof_views(proofs@)),
        ) + challenge_trace(kinds(statement_views(statements@))),
{
    let ghost before = transcript_entries(*transcript);
    update_all(proofs, transcript);
    let ghost middle = transcript_entries(*transcript);
    let r = verify_all(statements, proofs, transcript);
    proof {
        let s = statement_views(statements@);
        let found = objections(s, proof_views(proofs@), middle);
        if r.is_ok() {
            lemma_all_looked_at(found);
            assert(kinds(s).take(found.len() as int) =~= kinds(s));
        }
    }
    r
}

/// Where nothing is objected to, everything was looked at.
pub proof fn lemma_all_looked_at(objections: Seq<Option<CryptoError>>)
    requires
        first_objection(objections).is_ok(),
    ensures
        looked_at(objections) == objections.len(),
    decreases objections.len(),
{
    if objections.len() > 0 {
        lemma_all_looked_at(objections.skip(1));
    }
}

/// Honest proofs are accepted together: where each witness shows its statement,
/// the verifier accepts what the prover gives, over the same transcript; with
/// the exception of not-identity proofs whose nonce is zero.
pub proof fn law_honest_proofs(
    statements: Seq<StatementView>,
    witnesses: Seq<Witness>,
    nonces: Seq<Nonces>,
    entries: Seq<Entry>,
)
    requires
        fit(statements, witnesses, nonces),
        all_drawn(nonces),
        none_vanish(nonces),
        all_shown(statements, witnesses),
    ensures
        first_objection(
            objections(
                statements,
                proofs_of(statements, witnesses, nonces, entries),
                entries,
            ),
        ) == Ok::<(), CryptoError>(()),
        looked_at(
            objections(
                statements,
                proofs_of(statements, witnesses, nonces, entries),
                entries,
            ),
        ) == statements.len(),
{
    let proofs = proofs_of(statements, witnesses, nonces, entries);
    let found = objections(statements, proofs, entries);
    assert forall|k: int| 0 <= k < found.len() implies found[k] is None by {
        let c = challenges_at(kinds(statements), entries, k);
        assert(kinds(statements)[k] == statements[k].kind());
        assert(shows(statements[k], witnesses[k]));
        assert(nonces[k].drawn() && !nonces[k].vanishes());
        law_honest_proof(statements[k], witnesses[k], nonces[k], c);
    }
    lemma_no_objection_before(found, found.len() as int);
}

/// What the prover appends before the first challenge, the verifier appends
/// too when it reads the proofs.
pub proof fn law_same_commitments(
    statements: Seq<StatementView>,
    witnesses: Seq<Witness>,
    nonces: Seq<Nonces>,
    entries: Seq<Entry>,
)
    requires
        fit(statements, witnesses, nonces),
    ensures
        proof_commitments(proofs_of(statements, witnesses, nonces, entries)) == all_commitments(
            statements,
            witnesses,
            nonces,
        ),
{
    let proofs = proofs_of(statements, witnesses, nonces, entries);
    assert forall|k: int| 0 <= k < statements.len() implies proof_commitments(proofs)[k]
        == all_commitments(statements, witnesses, nonces)[k] by {
        assert(witnesses[k].fits(statements[k].kind()));
        assert(nonces[k].kind() == statements[k].kind());
    }
    assert(proof_commitments(proofs) =~= all_commitments(statements, witnesses, nonces));
}

} // verus!
