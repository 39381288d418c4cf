//! What the claims on a ballot mean for what it decrypts to.

use vstd::prelude::*;

use crate::arith::{
    lemma_order, lemma_red_add, lemma_red_bounds, lemma_red_small, lemma_red_sub,
    lemma_red_twice, order, red,
};
use crate::elgamal::{
    ct_decrypt, ct_ranked_sum, ct_scale, ct_sub, ct_sum, ct_zero, law_decrypt_add,
    law_decrypt_scale, law_decrypt_strip, law_decrypt_sub, CtView,
};
use crate::laws::proofs::{claim_holds, lemma_difference_zero};
use crate::proofs::linkage::int_sum;
use crate::proofs::relation::{RelationView, StatementView};
use crate::protocol::keys::ElectionPublicKey;
use crate::protocol::vote::auth_proof::{auth_claims, EncrAuthValues};
use crate::protocol::vote::cai::{cai_claims, ranked, with_candidates, EncrValuesCAI};
use crate::protocol::vote::choice::EncrChoiceView;
use crate::protocol::vote::choice_proof::{choice_claims, party_claims};

verus! {

/// Whether all claims are true of what the secret key `(x1, x2)` decrypts.
pub open spec fn claims_hold(x1: int, x2: int, claims: Seq<StatementView>) -> bool {
    forall|k: int| #![trigger claims[k]] 0 <= k < claims.len() ==> claim_holds(x1, x2, claims[k])
}

/// What a list of ciphertexts decrypts to.
pub open spec fn decrypted_list(x1: int, x2: int, cts: Seq<CtView>) -> Seq<int> {
    Seq::new(cts.len(), |i: int| ct_decrypt(x1, x2, cts[i]))
}

/// Whether the list holds a one at `at`, and zeros elsewhere.
pub open spec fn one_hot(marks: Seq<int>, at: int) -> bool {
    &&& 0 <= at < marks.len()
    &&& forall|i: int|
        #![trigger marks[i]]
        0 <= i < marks.len() ==> marks[i] == if i == at {
            1int
        } else {
            0
        }
}

/// Whether the list holds zeros only.
pub open spec fn blank(marks: Seq<int>) -> bool {
    forall|i: int| #![trigger marks[i]] 0 <= i < marks.len() ==> marks[i] == 0
}

/// Whether an encrypted choice has a ciphertext for each party and candidate, and
/// no others.
pub open spec fn fills_out(v: EncrChoiceView, ln2: Seq<usize>) -> bool {
    &&& v.l1.len() == ln2.len()
    &&& v.l2.len() == ln2.len()
    &&& forall|i: int| #![trigger v.l2[i]] 0 <= i < ln2.len() ==> v.l2[i].len() == ln2[i]
}

/// Sums decrypt to the sum.
pub(crate) proof fn lemma_decrypt_sum(x1: int, x2: int, cts: Seq<CtView>)
    ensures
        ct_decrypt(x1, x2, ct_sum(cts)) == red(int_sum(decrypted_list(x1, x2, cts))),
    decreases cts.len(),
{
    let all = decrypted_list(x1, x2, cts);
    lemma_order();
    lemma_red_small(0);
    if cts.len() == 0 {
        lemma_decrypt_zero(x1, x2);
    } else {
        lemma_decrypt_sum(x1, x2, cts.drop_last());
        assert(all.drop_last() =~= decrypted_list(x1, x2, cts.drop_last()));
        law_decrypt_add(x1, x2, ct_sum(cts.drop_last()), cts.last());
        lemma_red_add(int_sum(all.drop_last()), all.last());
    }
}

/// Ranked sums decrypt to the ranked sum.
pub(crate) proof fn lemma_decrypt_ranked(x1: int, x2: int, cts: Seq<CtView>)
    ensures
        ct_decrypt(x1, x2, ct_ranked_sum(cts)) == red(ranked(decrypted_list(x1, x2, cts))),
    decreases cts.len(),
{
    let all = decrypted_list(x1, x2, cts);
    lemma_order();
    lemma_red_small(0);
    if cts.len() == 0 {
        lemma_decrypt_zero(x1, x2);
    } else {
        let n = cts.len() as int;
        lemma_decrypt_ranked(x1, x2, cts.drop_last());
        assert(all.drop_last() =~= decrypted_list(x1, x2, cts.drop_last()));
        law_decrypt_scale(x1, x2, cts.last(), n);
        law_decrypt_add(x1, x2, ct_ranked_sum(cts.drop_last()), ct_scale(cts.last(), n));
        lemma_red_add(ranked(all.drop_last()), all.last() * n);
    }
}

pub(crate) proof fn lemma_decrypt_zero(x1: int, x2: int)
    ensures
        ct_decrypt(x1, x2, ct_zero()) == 0,
{
    assert(x1 * 0 + x2 * 0 == 0) by (nonlinear_arith);
    lemma_order();
    lemma_red_small(0);
}

/// What is decrypted is a residue.
proof fn lemma_decrypted(x1: int, x2: int, ct: CtView)
    ensures
        0 <= ct_decrypt(x1, x2, ct) < order(),
        red(ct_decrypt(x1, x2, ct)) == ct_decrypt(x1, x2, ct),
{
    lemma_red_bounds(ct.b - (x1 * ct.r1 + x2 * ct.r2));
    lemma_red_small(ct_decrypt(x1, x2, ct));
}

/// The sum of bits is at most their number.
proof fn lemma_bits(marks: Seq<int>)
    requires
        forall|i: int| #![trigger marks[i]] 0 <= i < marks.len() ==> marks[i] == 0 || marks[i] == 1,
    ensures
        0 <= int_sum(marks) <= marks.len(),
    decreases marks.len(),
{
    if marks.len() > 0 {
        assert(marks.last() == marks[marks.len() - 1]);
        lemma_bits(marks.drop_last());
    }
}

/// Bits that add up to zero are all zero.
proof fn lemma_blank(marks: Seq<int>)
    requires
        forall|i: int| #![trigger marks[i]] 0 <= i < marks.len() ==> marks[i] == 0 || marks[i] == 1,
        int_sum(marks) == 0,
    ensures
        blank(marks),
    decreases marks.len(),
{
    if marks.len() > 0 {
        let less = marks.drop_last();
        lemma_bits(less);
        assert(marks.last() == marks[marks.len() - 1]);
        lemma_blank(less);
        assert forall|i: int| #![trigger marks[i]] 0 <= i < marks.len() implies marks[i] == 0 by {
            if i < less.len() {
                assert(less[i] == 0);
            }
        }
    }
}

/// Bits that add up to one hold a single one.
proof fn lemma_one_hot(marks: Seq<int>) -> (at: int)
    requires
        forall|i: int| #![trigger marks[i]] 0 <= i < marks.len() ==> marks[i] == 0 || marks[i] == 1,
        int_sum(marks) == 1,
    ensures
        one_hot(marks, at),
    decreases marks.len(),
{
    let less = marks.drop_last();
    lemma_bits(less);
    assert(marks.last() == marks[marks.len() - 1]);
    if marks.last() == 1 {
        lemma_blank(less);
        assert forall|i: int| #![trigger marks[i]] 0 <= i < marks.len() - 1 implies marks[i] == 0 by {
            assert(less[i] == 0);
        }
        marks.len() - 1
    } else {
        let at = lemma_one_hot(less);
        assert forall|i: int| #![trigger marks[i]] 0 <= i < marks.len() - 1 implies marks[i] == if i
            == at {
            1int
        } else {
            0
        } by {
            assert(marks[i] == less[i]);
        }
        at
    }
}

/// The claims on the first `n` parties, and that one party is chosen.
proof fn lemma_party_claims_hold(
    x1: int,
    x2: int,
    key: CtView,
    v: EncrChoiceView,
    ln2: Seq<usize>,
    n: int,
    i: int,
)
    requires
        claims_hold(x1, x2, choice_claims(key, v, ln2, n)),
        0 <= i < n,
    ensures
        claims_hold(x1, x2, party_claims(key, v, ln2, i)),
    decreases n,
{
    let less = choice_claims(key, v, ln2, n - 1);
    let more = party_claims(key, v, ln2, n - 1);
    let all = choice_claims(key, v, ln2, n);
    assert(all == less + more);
    if i == n - 1 {
        assert forall|k: int| #![trigger more[k]] 0 <= k < more.len() implies claim_holds(
            x1,
            x2,
            more[k],
        ) by {
            assert(all[less.len() + k] == more[k]);
        }
    } else {
        assert forall|k: int| #![trigger less[k]] 0 <= k < less.len() implies claim_holds(
            x1,
            x2,
            less[k],
        ) by {
            assert(all[k] == less[k]);
        }
        lemma_party_claims_hold(x1, x2, key, v, ln2, n - 1, i);
    }
}

/// The first claim stays the first.
proof fn lemma_first_claim(key: CtView, v: EncrChoiceView, ln2: Seq<usize>, n: int)
    requires
        n >= 0,
    ensures
        choice_claims(key, v, ln2, n).len() > 0,
        choice_claims(key, v, ln2, n)[0] == choice_claims(key, v, ln2, 0)[0],
    decreases n,
{
    if n > 0 {
        lemma_first_claim(key, v, ln2, n - 1);
    }
}

/// The claims on an encrypted choice mean that it is well formed: where each is
/// true of what the ciphertexts decrypt to, exactly one party is marked, exactly
/// one of its candidates is, and no candidate of another party.  There is no such
/// ballot with two parties, or with none.
pub proof fn law_true_claims_are_one_vote(
    x1: int,
    x2: int,
    key: CtView,
    v: EncrChoiceView,
    ln2: Seq<usize>,
) -> (r: (int, int))
    requires
        fills_out(v, ln2),
        ln2.len() <= usize::MAX,
        claims_hold(x1, x2, choice_claims(key, v, ln2, ln2.len() as int)),
    ensures
        one_hot(decrypted_list(x1, x2, v.l1), r.0),
        one_hot(decrypted_list(x1, x2, v.l2[r.0]), r.1),
        forall|i: int|
            #![trigger v.l2[i]]
            0 <= i < ln2.len() && i != r.0 ==> blank(decrypted_list(x1, x2, v.l2[i])),
{
    let n = ln2.len() as int;
    let claims = choice_claims(key, v, ln2, n);
    let parties = decrypted_list(x1, x2, v.l1);
    lemma_order();
    lemma_red_small(0);
    lemma_red_small(1);
    assert forall|i: int| #![trigger parties[i]] 0 <= i < parties.len() implies parties[i] == 0
        || parties[i] == 1 by {
        lemma_party_bits(x1, x2, key, v, ln2, i);
    }
    lemma_first_claim(key, v, ln2, n);
    assert(claim_holds(x1, x2, claims[0]));
    law_decrypt_strip(x1, x2, ct_sum(v.l1), 1);
    lemma_decrypt_sum(x1, x2, v.l1);
    lemma_difference_zero(red(int_sum(parties)), 1);
    lemma_red_twice(int_sum(parties));
    lemma_bits(parties);
    lemma_red_small(int_sum(parties));
    let party = lemma_one_hot(parties);
    lemma_party_bits(x1, x2, key, v, ln2, party);
    let chosen = decrypted_list(x1, x2, v.l2[party]);
    assert(parties[party] == 1);
    let candidate = lemma_one_hot(chosen);
    assert forall|i: int| #![trigger v.l2[i]] 0 <= i < ln2.len() && i != party implies blank(
        decrypted_list(x1, x2, v.l2[i]),
    ) by {
        lemma_party_bits(x1, x2, key, v, ln2, i);
        assert(parties[i] == 0);
        lemma_blank(decrypted_list(x1, x2, v.l2[i]));
    }
    (party, candidate)
}

/// The claims on one party: party and candidates are bits, and the candidates add
/// up to the party.
proof fn lemma_party_bits(
    x1: int,
    x2: int,
    key: CtView,
    v: EncrChoiceView,
    ln2: Seq<usize>,
    i: int,
)
    requires
        fills_out(v, ln2),
        claims_hold(x1, x2, choice_claims(key, v, ln2, ln2.len() as int)),
        0 <= i < ln2.len(),
    ensures
        decrypted_list(x1, x2, v.l1)[i] == 0 || decrypted_list(x1, x2, v.l1)[i] == 1,
        forall|j: int|
            #![trigger decrypted_list(x1, x2, v.l2[i])[j]]
            0 <= j < ln2[i] ==> decrypted_list(x1, x2, v.l2[i])[j] == 0 || decrypted_list(
                x1,
                x2,
                v.l2[i],
            )[j] == 1,
        int_sum(decrypted_list(x1, x2, v.l2[i])) == decrypted_list(x1, x2, v.l1)[i],
{
    let claims = party_claims(key, v, ln2, i);
    let marks = decrypted_list(x1, x2, v.l2[i]);
    let n = ln2[i] as int;
    lemma_party_claims_hold(x1, x2, key, v, ln2, ln2.len() as int, i);
    lemma_order();
    lemma_red_small(0);
    lemma_red_small(1);
    assert(v.l2[i].len() == n);
    assert(claims.len() == n + 2);
    assert forall|j: int| #![trigger marks[j]] 0 <= j < n implies marks[j] == 0 || marks[j] == 1 by {
        assert(claims[j].relation == RelationView::Or { ct: v.l2[i][j], values: seq![0, 1] });
        assert(claim_holds(x1, x2, claims[j]));
    }
    assert(claims[n].relation == RelationView::Or { ct: v.l1[i], values: seq![0, 1] });
    assert(claim_holds(x1, x2, claims[n]));
    let last = ct_sub(v.l1[i], ct_sum(v.l2[i]));
    assert(claims[n + 1].relation == RelationView::Zero { ct: last });
    assert(claim_holds(x1, x2, claims[n + 1]));
    law_decrypt_sub(x1, x2, v.l1[i], ct_sum(v.l2[i]));
    lemma_decrypt_sum(x1, x2, v.l2[i]);
    lemma_bits(marks);
    lemma_red_small(int_sum(marks));
    lemma_decrypted(x1, x2, v.l1[i]);
    lemma_difference_zero(ct_decrypt(x1, x2, v.l1[i]), int_sum(marks));
}

/// The ranked sum of a list with a single one is its position, counted from one.
proof fn lemma_ranked_one_hot(marks: Seq<int>, at: int)
    requires
        one_hot(marks, at),
    ensures
        ranked(marks) == at + 1,
    decreases marks.len(),
{
    let less = marks.drop_last();
    assert(marks.last() == marks[marks.len() - 1]);
    assert forall|i: int| #![trigger less[i]] 0 <= i < less.len() implies less[i] == marks[i] by {}
    if at == marks.len() - 1 {
        lemma_ranked_blank(less);
        assert(1 * marks.len() == marks.len());
    } else {
        lemma_ranked_one_hot(less, at);
        assert(0 * marks.len() == 0);
    }
}

proof fn lemma_ranked_blank(marks: Seq<int>)
    requires
        blank(marks),
    ensures
        ranked(marks) == 0,
    decreases marks.len(),
{
    if marks.len() > 0 {
        let less = marks.drop_last();
        assert(marks.last() == marks[marks.len() - 1]);
        assert forall|i: int| #![trigger less[i]] 0 <= i < less.len() implies less[i] == marks[i] by {}
        lemma_ranked_blank(less);
        assert(0 * marks.len() == 0);
    }
}

/// The ranked sum of a list without its first entry.
proof fn lemma_rank(x1: int, x2: int, cts: Seq<CtView>, at: int)
    requires
        cts.len() > 0,
        one_hot(decrypted_list(x1, x2, cts), at),
    ensures
        ct_decrypt(x1, x2, ct_ranked_sum(cts.skip(1))) == red(at),
{
    let marks = decrypted_list(x1, x2, cts);
    let rest = decrypted_list(x1, x2, cts.skip(1));
    lemma_decrypt_ranked(x1, x2, cts.skip(1));
    assert forall|i: int| #![trigger rest[i]] 0 <= i < rest.len() implies rest[i] == marks[i + 1] by {}
    if at == 0 {
        lemma_ranked_blank(rest);
    } else {
        lemma_ranked_one_hot(rest, at - 1);
    }
}

/// Rows of which one holds a single one, and the others nothing.
proof fn lemma_candidate_rank(
    x1: int,
    x2: int,
    start: CtView,
    rows: Seq<Seq<CtView>>,
    party: int,
    candidate: int,
)
    requires
        forall|i: int|
            #![trigger rows[i]]
            0 <= i < rows.len() ==> rows[i].len() > 0 && if i == party {
                one_hot(decrypted_list(x1, x2, rows[i]), candidate)
            } else {
                blank(decrypted_list(x1, x2, rows[i]))
            },
    ensures
        ct_decrypt(x1, x2, with_candidates(start, rows)) == red(
            ct_decrypt(x1, x2, start) + if 0 <= party < rows.len() {
                candidate
            } else {
                0
            },
        ),
    decreases rows.len(),
{
    lemma_decrypted(x1, x2, start);
    if rows.len() > 0 {
        let less = rows.drop_last();
        let last = rows.last();
        assert(last == rows[rows.len() - 1]);
        assert forall|i: int| #![trigger less[i]] 0 <= i < less.len() implies less[i] == rows[i] by {}
        lemma_candidate_rank(x1, x2, start, less, party, candidate);
        let sum = with_candidates(start, less);
        let more = ct_ranked_sum(last.skip(1));
        law_decrypt_add(x1, x2, sum, more);
        let before = ct_decrypt(x1, x2, start) + if 0 <= party < less.len() {
            candidate
        } else {
            0
        };
        if party == rows.len() - 1 {
            lemma_rank(x1, x2, last, candidate);
            lemma_red_add(before, candidate);
        } else {
            let rest = decrypted_list(x1, x2, last.skip(1));
            let marks = decrypted_list(x1, x2, last);
            assert forall|i: int| #![trigger rest[i]] 0 <= i < rest.len() implies rest[i] == 0 by {
                assert(rest[i] == marks[i + 1]);
            }
            lemma_decrypt_ranked(x1, x2, last.skip(1));
            lemma_ranked_blank(rest);
            lemma_red_add(before, 0);
        }
    }
}

/// The claims on the codes mean that code plus choice is the sum, up to a carry
/// of one hundred: where they are true, and party and candidate are marked,
/// code and number of the party give the sum, and so do those of the candidate.
pub proof fn law_true_codes_add_up(
    x1: int,
    x2: int,
    key: CtView,
    cai: EncrValuesCAI,
    v: EncrChoiceView,
    party: int,
    candidate: int,
)
    requires
        claims_hold(x1, x2, cai_claims(key, cai, v)),
        v.l2.len() == v.l1.len(),
        one_hot(decrypted_list(x1, x2, v.l1), party),
        forall|i: int|
            #![trigger v.l2[i]]
            0 <= i < v.l2.len() ==> v.l2[i].len() > 0 && if i == party {
                one_hot(decrypted_list(x1, x2, v.l2[i]), candidate)
            } else {
                blank(decrypted_list(x1, x2, v.l2[i]))
            },
    ensures
        ({
            let code = ct_decrypt(x1, x2, cai.l1_code_enc@);
            let sum = ct_decrypt(x1, x2, cai.l1_sum_enc@);
            red(code + party - sum) == 0 || red(code + party - sum) == 100
        }),
        ({
            let code = ct_decrypt(x1, x2, cai.l2_code_enc@);
            let sum = ct_decrypt(x1, x2, cai.l2_sum_enc@);
            red(code + candidate - sum) == 0 || red(code + candidate - sum) == 100
        }),
{
    let claims = cai_claims(key, cai, v);
    lemma_order();
    lemma_red_small(0);
    lemma_red_small(100);
    assert(claims.len() == 2);
    assert(claim_holds(x1, x2, claims[0]));
    assert(claim_holds(x1, x2, claims[1]));
    // The party.
    let rank = ct_ranked_sum(v.l1.skip(1));
    let code = ct_decrypt(x1, x2, cai.l1_code_enc@);
    let sum = ct_decrypt(x1, x2, cai.l1_sum_enc@);
    lemma_rank(x1, x2, v.l1, party);
    law_decrypt_sub(x1, x2, rank, cai.l1_sum_enc@);
    law_decrypt_add(x1, x2, cai.l1_code_enc@, ct_sub(rank, cai.l1_sum_enc@));
    lemma_red_sub(party, sum);
    lemma_red_add(code, party - sum);
    assert(code + (party - sum) == code + party - sum);
    // The candidate.
    let code2 = ct_decrypt(x1, x2, cai.l2_code_enc@);
    let sum2 = ct_decrypt(x1, x2, cai.l2_sum_enc@);
    lemma_candidate_rank(x1, x2, cai.l2_code_enc@, v.l2, party, candidate);
    law_decrypt_sub(x1, x2, with_candidates(cai.l2_code_enc@, v.l2), cai.l2_sum_enc@);
    lemma_red_sub(code2 + candidate, sum2);
}

/// The claims on the encrypted credential mean that it holds one: where they are
/// true, the signature's point is not neutral and a multiple of `B`, what stands
/// for `[r]A` is a multiple of `B`, and the two encryptions of the secret differ by
/// a multiple of the difference of their bases.
pub proof fn law_true_credential_claims(
    x1: int,
    x2: int,
    pk: ElectionPublicKey,
    auth: EncrAuthValues,
)
    requires
        claims_hold(x1, x2, auth_claims(pk, auth)),
    ensures
        ct_decrypt(x1, x2, auth.A_enc@) != 0,
        exists|s: int| ct_decrypt(x1, x2, auth.A_enc@) == #[trigger] red(auth.B.log() * s),
        exists|s: int| ct_decrypt(x1, x2, auth.Ar_enc@) == #[trigger] red(auth.B.log() * s),
        exists|m: int|
            red(ct_decrypt(x1, x2, auth.g3x_enc@) - ct_decrypt(x1, x2, auth.ox_enc@))
                == #[trigger] red((pk.params.g3.log() - pk.params.o.log()) * m),
{
    let claims = auth_claims(pk, auth);
    assert(claims.len() == 4);
    assert(claim_holds(x1, x2, claims[0]));
    assert(claim_holds(x1, x2, claims[1]));
    assert(claim_holds(x1, x2, claims[2]));
    assert(claim_holds(x1, x2, claims[3]));
}

} // verus!
