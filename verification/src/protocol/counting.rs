//! The homomorphic sum of encrypted choices, and what it counts.

use vstd::prelude::*;

use crate::arith::{lemma_order, lemma_red_add, lemma_red_small, red};
use crate::elgamal::{
    ct_add, ct_decrypt, ct_zero, law_decrypt_add, law_decrypt_encrypt, CtView,
};
use crate::protocol::filter::choice_views;
use crate::protocol::tally::Place;
use crate::protocol::vote::choice::{
    bit, encrypts_marks, inner_views, Choice, ChoiceParameters, EncrChoice, EncrChoiceView,
    ExtendedEncrChoice,
};
use crate::protocol::vote::choice_proof::encrypted;

verus! {

/// The sum of encrypted choices, position by position.
pub open spec fn sum_of(start: EncrChoiceView, choices: Seq<EncrChoiceView>) -> EncrChoiceView
    decreases choices.len(),
{
    if choices.len() == 0 {
        start
    } else {
        sum_of(start, choices.drop_last()).plus(choices.last())
    }
}

/// Adds up encrypted choices.
pub fn homomorphic_sum(params: &ChoiceParameters, choices: &Vec<EncrChoice>) -> (r: EncrChoice)
    requires
        params.wf(),
        forall|k: int|
            #![trigger choices@[k]]
            0 <= k < choices@.len() ==> EncrChoiceView::nothing(*params).within(choices@[k]@),
    ensures
        r@ == sum_of(
            EncrChoiceView::nothing(*params),
            choice_views(choices@),
        ),
{
    let mut acc = EncrChoice::identity(params);
    let ghost start = EncrChoiceView::nothing(*params);
    let ghost all = choice_views(choices@);
    let mut k: usize = 0;
    proof {
        assert(all.take(0) =~= Seq::<EncrChoiceView>::empty());
    }
    while k < choices.len()
        invariant
            k <= choices@.len(),
            start == EncrChoiceView::nothing(*params),
            all == choice_views(choices@),
            forall|k: int|
                #![trigger choices@[k]]
                0 <= k < choices@.len() ==> start.within(choices@[k]@),
            acc@ == sum_of(start, all.take(k as int)),
        decreases choices@.len() - k,
    {
        proof {
            lemma_sum_shape(start, all.take(k as int));
            let c = choices@[k as int]@;
            assert(start.within(c));
            assert forall|i: int| #![trigger acc@.l2[i]] 0 <= i < acc@.l2.len() implies acc@.l2[i].len()
                <= c.l2[i].len() by {
                assert(start.l2[i].len() <= c.l2[i].len());
            }
            assert(all.take(k + 1).drop_last() =~= all.take(k as int));
        }
        acc.add_assign(&choices[k]);
        k += 1;
    }
    proof {
        assert(all.take(k as int) =~= all);
    }
    acc
}

/// A sum has the shape it started with.
pub proof fn lemma_sum_shape(start: EncrChoiceView, choices: Seq<EncrChoiceView>)
    ensures
        sum_of(start, choices).l1.len() == start.l1.len(),
        sum_of(start, choices).l2.len() == start.l2.len(),
        forall|i: int|
            #![trigger sum_of(start, choices).l2[i]]
            0 <= i < start.l2.len() ==> sum_of(start, choices).l2[i].len() == start.l2[i].len(),
    decreases choices.len(),
{
    if choices.len() > 0 {
        let less = sum_of(start, choices.drop_last());
        lemma_sum_shape(start, choices.drop_last());
        assert forall|i: int|
            #![trigger sum_of(start, choices).l2[i]]
            0 <= i < start.l2.len() implies sum_of(start, choices).l2[i].len() == start.l2[i].len() by {
            assert(less.l2[i].len() == start.l2[i].len());
        }
    }
}

/// The sum does not depend on the order: the same encrypted choices, in whatever
/// order, have one sum.
pub proof fn law_sum_has_no_order(
    start: EncrChoiceView,
    choices: Seq<EncrChoiceView>,
    other: Seq<EncrChoiceView>,
)
    requires
        choices.to_multiset() == other.to_multiset(),
    ensures
        sum_of(start, choices) == sum_of(start, other),
{
    let step = |sum: EncrChoiceView, c: EncrChoiceView| sum.plus(c);
    assert forall|a: EncrChoiceView, b: EncrChoiceView, sum: EncrChoiceView| #[trigger]
        step(step(sum, a), b) == step(step(sum, b), a) by {
        lemma_plus_commutes(sum, a, b);
    }
    lemma_sum_folds(start, choices);
    lemma_sum_folds(start, other);
    vstd::seq_lib::lemma_fold_left_permutation(choices, other, step, start);
}

/// A sum is the fold of the list.
proof fn lemma_sum_folds(start: EncrChoiceView, choices: Seq<EncrChoiceView>)
    ensures
        sum_of(start, choices) == choices.fold_left(
            start,
            |sum: EncrChoiceView, c: EncrChoiceView| sum.plus(c),
        ),
    decreases choices.len(),
{
    if choices.len() > 0 {
        lemma_sum_folds(start, choices.drop_last());
    }
}

/// Two summands may change places.
proof fn lemma_plus_commutes(sum: EncrChoiceView, a: EncrChoiceView, b: EncrChoiceView)
    ensures
        sum.plus(a).plus(b) == sum.plus(b).plus(a),
{
    let (x, y) = (sum.plus(a).plus(b), sum.plus(b).plus(a));
    assert forall|i: int| 0 <= i < sum.l1.len() implies x.l1[i] == y.l1[i] by {
        lemma_add_commutes(sum.l1[i], a.l1[i], b.l1[i]);
    }
    assert forall|i: int| 0 <= i < sum.l2.len() implies x.l2[i] == y.l2[i] by {
        assert forall|j: int| 0 <= j < sum.l2[i].len() implies x.l2[i][j] == y.l2[i][j] by {
            lemma_add_commutes(sum.l2[i][j], a.l2[i][j], b.l2[i][j]);
        }
        assert(x.l2[i] =~= y.l2[i]);
    }
    assert(x.l1 =~= y.l1);
    assert(x.l2 =~= y.l2);
}

proof fn lemma_add_commutes(s: CtView, a: CtView, b: CtView)
    ensures
        ct_add(ct_add(s, a), b) == ct_add(ct_add(s, b), a),
{
    lemma_red_add(s.r1 + a.r1, b.r1);
    lemma_red_add(s.r1 + b.r1, a.r1);
    lemma_red_add(s.r2 + a.r2, b.r2);
    lemma_red_add(s.r2 + b.r2, a.r2);
    lemma_red_add(s.b + a.b, b.b);
    lemma_red_add(s.b + b.b, a.b);
}

/// Whether a choice marks a place.
pub open spec fn chosen(choice: Choice, p: Place) -> int {
    match p {
        Place::Party { i } => bit(choice.l1@[i] == 1) as int,
        Place::Candidate { i, j } => bit(choice.l2@[i]@[j] == 1) as int,
    }
}

/// The number of choices that mark a place.
pub open spec fn votes_for(choices: Seq<Choice>, p: Place) -> int
    decreases choices.len(),
{
    if choices.len() == 0 {
        0
    } else {
        votes_for(choices.drop_last(), p) + chosen(choices.last(), p)
    }
}

proof fn lemma_votes_for(choices: Seq<Choice>, p: Place)
    ensures
        0 <= votes_for(choices, p) <= choices.len(),
    decreases choices.len(),
{
    if choices.len() > 0 {
        lemma_votes_for(choices.drop_last(), p);
    }
}

/// Whether a choice is one for the parameters, and was encrypted.
pub open spec fn honest(
    key: CtView,
    params: ChoiceParameters,
    choice: Choice,
    ext: ExtendedEncrChoice,
    enc: EncrChoiceView,
) -> bool {
    &&& choice.marks(params)
    &&& encrypted(ext, key, choice)
    &&& enc == ext.inner()
}

/// The sum at a place decrypts to the number of choices that mark it, where each
/// encrypted choice decrypts to its mark there.
pub proof fn lemma_sum_counts(
    x1: int,
    x2: int,
    params: ChoiceParameters,
    choices: Seq<Choice>,
    encrypted_choices: Seq<EncrChoiceView>,
    p: Place,
)
    requires
        choices.len() == encrypted_choices.len(),
        choices.len() <= u64::MAX,
        forall|k: int|
            #![trigger encrypted_choices[k]]
            0 <= k < choices.len() ==> ct_decrypt(x1, x2, encrypted_choices[k].at(p)) == chosen(
                choices[k],
                p,
            ),
        p.within(EncrChoiceView::nothing(params)),
    ensures
        ct_decrypt(
            x1,
            x2,
            sum_of(EncrChoiceView::nothing(params), encrypted_choices).at(p),
        ) == votes_for(choices, p),
    decreases choices.len(),
{
    let start = EncrChoiceView::nothing(params);
    lemma_order();
    if choices.len() == 0 {
        assert(start.at(p) == ct_zero());
        assert(x1 * 0 + x2 * 0 == 0) by (nonlinear_arith);
        lemma_red_small(0);
    } else {
        let n = choices.len() - 1;
        let less = encrypted_choices.drop_last();
        lemma_sum_counts(x1, x2, params, choices.drop_last(), less, p);
        lemma_sum_shape(start, less);
        let sum = sum_of(start, less);
        let last = encrypted_choices[n];
        match p {
            Place::Party { i } => {
                assert(sum.plus(last).l1[i] == ct_add(sum.l1[i], last.l1[i]));
            },
            Place::Candidate { i, j } => {
                assert(sum.l2[i].len() == start.l2[i].len());
                assert(sum.plus(last).l2[i][j] == ct_add(sum.l2[i][j], last.l2[i][j]));
            },
        }
        law_decrypt_add(x1, x2, sum.at(p), last.at(p));
        lemma_votes_for(choices, p);
        lemma_red_small(votes_for(choices, p));
    }
}

/// The tally counts the votes: where encrypted choices are added up, the sum at
/// each place decrypts to the number of choices that mark it.
pub proof fn law_tally_counts(
    key: CtView,
    x1: int,
    x2: int,
    params: ChoiceParameters,
    choices: Seq<Choice>,
    ext: Seq<ExtendedEncrChoice>,
    encrypted_choices: Seq<EncrChoiceView>,
    p: Place,
)
    requires
        key.b == red(x1 * key.r1 + x2 * key.r2),
        params.wf(),
        choices.len() == ext.len(),
        choices.len() == encrypted_choices.len(),
        choices.len() <= u64::MAX,
        forall|k: int|
            #![trigger ext[k]]
            0 <= k < ext.len() ==> honest(key, params, choices[k], ext[k], encrypted_choices[k]),
        p.within(EncrChoiceView::nothing(params)),
    ensures
        ct_decrypt(
            x1,
            x2,
            sum_of(EncrChoiceView::nothing(params), encrypted_choices).at(p),
        ) == votes_for(choices, p),
{
    assert forall|k: int| #![trigger encrypted_choices[k]] 0 <= k < choices.len() implies ct_decrypt(
        x1,
        x2,
        encrypted_choices[k].at(p),
    ) == chosen(choices[k], p) by {
        assert(honest(key, params, choices[k], ext[k], encrypted_choices[k]));
        lemma_place(key, x1, x2, params, choices[k], ext[k], p);
    }
    lemma_sum_counts(x1, x2, params, choices, encrypted_choices, p);
}

/// One encrypted choice decrypts to its mark.
pub proof fn lemma_place(
    key: CtView,
    x1: int,
    x2: int,
    params: ChoiceParameters,
    choice: Choice,
    ext: ExtendedEncrChoice,
    p: Place,
)
    requires
        key.b == red(x1 * key.r1 + x2 * key.r2),
        params.wf(),
        choice.marks(params),
        encrypted(ext, key, choice),
        p.within(EncrChoiceView::nothing(params)),
    ensures
        ct_decrypt(x1, x2, ext.inner().at(p)) == chosen(choice, p),
{
    lemma_order();
    match p {
        Place::Party { i } => {
            let m = bit(choice.l1@[i] == 1) as int;
            assert(ext.l1@[i].encrypts(key, m));
            law_decrypt_encrypt(x1, x2, key, m, ext.l1@[i].random_scalar@);
            lemma_red_small(m);
        },
        Place::Candidate { i, j } => {
            assert(encrypts_marks(ext.l2@[i]@, key, choice.l2@[i]@));
            let m = bit(choice.l2@[i]@[j] == 1) as int;
            assert(choice.l2@[i]@.len() == params.ln2@[i]);
            assert(ext.l2@[i]@[j].encrypts(key, m));
            assert(ext.inner().l2[i] == inner_views(ext.l2@[i]@));
            law_decrypt_encrypt(x1, x2, key, m, ext.l2@[i]@[j].random_scalar@);
            lemma_red_small(m);
        },
    }
}

} // verus!
