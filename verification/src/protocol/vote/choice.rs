//! Choices and their encryption.

use rand::rngs::StdRng;
use vstd::prelude::*;

use crate::protocol::keys::ElectionPublicKey;
use crate::elgamal::{
    ct_add, ct_encrypt, ct_rows, ct_views, ct_zero, Ciphertext, CtView, ElGamalParams,
    ExtendedCiphertext, PublicKey,
};
use crate::error::Error;
use crate::group::Point;
use crate::text::{decimal, with_numbers};

verus! {

/// The shape of a ballot: the number of first-level choices (parties), and for
/// each the number of second-level choices (candidates).
#[derive(Debug, PartialEq)]
pub struct ChoiceParameters {
    pub n1: usize,
    pub ln2: Vec<usize>,
}

impl Clone for ChoiceParameters {
    fn clone(&self) -> (r: Self)
        ensures
            r.n1 == self.n1,
            r.ln2@ == self.ln2@,
    {
        let ln2 = self.ln2.clone();
        proof {
            assert(ln2@ =~= self.ln2@);
        }
        ChoiceParameters { n1: self.n1, ln2 }
    }
}

impl ChoiceParameters {
    /// Whether there is a positive number of candidates for each party.
    pub open spec fn wf(self) -> bool {
        &&& self.ln2@.len() == self.n1
        &&& forall|i: int| #![trigger self.ln2@[i]] 0 <= i < self.n1 ==> self.ln2@[i] >= 1
    }

    /// Whether there is a positive number of candidates for each party.
    pub fn is_well_formed(&self) -> (r: bool)
        ensures
            r == self.wf(),
    {
        if self.ln2.len() != self.n1 {
            return false;
        }
        let mut i: usize = 0;
        while i < self.n1
            invariant
                i <= self.n1,
                self.n1 == self.ln2@.len(),
                forall|k: int| #![trigger self.ln2@[k]] 0 <= k < i ==> self.ln2@[k] >= 1,
            decreases self.n1 - i,
        {
            if self.ln2[i] < 1 {
                return false;
            }
            i += 1;
        }
        true
    }

    /// The shape with `n1` parties; with `adjust`, a party with one candidate
    /// is put before them.
    pub fn new(n1: usize, ln2: Vec<usize>, adjust: bool) -> (r: Result<Self, Error>)
        requires
            adjust && n1 == ln2@.len() ==> n1 < usize::MAX,
        ensures
            match r {
                Ok(params) => {
                    &&& params.wf()
                    &&& n1 == ln2@.len()
                    &&& params.ln2@ == if adjust {
                        seq![1usize] + ln2@
                    } else {
                        ln2@
                    }
                },
                Err(Error::InvalidSize(text)) => if n1 != ln2@.len() {
                    text@
                        == "The length of ln2, the number of second-level choices, should be equal to the number of first-level choices"@
                } else {
                    &&& exists|i: int| 0 <= i < ln2@.len() && ln2@[i] == 0
                    &&& text@
                        == "Invalid number of second-level choices in the sequence (should be all > 0)"@
                },
                Err(_) => false,
            },
    {
        if n1 != ln2.len() {
            return Err(
                Error::InvalidSize(
                    "The length of ln2, the number of second-level choices, should be equal to the number of first-level choices".to_owned(),
                ),
            );
        }
        let mut i: usize = 0;
        while i < ln2.len()
            invariant
                i <= ln2@.len(),
                n1 == ln2@.len(),
                forall|j: int| 0 <= j < i ==> ln2@[j] >= 1,
            decreases ln2@.len() - i,
        {
            if ln2[i] < 1 {
                proof {
                    assert(ln2@[i as int] == 0);
                }
                return Err(
                    Error::InvalidSize(
                        "Invalid number of second-level choices in the sequence (should be all > 0)".to_owned(),
                    ),
                );
            }
            i += 1;
        }
        if adjust {
            let mut adjusted: Vec<usize> = Vec::new();
            adjusted.push(1);
            let mut i: usize = 0;
            while i < ln2.len()
                invariant
                    i <= ln2@.len(),
                    adjusted@ == seq![1usize] + ln2@.take(i as int),
                decreases ln2@.len() - i,
            {
                adjusted.push(ln2[i]);
                i += 1;
                proof {
                    assert(adjusted@ =~= seq![1usize] + ln2@.take(i as int));
                }
            }
            proof {
                assert(ln2@.take(i as int) =~= ln2@);
            }
            return Ok(ChoiceParameters { n1: n1 + 1, ln2: adjusted });
        }
        Ok(ChoiceParameters { n1, ln2 })
    }

    /// Adds a candidate "no preference" to each party but the first.
    pub fn add_no_preference_l2(&mut self)
        requires
            old(self).ln2@.len() >= old(self).n1,
            forall|i: int|
                #![trigger old(self).ln2@[i]]
                1 <= i < old(self).n1 ==> old(self).ln2@[i] < usize::MAX,
        ensures
            final(self).n1 == old(self).n1,
            final(self).ln2@.len() == old(self).ln2@.len(),
            forall|i: int|
                #![trigger final(self).ln2@[i]]
                0 <= i < old(self).ln2@.len() ==> final(self).ln2@[i] == if 1 <= i < old(self).n1 {
                    old(self).ln2@[i] + 1
                } else {
                    old(self).ln2@[i] as int
                },
    {
        let n1 = self.n1;
        let ghost before = self.ln2@;
        let mut i: usize = 1;
        while i < n1
            invariant
                1 <= i,
                n1 == old(self).n1,
                self.n1 == n1,
                before == old(self).ln2@,
                before.len() >= n1,
                n1 > 0 ==> i <= n1,
                n1 == 0 ==> i == 1,
                self.ln2@.len() == before.len(),
                forall|j: int| #![trigger before[j]] 1 <= j < n1 ==> before[j] < usize::MAX,
                forall|j: int|
                    #![trigger self.ln2@[j]]
                    0 <= j < before.len() ==> self.ln2@[j] == if 1 <= j < i {
                        before[j] + 1
                    } else {
                        before[j] as int
                    },
            decreases n1 - i,
        {
            let n = self.ln2[i];
            proof {
                assert(n == before[i as int]);
            }
            self.ln2.set(i, n + 1);
            i += 1;
        }
    }
}

/// A choice: one party and some of its candidates, as numbers and as lists of
/// zeros and ones.
#[derive(Clone, Debug, PartialEq)]
pub struct Choice {
    pub l1_value: usize,
    pub l2_value: Vec<usize>,
    pub l1: Vec<usize>,
    pub l2: Vec<Vec<usize>>,
}

/// One where the condition holds, else zero.
pub open spec fn bit(condition: bool) -> usize {
    if condition {
        1
    } else {
        0
    }
}

impl Choice {
    /// Whether the lists mark exactly the chosen party and candidates.
    pub open spec fn marks(self, params: ChoiceParameters) -> bool {
        &&& self.l1_value < params.n1
        &&& self.l1@ == Seq::new(params.n1 as nat, |i: int| bit(i == self.l1_value))
        &&& self.l2@.len() == params.n1
        &&& forall|i: int|
            #![trigger self.l2@[i]]
            0 <= i < params.n1 ==> self.l2@[i]@ == Seq::new(
                params.ln2@[i] as nat,
                |j: int| bit(i == self.l1_value && exists|k: int|
                    0 <= k < self.l2_value@.len() && self.l2_value@[k] == j),
            )
        &&& forall|k: int|
            #![trigger self.l2_value@[k]]
            0 <= k < self.l2_value@.len() ==> self.l2_value@[k] < params.ln2@[self.l1_value as int]
    }

    /// The choice of party `l1` and of its candidates `l2`.
    pub fn new(l1: usize, l2: Vec<usize>, choice_params: &ChoiceParameters) -> (r: Result<Self, Error>)
        requires
            choice_params.wf(),
            choice_params.n1 > 0,
        ensures
            match r {
                Ok(choice) => {
                    &&& choice.l1_value == l1
                    &&& choice.l2_value@ == l2@
                    &&& choice.marks(*choice_params)
                },
                Err(Error::InvalidSize(text)) => if l1 >= choice_params.n1 {
                    text@ == "l1 choice given in input: "@ + decimal(l1 as int) + ", limit: "@
                        + decimal(choice_params.n1 - 1) + ""@
                } else {
                    exists|i: int|
                        {
                            &&& 0 <= i < l2@.len()
                            &&& l2@[i] >= choice_params.ln2@[l1 as int]
                            &&& forall|k: int| 0 <= k < i ==> l2@[k] < choice_params.ln2@[l1 as int]
                            &&& text@ == "l2 choice given in input: "@ + decimal(l2@[i] as int)
                                + ", limit: "@ + decimal(choice_params.ln2@[l1 as int] - 1) + ""@
                        }
                },
                Err(_) => false,
            },
    {
        if l1 >= choice_params.n1 {
            return Err(
                Error::InvalidSize(
                    with_numbers(
                        "l1 choice given in input: ",
                        l1,
                        ", limit: ",
                        choice_params.n1 - 1,
                        "",
                    ),
                ),
            );
        }
        let limit = choice_params.ln2[l1];
        let mut i: usize = 0;
        while i < l2.len()
            invariant
                i <= l2@.len(),
                l1 < choice_params.n1,
                choice_params.wf(),
                limit == choice_params.ln2@[l1 as int],
                forall|k: int| #![trigger l2@[k]] 0 <= k < i ==> l2@[k] < limit,
            decreases l2@.len() - i,
        {
            if l2[i] >= limit {
                return Err(
                    Error::InvalidSize(
                        with_numbers(
                            "l2 choice given in input: ",
                            l2[i],
                            ", limit: ",
                            limit - 1,
                            "",
                        ),
                    ),
                );
            }
            i += 1;
        }
        let l1_vec = marked(choice_params.n1, l1, true);
        let mut l2_vec: Vec<Vec<usize>> = Vec::new();
        let mut i: usize = 0;
        while i < choice_params.n1
            invariant
                i <= choice_params.n1,
                l1 < choice_params.n1,
                choice_params.wf(),
                l2_vec@.len() == i,
                forall|k: int|
                    #![trigger l2@[k]]
                    0 <= k < l2@.len() ==> l2@[k] < choice_params.ln2@[l1 as int],
                forall|j: int|
                    #![trigger l2_vec@[j]]
                    0 <= j < i ==> l2_vec@[j]@ == Seq::new(
                        choice_params.ln2@[j] as nat,
                        |m: int| bit(j == l1 && exists|k: int| 0 <= k < l2@.len() && l2@[k] == m),
                    ),
            decreases choice_params.n1 - i,
        {
            let mut row = marked(choice_params.ln2[i], 0, false);
            if i == l1 {
                let mut k: usize = 0;
                while k < l2.len()
                    invariant
                        k <= l2@.len(),
                        row@.len() == choice_params.ln2@[l1 as int],
                        forall|k: int|
                            #![trigger l2@[k]]
                            0 <= k < l2@.len() ==> l2@[k] < choice_params.ln2@[l1 as int],
                        forall|m: int|
                            #![trigger row@[m]]
                            0 <= m < row@.len() ==> row@[m] == bit(
                                exists|h: int| 0 <= h < k && l2@[h] == m,
                            ),
                    decreases l2@.len() - k,
                {
                    let ghost before = row@;
                    row.set(l2[k], 1);
                    proof {
                        assert forall|m: int| #![trigger row@[m]] 0 <= m < row@.len() implies row@[m]
                            == bit(exists|h: int| 0 <= h < k + 1 && l2@[h] == m) by {
                            if m == l2@[k as int] {
                                assert(0 <= k < k + 1 && l2@[k as int] == m);
                            } else if exists|h: int| 0 <= h < k && l2@[h] == m {
                                let h = choose|h: int| 0 <= h < k && l2@[h] == m;
                                assert(0 <= h < k + 1 && l2@[h] == m);
                            }
                            assert(before[m] == bit(exists|h: int| 0 <= h < k && l2@[h] == m));
                        }
                    }
                    k += 1;
                }
            }
            proof {
                assert(row@ =~= Seq::new(
                    choice_params.ln2@[i as int] as nat,
                    |m: int| bit(i == l1 && exists|k: int| 0 <= k < l2@.len() && l2@[k] == m),
                ));
            }
            l2_vec.push(row);
            i += 1;
        }
        let choice = Choice { l1_value: l1, l2_value: l2, l1: l1_vec, l2: l2_vec };
        proof {
            assert(choice.l1@ =~= Seq::new(
                choice_params.n1 as nat,
                |i: int| bit(i == choice.l1_value),
            ));
            assert forall|i: int| #![trigger choice.l2@[i]] 0 <= i < choice_params.n1 implies choice.l2@[i]@
                == Seq::new(
                choice_params.ln2@[i] as nat,
                |j: int| bit(i == choice.l1_value && exists|k: int|
                    0 <= k < choice.l2_value@.len() && choice.l2_value@[k] == j),
            ) by {
                assert(choice.l2@[i]@ =~= Seq::new(
                    choice_params.ln2@[i] as nat,
                    |j: int| bit(i == choice.l1_value && exists|k: int|
                        0 <= k < choice.l2_value@.len() && choice.l2_value@[k] == j),
                ));
            }
        }
        Ok(choice)
    }
}

/// A list of zeros; with `mark`, there is a one at position `at`.
fn marked(len: usize, at: usize, mark: bool) -> (r: Vec<usize>)
    ensures
        r@ == Seq::new(len as nat, |i: int| bit(mark && i == at)),
{
    let mut out: Vec<usize> = Vec::new();
    let mut i: usize = 0;
    while i < len
        invariant
            i <= len,
            out@ == Seq::new(i as nat, |j: int| bit(mark && j == at)),
        decreases len - i,
    {
        out.push(
            if mark && i == at {
                1
            } else {
                0
            },
        );
        i += 1;
        proof {
            assert(out@ =~= Seq::new(i as nat, |j: int| bit(mark && j == at)));
        }
    }
    out
}

/// A choice encrypted, with the randomness.
#[derive(Clone, Debug)]
pub struct ExtendedEncrChoice {
    pub l1: Vec<ExtendedCiphertext>,
    pub l2: Vec<Vec<ExtendedCiphertext>>,
}

/// The ciphertexts of a list.
pub open spec fn inner_views(cts: Seq<ExtendedCiphertext>) -> Seq<CtView> {
    cts.map_values(|ct: ExtendedCiphertext| ct.inner@)
}

/// The ciphertexts of rows of lists.
pub open spec fn inner_rows(rows: Seq<Vec<ExtendedCiphertext>>) -> Seq<Seq<CtView>> {
    rows.map_values(|row: Vec<ExtendedCiphertext>| inner_views(row@))
}

/// The randomness of a list.
pub open spec fn randomness(cts: Seq<ExtendedCiphertext>) -> Seq<int> {
    cts.map_values(|ct: ExtendedCiphertext| ct.random_scalar@)
}

/// Whether the list encrypts the marks: one where the mark is one, else zero.
pub open spec fn encrypts_marks(cts: Seq<ExtendedCiphertext>, key: CtView, marks: Seq<usize>) -> bool {
    &&& cts.len() == marks.len()
    &&& forall|i: int|
        #![trigger cts[i]]
        0 <= i < cts.len() ==> cts[i].encrypts(key, bit(marks[i] == 1) as int)
}

/// Encrypts a list of marks.
fn encrypt_marks(marks: &Vec<usize>, pk: &ElectionPublicKey, rng: &mut StdRng) -> (r: Vec<
    ExtendedCiphertext,
>)
    ensures
        encrypts_marks(r@, pk.key(), marks@),
{
    let one = Point::generator();
    let zero = Point::identity();
    let mut out: Vec<ExtendedCiphertext> = Vec::new();
    let mut i: usize = 0;
    while i < marks.len()
        invariant
            i <= marks@.len(),
            one.log() == 1,
            zero.log() == 0,
            encrypts_marks(out@, pk.key(), marks@.take(i as int)),
        decreases marks@.len() - i,
    {
        let ct = if marks[i] == 1 {
            pk.encrypt(&one, rng)
        } else {
            pk.encrypt(&zero, rng)
        };
        out.push(ct);
        i += 1;
    }
    proof {
        assert(marks@.take(i as int) =~= marks@);
    }
    out
}

/// The ciphertexts of a list.
pub fn inner_list(cts: &Vec<ExtendedCiphertext>) -> (r: Vec<Ciphertext>)
    ensures
        ct_views(r@) == inner_views(cts@),
{
    let mut out: Vec<Ciphertext> = Vec::new();
    let mut i: usize = 0;
    while i < cts.len()
        invariant
            i <= cts@.len(),
            out@.len() == i,
            forall|j: int| #![trigger out@[j]] 0 <= j < i ==> out@[j]@ == cts@[j].inner@,
        decreases cts@.len() - i,
    {
        out.push(cts[i].inner);
        i += 1;
    }
    proof {
        assert(ct_views(out@) =~= inner_views(cts@));
    }
    out
}

impl ExtendedEncrChoice {
    /// The ciphertexts.
    pub open spec fn inner(self) -> EncrChoiceView {
        EncrChoiceView { l1: inner_views(self.l1@), l2: inner_rows(self.l2@) }
    }

    /// Encrypts a choice under the tally key.
    pub fn new(choice: &Choice, pk: &ElectionPublicKey, rng: &mut StdRng) -> (r: Self)
        requires
            choice.l2@.len() == choice.l1@.len(),
        ensures
            encrypts_marks(r.l1@, pk.key(), choice.l1@),
            r.l2@.len() == choice.l2@.len(),
            forall|i: int|
                #![trigger r.l2@[i]]
                0 <= i < r.l2@.len() ==> encrypts_marks(r.l2@[i]@, pk.key(), choice.l2@[i]@),
    {
        let l1 = encrypt_marks(&choice.l1, pk, rng);
        let mut l2: Vec<Vec<ExtendedCiphertext>> = Vec::new();
        let mut i: usize = 0;
        while i < choice.l2.len()
            invariant
                i <= choice.l2@.len(),
                l2@.len() == i,
                forall|j: int|
                    #![trigger l2@[j]]
                    0 <= j < i ==> encrypts_marks(l2@[j]@, pk.key(), choice.l2@[j]@),
            decreases choice.l2@.len() - i,
        {
            let row = encrypt_marks(&choice.l2[i], pk, rng);
            l2.push(row);
            i += 1;
        }
        ExtendedEncrChoice { l1, l2 }
    }

    /// Forgets the randomness.
    pub fn to_encryption(&self) -> (r: EncrChoice)
        ensures
            r@ == self.inner(),
    {
        let l1 = inner_list(&self.l1);
        let mut l2: Vec<Vec<Ciphertext>> = Vec::new();
        let mut i: usize = 0;
        while i < self.l2.len()
            invariant
                i <= self.l2@.len(),
                l2@.len() == i,
                forall|j: int|
                    #![trigger l2@[j]]
                    0 <= j < i ==> ct_views(l2@[j]@) == inner_views(self.l2@[j]@),
            decreases self.l2@.len() - i,
        {
            let row = inner_list(&self.l2[i]);
            l2.push(row);
            i += 1;
        }
        proof {
            assert(ct_rows(l2@) =~= inner_rows(self.l2@));
        }
        EncrChoice { l1, l2 }
    }
}

/// An encrypted choice.
#[derive(Debug, PartialEq)]
pub struct EncrChoice {
    pub l1: Vec<Ciphertext>,
    pub l2: Vec<Vec<Ciphertext>>,
}

/// An encrypted choice by its values.
#[verifier::ext_equal]
pub struct EncrChoiceView {
    pub l1: Seq<CtView>,
    pub l2: Seq<Seq<CtView>>,
}

impl View for EncrChoice {
    type V = EncrChoiceView;

    open spec fn view(&self) -> EncrChoiceView {
        EncrChoiceView { l1: ct_views(self.l1@), l2: ct_rows(self.l2@) }
    }
}

impl EncrChoiceView {
    /// Whether there is a ciphertext for each party and for each candidate.
    pub open spec fn covers(self, params: ChoiceParameters) -> bool {
        &&& self.l1.len() >= params.n1
        &&& self.l2.len() >= params.n1
        &&& forall|i: int|
            #![trigger self.l2[i]]
            0 <= i < params.n1 ==> self.l2[i].len() >= params.ln2@[i]
    }

    /// Whether the other has a ciphertext wherever this has one.
    pub open spec fn within(self, other: EncrChoiceView) -> bool {
        &&& self.l1.len() <= other.l1.len()
        &&& self.l2.len() <= other.l2.len()
        &&& forall|i: int|
            #![trigger self.l2[i]]
            0 <= i < self.l2.len() ==> self.l2[i].len() <= other.l2[i].len()
    }

    /// The sum, position by position.
    pub open spec fn plus(self, other: EncrChoiceView) -> EncrChoiceView {
        EncrChoiceView {
            l1: Seq::new(self.l1.len(), |i: int| ct_add(self.l1[i], other.l1[i])),
            l2: Seq::new(
                self.l2.len(),
                |i: int|
                    Seq::new(self.l2[i].len(), |j: int| ct_add(self.l2[i][j], other.l2[i][j])),
            ),
        }
    }

    /// The encryption of nothing.
    pub open spec fn nothing(params: ChoiceParameters) -> EncrChoiceView {
        EncrChoiceView {
            l1: Seq::new(params.n1 as nat, |i: int| ct_zero()),
            l2: Seq::new(
                params.n1 as nat,
                |i: int| Seq::new(params.ln2@[i] as nat, |j: int| ct_zero()),
            ),
        }
    }
}

/// Adds two lists, position by position.
fn add_lists(a: &Vec<Ciphertext>, b: &Vec<Ciphertext>) -> (r: Vec<Ciphertext>)
    requires
        b@.len() >= a@.len(),
    ensures
        ct_views(r@) == Seq::new(a@.len(), |i: int| ct_add(a@[i]@, b@[i]@)),
{
    let mut out: Vec<Ciphertext> = Vec::new();
    let mut i: usize = 0;
    while i < a.len()
        invariant
            i <= a@.len() <= b@.len(),
            out@.len() == i,
            forall|j: int| #![trigger out@[j]] 0 <= j < i ==> out@[j]@ == ct_add(a@[j]@, b@[j]@),
        decreases a@.len() - i,
    {
        out.push(a[i].plus(&b[i]));
        i += 1;
    }
    proof {
        assert(ct_views(out@) =~= Seq::new(a@.len(), |i: int| ct_add(a@[i]@, b@[i]@)));
    }
    out
}

/// Re-encrypts a list.
fn re_encrypt_list(
    cts: &Vec<Ciphertext>,
    pk: &PublicKey,
    params: &ElGamalParams,
    rng: &mut StdRng,
) -> (r: Vec<ExtendedCiphertext>)
    ensures
        re_encrypts(r@, ct_views(cts@), pk.key(*params)),
{
    let mut out: Vec<ExtendedCiphertext> = Vec::new();
    let mut i: usize = 0;
    while i < cts.len()
        invariant
            i <= cts@.len(),
            re_encrypts(out@, ct_views(cts@).take(i as int), pk.key(*params)),
        decreases cts@.len() - i,
    {
        let ct = ExtendedCiphertext::re_encrypt(&cts[i], pk, params, rng);
        out.push(ct);
        i += 1;
    }
    proof {
        assert(ct_views(cts@).take(i as int) =~= ct_views(cts@));
    }
    out
}

/// Whether each ciphertext is the other one, re-encrypted with the randomness
/// that it carries.
pub open spec fn re_encrypts(new: Seq<ExtendedCiphertext>, old: Seq<CtView>, key: CtView) -> bool {
    &&& new.len() == old.len()
    &&& forall|i: int|
        #![trigger new[i]]
        0 <= i < new.len() ==> new[i].inner@ == ct_add(
            ct_encrypt(key, 0, new[i].random_scalar@),
            old[i],
        )
}

/// A copy of rows of ciphertexts.
pub(crate) fn copy_rows(rows: &Vec<Vec<Ciphertext>>) -> (r: Vec<Vec<Ciphertext>>)
    ensures
        ct_rows(r@) == ct_rows(rows@),
{
    let mut out: Vec<Vec<Ciphertext>> = Vec::new();
    let mut i: usize = 0;
    while i < rows.len()
        invariant
            i <= rows@.len(),
            out@.len() == i,
            forall|j: int| #![trigger out@[j]] 0 <= j < i ==> ct_views(out@[j]@) == ct_views(rows@[j]@),
        decreases rows@.len() - i,
    {
        let row = rows[i].clone();
        proof {
            assert(ct_views(row@) =~= ct_views(rows@[i as int]@));
        }
        out.push(row);
        i += 1;
    }
    proof {
        assert(ct_rows(out@) =~= ct_rows(rows@));
    }
    out
}

impl Clone for EncrChoice {
    fn clone(&self) -> (r: Self)
        ensures
            r@ == self@,
    {
        let l1 = self.l1.clone();
        proof {
            assert(ct_views(l1@) =~= ct_views(self.l1@));
        }
        EncrChoice { l1, l2: copy_rows(&self.l2) }
    }
}

impl EncrChoice {
    /// Adds another encrypted choice.
    pub fn add_assign(&mut self, rhs: &EncrChoice)
        requires
            old(self)@.within(rhs@),
            old(self)@.l1.len() == old(self)@.l2.len(),
        ensures
            final(self)@ == old(self)@.plus(rhs@),
    {
        let l1 = add_lists(&self.l1, &rhs.l1);
        let mut l2: Vec<Vec<Ciphertext>> = Vec::new();
        let ghost sum = self@.plus(rhs@);
        let mut i: usize = 0;
        while i < self.l2.len()
            invariant
                i <= self.l2@.len(),
                *self == *old(self),
                sum == self@.plus(rhs@),
                self@.within(rhs@),
                l2@.len() == i,
                ct_rows(l2@) =~= sum.l2.take(i as int),
            decreases self.l2@.len() - i,
        {
            proof {
                assert(self@.l2[i as int] == ct_views(self.l2@[i as int]@));
                assert(rhs@.l2[i as int] == ct_views(rhs.l2@[i as int]@));
            }
            let row = add_lists(&self.l2[i], &rhs.l2[i]);
            proof {
                assert(ct_views(row@) =~= sum.l2[i as int]);
            }
            l2.push(row);
            i += 1;
        }
        self.l1 = l1;
        self.l2 = l2;
        proof {
            assert(sum.l2.take(i as int) =~= sum.l2);
            assert(self@.l1 =~= sum.l1);
        }
    }

    /// Re-encrypts each ciphertext.
    pub fn re_encrypt(&self, public_key: &PublicKey, elg_params: &ElGamalParams, rng: &mut StdRng) -> (r:
        ExtendedEncrChoice)
        ensures
            re_encrypts(r.l1@, self@.l1, public_key.key(*elg_params)),
            r.l2@.len() == self@.l2.len(),
            forall|i: int|
                #![trigger r.l2@[i]]
                0 <= i < r.l2@.len() ==> re_encrypts(
                    r.l2@[i]@,
                    self@.l2[i],
                    public_key.key(*elg_params),
                ),
    {
        let l1 = re_encrypt_list(&self.l1, public_key, elg_params, rng);
        let mut l2: Vec<Vec<ExtendedCiphertext>> = Vec::new();
        let mut i: usize = 0;
        while i < self.l2.len()
            invariant
                i <= self.l2@.len(),
                l2@.len() == i,
                forall|j: int|
                    #![trigger l2@[j]]
                    0 <= j < i ==> re_encrypts(l2@[j]@, self@.l2[j], public_key.key(*elg_params)),
            decreases self.l2@.len() - i,
        {
            let row = re_encrypt_list(&self.l2[i], public_key, elg_params, rng);
            l2.push(row);
            i += 1;
        }
        ExtendedEncrChoice { l1, l2 }
    }

    /// The encryption of nothing: every ciphertext is neutral.
    pub fn identity(params: &ChoiceParameters) -> (r: Self)
        requires
            params.ln2@.len() >= params.n1,
        ensures
            r@ == EncrChoiceView::nothing(*params),
    {
        let l1 = zeros(params.n1);
        let mut l2: Vec<Vec<Ciphertext>> = Vec::new();
        let ghost all = EncrChoiceView::nothing(*params);
        let mut i: usize = 0;
        while i < params.n1
            invariant
                i <= params.n1 <= params.ln2@.len(),
                all == EncrChoiceView::nothing(*params),
                l2@.len() == i,
                ct_rows(l2@) =~= all.l2.take(i as int),
            decreases params.n1 - i,
        {
            let row = zeros(params.ln2[i]);
            proof {
                assert(ct_views(row@) =~= all.l2[i as int]);
            }
            l2.push(row);
            i += 1;
        }
        proof {
            assert(all.l2.take(i as int) =~= all.l2);
            assert(ct_views(l1@) =~= all.l1);
        }
        EncrChoice { l1, l2 }
    }
}

/// A list of neutral ciphertexts.
fn zeros(n: usize) -> (r: Vec<Ciphertext>)
    ensures
        ct_views(r@) == Seq::new(n as nat, |i: int| ct_zero()),
{
    let mut out: Vec<Ciphertext> = Vec::new();
    let mut i: usize = 0;
    while i < n
        invariant
            i <= n,
            out@.len() == i,
            forall|j: int| #![trigger out@[j]] 0 <= j < i ==> out@[j]@ == ct_zero(),
        decreases n - i,
    {
        out.push(Ciphertext::zero());
        i += 1;
    }
    proof {
        assert(ct_views(out@) =~= Seq::new(n as nat, |i: int| ct_zero()));
    }
    out
}

} // verus!
