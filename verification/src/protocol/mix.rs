//! Mixing: votes and credentials are rearranged and re-encrypted, with a proof.

use merlin::Transcript;
use rand::rngs::StdRng;
use vstd::prelude::*;

use crate::arith::{lemma_red_add, lemma_red_small, red};
use crate::elgamal::{
    ct_add, ct_encrypt, ct_rows, ct_views, Ciphertext, CtView, ExtendedCiphertext,
};
use crate::error::Error;
use crate::group::Scalar;
use crate::proofs::linkage::{int_sum, law_linkage, permuted, products};
use crate::proofs::relation::scalar_views;
use crate::proofs::shuffle::{
    builder_parts, ct_combination, re_encryption_holds, shuffle_challenges, shuffle_commit_steps,
    shuffle_fits, shuffle_head, shuffle_sized, shuffle_tail, Parameters, Shuffle, ShuffleBuilder,
};
use crate::protocol::keys::ElectionPublicKey;
use crate::protocol::vote::choice::{
    inner_list, inner_rows, inner_views, randomness, re_encrypts, ChoiceParameters,
};
use crate::protocol::vote::vote::{ExtendedVote, Vote, VoteView};
use crate::random::is_permutation;
use crate::transcript::{append_ciphertext, ct_message, seed, transcript_entries, Entry};

verus! {

/// A column of ciphertexts that were shuffled.
pub enum Column {
    Party { i: int },
    Candidate { i: int, j: int },
    A,
    Ar,
    G3x,
}

impl VoteView {
    /// The ciphertext in a column.
    pub open spec fn at(self, c: Column) -> CtView {
        match c {
            Column::Party { i } => self.choice.l1[i],
            Column::Candidate { i, j } => self.choice.l2[i][j],
            Column::A => self.a,
            Column::Ar => self.ar,
            Column::G3x => self.g3x,
        }
    }

    /// Whether there is a ciphertext in each column.
    pub open spec fn covers(self, params: ChoiceParameters) -> bool {
        self.choice.covers(params)
    }
}

impl ExtendedVote {
    /// The ciphertext in a column.
    pub open spec fn at(self, c: Column) -> ExtendedCiphertext {
        match c {
            Column::Party { i } => self.choice.l1@[i],
            Column::Candidate { i, j } => self.choice.l2@[i]@[j],
            Column::A => self.auth.A_enc,
            Column::Ar => self.auth.Ar_enc,
            Column::G3x => self.auth.g3x_enc,
        }
    }
}

/// Whether a column exists under the parameters.
pub open spec fn is_column(c: Column, params: ChoiceParameters) -> bool {
    match c {
        Column::Party { i } => 0 <= i < params.n1,
        Column::Candidate { i, j } => 0 <= i < params.n1 && 0 <= j < params.ln2@[i],
        _ => true,
    }
}

/// A column of votes with randomness.
pub open spec fn ext_column(votes: Seq<ExtendedVote>, c: Column) -> Seq<ExtendedCiphertext> {
    votes.map_values(|v: ExtendedVote| v.at(c))
}

/// A column of the first `n` votes.
pub open spec fn column(votes: Seq<VoteView>, c: Column, n: int) -> Seq<CtView> {
    Seq::new(n as nat, |k: int| votes[k].at(c))
}

/// The values of a list of votes.
pub open spec fn vote_views(votes: Seq<Vote>) -> Seq<VoteView> {
    votes.map_values(|v: Vote| v@)
}

/// The number of candidates of the first `i` parties.
pub open spec fn offset(ln2: Seq<usize>, i: int) -> int
    decreases i,
{
    if i <= 0 {
        0
    } else {
        offset(ln2, i - 1) + ln2[i - 1]
    }
}

/// Whether `e_d` and `z` are a prover's accumulator and response for a column:
/// the accumulator combines the column with the masks `d`, hidden with some
/// randomness; the response is that randomness plus the sum of the column's
/// randomness times the permuted `t`.
pub open spec fn answered(
    key: CtView,
    col: Seq<ExtendedCiphertext>,
    d: Seq<int>,
    t: Seq<int>,
    perm: Seq<usize>,
    e_d: CtView,
    z: int,
) -> bool {
    exists|r0: int|
        e_d == #[trigger] ct_add(
            ct_combination(inner_views(col), d),
            ct_encrypt(key, 0, r0),
        ) && z == red(r0 + int_sum(products(randomness(col), permuted(t, perm))))
}

/// Whether the list `f` hides the permuted `t` behind the masks `d`.
pub open spec fn hides(f: Seq<int>, t: Seq<int>, perm: Seq<usize>, d: Seq<int>) -> bool {
    &&& f.len() == perm.len()
    &&& d.len() == perm.len()
    &&& t.len() == perm.len()
    &&& forall|k: int| #![trigger f[k]] 0 <= k < f.len() ==> f[k] == red(t[perm[k] as int] - d[k])
}

/// The prover's response for a column.
pub(crate) fn respond(r0: &Scalar, col: &Vec<ExtendedCiphertext>, t: &Vec<Scalar>, perm: &Vec<usize>) -> (r: Scalar)
    requires
        is_permutation(perm@, t@.len() as int),
        col@.len() == t@.len(),
    ensures
        r@ == red(
            r0@ + int_sum(products(randomness(col@), permuted(scalar_views(t@), perm@))),
        ),
{
    let ghost all = products(randomness(col@), permuted(scalar_views(t@), perm@));
    let mut z = *r0;
    let mut k: usize = 0;
    proof {
        assert(all.take(0) =~= Seq::<int>::empty());
        r0.lemma_bounds();
        lemma_red_small(r0@);
    }
    while k < col.len()
        invariant
            k <= col@.len(),
            col@.len() == t@.len(),
            is_permutation(perm@, t@.len() as int),
            all == products(randomness(col@), permuted(scalar_views(t@), perm@)),
            z@ == red(r0@ + int_sum(all.take(k as int))),
        decreases col@.len() - k,
    {
        proof {
            assert(perm@[k as int] < t@.len());
        }
        let tk = &t[perm[k]];
        let rk = &col[k].random_scalar;
        z = z.plus(&tk.times(rk));
        proof {
            let next = all.take(k + 1);
            assert(next.drop_last() =~= all.take(k as int));
            assert(randomness(col@)[k as int] == rk@);
            assert(permuted(scalar_views(t@), perm@)[k as int] == tk@);
            assert(tk@ * rk@ == rk@ * tk@) by (nonlinear_arith);
            assert(next.last() == rk@ * tk@);
            lemma_red_add(r0@ + int_sum(all.take(k as int)), rk@ * tk@);
        }
        k += 1;
    }
    proof {
        assert(all.take(k as int) =~= all);
    }
    z
}

/// The proof of a vote mix.
#[allow(non_snake_case)]
pub struct MixedVotes {
    pub core_proof: Shuffle,
    pub ed_L1: Vec<Ciphertext>,
    pub ed_L2: Vec<Vec<Ciphertext>>,
    pub ed_A: Ciphertext,
    pub ed_Ar: Ciphertext,
    pub ed_g3x: Ciphertext,
    pub z_L1: Vec<Scalar>,
    pub z_L2: Vec<Scalar>,
    pub z_A: Scalar,
    pub z_Ar: Scalar,
    pub z_g3x: Scalar,
}

/// The steps that append the accumulators of the first `n` parties.
pub open spec fn party_steps(l1: Seq<CtView>, l2: Seq<Seq<CtView>>, ln2: Seq<usize>, n: int) -> Seq<Entry>
    decreases n,
{
    if n <= 0 {
        seq![]
    } else {
        party_steps(l1, l2, ln2, n - 1).push(ct_message(""@, l1[n - 1])) + Seq::new(
            ln2[n - 1] as nat,
            |j: int| ct_message(""@, l2[n - 1][j]),
        )
    }
}

impl MixedVotes {
    /// The accumulator of a column.
    pub open spec fn ed(self, c: Column) -> CtView {
        match c {
            Column::Party { i } => self.ed_L1@[i]@,
            Column::Candidate { i, j } => self.ed_L2@[i]@[j]@,
            Column::A => self.ed_A@,
            Column::Ar => self.ed_Ar@,
            Column::G3x => self.ed_g3x@,
        }
    }

    /// The steps that append all accumulators.
    pub open spec fn steps(self, params: ChoiceParameters) -> Seq<Entry> {
        party_steps(ct_views(self.ed_L1@), ct_rows(self.ed_L2@), params.ln2@, params.n1 as int) + seq![
            ct_message(""@, self.ed_A@),
            ct_message(""@, self.ed_Ar@),
            ct_message(""@, self.ed_g3x@),
        ]
    }

    /// The response for a column; the responses of the candidates stand in one
    /// list, party after party.
    pub open spec fn z(self, c: Column, params: ChoiceParameters) -> int {
        match c {
            Column::Party { i } => self.z_L1@[i]@,
            Column::Candidate { i, j } => self.z_L2@[offset(params.ln2@, i) + j]@,
            Column::A => self.z_A@,
            Column::Ar => self.z_Ar@,
            Column::G3x => self.z_g3x@,
        }
    }

    /// Whether there is an accumulator and a response for each column.
    pub open spec fn shaped(self, params: ChoiceParameters) -> bool {
        &&& self.ed_L1@.len() >= params.n1
        &&& self.ed_L2@.len() >= params.n1
        &&& forall|i: int|
            #![trigger self.ed_L2@[i]]
            0 <= i < params.n1 ==> self.ed_L2@[i]@.len() >= params.ln2@[i]
        &&& self.z_L1@.len() >= params.n1
        &&& self.z_L2@.len() >= offset(params.ln2@, params.n1 as int)
    }

    /// Whether there is an accumulator and a response for each column.
    pub fn is_shaped(&self, params: &ChoiceParameters) -> (r: bool)
        requires
            params.wf(),
        ensures
            r == self.shaped(*params),
    {
        if self.ed_L1.len() < params.n1 || self.ed_L2.len() < params.n1 || self.z_L1.len()
            < params.n1 {
            return false;
        }
        let total = self.z_L2.len();
        let mut start: usize = 0;
        let mut i: usize = 0;
        while i < params.n1
            invariant
                i <= params.n1,
                params.wf(),
                total == self.z_L2@.len(),
                start == offset(params.ln2@, i as int),
                start <= total,
                params.n1 <= self.ed_L1@.len(),
                params.n1 <= self.ed_L2@.len(),
                params.n1 <= self.z_L1@.len(),
                forall|k: int|
                    #![trigger self.ed_L2@[k]]
                    0 <= k < i ==> self.ed_L2@[k]@.len() >= params.ln2@[k],
            decreases params.n1 - i,
        {
            let width = params.ln2[i];
            proof {
                lemma_offset(params.ln2@, i as int, params.n1 as int);
                assert(offset(params.ln2@, i + 1) == offset(params.ln2@, i as int) + width);
            }
            if self.ed_L2[i].len() < width || total - start < width {
                return false;
            }
            start += width;
            i += 1;
        }
        true
    }

    /// Whether the prover made accumulators and responses for the shuffled
    /// votes, with masks `d` and scalars `t`.
    pub open spec fn made(
        self,
        key: CtView,
        params: ChoiceParameters,
        shuffled: Seq<ExtendedVote>,
        perm: Seq<usize>,
        d: Seq<int>,
        t: Seq<int>,
    ) -> bool {
        &&& hides(self.core_proof.f(), t, perm, d)
        &&& forall|c: Column|
            is_column(c, params) ==> #[trigger] answered(
                key,
                ext_column(shuffled, c),
                d,
                t,
                perm,
                self.ed(c),
                self.z(c, params),
            )
    }
}

/// A column of the shuffled votes.
fn party_column(votes: &Vec<ExtendedVote>, i: usize) -> (r: Vec<ExtendedCiphertext>)
    requires
        forall|k: int|
            #![trigger votes@[k]]
            0 <= k < votes@.len() ==> i < votes@[k].choice.l1@.len(),
    ensures
        r@ == ext_column(votes@, Column::Party { i: i as int }),
{
    let mut out: Vec<ExtendedCiphertext> = Vec::new();
    let mut k: usize = 0;
    while k < votes.len()
        invariant
            k <= votes@.len(),
            forall|k: int|
                #![trigger votes@[k]]
                0 <= k < votes@.len() ==> i < votes@[k].choice.l1@.len(),
            out@.len() == k,
            forall|h: int| #![trigger out@[h]] 0 <= h < k ==> out@[h] == votes@[h].choice.l1@[i as int],
        decreases votes@.len() - k,
    {
        out.push(votes[k].choice.l1[i]);
        k += 1;
    }
    proof {
        assert(out@ =~= ext_column(votes@, Column::Party { i: i as int }));
    }
    out
}

/// A column of the shuffled votes.
fn candidate_column(votes: &Vec<ExtendedVote>, i: usize, j: usize) -> (r: Vec<ExtendedCiphertext>)
    requires
        forall|k: int|
            #![trigger votes@[k]]
            0 <= k < votes@.len() ==> i < votes@[k].choice.l2@.len() && j
                < votes@[k].choice.l2@[i as int]@.len(),
    ensures
        r@ == ext_column(votes@, Column::Candidate { i: i as int, j: j as int }),
{
    let mut out: Vec<ExtendedCiphertext> = Vec::new();
    let mut k: usize = 0;
    while k < votes.len()
        invariant
            k <= votes@.len(),
            forall|k: int|
                #![trigger votes@[k]]
                0 <= k < votes@.len() ==> i < votes@[k].choice.l2@.len() && j
                    < votes@[k].choice.l2@[i as int]@.len(),
            out@.len() == k,
            forall|h: int|
                #![trigger out@[h]]
                0 <= h < k ==> out@[h] == votes@[h].choice.l2@[i as int]@[j as int],
        decreases votes@.len() - k,
    {
        out.push(votes[k].choice.l2[i][j]);
        k += 1;
    }
    proof {
        assert(out@ =~= ext_column(votes@, Column::Candidate { i: i as int, j: j as int }));
    }
    out
}

/// The columns of the credential.
#[allow(non_snake_case)]
fn auth_columns(votes: &Vec<ExtendedVote>) -> (r: (
    Vec<ExtendedCiphertext>,
    Vec<ExtendedCiphertext>,
    Vec<ExtendedCiphertext>,
))
    ensures
        r.0@ == ext_column(votes@, Column::A),
        r.1@ == ext_column(votes@, Column::Ar),
        r.2@ == ext_column(votes@, Column::G3x),
{
    let mut a: Vec<ExtendedCiphertext> = Vec::new();
    let mut ar: Vec<ExtendedCiphertext> = Vec::new();
    let mut g3x: Vec<ExtendedCiphertext> = Vec::new();
    let mut k: usize = 0;
    while k < votes.len()
        invariant
            k <= votes@.len(),
            a@.len() == k,
            ar@.len() == k,
            g3x@.len() == k,
            forall|h: int| #![trigger a@[h]] 0 <= h < k ==> a@[h] == votes@[h].auth.A_enc,
            forall|h: int| #![trigger ar@[h]] 0 <= h < k ==> ar@[h] == votes@[h].auth.Ar_enc,
            forall|h: int| #![trigger g3x@[h]] 0 <= h < k ==> g3x@[h] == votes@[h].auth.g3x_enc,
        decreases votes@.len() - k,
    {
        a.push(votes[k].auth.A_enc);
        ar.push(votes[k].auth.Ar_enc);
        g3x.push(votes[k].auth.g3x_enc);
        k += 1;
    }
    proof {
        assert(a@ =~= ext_column(votes@, Column::A));
        assert(ar@ =~= ext_column(votes@, Column::Ar));
        assert(g3x@ =~= ext_column(votes@, Column::G3x));
    }
    (a, ar, g3x)
}

/// Whether an accumulator combines a column with the masks.
pub open spec fn accumulates(key: CtView, col: Seq<ExtendedCiphertext>, d: Seq<int>, e: ExtendedCiphertext) -> bool {
    e.inner@ == ct_add(
        ct_combination(inner_views(col), d),
        ct_encrypt(key, 0, e.random_scalar@),
    )
}

/// The accumulator of a column; it is appended to the transcript.
pub(crate) fn accumulate(
    builder: &ShuffleBuilder,
    pk: &ElectionPublicKey,
    col: &Vec<ExtendedCiphertext>,
    rng: &mut StdRng,
    transcript: &mut Transcript,
) -> (r: ExtendedCiphertext)
    requires
        builder.sized(col@.len() as int),
    ensures
        accumulates(pk.key(), col@, builder.masks(), r),
        transcript_entries(*final(transcript)) == transcript_entries(*old(transcript)).push(
            ct_message(""@, r.inner@),
        ),
{
    let cts = inner_list(col);
    let e_d = builder.get_e_d(&pk.params.tally, &pk.params.elgamal, &cts, rng);
    append_ciphertext(transcript, "", &e_d.inner);
    e_d
}

/// The steps depend on the accumulators of the first `n` parties alone.
proof fn lemma_party_steps(
    l1: Seq<CtView>,
    l2: Seq<Seq<CtView>>,
    m1: Seq<CtView>,
    m2: Seq<Seq<CtView>>,
    ln2: Seq<usize>,
    n: int,
)
    requires
        n <= l1.len(),
        n <= l2.len(),
        n <= m1.len(),
        n <= m2.len(),
        forall|i: int| #![trigger l1[i]] 0 <= i < n ==> l1[i] == m1[i],
        forall|i: int, j: int|
            #![trigger l2[i][j]]
            0 <= i < n && 0 <= j < ln2[i] ==> l2[i][j] == m2[i][j],
    ensures
        party_steps(l1, l2, ln2, n) == party_steps(m1, m2, ln2, n),
    decreases n,
{
    if n > 0 {
        lemma_party_steps(l1, l2, m1, m2, ln2, n - 1);
        assert(l1[n - 1] == m1[n - 1]);
        assert(Seq::new(ln2[n - 1] as nat, |j: int| ct_message(""@, l2[n - 1][j])) =~= Seq::new(
            ln2[n - 1] as nat,
            |j: int| ct_message(""@, m2[n - 1][j]),
        ));
    }
}

/// Whether each vote has a ciphertext in each column.
pub open spec fn votes_cover(votes: Seq<ExtendedVote>, params: ChoiceParameters) -> bool {
    forall|k: int|
        #![trigger votes[k]]
        0 <= k < votes.len() ==> votes[k].choice.inner().covers(params)
}

/// The accumulators of one party's candidates.
fn accumulate_candidates(
    builder: &ShuffleBuilder,
    pk: &ElectionPublicKey,
    shuffled: &Vec<ExtendedVote>,
    params: &ChoiceParameters,
    i: usize,
    rng: &mut StdRng,
    transcript: &mut Transcript,
) -> (r: Vec<ExtendedCiphertext>)
    requires
        params.wf(),
        i < params.n1,
        votes_cover(shuffled@, *params),
        builder.sized(shuffled@.len() as int),
    ensures
        r@.len() == params.ln2@[i as int],
        forall|j: int|
            #![trigger r@[j]]
            0 <= j < r@.len() ==> accumulates(
                pk.key(),
                ext_column(shuffled@, Column::Candidate { i: i as int, j }),
                builder.masks(),
                r@[j],
            ),
        transcript_entries(*final(transcript)) == transcript_entries(*old(transcript)) + Seq::new(
            params.ln2@[i as int] as nat,
            |j: int| ct_message(""@, inner_views(r@)[j]),
        ),
{
    let ghost before = transcript_entries(*transcript);
    let mut out: Vec<ExtendedCiphertext> = Vec::new();
    let mut j: usize = 0;
    while j < params.ln2[i]
        invariant
            params.wf(),
            i < params.n1,
            j <= params.ln2@[i as int],
            votes_cover(shuffled@, *params),
            builder.sized(shuffled@.len() as int),
            out@.len() == j,
            forall|h: int|
                #![trigger out@[h]]
                0 <= h < j ==> accumulates(
                    pk.key(),
                    ext_column(shuffled@, Column::Candidate { i: i as int, j: h }),
                    builder.masks(),
                    out@[h],
                ),
            transcript_entries(*transcript) =~= before + Seq::new(
                j as nat,
                |h: int| ct_message(""@, inner_views(out@)[h]),
            ),
        decreases params.ln2@[i as int] - j,
    {
        proof {
            assert forall|k: int| #![trigger shuffled@[k]] 0 <= k < shuffled@.len() implies i
                < shuffled@[k].choice.l2@.len() && j < shuffled@[k].choice.l2@[i as int]@.len() by {
                let v = shuffled@[k].choice.inner();
                assert(v.covers(*params));
                assert(v.l2[i as int] == inner_views(shuffled@[k].choice.l2@[i as int]@));
            }
        }
        let col = candidate_column(shuffled, i, j);
        let ghost held = transcript_entries(*transcript);
        let ghost previous = out@;
        let e_d = accumulate(builder, pk, &col, rng, transcript);
        out.push(e_d);
        proof {
            let steps = Seq::new((j + 1) as nat, |h: int| ct_message(""@, inner_views(out@)[h]));
            let earlier = Seq::new(j as nat, |h: int| ct_message(""@, inner_views(previous)[h]));
            assert(steps =~= earlier.push(ct_message(""@, e_d.inner@)));
        }
        j += 1;
    }
    out
}

/// The accumulators of all parties and candidates.
fn accumulate_all(
    builder: &ShuffleBuilder,
    pk: &ElectionPublicKey,
    shuffled: &Vec<ExtendedVote>,
    params: &ChoiceParameters,
    rng: &mut StdRng,
    transcript: &mut Transcript,
) -> (r: (Vec<ExtendedCiphertext>, Vec<Vec<ExtendedCiphertext>>))
    requires
        params.wf(),
        votes_cover(shuffled@, *params),
        builder.sized(shuffled@.len() as int),
    ensures
        r.0@.len() == params.n1,
        r.1@.len() == params.n1,
        forall|i: int|
            #![trigger r.0@[i]]
            0 <= i < params.n1 ==> accumulates(
                pk.key(),
                ext_column(shuffled@, Column::Party { i }),
                builder.masks(),
                r.0@[i],
            ),
        forall|i: int|
            #![trigger r.1@[i]]
            0 <= i < params.n1 ==> {
                &&& r.1@[i]@.len() == params.ln2@[i]
                &&& forall|j: int|
                    #![trigger r.1@[i]@[j]]
                    0 <= j < params.ln2@[i] ==> accumulates(
                        pk.key(),
                        ext_column(shuffled@, Column::Candidate { i, j }),
                        builder.masks(),
                        r.1@[i]@[j],
                    )
            },
        transcript_entries(*final(transcript)) == transcript_entries(*old(transcript))
            + party_steps(
            inner_views(r.0@),
            inner_rows(r.1@),
            params.ln2@,
            params.n1 as int,
        ),
{
    let ghost before = transcript_entries(*transcript);
    let mut l1: Vec<ExtendedCiphertext> = Vec::new();
    let mut l2: Vec<Vec<ExtendedCiphertext>> = Vec::new();
    let mut i: usize = 0;
    proof {
        assert(before + party_steps(
            inner_views(l1@),
            inner_rows(l2@),
            params.ln2@,
            0,
        ) =~= before);
    }
    while i < params.n1
        invariant
            params.wf(),
            i <= params.n1,
            votes_cover(shuffled@, *params),
            builder.sized(shuffled@.len() as int),
            l1@.len() == i,
            l2@.len() == i,
            forall|h: int|
                #![trigger l1@[h]]
                0 <= h < i ==> accumulates(
                    pk.key(),
                    ext_column(shuffled@, Column::Party { i: h }),
                    builder.masks(),
                    l1@[h],
                ),
            forall|h: int|
                #![trigger l2@[h]]
                0 <= h < i ==> {
                    &&& l2@[h]@.len() == params.ln2@[h]
                    &&& forall|j: int|
                        #![trigger l2@[h]@[j]]
                        0 <= j < params.ln2@[h] ==> accumulates(
                            pk.key(),
                            ext_column(shuffled@, Column::Candidate { i: h, j }),
                            builder.masks(),
                            l2@[h]@[j],
                        )
                },
            transcript_entries(*transcript) == before + party_steps(
                inner_views(l1@),
                inner_rows(l2@),
                params.ln2@,
                i as int,
            ),
        decreases params.n1 - i,
    {
        proof {
            assert forall|k: int| #![trigger shuffled@[k]] 0 <= k < shuffled@.len() implies i
                < shuffled@[k].choice.l1@.len() by {
                assert(shuffled@[k].choice.inner().covers(*params));
            }
        }
        let col = party_column(shuffled, i);
        let ghost previous = (l1@, l2@);
        let e_d = accumulate(builder, pk, &col, rng, transcript);
        l1.push(e_d);
        let row = accumulate_candidates(builder, pk, shuffled, params, i, rng, transcript);
        l2.push(row);
        proof {
            let rows = inner_rows(l2@);
            let earlier = inner_rows(previous.1);
            assert forall|h: int, j: int|
                #![trigger earlier[h][j]]
                0 <= h < i && 0 <= j < params.ln2@[h] implies earlier[h][j] == rows[h][j] by {
                assert(l2@[h] == previous.1[h]);
            }
            lemma_party_steps(
                inner_views(previous.0),
                earlier,
                inner_views(l1@),
                rows,
                params.ln2@,
                i as int,
            );
            assert(rows[i as int] == inner_views(row@));
            assert(inner_views(l1@)[i as int] == e_d.inner@);
            assert(Seq::new(
                params.ln2@[i as int] as nat,
                |j: int| ct_message(""@, inner_views(row@)[j]),
            ) =~= Seq::new(
                params.ln2@[i as int] as nat,
                |j: int| ct_message(""@, rows[i as int][j]),
            ));
            assert(transcript_entries(*transcript) =~= before + party_steps(
                inner_views(l1@),
                rows,
                params.ln2@,
                i + 1,
            ));
        }
        i += 1;
    }
    (l1, l2)
}

/// Whether a response belongs to an accumulator.
pub open spec fn responds(
    e: ExtendedCiphertext,
    col: Seq<ExtendedCiphertext>,
    t: Seq<int>,
    perm: Seq<usize>,
    z: int,
) -> bool {
    z == red(e.random_scalar@ + int_sum(products(randomness(col), permuted(t, perm))))
}

/// Whether the responses of the candidates of the first `n` parties stand in
/// the list, party after party.
pub open spec fn candidates_answered(
    l2: Seq<Vec<ExtendedCiphertext>>,
    shuffled: Seq<ExtendedVote>,
    ln2: Seq<usize>,
    t: Seq<int>,
    perm: Seq<usize>,
    z: Seq<Scalar>,
    n: int,
) -> bool {
    forall|i: int, j: int|
        #![trigger ext_column(shuffled, Column::Candidate { i, j })]
        0 <= i < n && 0 <= j < ln2[i] ==> responds(
            l2[i]@[j],
            ext_column(shuffled, Column::Candidate { i, j }),
            t,
            perm,
            z[offset(ln2, i) + j]@,
        )
}

/// The candidates of one party stand before those of the next.
pub proof fn lemma_offset(ln2: Seq<usize>, i: int, n: int)
    requires
        0 <= i < n,
    ensures
        0 <= offset(ln2, i),
        offset(ln2, i) + ln2[i] <= offset(ln2, n),
    decreases n,
{
    if i > 0 {
        lemma_offset(ln2, i - 1, i);
    }
    if i < n - 1 {
        lemma_offset(ln2, i, n - 1);
    }
}

/// One more party.
proof fn lemma_answered_row(
    l2: Seq<Vec<ExtendedCiphertext>>,
    shuffled: Seq<ExtendedVote>,
    ln2: Seq<usize>,
    t: Seq<int>,
    perm: Seq<usize>,
    start: Seq<Scalar>,
    z: Seq<Scalar>,
    n: int,
)
    requires
        0 <= n < ln2.len(),
        candidates_answered(l2, shuffled, ln2, t, perm, start, n),
        start.len() == offset(ln2, n),
        z.len() == start.len() + ln2[n],
        forall|h: int| #![trigger z[h]] 0 <= h < start.len() ==> z[h] == start[h],
        forall|h: int|
            #![trigger ext_column(shuffled, Column::Candidate { i: n, j: h })]
            0 <= h < ln2[n] ==> responds(
                l2[n]@[h],
                ext_column(shuffled, Column::Candidate { i: n, j: h }),
                t,
                perm,
                z[start.len() + h]@,
            ),
    ensures
        candidates_answered(l2, shuffled, ln2, t, perm, z, n + 1),
{
    assert forall|i: int, j: int|
        #![trigger ext_column(shuffled, Column::Candidate { i, j })]
        0 <= i < n + 1 && 0 <= j < ln2[i] implies responds(
        l2[i]@[j],
        ext_column(shuffled, Column::Candidate { i, j }),
        t,
        perm,
        z[offset(ln2, i) + j]@,
    ) by {
        if i < n {
            lemma_offset(ln2, i, n);
            let at = offset(ln2, i) + j;
            assert(z[at] == start[at]);
        }
    }
}

/// The responses of all parties and candidates.
fn respond_all(
    l1: &Vec<ExtendedCiphertext>,
    l2: &Vec<Vec<ExtendedCiphertext>>,
    shuffled: &Vec<ExtendedVote>,
    params: &ChoiceParameters,
    t: &Vec<Scalar>,
    perm: &Vec<usize>,
) -> (r: (Vec<Scalar>, Vec<Scalar>))
    requires
        params.wf(),
        votes_cover(shuffled@, *params),
        is_permutation(perm@, t@.len() as int),
        shuffled@.len() == t@.len(),
        l1@.len() == params.n1,
        l2@.len() == params.n1,
        forall|i: int| #![trigger l2@[i]] 0 <= i < params.n1 ==> l2@[i]@.len() == params.ln2@[i],
    ensures
        r.0@.len() == params.n1,
        r.1@.len() == offset(params.ln2@, params.n1 as int),
        forall|i: int|
            #![trigger r.0@[i]]
            0 <= i < params.n1 ==> responds(
                l1@[i],
                ext_column(shuffled@, Column::Party { i }),
                scalar_views(t@),
                perm@,
                r.0@[i]@,
            ),
        candidates_answered(
            l2@,
            shuffled@,
            params.ln2@,
            scalar_views(t@),
            perm@,
            r.1@,
            params.n1 as int,
        ),
{
    let mut z1: Vec<Scalar> = Vec::new();
    let mut z2: Vec<Scalar> = Vec::new();
    let ghost ts = scalar_views(t@);
    let mut i: usize = 0;
    while i < params.n1
        invariant
            params.wf(),
            i <= params.n1,
            votes_cover(shuffled@, *params),
            is_permutation(perm@, t@.len() as int),
            shuffled@.len() == t@.len(),
            ts == scalar_views(t@),
            l1@.len() == params.n1,
            l2@.len() == params.n1,
            forall|i: int|
                #![trigger l2@[i]]
                0 <= i < params.n1 ==> l2@[i]@.len() == params.ln2@[i],
            z1@.len() == i,
            z2@.len() == offset(params.ln2@, i as int),
            forall|h: int|
                #![trigger z1@[h]]
                0 <= h < i ==> responds(
                    l1@[h],
                    ext_column(shuffled@, Column::Party { i: h }),
                    ts,
                    perm@,
                    z1@[h]@,
                ),
            candidates_answered(l2@, shuffled@, params.ln2@, ts, perm@, z2@, i as int),
        decreases params.n1 - i,
    {
        proof {
            assert forall|k: int| #![trigger shuffled@[k]] 0 <= k < shuffled@.len() implies i
                < shuffled@[k].choice.l1@.len() by {
                assert(shuffled@[k].choice.inner().covers(*params));
            }
        }
        let col = party_column(shuffled, i);
        let z = respond(&l1[i].random_scalar, &col, t, perm);
        z1.push(z);
        let row = &l2[i];
        let ghost start = z2@;
        let mut j: usize = 0;
        while j < params.ln2[i]
            invariant
                params.wf(),
                i < params.n1,
                j <= params.ln2@[i as int],
                row@.len() == params.ln2@[i as int],
                row@ == l2@[i as int]@,
                votes_cover(shuffled@, *params),
                is_permutation(perm@, t@.len() as int),
                shuffled@.len() == t@.len(),
                ts == scalar_views(t@),
                start.len() == offset(params.ln2@, i as int),
                z2@.len() == start.len() + j,
                forall|h: int| #![trigger z2@[h]] 0 <= h < start.len() ==> z2@[h] == start[h],
                forall|h: int|
                    #![trigger ext_column(shuffled@, Column::Candidate { i: i as int, j: h })]
                    0 <= h < j ==> responds(
                        l2@[i as int]@[h],
                        ext_column(shuffled@, Column::Candidate { i: i as int, j: h }),
                        ts,
                        perm@,
                        z2@[start.len() + h]@,
                    ),
            decreases params.ln2@[i as int] - j,
        {
            proof {
                assert forall|k: int| #![trigger shuffled@[k]] 0 <= k < shuffled@.len() implies i
                    < shuffled@[k].choice.l2@.len() && j < shuffled@[k].choice.l2@[i as int]@.len() by {
                    let v = shuffled@[k].choice.inner();
                    assert(v.covers(*params));
                    assert(v.l2[i as int] == inner_views(shuffled@[k].choice.l2@[i as int]@));
                }
            }
            let col = candidate_column(shuffled, i, j);
            let z = respond(&row[j].random_scalar, &col, t, perm);
            z2.push(z);
            j += 1;
        }
        proof {
            assert(z2@.len() == offset(params.ln2@, i + 1));
            lemma_answered_row(l2@, shuffled@, params.ln2@, ts, perm@, start, z2@, i as int);
        }
        i += 1;
    }
    (z1, z2)
}

impl MixedVotes {
    /// Proves that the shuffled votes are other votes, rearranged by `perm` and
    /// re-encrypted.
    #[allow(non_snake_case)]
    pub fn new(
        pk: &ElectionPublicKey,
        ped_params: &Parameters,
        perm: &Vec<usize>,
        shuffled: &Vec<ExtendedVote>,
        choice_params: &ChoiceParameters,
        rng: &mut StdRng,
        transcript: &mut Transcript,
    ) -> (r: Self)
        requires
            ped_params.wf(),
            ped_params.list_len >= 2,
            is_permutation(perm@, ped_params.list_len as int),
            shuffled@.len() == ped_params.list_len,
            choice_params.wf(),
            votes_cover(shuffled@, *choice_params),
        ensures
            r.core_proof.size() == ped_params.list_len,
            shuffle_sized(r.core_proof.parts(), ped_params.list_len as int),
            r.ed_L1@.len() == choice_params.n1,
            r.ed_L2@.len() == choice_params.n1,
            forall|i: int|
                #![trigger r.ed_L2@[i]]
                0 <= i < choice_params.n1 ==> r.ed_L2@[i]@.len() == choice_params.ln2@[i],
            r.z_L1@.len() == choice_params.n1,
            r.z_L2@.len() == offset(choice_params.ln2@, choice_params.n1 as int),
            r.core_proof.valid(
                *ped_params,
                transcript_entries(*old(transcript)) + r.steps(*choice_params),
            ),
            exists|d: Seq<int>|
                #[trigger] r.made(
                    pk.key(),
                    *choice_params,
                    shuffled@,
                    perm@,
                    d,
                    r.challenges(
                        transcript_entries(*old(transcript)),
                        *choice_params,
                        ped_params.list_len as int,
                    ),
                ),
            transcript_entries(*final(transcript)) == transcript_entries(*old(transcript))
                + r.steps(*choice_params) + shuffle_head(r.core_proof.parts()) + shuffle_tail(
                r.core_proof.parts(),
            ),
    {
        let ghost before = transcript_entries(*transcript);
        let ghost key = pk.key();
        let ghost n = ped_params.list_len as int;
        let builder = ShuffleBuilder::new(ped_params, perm, rng);
        let ghost d = builder.masks();
        let (e_L1, e_L2) = accumulate_all(&builder, pk, shuffled, choice_params, rng, transcript);
        let (col_A, col_Ar, col_g3x) = auth_columns(shuffled);
        let e_A = accumulate(&builder, pk, &col_A, rng, transcript);
        let e_Ar = accumulate(&builder, pk, &col_Ar, rng, transcript);
        let e_g3x = accumulate(&builder, pk, &col_g3x, rng, transcript);
        let ghost appended = transcript_entries(*transcript);
        builder.append_commitments(transcript);
        let ghost committed = transcript_entries(*transcript);
        let (f_list, t_list) = builder.compute_t(perm, transcript);
        let ghost t = scalar_views(t_list@);
        let (z_L1, z_L2) = respond_all(&e_L1, &e_L2, shuffled, choice_params, &t_list, perm);
        let z_A = respond(&e_A.random_scalar, &col_A, &t_list, perm);
        let z_Ar = respond(&e_Ar.random_scalar, &col_Ar, &t_list, perm);
        let z_g3x = respond(&e_g3x.random_scalar, &col_g3x, &t_list, perm);
        let ghost held = builder_parts(builder);
        let ghost seeded = transcript_entries(*transcript);
        let core_proof = builder.finish(ped_params, &f_list, &t_list, perm, transcript, rng);
        let ed_L1 = inner_list(&e_L1);
        let ed_L2 = inner_matrix(&e_L2);
        let out = MixedVotes {
            core_proof,
            ed_L1,
            ed_L2,
            ed_A: e_A.inner,
            ed_Ar: e_Ar.inner,
            ed_g3x: e_g3x.inner,
            z_L1,
            z_L2,
            z_A,
            z_Ar,
            z_g3x,
        };
        proof {
            let params = *choice_params;
            let parts = core_proof.parts();
            assert(ct_views(ed_L1@).len() == inner_views(e_L1@).len());
            assert(ct_rows(ed_L2@).len() == inner_rows(e_L2@).len());
            assert forall|i: int| #![trigger ed_L2@[i]] 0 <= i < params.n1 implies ed_L2@[i]@.len()
                == params.ln2@[i] by {
                assert(ct_rows(ed_L2@)[i] == inner_rows(e_L2@)[i]);
                assert(ct_views(ed_L2@[i]@).len() == inner_views(e_L2@[i]@).len());
            }
            assert(appended =~= before + out.steps(params));
            assert(shuffle_commit_steps(parts) =~= shuffle_commit_steps(held));
            assert(t == out.challenges(before, params, n));
            assert(seeded == (appended + shuffle_commit_steps(parts)).push(seed("c"@)));
            assert(core_proof.valid(*ped_params, appended));
            assert(transcript_entries(*transcript) =~= before + out.steps(params) + shuffle_head(
                parts,
            ) + shuffle_tail(parts));
            assert(hides(core_proof.f(), t, perm@, d)) by {
                let f = core_proof.f();
                assert forall|k: int| #![trigger f[k]] 0 <= k < f.len() implies f[k] == red(
                    t[perm@[k] as int] - d[k],
                ) by {
                    assert(f_list@[k]@ == red(t_list@[perm@[k] as int]@ - d[k]));
                    assert(perm@[k] < n);
                }
            }
            assert forall|c: Column| is_column(c, params) implies #[trigger] answered(
                key,
                ext_column(shuffled@, c),
                d,
                t,
                perm@,
                out.ed(c),
                out.z(c, params),
            ) by {
                reveal(responds);
                let col = ext_column(shuffled@, c);
                let e = match c {
                    Column::Party { i } => e_L1@[i],
                    Column::Candidate { i, j } => e_L2@[i]@[j],
                    Column::A => e_A,
                    Column::Ar => e_Ar,
                    Column::G3x => e_g3x,
                };
                match c {
                    Column::Party { i } => {
                        assert(ct_views(ed_L1@)[i] == inner_views(e_L1@)[i]);
                        assert(accumulates(key, col, d, e_L1@[i]));
                        assert(responds(e_L1@[i], col, t, perm@, z_L1@[i]@));
                    },
                    Column::Candidate { i, j } => {
                        assert(ct_rows(ed_L2@)[i] == inner_rows(e_L2@)[i]);
                        assert(ct_views(ed_L2@[i]@)[j] == inner_views(e_L2@[i]@)[j]);
                        assert(accumulates(key, col, d, e_L2@[i]@[j]));
                        assert(responds(
                            e_L2@[i]@[j],
                            ext_column(shuffled@, Column::Candidate { i, j }),
                            t,
                            perm@,
                            z_L2@[offset(params.ln2@, i) + j]@,
                        ));
                    },
                    _ => {},
                }
                assert(out.ed(c) == ct_add(
                    ct_combination(inner_views(col), d),
                    ct_encrypt(key, 0, e.random_scalar@),
                ));
            }
            assert(out.made(key, params, shuffled@, perm@, d, t));
        }
        out
    }

    /// The scalars that both sides derive.
    pub open spec fn challenges(self, entries: Seq<Entry>, params: ChoiceParameters, n: int) -> Seq<int> {
        shuffle_challenges(
            entries + self.steps(params) + shuffle_commit_steps(self.core_proof.parts()),
            n,
        )
    }

    /// Whether the linking equation holds for a column.
    pub open spec fn holds(
        self,
        key: CtView,
        params: ChoiceParameters,
        t: Seq<int>,
        originals: Seq<VoteView>,
        shuffled: Seq<VoteView>,
        c: Column,
    ) -> bool {
        re_encryption_holds(
            key,
            self.ed(c),
            self.z(c, params),
            t,
            self.core_proof.f(),
            column(originals, c, originals.len() as int),
            column(shuffled, c, originals.len() as int),
        )
    }

    /// Whether the proof is accepted.
    pub open spec fn accepted(
        self,
        pk: ElectionPublicKey,
        ped: Parameters,
        params: ChoiceParameters,
        originals: Seq<VoteView>,
        shuffled: Seq<VoteView>,
        entries: Seq<Entry>,
    ) -> bool {
        let t = self.challenges(entries, params, originals.len() as int);
        &&& self.core_proof.valid(ped, entries + self.steps(params))
        &&& forall|c: Column|
            is_column(c, params) ==> #[trigger] self.holds(
                pk.key(),
                params,
                t,
                originals,
                shuffled,
                c,
            )
    }

    /// Appends the accumulators to a transcript.
    fn append_accumulators(&self, params: &ChoiceParameters, transcript: &mut Transcript)
        requires
            params.wf(),
            self.shaped(*params),
        ensures
            transcript_entries(*final(transcript)) == transcript_entries(*old(transcript))
                + self.steps(*params),
    {
        let ghost before = transcript_entries(*transcript);
        let ghost l1 = ct_views(self.ed_L1@);
        let ghost l2 = ct_rows(self.ed_L2@);
        let mut i: usize = 0;
        proof {
            assert(before + party_steps(l1, l2, params.ln2@, 0) =~= before);
        }
        while i < params.n1
            invariant
                i <= params.n1,
                params.wf(),
                self.shaped(*params),
                l1 == ct_views(self.ed_L1@),
                l2 == ct_rows(self.ed_L2@),
                transcript_entries(*transcript) == before + party_steps(
                    l1,
                    l2,
                    params.ln2@,
                    i as int,
                ),
            decreases params.n1 - i,
        {
            append_ciphertext(transcript, "", &self.ed_L1[i]);
            let ghost start = transcript_entries(*transcript);
            proof {
                assert(self.ed_L2@[i as int]@.len() >= params.ln2@[i as int]);
                assert(l2[i as int] == ct_views(self.ed_L2@[i as int]@));
                assert(start + Seq::new(0, |h: int| ct_message(""@, l2[i as int][h])) =~= start);
            }
            let mut j: usize = 0;
            while j < params.ln2[i]
                invariant
                    params.wf(),
                    i < params.n1,
                    j <= params.ln2@[i as int],
                    self.ed_L2@.len() >= params.n1,
                    self.ed_L2@[i as int]@.len() >= params.ln2@[i as int],
                    l2[i as int] == ct_views(self.ed_L2@[i as int]@),
                    transcript_entries(*transcript) == start + Seq::new(
                        j as nat,
                        |h: int| ct_message(""@, l2[i as int][h]),
                    ),
                decreases params.ln2@[i as int] - j,
            {
                append_ciphertext(transcript, "", &self.ed_L2[i][j]);
                j += 1;
                proof {
                    assert(transcript_entries(*transcript) =~= start + Seq::new(
                        j as nat,
                        |h: int| ct_message(""@, l2[i as int][h]),
                    ));
                }
            }
            i += 1;
            proof {
                assert(transcript_entries(*transcript) =~= before + party_steps(
                    l1,
                    l2,
                    params.ln2@,
                    i as int,
                ));
            }
        }
        append_ciphertext(transcript, "", &self.ed_A);
        append_ciphertext(transcript, "", &self.ed_Ar);
        append_ciphertext(transcript, "", &self.ed_g3x);
        proof {
            assert(transcript_entries(*transcript) =~= before + self.steps(*params));
        }
    }

    /// Checks that the shuffled votes are the originals, rearranged and
    /// re-encrypted.
    pub fn verify(
        &self,
        pk: &ElectionPublicKey,
        ped_params: &Parameters,
        choice_params: &ChoiceParameters,
        originals: &Vec<Vote>,
        shuffled: &Vec<Vote>,
        transcript: &mut Transcript,
    ) -> (r: Result<(), Error>)
        requires
            ped_params.wf(),
            ped_params.list_len >= 1,
            ped_params.list_len == originals@.len(),
            shuffle_fits(self.core_proof.parts(), ped_params.list_len as int),
            shuffled@.len() >= originals@.len(),
            choice_params.wf(),
            self.shaped(*choice_params),
            votes_have(vote_views(originals@), *choice_params, originals@.len() as int),
            votes_have(vote_views(shuffled@), *choice_params, originals@.len() as int),
        ensures
            r == if self.accepted(
                *pk,
                *ped_params,
                *choice_params,
                vote_views(originals@),
                vote_views(shuffled@),
                transcript_entries(*old(transcript)),
            ) {
                Ok::<(), Error>(())
            } else {
                Err(
                    Error::FailedVerification(
                        self.core_proof.refusal(
                            *ped_params,
                            transcript_entries(*old(transcript)) + self.steps(*choice_params),
                        ),
                    ),
                )
            },
            r.is_ok() ==> transcript_entries(*final(transcript)) == transcript_entries(
                *old(transcript),
            ) + self.steps(*choice_params) + shuffle_head(self.core_proof.parts()) + shuffle_tail(
                self.core_proof.parts(),
            ),
    {
        let ghost before = transcript_entries(*transcript);
        let ghost params = *choice_params;
        let ghost key = pk.key();
        let n = originals.len();
        let ghost first_votes = vote_views(originals@);
        let ghost second_votes = vote_views(shuffled@);
        self.append_accumulators(choice_params, transcript);
        let t_list = match self.core_proof.verify(ped_params, transcript) {
            Ok(t_list) => t_list,
            Err(e) => return Err(Error::FailedVerification(e)),
        };
        let ghost t = self.challenges(before, params, n as int);
        proof {
            assert(scalar_views(t_list@) == t);
        }
        let mut i: usize = 0;
        while i < choice_params.n1
            invariant
                i <= choice_params.n1,
                params == *choice_params,
                params.wf(),
                key == pk.key(),
                n == originals@.len(),
                first_votes == vote_views(originals@),
                second_votes == vote_views(shuffled@),
                self.core_proof.size() == n,
                t_list@.len() == n,
                scalar_views(t_list@) == t,
                t == self.challenges(before, params, n as int),
                before == transcript_entries(*old(transcript)),
                self.core_proof.valid(*ped_params, before + self.steps(params)),
                shuffled@.len() >= n,
                self.shaped(params),
                votes_have(first_votes, params, n as int),
                votes_have(second_votes, params, n as int),
                forall|h: int|
                    0 <= h < i ==> #[trigger] self.holds(
                        key,
                        params,
                        t,
                        first_votes,
                        second_votes,
                        Column::Party { i: h },
                    ),
            decreases choice_params.n1 - i,
        {
            let first = party_list(originals, i, n, Ghost(params));
            let second = party_list(shuffled, i, n, Ghost(params));
            let checked = self.core_proof.check_re_encryption(
                &pk.params.tally,
                &pk.params.elgamal,
                &self.ed_L1[i],
                &self.z_L1[i],
                &t_list,
                &first,
                &second,
            );
            if let Err(e) = checked {
                proof {
                    assert(!self.holds(
                        key,
                        params,
                        t,
                        first_votes,
                        second_votes,
                        Column::Party { i: i as int },
                    ));
                }
                return Err(Error::FailedVerification(e));
            }
            i += 1;
        }
        let mut start: usize = 0;
        let mut i: usize = 0;
        while i < choice_params.n1
            invariant
                i <= choice_params.n1,
                start == offset(params.ln2@, i as int),
                params == *choice_params,
                params.wf(),
                key == pk.key(),
                n == originals@.len(),
                first_votes == vote_views(originals@),
                second_votes == vote_views(shuffled@),
                self.core_proof.size() == n,
                t_list@.len() == n,
                scalar_views(t_list@) == t,
                t == self.challenges(before, params, n as int),
                before == transcript_entries(*old(transcript)),
                self.core_proof.valid(*ped_params, before + self.steps(params)),
                shuffled@.len() >= n,
                self.shaped(params),
                votes_have(first_votes, params, n as int),
                votes_have(second_votes, params, n as int),
                forall|h: int, m: int|
                    0 <= h < i && 0 <= m < params.ln2@[h] ==> #[trigger] self.holds(
                        key,
                        params,
                        t,
                        first_votes,
                        second_votes,
                        Column::Candidate { i: h, j: m },
                    ),
            decreases choice_params.n1 - i,
        {
            let width = choice_params.ln2[i];
            let total = self.z_L2.len();
            proof {
                lemma_offset(params.ln2@, i as int, params.n1 as int);
            }
            let mut j: usize = 0;
            while j < width
                invariant
                    i < params.n1,
                    j <= width,
                    width == params.ln2@[i as int],
                    start == offset(params.ln2@, i as int),
                    start + width <= total,
                    total == self.z_L2@.len(),
                    params == *choice_params,
                    params.wf(),
                    key == pk.key(),
                    n == originals@.len(),
                    first_votes == vote_views(originals@),
                    second_votes == vote_views(shuffled@),
                    self.core_proof.size() == n,
                    t_list@.len() == n,
                    scalar_views(t_list@) == t,
                    t == self.challenges(before, params, n as int),
                    before == transcript_entries(*old(transcript)),
                    self.core_proof.valid(*ped_params, before + self.steps(params)),
                    shuffled@.len() >= n,
                    self.shaped(params),
                    votes_have(first_votes, params, n as int),
                    votes_have(second_votes, params, n as int),
                    forall|h: int, m: int|
                        0 <= h < i && 0 <= m < params.ln2@[h] ==> #[trigger] self.holds(
                            key,
                            params,
                            t,
                            first_votes,
                            second_votes,
                            Column::Candidate { i: h, j: m },
                        ),
                    forall|m: int|
                        0 <= m < j ==> #[trigger] self.holds(
                            key,
                            params,
                            t,
                            first_votes,
                            second_votes,
                            Column::Candidate { i: i as int, j: m },
                        ),
                decreases width - j,
            {
                let first = candidate_list(originals, i, j, n, Ghost(params));
                let second = candidate_list(shuffled, i, j, n, Ghost(params));
                let at: usize = start + j;
                let checked = self.core_proof.check_re_encryption(
                    &pk.params.tally,
                    &pk.params.elgamal,
                    &self.ed_L2[i][j],
                    &self.z_L2[at],
                    &t_list,
                    &first,
                    &second,
                );
                if let Err(e) = checked {
                    proof {
                        assert(!self.holds(
                            key,
                            params,
                            t,
                            first_votes,
                            second_votes,
                            Column::Candidate { i: i as int, j: j as int },
                        ));
                    }
                    return Err(Error::FailedVerification(e));
                }
                j += 1;
            }
            start += width;
            i += 1;
        }
        let (a0, ar0, g0) = auth_lists(originals, n);
        let (a1, ar1, g1) = auth_lists(shuffled, n);
        let tally = &pk.params.tally;
        let elgamal = &pk.params.elgamal;
        let checked = self.core_proof.check_re_encryption(
            tally,
            elgamal,
            &self.ed_A,
            &self.z_A,
            &t_list,
            &a0,
            &a1,
        );
        if let Err(e) = checked {
            proof {
                assert(!self.holds(key, params, t, first_votes, second_votes, Column::A));
            }
            return Err(Error::FailedVerification(e));
        }
        let checked = self.core_proof.check_re_encryption(
            tally,
            elgamal,
            &self.ed_Ar,
            &self.z_Ar,
            &t_list,
            &ar0,
            &ar1,
        );
        if let Err(e) = checked {
            proof {
                assert(!self.holds(key, params, t, first_votes, second_votes, Column::Ar));
            }
            return Err(Error::FailedVerification(e));
        }
        let checked = self.core_proof.check_re_encryption(
            tally,
            elgamal,
            &self.ed_g3x,
            &self.z_g3x,
            &t_list,
            &g0,
            &g1,
        );
        if let Err(e) = checked {
            proof {
                assert(!self.holds(key, params, t, first_votes, second_votes, Column::G3x));
            }
            return Err(Error::FailedVerification(e));
        }
        proof {
            assert forall|c: Column| is_column(c, params) implies #[trigger] self.holds(
                key,
                params,
                t,
                first_votes,
                second_votes,
                c,
            ) by {
                match c {
                    Column::Party { i } => {
                        assert(self.holds(
                            key,
                            params,
                            t,
                            first_votes,
                            second_votes,
                            Column::Party { i },
                        ));
                    },
                    Column::Candidate { i, j } => {
                        assert(self.holds(
                            key,
                            params,
                            t,
                            first_votes,
                            second_votes,
                            Column::Candidate { i, j },
                        ));
                    },
                    _ => {},
                }
            }
        }
        Ok(())
    }
}

/// Whether the first `n` votes have a ciphertext in each column.
pub open spec fn votes_have(votes: Seq<VoteView>, params: ChoiceParameters, n: int) -> bool {
    &&& n <= votes.len()
    &&& forall|k: int| #![trigger votes[k]] 0 <= k < n ==> votes[k].covers(params)
}

/// Whether the first `n` votes have a ciphertext in each column.
pub fn are_covering(votes: &Vec<Vote>, params: &ChoiceParameters, n: usize) -> (r: bool)
    requires
        params.wf(),
    ensures
        r == votes_have(vote_views(votes@), *params, n as int),
{
    if votes.len() < n {
        return false;
    }
    let ghost views = vote_views(votes@);
    let mut i: usize = 0;
    while i < n
        invariant
            i <= n,
            n <= votes@.len(),
            params.wf(),
            views == vote_views(votes@),
            forall|k: int| #![trigger views[k]] 0 <= k < i ==> views[k].covers(*params),
        decreases n - i,
    {
        if !votes[i].choice.is_covering(params) {
            proof {
                assert(!views[i as int].covers(*params));
            }
            return false;
        }
        i += 1;
    }
    true
}

/// A column of the first `n` votes.
fn party_list(votes: &Vec<Vote>, i: usize, n: usize, Ghost(params): Ghost<ChoiceParameters>) -> (r: Vec<
    Ciphertext,
>)
    requires
        votes_have(vote_views(votes@), params, n as int),
        i < params.n1,
    ensures
        ct_views(r@) == column(vote_views(votes@), Column::Party { i: i as int }, n as int),
        r@.len() == n,
{
    let mut out: Vec<Ciphertext> = Vec::new();
    let mut k: usize = 0;
    while k < n
        invariant
            k <= n,
            votes_have(vote_views(votes@), params, n as int),
            i < params.n1,
            out@.len() == k,
            forall|h: int| #![trigger out@[h]] 0 <= h < k ==> out@[h]@ == votes@[h]@.choice.l1[i as int],
        decreases n - k,
    {
        proof {
            assert(vote_views(votes@)[k as int].covers(params));
        }
        out.push(votes[k].choice.l1[i]);
        k += 1;
    }
    proof {
        assert(ct_views(out@) =~= column(vote_views(votes@), Column::Party { i: i as int }, n as int));
    }
    out
}

/// A column of the first `n` votes.
fn candidate_list(
    votes: &Vec<Vote>,
    i: usize,
    j: usize,
    n: usize,
    Ghost(params): Ghost<ChoiceParameters>,
) -> (r: Vec<Ciphertext>)
    requires
        votes_have(vote_views(votes@), params, n as int),
        i < params.n1,
        j < params.ln2@[i as int],
    ensures
        ct_views(r@) == column(
            vote_views(votes@),
            Column::Candidate { i: i as int, j: j as int },
            n as int,
        ),
        r@.len() == n,
{
    let mut out: Vec<Ciphertext> = Vec::new();
    let mut k: usize = 0;
    while k < n
        invariant
            k <= n,
            votes_have(vote_views(votes@), params, n as int),
            i < params.n1,
            j < params.ln2@[i as int],
            out@.len() == k,
            forall|h: int|
                #![trigger out@[h]]
                0 <= h < k ==> out@[h]@ == votes@[h]@.choice.l2[i as int][j as int],
        decreases n - k,
    {
        proof {
            let v = votes@[k as int]@.choice;
            assert(vote_views(votes@)[k as int].covers(params));
            assert(v.l2[i as int] == ct_views(votes@[k as int].choice.l2@[i as int]@));
        }
        out.push(votes[k].choice.l2[i][j]);
        k += 1;
    }
    proof {
        assert(ct_views(out@) =~= column(
            vote_views(votes@),
            Column::Candidate { i: i as int, j: j as int },
            n as int,
        ));
    }
    out
}

/// The columns of the credential of the first `n` votes.
fn auth_lists(votes: &Vec<Vote>, n: usize) -> (r: (Vec<Ciphertext>, Vec<Ciphertext>, Vec<Ciphertext>))
    requires
        n <= votes@.len(),
    ensures
        ct_views(r.0@) == column(vote_views(votes@), Column::A, n as int),
        ct_views(r.1@) == column(vote_views(votes@), Column::Ar, n as int),
        ct_views(r.2@) == column(vote_views(votes@), Column::G3x, n as int),
        r.0@.len() == n,
        r.1@.len() == n,
        r.2@.len() == n,
{
    let mut a: Vec<Ciphertext> = Vec::new();
    let mut ar: Vec<Ciphertext> = Vec::new();
    let mut g3x: Vec<Ciphertext> = Vec::new();
    let mut k: usize = 0;
    while k < n
        invariant
            k <= n <= votes@.len(),
            a@.len() == k,
            ar@.len() == k,
            g3x@.len() == k,
            forall|h: int| #![trigger a@[h]] 0 <= h < k ==> a@[h]@ == votes@[h]@.a,
            forall|h: int| #![trigger ar@[h]] 0 <= h < k ==> ar@[h]@ == votes@[h]@.ar,
            forall|h: int| #![trigger g3x@[h]] 0 <= h < k ==> g3x@[h]@ == votes@[h]@.g3x,
        decreases n - k,
    {
        a.push(votes[k].auth.A_enc);
        ar.push(votes[k].auth.Ar_enc);
        g3x.push(votes[k].auth.g3x_enc);
        k += 1;
    }
    proof {
        assert(ct_views(a@) =~= column(vote_views(votes@), Column::A, n as int));
        assert(ct_views(ar@) =~= column(vote_views(votes@), Column::Ar, n as int));
        assert(ct_views(g3x@) =~= column(vote_views(votes@), Column::G3x, n as int));
    }
    (a, ar, g3x)
}

/// The ciphertexts of rows of lists.
fn inner_matrix(rows: &Vec<Vec<ExtendedCiphertext>>) -> (r: Vec<Vec<Ciphertext>>)
    ensures
        ct_rows(r@) == inner_rows(rows@),
{
    let mut out: Vec<Vec<Ciphertext>> = Vec::new();
    let mut i: usize = 0;
    while i < rows.len()
        invariant
            i <= rows@.len(),
            out@.len() == i,
            forall|h: int|
                #![trigger out@[h]]
                0 <= h < i ==> ct_views(out@[h]@) == inner_views(rows@[h]@),
        decreases rows@.len() - i,
    {
        let row = inner_list(&rows[i]);
        out.push(row);
        i += 1;
    }
    proof {
        assert(ct_rows(out@) =~= inner_rows(rows@));
    }
    out
}

/// An honest mix is accepted: where each shuffled vote is the original at its
/// place in the permutation, re-encrypted, and the prover made accumulators and
/// responses for them, every linking equation of the verifier holds.
pub proof fn law_honest_mix(
    proof_: MixedVotes,
    pk: ElectionPublicKey,
    params: ChoiceParameters,
    originals: Seq<VoteView>,
    ext: Seq<ExtendedVote>,
    shuffled: Seq<VoteView>,
    perm: Seq<usize>,
    d: Seq<int>,
    t: Seq<int>,
)
    requires
        params.wf(),
        is_permutation(perm, originals.len() as int),
        ext.len() == originals.len(),
        shuffled.len() == originals.len(),
        votes_have(originals, params, originals.len() as int),
        forall|k: int|
            #![trigger ext[k]]
            0 <= k < ext.len() ==> ext[k].re_encrypts(originals[perm[k] as int], pk.key())
                && shuffled[k] == ext[k].vote(),
        proof_.made(pk.key(), params, ext, perm, d, t),
    ensures
        forall|c: Column|
            is_column(c, params) ==> #[trigger] proof_.holds(
                pk.key(),
                params,
                t,
                originals,
                shuffled,
                c,
            ),
{
    let key = pk.key();
    let n = originals.len() as int;
    assert forall|c: Column| is_column(c, params) implies #[trigger] proof_.holds(
        key,
        params,
        t,
        originals,
        shuffled,
        c,
    ) by {
        let col = ext_column(ext, c);
        assert(answered(key, col, d, t, perm, proof_.ed(c), proof_.z(c, params)));
        let r0 = choose|r0: int|
            proof_.ed(c) == #[trigger] ct_add(
                ct_combination(inner_views(col), d),
                ct_encrypt(key, 0, r0),
            ) && proof_.z(c, params) == red(
                r0 + int_sum(products(randomness(col), permuted(t, perm))),
            );
        let first = column(originals, c, n);
        let second = column(shuffled, c, n);
        assert forall|k: int| 0 <= k < n implies #[trigger] second[k] == ct_add(
            ct_encrypt(key, 0, randomness(col)[k]),
            first[perm[k] as int],
        ) && second[k] == inner_views(col)[k] by {
            lemma_column(ext[k], originals[perm[k] as int], shuffled[k], params, key, c);
            assert(perm[k] < n);
            assert(votes_have(originals, params, n));
        }
        assert(inner_views(col) =~= second);
        law_linkage(
            key,
            first,
            second,
            randomness(col),
            perm,
            d,
            proof_.core_proof.f(),
            t,
            r0,
        );
    }
}

/// One ciphertext of a re-encrypted vote.
pub proof fn lemma_column(
    new: ExtendedVote,
    old: VoteView,
    view: VoteView,
    params: ChoiceParameters,
    key: CtView,
    c: Column,
)
    requires
        is_column(c, params),
        params.wf(),
        old.covers(params),
        new.re_encrypts(old, key),
        view == new.vote(),
    ensures
        view.at(c) == new.at(c).inner@,
        view.at(c) == ct_add(ct_encrypt(key, 0, new.at(c).random_scalar@), old.at(c)),
{
    match c {
        Column::Party { i } => {
            assert(new.choice.l1@[i].inner@ == view.choice.l1[i]);
        },
        Column::Candidate { i, j } => {
            assert(re_encrypts(new.choice.l2@[i]@, old.choice.l2[i], key));
            assert(view.choice.l2[i] == inner_views(new.choice.l2@[i]@));
            assert(new.choice.l2@[i]@[j].inner@ == view.choice.l2[i][j]);
        },
        _ => {},
    }
}

} // verus!
