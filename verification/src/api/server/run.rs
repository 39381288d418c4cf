//! What a whole run counts: from the ballots that were cast to the tally.

use vstd::prelude::*;
use vstd::set_lib::{lemma_int_range, lemma_subset_equality, set_int_range};

use crate::api::server::bb::{ValidVoteRecord, VerifiedVoteRecord};
use crate::api::server::pipeline::{
    are_winners, beaten, credentials_mixed, fingerprint_inputs, kept_from, law_mix_keeps_votes, mixes,
    record_credentials, record_views, wins,
};
use crate::arith::{
    lemma_order, lemma_red_bounds, lemma_red_cancel, lemma_red_small, lemma_red_sub, lemma_red_twice,
    red,
};
use crate::elgamal::{
    ct_decrypt, ct_encrypt, ct_scale, law_decrypt_encrypt, law_decrypt_scale, law_re_encrypt, CtView,
};
use crate::proofs::decryption::{decrypts, DecOk};
use crate::protocol::counting::{
    chosen, lemma_place, lemma_sum_counts, lemma_sum_shape, sum_of, votes_for,
};
use crate::protocol::cred_mix::credentials;
use crate::protocol::filter::{among, law_credential_check, neutral_positions};
use crate::protocol::keys::ElectionPublicKey;
use crate::protocol::mix::{is_column, Column};
use crate::protocol::tally::{CredentialControlProof, DecryptedTally, Place};
use crate::protocol::teller::{checks, TTSecretKey};
use crate::protocol::vote::auth::{
    encrypts_signature, law_pins_open_different_secrets, ExtendedShortPublicACC, RTSignature,
    ShortPublicACC, VotingCredential,
};
use crate::protocol::vote::auth_proof::ExtendedEncrAuthValues;
use crate::protocol::vote::choice::{Choice, ChoiceParameters, EncrChoiceView, ExtendedEncrChoice};
use crate::protocol::vote::choice_proof::encrypted;
use crate::protocol::vote::vote::{holds_auth, lemma_shape, ExtendedVote, VerVote, VoteView};
use crate::random::is_permutation;

verus! {

/// A ballot with what its voter knows: the credential, its PIN, the PIN that it
/// was opened with, and the choice.
pub struct Cast {
    pub ballot: VerVote,
    pub credential: VotingCredential,
    pub pin: int,
    pub guess: int,
    pub choice: Choice,
}

/// Whether the ciphertexts are those of the list, raised to `k`.
pub open spec fn raised(raised: Seq<CtView>, list: Seq<CtView>, k: int) -> bool {
    &&& raised.len() == list.len()
    &&& forall|i: int| #![trigger raised[i]] 0 <= i < list.len() ==> raised[i] == ct_scale(list[i], k)
}

/// A run of the pipeline: its secrets, its inputs, and what each step gave.
pub struct Run {
    pub pk: ElectionPublicKey,
    pub params: ChoiceParameters,
    pub sk: TTSecretKey,
    /// The registration secret.
    pub y: int,
    pub cast: Seq<Cast>,
    pub originals: Seq<VerifiedVoteRecord>,
    pub mixed: Seq<VerifiedVoteRecord>,
    pub controls: Seq<CredentialControlProof>,
    pub checks: Seq<DecOk>,
    pub valid: Seq<ValidVoteRecord>,
    pub registered: Seq<RTSignature>,
    pub creds: Seq<ShortPublicACC>,
    pub mixed_creds: Seq<ShortPublicACC>,
    /// The exponent of the fingerprints.
    pub k: int,
    pub fps: Seq<Seq<CtView>>,
    pub dec_pub: Seq<DecOk>,
    pub dec_votes: Seq<DecOk>,
    pub kept: Seq<EncrChoiceView>,
    pub tally: DecryptedTally,
}

impl Run {
    /// Whether the vote at `i` is that of the ballot, which encrypts its choice
    /// and its credential, and whether registration signed the secret that the
    /// credential's PIN opens.
    pub open spec fn was_cast(self, i: int) -> bool {
        let c = self.cast[i];
        &&& self.originals[i].vote@ == c.ballot.vote()
        &&& c.ballot.encrypts(
            self.pk,
            c.choice,
            c.credential,
            c.credential.masked_pin.secret(c.guess),
        )
        &&& c.choice.marks(self.params)
        &&& c.credential.sign.signs(
            self.pk.params,
            self.y,
            c.credential.masked_pin.secret(c.pin),
        )
        &&& 0 <= c.pin <= u64::MAX
        &&& 0 <= c.guess <= u64::MAX
    }

    /// Whether all votes were cast, each with a number of its own.
    pub open spec fn votes_cast(self) -> bool {
        &&& self.cast.len() == self.originals.len()
        &&& self.originals.len() <= u64::MAX
        &&& forall|i: int| 0 <= i < self.cast.len() ==> #[trigger] self.was_cast(i)
        &&& forall|i: int, j: int|
            0 <= i < j < self.originals.len() ==> (#[trigger] self.originals[i]).receipt.seq_no != (
            #[trigger] self.originals[j]).receipt.seq_no
    }

    /// Whether the votes were mixed.
    pub open spec fn votes_mixed(self) -> bool {
        exists|perm: Seq<usize>, ext: Seq<ExtendedVote>| #[trigger]
            mixes(self.pk.key(), self.originals, self.mixed, perm, ext)
    }

    /// Whether registration made the controls, the checks were decrypted, and
    /// the votes with a neutral check are the valid ones.
    pub open spec fn votes_checked(self) -> bool {
        let views = record_views(self.mixed);
        let at = neutral_positions(self.checks, self.mixed.len() as int);
        &&& self.controls.len() == self.mixed.len()
        &&& forall|i: int|
            #![trigger self.controls[i]]
            0 <= i < self.controls.len() ==> self.pk.control(self.mixed[i].vote@).made_by(
                self.y,
                self.controls[i],
            )
        &&& decrypts(self.checks, self.sk.meg_sk, checks(self.pk, views, self.controls))
        &&& self.valid.len() == at.len()
        &&& forall|j: int|
            #![trigger self.valid[j]]
            0 <= j < self.valid.len() ==> kept_from(self.valid[j], self.mixed, at[j])
    }

    /// Whether the registered signatures were encrypted and mixed.
    pub open spec fn credentials_registered(self) -> bool {
        &&& self.creds.len() == self.registered.len()
        &&& forall|r: int|
            #![trigger self.creds[r]]
            0 <= r < self.creds.len() ==> encrypts_signature(
                self.pk.key(),
                self.creds[r].enc_A@,
                self.registered[r],
            )
        &&& exists|perm: Seq<usize>, ext: Seq<ExtendedShortPublicACC>| #[trigger]
            credentials_mixed(self.pk.key(), self.creds, self.mixed_creds, perm, ext)
    }

    /// Whether the fingerprints raise the credentials to one exponent, and were
    /// decrypted.
    pub open spec fn fingerprinted(self) -> bool {
        let inputs = fingerprint_inputs(self.mixed_creds, self.valid);
        &&& self.fps.len() == 2
        &&& raised(self.fps[0], inputs[0], self.k)
        &&& raised(self.fps[1], inputs[1], self.k)
        &&& decrypts(self.dec_pub, self.sk.meg_sk, self.fps[0])
        &&& decrypts(self.dec_votes, self.sk.meg_sk, self.fps[1])
    }

    /// Whether the last vote of each registered credential was kept.
    pub open spec fn filtered(self) -> bool {
        exists|at: Seq<int>|
            {
                &&& #[trigger] are_winners(self.valid, self.dec_pub, self.dec_votes, at)
                &&& self.kept == at.map_values(|j: int| self.valid[j].vote.choice@)
            }
    }

    /// Whether the counts are what the sum of the choices decrypts to.
    pub open spec fn counted(self) -> bool {
        let sum = sum_of(EncrChoiceView::nothing(self.params), self.kept);
        forall|p: Place|
            p.within(sum) ==> self.tally.count(p) == self.sk.opens(#[trigger] sum.at(p))
    }

    /// Whether each step was made as it should be, with the election's keys.
    pub open spec fn done(self) -> bool {
        &&& self.params.wf()
        &&& self.sk.key(self.pk) == self.pk.key()
        &&& self.votes_cast()
        &&& self.votes_mixed()
        &&& self.votes_checked()
        &&& self.credentials_registered()
        &&& self.fingerprinted()
        &&& self.filtered()
        &&& self.counted()
    }

    /// The credential of the vote at `i`, as its signature tells it.
    pub open spec fn owner(self, i: int) -> int {
        self.cast[i].credential.sign.A.log()
    }

    /// Whether the credential of the vote at `i` was opened with its PIN.
    pub open spec fn right(self, i: int) -> bool {
        self.cast[i].guess == self.cast[i].pin
    }

    /// Whether the credential of the vote at `i` is registered.
    pub open spec fn is_registered(self, i: int) -> bool {
        exists|r: int|
            0 <= r < self.registered.len() && (#[trigger] self.registered[r]).A.log() == self.owner(i)
    }

    /// Whether the vote at `i` counts: it is the last that was cast with its
    /// credential and the PIN, and the credential is registered.
    pub open spec fn counts(self, i: int) -> bool {
        &&& 0 <= i < self.cast.len()
        &&& self.right(i)
        &&& self.is_registered(i)
        &&& forall|j: int|
            #![trigger self.owner(j)]
            0 <= j < self.cast.len() && self.right(j) && self.owner(j) == self.owner(i)
                ==> self.originals[j].receipt.seq_no <= self.originals[i].receipt.seq_no
    }

    /// The choices of the votes at the given positions.
    pub open spec fn choices(self, at: Seq<int>) -> Seq<Choice> {
        at.map_values(|i: int| self.cast[i].choice)
    }

    /// What the ciphertexts of a vote decrypt to, where it was cast as `c` tells.
    spec fn opened(self, vote: VoteView, c: Cast) -> bool {
        let a = c.credential.sign.A.log();
        &&& self.sk.opens(vote.a) == a
        &&& self.sk.opens(vote.ar) == red(a * c.credential.sign.r@)
        &&& self.sk.opens(vote.g3x) == red(
            self.pk.params.g3.log() * c.credential.masked_pin.secret(c.guess),
        )
        &&& forall|p: Place|
            p.within(EncrChoiceView::nothing(self.params)) ==> self.sk.opens(
                #[trigger] vote.choice.at(p),
            ) == chosen(c.choice, p)
    }
}

/// A run counts what was voted: of the ballots cast with a registered
/// credential and its PIN, the last one of each credential is counted, once, and
/// no other ballot is.
///
/// `g3` and the exponent of the fingerprints must have an inverse.
pub proof fn law_run_counts_the_votes(run: Run, g3_inverse: int, k_inverse: int) -> (at: Seq<int>)
    requires
        run.done(),
        red(run.pk.params.g3.log() * g3_inverse) == 1,
        red(run.k * k_inverse) == 1,
    ensures
        at.no_duplicates(),
        forall|i: int| #[trigger] at.contains(i) <==> run.counts(i),
        forall|a: int, b: int|
            0 <= a < at.len() && 0 <= b < at.len() && a != b ==> run.owner(#[trigger] at[a])
                != run.owner(#[trigger] at[b]),
        run.kept.len() == at.len(),
        forall|p: Place|
            p.within(EncrChoiceView::nothing(run.params)) ==> #[trigger] run.tally.count(p)
                == votes_for(run.choices(at), p),
{
    let key = run.pk.key();
    let (perm, ext) = choose|perm: Seq<usize>, ext: Seq<ExtendedVote>| #[trigger]
        mixes(key, run.originals, run.mixed, perm, ext);
    let won = choose|won: Seq<int>|
        {
            &&& #[trigger] are_winners(run.valid, run.dec_pub, run.dec_votes, won)
            &&& run.kept == won.map_values(|j: int| run.valid[j].vote.choice@)
        };
    let neutral = neutral_positions(run.checks, run.mixed.len() as int);
    let at = won.map_values(|j: int| perm[neutral[j]] as int);
    lemma_neutral(run.checks, run.mixed.len() as int);
    assert forall|j: int| won.contains(j) implies 0 <= j < run.valid.len() by {
        assert(wins(run.valid, run.dec_pub, run.dec_votes, j));
    }
    assert forall|a: int, b: int| 0 <= a < at.len() && 0 <= b < at.len() && a != b implies at[a]
        != at[b] && run.owner(at[a]) != run.owner(at[b]) by {
        let (ja, jb) = (won[a], won[b]);
        assert(won.contains(ja) && won.contains(jb));
        lemma_origin(run, perm, ext, ja);
        lemma_origin(run, perm, ext, jb);
        lemma_wins(run, perm, ext, k_inverse, g3_inverse, ja);
        lemma_wins(run, perm, ext, k_inverse, g3_inverse, jb);
        assert(neutral[ja] != neutral[jb]);
        assert(perm[neutral[ja]] != perm[neutral[jb]]);
        if run.owner(at[a]) == run.owner(at[b]) {
            assert(run.originals[at[a]].receipt.seq_no == run.originals[at[b]].receipt.seq_no);
            if at[a] < at[b] {
                assert(run.originals[at[a]].receipt.seq_no
                    != run.originals[at[b]].receipt.seq_no);
            } else {
                assert(run.originals[at[b]].receipt.seq_no
                    != run.originals[at[a]].receipt.seq_no);
            }
        }
    }
    assert forall|i: int| #[trigger] at.contains(i) <==> run.counts(i) by {
        if at.contains(i) {
            let h = choose|h: int| 0 <= h < at.len() && at[h] == i;
            assert(won.contains(won[h]));
            lemma_wins(run, perm, ext, k_inverse, g3_inverse, won[h]);
        }
        if run.counts(i) {
            let j = lemma_reached(run, perm, ext, g3_inverse, i);
            lemma_wins(run, perm, ext, k_inverse, g3_inverse, j);
            assert(won.contains(j));
            let h = choose|h: int| 0 <= h < won.len() && won[h] == j;
            assert(at[h] == i);
        }
    }
    assert forall|p: Place| p.within(EncrChoiceView::nothing(run.params)) implies #[trigger] run.tally.count(
        p,
    ) == votes_for(run.choices(at), p) by {
        let choices = run.choices(at);
        assert forall|h: int| #![trigger run.kept[h]] 0 <= h < choices.len() implies ct_decrypt(
            run.sk.meg_sk.x1@,
            run.sk.meg_sk.x2@,
            run.kept[h].at(p),
        ) == chosen(choices[h], p) by {
            let j = won[h];
            assert(won.contains(j));
            lemma_origin(run, perm, ext, j);
            lemma_mixed_opens(run, perm, ext, neutral[j]);
            assert(run.kept[h] == run.valid[j].vote.choice@);
            assert(run.sk.opens(run.mixed[neutral[j]].vote@.choice.at(p)) == chosen(
                choices[h],
                p,
            ));
        }
        lemma_few(won, run.valid.len() as int);
        lemma_few_valid(run, perm, ext);
        lemma_sum_counts(
            run.sk.meg_sk.x1@,
            run.sk.meg_sk.x2@,
            run.params,
            choices,
            run.kept,
            p,
        );
        let start = EncrChoiceView::nothing(run.params);
        lemma_sum_shape(start, run.kept);
        let sum = sum_of(start, run.kept);
        match p {
            Place::Party { i } => {},
            Place::Candidate { i, j } => {
                assert(sum.l2[i].len() == start.l2[i].len());
            },
        }
        assert(p.within(sum));
        assert(run.tally.count(p) == run.sk.opens(sum.at(p)));
    }
    at
}

/// A run finds as many votes valid as ballots were cast with the right PIN: the
/// valid votes are those of these ballots, each once.
pub proof fn law_right_pins_are_valid(run: Run, g3_inverse: int) -> (at: Seq<int>)
    requires
        run.done(),
        red(run.pk.params.g3.log() * g3_inverse) == 1,
    ensures
        at.no_duplicates(),
        at.len() == run.valid.len(),
        forall|i: int| #[trigger] at.contains(i) <==> 0 <= i < run.cast.len() && run.right(i),
        forall|j: int|
            #![trigger at[j]]
            0 <= j < at.len() ==> run.valid[j].receipt == run.originals[at[j]].receipt,
{
    let (perm, ext) = choose|perm: Seq<usize>, ext: Seq<ExtendedVote>| #[trigger]
        mixes(run.pk.key(), run.originals, run.mixed, perm, ext);
    let neutral = neutral_positions(run.checks, run.mixed.len() as int);
    let at = neutral.map_values(|k: int| perm[k] as int);
    lemma_neutral(run.checks, run.mixed.len() as int);
    assert forall|a: int, b: int| 0 <= a < at.len() && 0 <= b < at.len() && a != b implies at[a]
        != at[b] by {
        lemma_origin(run, perm, ext, a);
        lemma_origin(run, perm, ext, b);
        assert(neutral[a] != neutral[b]);
        assert(perm[neutral[a]] != perm[neutral[b]]);
    }
    assert forall|i: int| #[trigger] at.contains(i) <==> 0 <= i < run.cast.len() && run.right(i) by {
        if at.contains(i) {
            let j = choose|j: int| 0 <= j < at.len() && at[j] == i;
            lemma_origin(run, perm, ext, j);
            lemma_check(run, perm, ext, g3_inverse, neutral[j]);
        }
        if 0 <= i < run.cast.len() && run.right(i) {
            let j = lemma_reached(run, perm, ext, g3_inverse, i);
            assert(at[j] == i);
        }
    }
    assert forall|j: int| #![trigger at[j]] 0 <= j < at.len() implies run.valid[j].receipt
        == run.originals[at[j]].receipt by {
        lemma_origin(run, perm, ext, j);
    }
    at
}

/// Each registered credential with which a vote was cast under its PIN has one
/// vote that counts.
pub proof fn law_registered_credential_counts(run: Run, i: int) -> (j: int)
    requires
        run.votes_cast(),
        0 <= i < run.cast.len(),
        run.right(i),
        run.is_registered(i),
    ensures
        run.counts(j),
        run.owner(j) == run.owner(i),
{
    let j = lemma_last(run, i, run.cast.len() as int);
    assert(run.is_registered(j)) by {
        let r = choose|r: int|
            0 <= r < run.registered.len() && (#[trigger] run.registered[r]).A.log() == run.owner(i);
        assert(run.registered[r].A.log() == run.owner(j));
    }
    j
}

/// The last vote among the first `n` with the credential of the vote at `i` and
/// its PIN.
proof fn lemma_last(run: Run, i: int, n: int) -> (j: int)
    requires
        0 <= i < run.cast.len(),
        0 <= n <= run.cast.len(),
        run.right(i),
    ensures
        0 <= j < run.cast.len(),
        run.right(j),
        run.owner(j) == run.owner(i),
        forall|h: int|
            #![trigger run.owner(h)]
            0 <= h < n && run.right(h) && run.owner(h) == run.owner(i)
                ==> run.originals[h].receipt.seq_no <= run.originals[j].receipt.seq_no,
    decreases n,
{
    if n == 0 {
        i
    } else {
        let j = lemma_last(run, i, n - 1);
        if run.right(n - 1) && run.owner(n - 1) == run.owner(i)
            && run.originals[n - 1].receipt.seq_no > run.originals[j].receipt.seq_no {
            n - 1
        } else {
            j
        }
    }
}

/// The neutral positions are all positions with a neutral plaintext, in order.
proof fn lemma_neutral(list: Seq<DecOk>, n: int)
    requires
        0 <= n <= list.len(),
    ensures
        forall|x: int| #[trigger]
            neutral_positions(list, n).contains(x) <==> 0 <= x < n && list[x].plaintext.log() == 0,
        neutral_positions(list, n).no_duplicates(),
        neutral_positions(list, n).len() <= n,
    decreases n,
{
    if n > 0 {
        lemma_neutral(list, n - 1);
        let less = neutral_positions(list, n - 1);
        let all = neutral_positions(list, n);
        if list[n - 1].plaintext.log() == 0 {
            assert(all == less.push(n - 1));
            assert forall|x: int| #[trigger] all.contains(x) <==> 0 <= x < n
                && list[x].plaintext.log() == 0 by {
                if less.contains(x) {
                    let h = choose|h: int| 0 <= h < less.len() && less[h] == x;
                    assert(all[h] == x);
                }
                if x == n - 1 {
                    assert(all[less.len() as int] == x);
                }
                if all.contains(x) {
                    let h = choose|h: int| 0 <= h < all.len() && all[h] == x;
                    if h < less.len() {
                        assert(less[h] == x);
                        assert(less.contains(x));
                    }
                }
            }
            assert(!less.contains(n - 1));
            assert forall|a: int, b: int|
                0 <= a < all.len() && 0 <= b < all.len() && a != b implies all[a] != all[b] by {
                if a < less.len() {
                    assert(less.contains(less[a]));
                }
                if b < less.len() {
                    assert(less.contains(less[b]));
                }
            }
        } else {
            assert(all == less);
        }
    }
}

/// A permutation reaches every number.
pub(crate) proof fn lemma_reaches(perm: Seq<usize>, n: int, i: int) -> (k: int)
    requires
        is_permutation(perm, n),
        0 <= i < n,
    ensures
        0 <= k < n,
        perm[k] == i,
{
    let list = perm.map_values(|x: usize| x as int);
    assert(list.no_duplicates());
    list.unique_seq_to_set();
    lemma_int_range(0, n);
    let range = set_int_range(0, n);
    assert forall|x: int| list.to_set().contains(x) implies range.contains(x) by {
        let k = choose|k: int| 0 <= k < list.len() && list[k] == x;
        assert(perm[k] < n);
    }
    vstd::seq_lib::seq_to_set_is_finite(list);
    lemma_subset_equality(list.to_set(), range);
    assert(list.to_set().contains(i));
    choose|k: int| 0 <= k < list.len() && list[k] == i
}

/// There are no more entries in a list without repetition than numbers it can hold.
proof fn lemma_few(list: Seq<int>, n: int)
    requires
        n >= 0,
        list.no_duplicates(),
        forall|x: int| #[trigger] list.contains(x) ==> 0 <= x < n,
    ensures
        list.len() <= n,
{
    list.unique_seq_to_set();
    lemma_int_range(0, n);
    assert(list.to_set().subset_of(set_int_range(0, n))) by {
        assert forall|x: int| list.to_set().contains(x) implies set_int_range(0, n).contains(x) by {
            assert(list.contains(x));
        }
    }
    vstd::set_lib::lemma_len_subset(list.to_set(), set_int_range(0, n));
}

/// A vote that was cast decrypts to what its voter knows.
proof fn lemma_cast_opens(run: Run, i: int)
    requires
        run.params.wf(),
        run.sk.key(run.pk) == run.pk.key(),
        run.was_cast(i),
    ensures
        run.opened(run.originals[i].vote@, run.cast[i]),
        run.originals[i].vote@.covers(run.params),
{
    let c = run.cast[i];
    let key = run.pk.key();
    let (x1, x2) = (run.sk.meg_sk.x1@, run.sk.meg_sk.x2@);
    let x = c.credential.masked_pin.secret(c.guess);
    let a = c.credential.sign.A.log();
    let ext = choose|ext: ExtendedEncrChoice| #[trigger]
        encrypted(ext, key, c.choice) && c.ballot.choice@ == ext.inner();
    lemma_shape(key, c.choice, ext, run.params);
    assert forall|p: Place| p.within(EncrChoiceView::nothing(run.params)) implies run.sk.opens(
        #[trigger] c.ballot.choice@.at(p),
    ) == chosen(c.choice, p) by {
        lemma_place(key, x1, x2, run.params, c.choice, ext, p);
    }
    let auth = choose|auth: ExtendedEncrAuthValues| #[trigger]
        auth.encrypts(c.credential, run.pk, x) && holds_auth(c.ballot.auth, auth);
    let ar = red(a * c.credential.sign.r@);
    let g3x = red(run.pk.params.g3.log() * x);
    law_decrypt_encrypt(x1, x2, key, a, auth.A_enc.random_scalar@);
    law_decrypt_encrypt(x1, x2, key, ar, auth.Ar_enc.random_scalar@);
    law_decrypt_encrypt(x1, x2, key, g3x, auth.g3x_enc.random_scalar@);
    c.credential.sign.A.lemma_bounds();
    lemma_red_small(a);
    lemma_red_twice(a * c.credential.sign.r@);
    lemma_red_twice(run.pk.params.g3.log() * x);
}

/// A mixed vote decrypts to what the voter of its original knows.
proof fn lemma_mixed_opens(run: Run, perm: Seq<usize>, ext: Seq<ExtendedVote>, k: int)
    requires
        run.done(),
        mixes(run.pk.key(), run.originals, run.mixed, perm, ext),
        0 <= k < run.mixed.len(),
    ensures
        0 <= perm[k] < run.cast.len(),
        run.opened(run.mixed[k].vote@, run.cast[perm[k] as int]),
{
    let key = run.pk.key();
    let (x1, x2) = (run.sk.meg_sk.x1@, run.sk.meg_sk.x2@);
    let i = perm[k] as int;
    let views = record_views(run.originals);
    assert(perm[k] < run.originals.len());
    assert(run.was_cast(i));
    lemma_cast_opens(run, i);
    assert forall|h: int| #![trigger views[h]] 0 <= h < views.len() implies views[h].covers(
        run.params,
    ) by {
        assert(run.was_cast(h));
        lemma_cast_opens(run, h);
    }
    assert forall|c: Column| is_column(c, run.params) implies ct_decrypt(
        x1,
        x2,
        #[trigger] run.mixed[k].vote@.at(c),
    ) == ct_decrypt(x1, x2, run.originals[i].vote@.at(c)) by {
        law_mix_keeps_votes(
            key,
            x1,
            x2,
            run.params,
            run.originals,
            run.mixed,
            perm,
            ext,
            k,
            c,
        );
    }
    let (old, new) = (run.originals[i].vote@, run.mixed[k].vote@);
    assert(new.at(Column::A) == new.a && old.at(Column::A) == old.a);
    assert(new.at(Column::Ar) == new.ar && old.at(Column::Ar) == old.ar);
    assert(new.at(Column::G3x) == new.g3x && old.at(Column::G3x) == old.g3x);
    assert forall|p: Place| p.within(EncrChoiceView::nothing(run.params)) implies run.sk.opens(
        #[trigger] new.choice.at(p),
    ) == chosen(run.cast[i].choice, p) by {
        let c = match p {
            Place::Party { i } => Column::Party { i },
            Place::Candidate { i, j } => Column::Candidate { i, j },
        };
        assert(new.at(c) == new.choice.at(p) && old.at(c) == old.choice.at(p));
        assert(run.sk.opens(old.choice.at(p)) == chosen(run.cast[i].choice, p));
    }
}

/// The check of a mixed vote is neutral exactly if its credential was opened
/// with its PIN.
proof fn lemma_check(run: Run, perm: Seq<usize>, ext: Seq<ExtendedVote>, g3_inverse: int, k: int)
    requires
        run.done(),
        red(run.pk.params.g3.log() * g3_inverse) == 1,
        mixes(run.pk.key(), run.originals, run.mixed, perm, ext),
        0 <= k < run.mixed.len(),
    ensures
        run.checks.len() == run.mixed.len(),
        run.checks[k].plaintext.log() == 0 <==> run.right(perm[k] as int),
{
    let i = perm[k] as int;
    let c = run.cast[i];
    let views = record_views(run.mixed);
    let all = checks(run.pk, views, run.controls);
    let g3 = run.pk.params.g3.log();
    lemma_mixed_opens(run, perm, ext, k);
    assert(run.was_cast(i));
    assert(run.checks[k].ciphertext@ == all[k]);
    let signed_x = c.credential.masked_pin.secret(c.pin);
    let voted_x = c.credential.masked_pin.secret(c.guess);
    assert(run.pk.control(run.mixed[k].vote@).made_by(run.y, run.controls[k]));
    law_credential_check(
        run.pk,
        run.sk.meg_sk.x1@,
        run.sk.meg_sk.x2@,
        run.mixed[k].vote@,
        run.controls[k],
        c.credential.sign,
        run.y,
        signed_x,
        voted_x,
    );
    if run.checks[k].plaintext.log() == 0 {
        lemma_order();
        lemma_red_small(0);
        assert(g3 * 0 == 0);
        lemma_red_cancel(g3, g3_inverse, signed_x - voted_x, 0);
        lemma_red_bounds(
            c.credential.masked_pin.masked_x@ - red(
                c.credential.masked_pin.partial_mask@ + c.pin,
            ),
        );
        lemma_red_bounds(
            c.credential.masked_pin.masked_x@ - red(
                c.credential.masked_pin.partial_mask@ + c.guess,
            ),
        );
        if signed_x >= voted_x {
            lemma_red_small(signed_x - voted_x);
        } else {
            lemma_red_sub(0, signed_x - voted_x);
            lemma_red_small(voted_x - signed_x);
        }
        law_pins_open_different_secrets(c.credential.masked_pin, c.pin, c.guess);
    }
}

/// Where a valid vote comes from.
proof fn lemma_origin(run: Run, perm: Seq<usize>, ext: Seq<ExtendedVote>, j: int)
    requires
        run.done(),
        mixes(run.pk.key(), run.originals, run.mixed, perm, ext),
        0 <= j < run.valid.len(),
    ensures
        ({
            let k = neutral_positions(run.checks, run.mixed.len() as int)[j];
            &&& 0 <= k < run.mixed.len()
            &&& run.checks[k].plaintext.log() == 0
            &&& 0 <= perm[k] < run.cast.len()
            &&& run.valid[j].receipt == run.originals[perm[k] as int].receipt
            &&& run.valid[j].vote.choice@ == run.mixed[k].vote@.choice
            &&& run.valid[j].vote.A_enc@ == run.mixed[k].vote@.a
        }),
{
    let at = neutral_positions(run.checks, run.mixed.len() as int);
    lemma_neutral(run.checks, run.mixed.len() as int);
    assert(kept_from(run.valid[j], run.mixed, at[j]));
    assert(at.contains(at[j]));
    assert(perm[at[j]] < run.originals.len());
    assert(run.mixed[at[j]].receipt == run.originals[perm[at[j]] as int].receipt);
}

/// There are no more valid votes than ballots.
proof fn lemma_few_valid(run: Run, perm: Seq<usize>, ext: Seq<ExtendedVote>)
    requires
        run.done(),
        mixes(run.pk.key(), run.originals, run.mixed, perm, ext),
    ensures
        run.valid.len() <= u64::MAX,
{
    lemma_neutral(run.checks, run.mixed.len() as int);
}

/// The valid vote of a ballot that was cast with the PIN.
proof fn lemma_reached(run: Run, perm: Seq<usize>, ext: Seq<ExtendedVote>, g3_inverse: int, i: int) -> (j:
    int)
    requires
        run.done(),
        red(run.pk.params.g3.log() * g3_inverse) == 1,
        mixes(run.pk.key(), run.originals, run.mixed, perm, ext),
        0 <= i < run.cast.len(),
        run.right(i),
    ensures
        0 <= j < run.valid.len(),
        perm[neutral_positions(run.checks, run.mixed.len() as int)[j]] == i,
{
    let at = neutral_positions(run.checks, run.mixed.len() as int);
    let k = lemma_reaches(perm, run.originals.len() as int, i);
    lemma_check(run, perm, ext, g3_inverse, k);
    lemma_neutral(run.checks, run.mixed.len() as int);
    assert(at.contains(k));
    choose|j: int| 0 <= j < at.len() && at[j] == k
}

/// The decrypted fingerprint of a valid vote.
proof fn lemma_vote_fingerprint(run: Run, perm: Seq<usize>, ext: Seq<ExtendedVote>, j: int)
    requires
        run.done(),
        mixes(run.pk.key(), run.originals, run.mixed, perm, ext),
        0 <= j < run.valid.len(),
    ensures
        run.dec_votes.len() == run.valid.len(),
        run.dec_votes[j].plaintext.log() == red(
            run.owner(
                perm[neutral_positions(run.checks, run.mixed.len() as int)[j]] as int,
            ) * run.k,
        ),
{
    let k = neutral_positions(run.checks, run.mixed.len() as int)[j];
    lemma_origin(run, perm, ext, j);
    lemma_mixed_opens(run, perm, ext, k);
    let inputs = fingerprint_inputs(run.mixed_creds, run.valid);
    assert(inputs[1] == record_credentials(run.valid));
    assert(run.fps[1][j] == ct_scale(inputs[1][j], run.k));
    assert(run.dec_votes[j].ciphertext@ == run.fps[1][j]);
    law_decrypt_scale(
        run.sk.meg_sk.x1@,
        run.sk.meg_sk.x2@,
        run.valid[j].vote.A_enc@,
        run.k,
    );
}

/// Whether a fingerprint is one of a registered credential.
proof fn lemma_registered_fingerprint(run: Run, k_inverse: int, sign: RTSignature)
    requires
        run.done(),
        red(run.k * k_inverse) == 1,
    ensures
        among(run.dec_pub, run.dec_pub.len() as int, red(sign.A.log() * run.k)) <==> exists|r: int|
            0 <= r < run.registered.len() && (#[trigger] run.registered[r]).A.log()
                == sign.A.log(),
{
    let key = run.pk.key();
    let (x1, x2) = (run.sk.meg_sk.x1@, run.sk.meg_sk.x2@);
    let (perm, ext) = choose|perm: Seq<usize>, ext: Seq<ExtendedShortPublicACC>| #[trigger]
        credentials_mixed(key, run.creds, run.mixed_creds, perm, ext);
    let inputs = fingerprint_inputs(run.mixed_creds, run.valid);
    let target = red(sign.A.log() * run.k);
    assert(inputs[0] == credentials(run.mixed_creds, run.mixed_creds.len() as int));
    assert(run.dec_pub.len() == run.creds.len());
    assert forall|h: int| 0 <= h < run.dec_pub.len() implies (#[trigger] run.dec_pub[h]).plaintext.log()
        == red(run.registered[perm[h] as int].A.log() * run.k) by {
        let r = perm[h] as int;
        assert(perm[h] < run.creds.len());
        let a = run.registered[r].A.log();
        assert(run.dec_pub[h].ciphertext@ == run.fps[0][h]);
        assert(run.fps[0][h] == ct_scale(run.mixed_creds[h].enc_A@, run.k));
        assert(run.mixed_creds[h].enc_A@ == ext[h].enc_A.inner@);
        law_re_encrypt(x1, x2, key, run.creds[r].enc_A@, ext[h].enc_A.random_scalar@);
        assert(encrypts_signature(key, run.creds[r].enc_A@, run.registered[r]));
        let s = choose|s: int| run.creds[r].enc_A@ == #[trigger] ct_encrypt(key, a, s);
        law_decrypt_encrypt(x1, x2, key, a, s);
        run.registered[r].A.lemma_bounds();
        lemma_red_small(a);
        law_decrypt_scale(x1, x2, run.mixed_creds[h].enc_A@, run.k);
    }
    if among(run.dec_pub, run.dec_pub.len() as int, target) {
        let h = choose|h: int|
            0 <= h < run.dec_pub.len() && (#[trigger] run.dec_pub[h]).plaintext.log() == target;
        let r = perm[h] as int;
        assert(perm[h] < run.creds.len());
        lemma_same_power(run.registered[r], sign, run.k, k_inverse);
        assert(run.registered[r].A.log() == sign.A.log());
    }
    if exists|r: int|
        0 <= r < run.registered.len() && (#[trigger] run.registered[r]).A.log() == sign.A.log() {
        let r = choose|r: int|
            0 <= r < run.registered.len() && (#[trigger] run.registered[r]).A.log()
                == sign.A.log();
        let h = lemma_reaches(perm, run.creds.len() as int, r);
        assert(run.dec_pub[h].plaintext.log() == target);
    }
}

/// Two signatures with one fingerprint have one point.
proof fn lemma_same_power(s: RTSignature, t: RTSignature, k: int, inverse: int)
    requires
        red(k * inverse) == 1,
    ensures
        red(s.A.log() * k) == red(t.A.log() * k) <==> s.A.log() == t.A.log(),
{
    let (a, b) = (s.A.log(), t.A.log());
    s.A.lemma_bounds();
    t.A.lemma_bounds();
    lemma_red_small(a);
    lemma_red_small(b);
    assert(a * k == k * a && b * k == k * b) by (nonlinear_arith);
    if red(a * k) == red(b * k) {
        lemma_red_cancel(k, inverse, a, b);
    }
}

/// A valid vote is kept exactly if its ballot counts.
proof fn lemma_wins(
    run: Run,
    perm: Seq<usize>,
    ext: Seq<ExtendedVote>,
    k_inverse: int,
    g3_inverse: int,
    j: int,
)
    requires
        run.done(),
        red(run.pk.params.g3.log() * g3_inverse) == 1,
        red(run.k * k_inverse) == 1,
        mixes(run.pk.key(), run.originals, run.mixed, perm, ext),
        0 <= j < run.valid.len(),
    ensures
        wins(run.valid, run.dec_pub, run.dec_votes, j) <==> run.counts(
            perm[neutral_positions(run.checks, run.mixed.len() as int)[j]] as int,
        ),
{
    let at = neutral_positions(run.checks, run.mixed.len() as int);
    let i = perm[at[j]] as int;
    lemma_neutral(run.checks, run.mixed.len() as int);
    lemma_origin(run, perm, ext, j);
    lemma_check(run, perm, ext, g3_inverse, at[j]);
    lemma_vote_fingerprint(run, perm, ext, j);
    lemma_registered_fingerprint(run, k_inverse, run.cast[i].credential.sign);
    if wins(run.valid, run.dec_pub, run.dec_votes, j) {
        assert forall|h: int|
            #![trigger run.owner(h)]
            0 <= h < run.cast.len() && run.right(h) && run.owner(h) == run.owner(
                i,
            ) implies run.originals[h].receipt.seq_no <= run.originals[i].receipt.seq_no by {
            let g = lemma_reached(run, perm, ext, g3_inverse, h);
            lemma_origin(run, perm, ext, g);
            lemma_vote_fingerprint(run, perm, ext, g);
            assert(!beaten(run.valid, run.dec_votes, j, g));
        }
    }
    if run.counts(i) {
        assert forall|g: int| 0 <= g < run.valid.len() implies !(#[trigger] beaten(
            run.valid,
            run.dec_votes,
            j,
            g,
        )) by {
            if beaten(run.valid, run.dec_votes, j, g) {
                let h = perm[at[g]] as int;
                lemma_origin(run, perm, ext, g);
                lemma_check(run, perm, ext, g3_inverse, at[g]);
                lemma_vote_fingerprint(run, perm, ext, g);
                lemma_same_power(
                    run.cast[h].credential.sign,
                    run.cast[i].credential.sign,
                    run.k,
                    k_inverse,
                );
                assert(run.owner(h) == run.owner(i));
                if g < j {
                    assert(at[g] != at[j]);
                    assert(perm[at[g]] != perm[at[j]]);
                    if h < i {
                        assert(run.originals[h].receipt.seq_no != run.originals[i].receipt.seq_no);
                    } else {
                        assert(run.originals[i].receipt.seq_no != run.originals[h].receipt.seq_no);
                    }
                }
            }
        }
    }
}

} // verus!
