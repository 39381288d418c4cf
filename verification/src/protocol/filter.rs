//! Filters of the bulletin board: invalid credentials, duplicates, and votes
//! without a registered credential.
//!
//! A fingerprint of a ciphertext is the ciphertext raised to a secret exponent
//! that is common to a list; its decryption tells equal plaintexts apart from
//! different ones.  The caller makes and verifies fingerprints; the functions
//! here take the lists and the outcome of the verification.

use merlin::Transcript;
use vstd::prelude::*;

use crate::arith::{
    lemma_order, lemma_red_add, lemma_red_cancel, lemma_red_small, lemma_red_sub, lemma_red_twice, red,
};
use crate::elgamal::{
    ct_add, ct_decrypt, ct_rows, ct_scale, ct_strip, ct_sub, ct_views, law_decrypt_add,
    law_decrypt_scale, law_decrypt_strip, law_decrypt_sub, Ciphertext, CtView,
};
use crate::error::{CryptoError, Error};
use crate::group::Point;
use crate::proofs::decryption::{held_before, list_holds, list_stopped, verify_list, DecOk};
use crate::proofs::shuffle::{shuffle_fits, Parameters};
use crate::protocol::cred_mix::{credential_list, credentials, MixedCredentials};
use crate::protocol::keys::ElectionPublicKey;
use crate::protocol::mix::vote_views;
use crate::protocol::tally::{ControlView, CredentialControlProof, CredentialControlPublicBorrowed};
use crate::protocol::vote::auth::{
    law_masked_pin, pin_of, MaskedPIN, RTSignature, ShortPublicACC, PIN,
};
use crate::protocol::vote::choice::{EncrChoice, EncrChoiceView};
use crate::protocol::vote::vote::{VerVote, Vote, VoteView, VoteWithEncPubCred};
use crate::text::{decimal, with_number};
use crate::transcript::{copy_transcript, transcript_entries, Entry};

verus! {

impl ElectionPublicKey {
    /// The public values of the control of a vote.
    pub open spec fn control(self, vote: VoteView) -> ControlView {
        ControlView {
            g3: self.params.g3.log(),
            registration_pk: self.registration_pk.log(),
            vote,
            a: vote.a,
        }
    }

    /// The encrypted check of a vote: `[r]A - g1 - [x]g3 + [y]A`.
    pub open spec fn check(self, vote: VoteView, control: CredentialControlProof) -> CtView {
        ct_add(
            ct_sub(ct_strip(vote.ar, self.params.elgamal.g1.log()), vote.g3x),
            control.Ay_enc@,
        )
    }

    /// The encrypted check of a vote; it decrypts to the neutral element where
    /// the credential is valid.
    pub fn gen_credential_check(&self, vote: &Vote, control: &CredentialControlProof) -> (r: Result<
        Ciphertext,
        Error,
    >)
        requires
            vote@.encodable(),
        ensures
            match r {
                Ok(ct) => self.control(vote@).accepts(*control) && ct@ == self.check(
                    vote@,
                    *control,
                ),
                Err(e) => !self.control(vote@).accepts(*control) && e == Error::FailedVerification(
                    CryptoError::CommitmentMismatch,
                ),
            },
    {
        let public = CredentialControlPublicBorrowed::new(
            &self.params.g3,
            &self.registration_pk,
            vote,
            vote.auth.A_enc,
        );
        match control.verify(&public) {
            Ok(()) => {},
            Err(e) => return Err(Error::FailedVerification(e)),
        }
        Ok(
            vote.auth.Ar_enc.hom_sub(&self.params.elgamal.g1).minus(&vote.auth.g3x_enc).plus(
                &control.Ay_enc,
            ),
        )
    }

    /// Whether the control of a vote is accepted and its check was decrypted.
    pub open spec fn checked(self, vote: VoteView, control: CredentialControlProof, d: DecOk) -> bool {
        &&& self.control(vote).accepts(control)
        &&& d.ciphertext@ == self.check(vote, control)
    }

    /// Whether the controls of the first `n` votes are accepted and their checks
    /// were decrypted.
    pub open spec fn all_checked(
        self,
        votes: Seq<VoteView>,
        controls: Seq<CredentialControlProof>,
        decryptions: Seq<DecOk>,
        n: int,
    ) -> bool {
        forall|i: int|
            #![trigger votes[i]]
            0 <= i < n ==> self.checked(votes[i], controls[i], decryptions[i])
    }

    /// Whether the vote at `i` is the first that was not checked, and `e` is the
    /// error for it.
    pub open spec fn unchecked(
        self,
        votes: Seq<VoteView>,
        controls: Seq<CredentialControlProof>,
        decryptions: Seq<DecOk>,
        i: int,
        e: Error,
    ) -> bool {
        &&& 0 <= i < votes.len()
        &&& self.all_checked(votes, controls, decryptions, i)
        &&& !self.checked(votes[i], controls[i], decryptions[i])
        &&& e == if self.control(votes[i]).accepts(controls[i]) {
            Error::FailedVerifiableDecryption(i as usize)
        } else {
            Error::FailedVerification(CryptoError::CommitmentMismatch)
        }
    }

    /// Keeps the votes whose check decrypts to the neutral element, with their
    /// positions.
    pub fn filter_invalid(
        &self,
        votes: &Vec<Vote>,
        controls: &Vec<CredentialControlProof>,
        ver_decryptions: &Vec<DecOk>,
    ) -> (r: Result<Vec<(usize, VoteWithEncPubCred)>, Error>)
        requires
            votes@.len() == controls@.len(),
            controls@.len() == ver_decryptions@.len(),
            all_encodable(vote_views(votes@)),
        ensures
            match r {
                Ok(out) => {
                    &&& self.all_checked(
                        vote_views(votes@),
                        controls@,
                        ver_decryptions@,
                        votes@.len() as int,
                    )
                    &&& positions(out@) == neutral_positions(
                        ver_decryptions@,
                        votes@.len() as int,
                    )
                    &&& forall|k: int|
                        #![trigger out@[k]]
                        0 <= k < out@.len() ==> stripped_from(out@[k], vote_views(votes@))
                },
                Err(e) => exists|i: int| #[trigger]
                    self.unchecked(vote_views(votes@), controls@, ver_decryptions@, i, e),
            },
    {
        let ghost views = vote_views(votes@);
        let mut out: Vec<(usize, VoteWithEncPubCred)> = Vec::new();
        let mut i: usize = 0;
        while i < votes.len()
            invariant
                i <= votes@.len(),
                votes@.len() == controls@.len(),
                controls@.len() == ver_decryptions@.len(),
                views == vote_views(votes@),
                all_encodable(views),
                self.all_checked(views, controls@, ver_decryptions@, i as int),
                positions(out@) == neutral_positions(ver_decryptions@, i as int),
                forall|k: int|
                    #![trigger out@[k]]
                    0 <= k < out@.len() ==> stripped_from(out@[k], views),
            decreases votes@.len() - i,
        {
            proof {
                assert(views[i as int] == votes@[i as int]@);
            }
            let enc_check = match self.gen_credential_check(&votes[i], &controls[i]) {
                Ok(ct) => ct,
                Err(e) => {
                    proof {
                        assert(self.unchecked(views, controls@, ver_decryptions@, i as int, e));
                    }
                    return Err(e);
                },
            };
            if !ver_decryptions[i].ciphertext.equals(&enc_check) {
                proof {
                    assert(self.unchecked(
                        views,
                        controls@,
                        ver_decryptions@,
                        i as int,
                        Error::FailedVerifiableDecryption(i),
                    ));
                }
                return Err(Error::FailedVerifiableDecryption(i));
            }
            if ver_decryptions[i].plaintext.is_identity() {
                let ghost previous = out@;
                out.push((i, votes[i].strip()));
                proof {
                    assert(positions(out@) =~= positions(previous).push(i as int));
                }
            }
            i += 1;
        }
        Ok(out)
    }

    /// Checks controls and decryptions of the checks of all votes.
    pub fn verify_checks(
        &self,
        checks: &Vec<DecOk>,
        controls: &Vec<CredentialControlProof>,
        shuffled: &Vec<Vote>,
        transcript: &mut Transcript,
    ) -> (r: Result<(), Error>)
        requires
            controls@.len() == checks@.len(),
            shuffled@.len() <= controls@.len(),
            all_encodable(vote_views(shuffled@)),
        ensures
            match r {
                Ok(()) => {
                    &&& self.all_checked(
                        vote_views(shuffled@),
                        controls@,
                        checks@,
                        shuffled@.len() as int,
                    )
                    &&& list_holds(
                        checks@,
                        self.key(),
                        transcript_entries(*old(transcript)),
                        shuffled@.len() as int,
                    )
                    &&& transcript_entries(*final(transcript)) == held_before(
                        checks@,
                        self.key(),
                        transcript_entries(*old(transcript)),
                        shuffled@.len() as int,
                    )
                },
                Err(e) => exists|i: int| #[trigger]
                    self.check_fault(
                        vote_views(shuffled@),
                        controls@,
                        checks@,
                        transcript_entries(*old(transcript)),
                        transcript_entries(*final(transcript)),
                        i,
                        e,
                    ),
            },
    {
        let ghost start = transcript_entries(*transcript);
        let ghost key = self.key();
        let ghost views = vote_views(shuffled@);
        let mut i: usize = 0;
        while i < shuffled.len()
            invariant
                i <= shuffled@.len(),
                start == transcript_entries(*old(transcript)),
                key == self.key(),
                controls@.len() == checks@.len(),
                shuffled@.len() <= controls@.len(),
                views == vote_views(shuffled@),
                all_encodable(views),
                self.all_checked(views, controls@, checks@, i as int),
                list_holds(checks@, key, start, i as int),
                transcript_entries(*transcript) == held_before(checks@, key, start, i as int),
            decreases shuffled@.len() - i,
        {
            proof {
                assert(views[i as int] == shuffled@[i as int]@);
            }
            let checked = self.verify_check(&checks[i], &controls[i], &shuffled[i], i, transcript);
            if checked.is_err() {
                proof {
                    assert(self.check_fault(
                        views,
                        controls@,
                        checks@,
                        start,
                        transcript_entries(*transcript),
                        i as int,
                        checked->Err_0,
                    ));
                }
                return checked;
            }
            i += 1;
        }
        Ok(())
    }

    /// Checks control and decryption of the check of the vote at `i`.
    fn verify_check(
        &self,
        check: &DecOk,
        control: &CredentialControlProof,
        vote: &Vote,
        i: usize,
        transcript: &mut Transcript,
    ) -> (r: Result<(), Error>)
        requires
            vote@.encodable(),
        ensures
            match r {
                Ok(()) => {
                    &&& self.checked(vote@, *control, *check)
                    &&& check.holds(self.key(), transcript_entries(*old(transcript)))
                    &&& transcript_entries(*final(transcript)) == check.after(
                        self.key(),
                        transcript_entries(*old(transcript)),
                    )
                },
                Err(e) => {
                    &&& self.check_error(
                        vote@,
                        *control,
                        *check,
                        transcript_entries(*old(transcript)),
                        i as int,
                        e,
                    )
                    &&& transcript_entries(*final(transcript)) == self.check_after(
                        vote@,
                        *control,
                        *check,
                        transcript_entries(*old(transcript)),
                    )
                },
            },
    {
        let enc_check = match self.gen_credential_check(vote, control) {
            Ok(ct) => ct,
            Err(e) => return Err(e),
        };
        if !check.ciphertext.equals(&enc_check) {
            return Err(Error::CiphertextMismatch(with_number("check first failed at index ", i)));
        }
        if check.verify(&self.params.tally, &self.params.elgamal, transcript).is_err() {
            return Err(Error::FailedVerification(CryptoError::CommitmentMismatch));
        }
        Ok(())
    }

    /// Whether the control or the check of the vote at `i` is wrong, where the
    /// transcript holds `entries`, and `e` is the error for it.
    pub open spec fn check_error(
        self,
        vote: VoteView,
        control: CredentialControlProof,
        check: DecOk,
        entries: Seq<Entry>,
        i: int,
        e: Error,
    ) -> bool {
        if !self.control(vote).accepts(control) {
            e == Error::FailedVerification(CryptoError::CommitmentMismatch)
        } else if check.ciphertext@ != self.check(vote, control) {
            e matches Error::CiphertextMismatch(text) && text@ == "check first failed at index "@
                + decimal(i)
        } else {
            &&& !check.holds(self.key(), entries)
            &&& e == Error::FailedVerification(CryptoError::CommitmentMismatch)
        }
    }

    /// What the transcript holds once a check was looked at: its decryption is
    /// verified only where the control is accepted and the check is the vote's.
    pub open spec fn check_after(
        self,
        vote: VoteView,
        control: CredentialControlProof,
        check: DecOk,
        entries: Seq<Entry>,
    ) -> Seq<Entry> {
        if self.checked(vote, control, check) {
            check.after(self.key(), entries)
        } else {
            entries
        }
    }

    /// Whether the vote at `i` is the first whose control or check is wrong, `e` is
    /// the error for it, and the transcript holds `end` then.
    pub open spec fn check_fault(
        self,
        votes: Seq<VoteView>,
        controls: Seq<CredentialControlProof>,
        checks: Seq<DecOk>,
        start: Seq<Entry>,
        end: Seq<Entry>,
        i: int,
        e: Error,
    ) -> bool {
        &&& 0 <= i < votes.len()
        &&& self.all_checked(votes, controls, checks, i)
        &&& list_holds(checks, self.key(), start, i)
        &&& end == self.check_after(
            votes[i],
            controls[i],
            checks[i],
            held_before(checks, self.key(), start, i),
        )
        &&& self.check_error(
            votes[i],
            controls[i],
            checks[i],
            held_before(checks, self.key(), start, i),
            i,
            e,
        )
    }

    /// The ciphertexts of ballots from which fingerprints are made.
    pub fn ballot_fingerprint_inputs(wf_ord: &Vec<VerVote>) -> (r: Vec<Ciphertext>)
        ensures
            ct_views(r@) == ballot_inputs(wf_ord@),
    {
        let mut out: Vec<Ciphertext> = Vec::new();
        let mut i: usize = 0;
        while i < wf_ord.len()
            invariant
                i <= wf_ord@.len(),
                out@.len() == i,
                forall|k: int| #![trigger out@[k]] 0 <= k < i ==> out@[k]@ == wf_ord@[k].auth.ox_enc@,
            decreases wf_ord@.len() - i,
        {
            out.push(wf_ord[i].auth.ox_enc);
            i += 1;
        }
        proof {
            assert(ct_views(out@) =~= ballot_inputs(wf_ord@));
        }
        out
    }

    /// Keeps the first ballot of each fingerprint.
    ///
    /// `fp_lists` are the fingerprints, `verified` is the outcome of their
    /// verification, and the transcript is as that verification left it.
    pub fn filter_duplicates(
        &self,
        wf_ord: Vec<VerVote>,
        fp_lists: &Vec<Vec<Ciphertext>>,
        verified: Result<(), CryptoError>,
        dec_bal_fp: &Vec<DecOk>,
        transcript: &mut Transcript,
    ) -> (r: Result<Vec<VerVote>, Error>)
        ensures
            match r {
                Ok(kept) => {
                    &&& fingerprints_match(ct_rows(fp_lists@), wf_ord@.len() as int, dec_bal_fp@)
                    &&& verified.is_ok()
                    &&& list_holds(
                        dec_bal_fp@,
                        self.key(),
                        transcript_entries(*old(transcript)),
                        dec_bal_fp@.len() as int,
                    )
                    &&& kept@ == pick(wf_ord@, first_positions(dec_bal_fp@, wf_ord@.len() as int))
                    &&& transcript_entries(*final(transcript)) == held_before(
                        dec_bal_fp@,
                        self.key(),
                        transcript_entries(*old(transcript)),
                        dec_bal_fp@.len() as int,
                    )
                },
                Err(Error::InvalidSize(text)) => {
                    &&& text@ == ""@
                    &&& !fingerprints_match(
                        ct_rows(fp_lists@),
                        wf_ord@.len() as int,
                        dec_bal_fp@,
                    )
                    &&& transcript_entries(*final(transcript)) == transcript_entries(
                        *old(transcript),
                    )
                },
                Err(e) => {
                    &&& fingerprints_match(ct_rows(fp_lists@), wf_ord@.len() as int, dec_bal_fp@)
                    &&& match verified {
                        Err(error) => e == Error::FailedVerification(error) && transcript_entries(
                            *final(transcript),
                        ) == transcript_entries(*old(transcript)),
                        Ok(()) => {
                            &&& e == Error::FailedVerification(CryptoError::CommitmentMismatch)
                            &&& !list_holds(
                                dec_bal_fp@,
                                self.key(),
                                transcript_entries(*old(transcript)),
                                dec_bal_fp@.len() as int,
                            )
                            &&& list_stopped(
                                dec_bal_fp@,
                                self.key(),
                                transcript_entries(*old(transcript)),
                                transcript_entries(*final(transcript)),
                            )
                        },
                    }
                },
            },
    {
        let n = wf_ord.len();
        if fp_lists.len() != 1 {
            return Err(Error::InvalidSize("".to_owned()));
        }
        let list = &fp_lists[0];
        proof {
            assert(ct_rows(fp_lists@)[0] == ct_views(list@));
        }
        if list.len() != n {
            return Err(Error::InvalidSize("".to_owned()));
        }
        if n != dec_bal_fp.len() {
            return Err(Error::InvalidSize("".to_owned()));
        }
        let mut i: usize = 0;
        while i < n
            invariant
                i <= n,
                n == list@.len(),
                n == dec_bal_fp@.len(),
                fp_lists@.len() == 1,
                n == wf_ord@.len(),
                ct_rows(fp_lists@)[0] == ct_views(list@),
                forall|k: int|
                    #![trigger dec_bal_fp@[k]]
                    0 <= k < i ==> list@[k]@ == dec_bal_fp@[k].ciphertext@,
            decreases n - i,
        {
            if !list[i].equals(&dec_bal_fp[i].ciphertext) {
                proof {
                    assert(ct_views(list@)[i as int] == list@[i as int]@);
                    assert(ct_rows(fp_lists@)[0][i as int] != dec_bal_fp@[i as int].ciphertext@);
                }
                return Err(Error::InvalidSize("".to_owned()));
            }
            i += 1;
        }
        if let Err(error) = verified {
            return Err(Error::FailedVerification(error));
        }
        let checked = verify_list(
            dec_bal_fp,
            n,
            &self.params.tally,
            &self.params.elgamal,
            transcript,
        );
        if let Err(error) = checked {
            return Err(Error::FailedVerification(error));
        }
        let mut rest = wf_ord;
        let mut filtered: Vec<VerVote> = Vec::new();
        let ghost all = wf_ord@;
        let mut i: usize = 0;
        proof {
            assert(rest@ =~= all.skip(0));
            assert(filtered@ =~= pick(all, first_positions(dec_bal_fp@, 0)));
        }
        while i < n
            invariant
                i <= n,
                n == all.len(),
                n == dec_bal_fp@.len(),
                rest@ == all.skip(i as int),
                filtered@ == pick(all, first_positions(dec_bal_fp@, i as int)),
            decreases n - i,
        {
            let vote = rest.remove(0);
            proof {
                assert(vote == all[i as int]);
                assert(rest@ =~= all.skip(i + 1));
            }
            let used = contains_plaintext(dec_bal_fp, i, &dec_bal_fp[i].plaintext);
            if !used {
                filtered.push(vote);
                proof {
                    assert(filtered@ =~= pick(all, first_positions(dec_bal_fp@, i + 1)));
                }
            }
            i += 1;
        }
        Ok(filtered)
    }

    /// The two lists from which credential fingerprints are made, once the
    /// credential mix is accepted: those of the mixed credentials and those of
    /// the valid votes.  The mix is verified on a copy of the transcript, so that
    /// the fingerprints start from what it holds now.
    pub fn credential_fingerprint_inputs(
        &self,
        par: &Parameters,
        originals: &Vec<ShortPublicACC>,
        shuffled: &Vec<ShortPublicACC>,
        mix: &MixedCredentials,
        valid_votes: &Vec<VoteWithEncPubCred>,
        transcript: &Transcript,
    ) -> (r: Result<Vec<Vec<Ciphertext>>, Error>)
        requires
            par.wf(),
            par.list_len >= 1,
            par.list_len == originals@.len(),
            shuffle_fits(mix.core_proof.parts(), par.list_len as int),
            shuffled@.len() >= originals@.len(),
        ensures
            match r {
                Ok(lists) => {
                    &&& mix.accepted(
                        *self,
                        *par,
                        originals@,
                        shuffled@,
                        transcript_entries(*transcript),
                    )
                    &&& ct_rows(lists@) == credential_inputs(shuffled@, valid_votes@)
                },
                Err(e) => {
                    &&& !mix.accepted(
                        *self,
                        *par,
                        originals@,
                        shuffled@,
                        transcript_entries(*transcript),
                    )
                    &&& e == Error::FailedVerification(
                        mix.refusal(*par, transcript_entries(*transcript)),
                    )
                },
            },
    {
        let mut copy = copy_transcript(transcript);
        match mix.verify(self, par, originals, shuffled, &mut copy) {
            Ok(()) => {},
            Err(e) => return Err(e),
        }
        Ok(fingerprint_lists(shuffled, valid_votes))
    }

    /// Keeps the votes whose fingerprint is one of a registered credential.
    ///
    /// `verified` is the outcome of the verification of the fingerprints, and
    /// the transcript is as that verification left it.  All decryptions are checked.
    pub fn filter_illicit(
        &self,
        valid_votes: &Vec<VoteWithEncPubCred>,
        shuffled: &Vec<ShortPublicACC>,
        fp_lists: &Vec<Vec<Ciphertext>>,
        verified: Result<(), CryptoError>,
        dec_pub_fp: &Vec<DecOk>,
        dec_votes_fp: &Vec<DecOk>,
        transcript: &mut Transcript,
    ) -> (r: Result<Vec<EncrChoice>, Error>)
        requires
            dec_votes_fp@.len() == valid_votes@.len(),
            dec_pub_fp@.len() == shuffled@.len(),
            lists_match(ct_rows(fp_lists@), dec_pub_fp@, dec_votes_fp@),
        ensures
            match r {
                Ok(kept) => {
                    &&& self.fingerprints_decrypted(
                        verified,
                        dec_pub_fp@,
                        dec_votes_fp@,
                        transcript_entries(*old(transcript)),
                    ).is_ok()
                    &&& choice_views(kept@) == picked_choices(
                        valid_votes@,
                        registered_positions(
                            dec_pub_fp@,
                            dec_votes_fp@,
                            valid_votes@.len() as int,
                        ),
                    )
                    &&& transcript_entries(*final(transcript)) == self.fingerprints_after(
                        dec_pub_fp@,
                        dec_votes_fp@,
                        transcript_entries(*old(transcript)),
                    )
                },
                Err(e) => self.fingerprints_decrypted(
                    verified,
                    dec_pub_fp@,
                    dec_votes_fp@,
                    transcript_entries(*old(transcript)),
                ) == Err::<(), Error>(e),
            },
            verified.is_err() ==> transcript_entries(*final(transcript)) == transcript_entries(
                *old(transcript),
            ),
            r.is_err() && verified.is_ok() ==> self.fingerprints_stopped(
                dec_pub_fp@,
                dec_votes_fp@,
                transcript_entries(*old(transcript)),
                transcript_entries(*final(transcript)),
            ),
    {
        match self.verify_fingerprints(verified, dec_pub_fp, dec_votes_fp, transcript) {
            Ok(()) => {},
            Err(e) => return Err(e),
        }
        let mut legitimate: Vec<EncrChoice> = Vec::new();
        let mut i: usize = 0;
        proof {
            assert(choice_views(legitimate@) =~= picked_choices(
                valid_votes@,
                registered_positions(dec_pub_fp@, dec_votes_fp@, 0),
            ));
        }
        while i < valid_votes.len()
            invariant
                i <= valid_votes@.len(),
                dec_votes_fp@.len() == valid_votes@.len(),
                choice_views(legitimate@) == picked_choices(
                    valid_votes@,
                    registered_positions(dec_pub_fp@, dec_votes_fp@, i as int),
                ),
            decreases valid_votes@.len() - i,
        {
            if contains_plaintext(dec_pub_fp, dec_pub_fp.len(), &dec_votes_fp[i].plaintext) {
                let choice = valid_votes[i].choice.clone();
                let ghost previous = legitimate@;
                legitimate.push(choice);
                proof {
                    assert(choice_views(legitimate@) =~= choice_views(previous).push(choice@));
                    assert(choice_views(legitimate@) =~= picked_choices(
                        valid_votes@,
                        registered_positions(dec_pub_fp@, dec_votes_fp@, i + 1),
                    ));
                }
            }
            i += 1;
        }
        Ok(legitimate)
    }

    /// What is said to the fingerprints and their decryptions.
    pub open spec fn fingerprints_decrypted(
        self,
        verified: Result<(), CryptoError>,
        dec_pub: Seq<DecOk>,
        dec_votes: Seq<DecOk>,
        start: Seq<Entry>,
    ) -> Result<(), Error> {
        let n = dec_pub.len() as int;
        let m = dec_votes.len() as int;
        match verified {
            Err(error) => Err(Error::FailedVerification(error)),
            Ok(()) => if list_holds(dec_pub, self.key(), start, n) && list_holds(
                dec_votes,
                self.key(),
                held_before(dec_pub, self.key(), start, n),
                m,
            ) {
                Ok(())
            } else {
                Err(Error::FailedVerification(CryptoError::CommitmentMismatch))
            },
        }
    }

    /// What the transcript holds once all decryptions of fingerprints were made
    /// or checked.
    pub open spec fn fingerprints_after(
        self,
        dec_pub: Seq<DecOk>,
        dec_votes: Seq<DecOk>,
        start: Seq<Entry>,
    ) -> Seq<Entry> {
        held_before(
            dec_votes,
            self.key(),
            held_before(dec_pub, self.key(), start, dec_pub.len() as int),
            dec_votes.len() as int,
        )
    }

    /// Whether the decryptions of fingerprints were checked up to the first that
    /// is not valid, and the transcript holds `end` then.
    pub open spec fn fingerprints_stopped(
        self,
        dec_pub: Seq<DecOk>,
        dec_votes: Seq<DecOk>,
        start: Seq<Entry>,
        end: Seq<Entry>,
    ) -> bool {
        let n = dec_pub.len() as int;
        if list_holds(dec_pub, self.key(), start, n) {
            list_stopped(dec_votes, self.key(), held_before(dec_pub, self.key(), start, n), end)
        } else {
            list_stopped(dec_pub, self.key(), start, end)
        }
    }

    /// Checks the decryptions of fingerprints.
    pub(crate) fn verify_fingerprints(
        &self,
        verified: Result<(), CryptoError>,
        dec_pub_fp: &Vec<DecOk>,
        dec_votes_fp: &Vec<DecOk>,
        transcript: &mut Transcript,
    ) -> (r: Result<(), Error>)
        ensures
            r == self.fingerprints_decrypted(
                verified,
                dec_pub_fp@,
                dec_votes_fp@,
                transcript_entries(*old(transcript)),
            ),
            r.is_ok() ==> transcript_entries(*final(transcript)) == self.fingerprints_after(
                dec_pub_fp@,
                dec_votes_fp@,
                transcript_entries(*old(transcript)),
            ),
            verified.is_err() ==> transcript_entries(*final(transcript)) == transcript_entries(
                *old(transcript),
            ),
            r.is_err() && verified.is_ok() ==> self.fingerprints_stopped(
                dec_pub_fp@,
                dec_votes_fp@,
                transcript_entries(*old(transcript)),
                transcript_entries(*final(transcript)),
            ),
    {
        if let Err(error) = verified {
            return Err(Error::FailedVerification(error));
        }
        let n = dec_pub_fp.len();
        let tally = &self.params.tally;
        let elgamal = &self.params.elgamal;
        match verify_list(dec_pub_fp, n, tally, elgamal, transcript) {
            Ok(()) => {},
            Err(error) => return Err(Error::FailedVerification(error)),
        }
        match verify_list(dec_votes_fp, dec_votes_fp.len(), tally, elgamal, transcript) {
            Ok(()) => Ok(()),
            Err(error) => Err(Error::FailedVerification(error)),
        }
    }
}

/// The lists from which credential fingerprints are made.
pub fn fingerprint_lists(shuffled: &Vec<ShortPublicACC>, valid_votes: &Vec<VoteWithEncPubCred>) -> (r:
    Vec<Vec<Ciphertext>>)
    ensures
        ct_rows(r@) == credential_inputs(shuffled@, valid_votes@),
{
    let first = credential_list(shuffled, shuffled.len());
    let mut second: Vec<Ciphertext> = Vec::new();
    let mut i: usize = 0;
    while i < valid_votes.len()
        invariant
            i <= valid_votes@.len(),
            second@.len() == i,
            forall|k: int| #![trigger second@[k]] 0 <= k < i ==> second@[k]@ == valid_votes@[k].A_enc@,
        decreases valid_votes@.len() - i,
    {
        second.push(valid_votes[i].A_enc);
        i += 1;
    }
    proof {
        assert(ct_views(second@) =~= vote_credentials(valid_votes@));
    }
    let mut lists: Vec<Vec<Ciphertext>> = Vec::new();
    lists.push(first);
    lists.push(second);
    proof {
        assert(ct_rows(lists@) =~= credential_inputs(shuffled@, valid_votes@));
    }
    lists
}

/// The encrypted signatures of votes.
pub open spec fn vote_credentials(votes: Seq<VoteWithEncPubCred>) -> Seq<CtView> {
    votes.map_values(|v: VoteWithEncPubCred| v.A_enc@)
}

/// The lists from which credential fingerprints are made.
pub open spec fn credential_inputs(
    shuffled: Seq<ShortPublicACC>,
    votes: Seq<VoteWithEncPubCred>,
) -> Seq<Seq<CtView>> {
    seq![credentials(shuffled, shuffled.len() as int), vote_credentials(votes)]
}

/// The ciphertexts of ballots from which fingerprints are made.
pub open spec fn ballot_inputs(ballots: Seq<VerVote>) -> Seq<CtView> {
    ballots.map_values(|b: VerVote| b.auth.ox_enc@)
}

/// Whether there is one list with a fingerprint for each of `n` ballots, and the
/// decryptions are of these.
pub open spec fn fingerprints_match(lists: Seq<Seq<CtView>>, n: int, decryptions: Seq<DecOk>) -> bool {
    &&& lists.len() == 1
    &&& lists[0].len() == n
    &&& decryptions.len() == n
    &&& forall|i: int|
        #![trigger decryptions[i]]
        0 <= i < n ==> lists[0][i] == decryptions[i].ciphertext@
}

/// Whether the decryptions are those of the ciphertexts of a list.
pub open spec fn list_matches(list: Seq<CtView>, decryptions: Seq<DecOk>) -> bool {
    &&& list.len() == decryptions.len()
    &&& forall|i: int|
        #![trigger decryptions[i]]
        0 <= i < list.len() ==> list[i] == decryptions[i].ciphertext@
}

/// Whether there are two lists of fingerprints, and the decryptions are of
/// these: of the credentials, and of the votes.
pub open spec fn lists_match(lists: Seq<Seq<CtView>>, dec_pub: Seq<DecOk>, dec_votes: Seq<DecOk>) -> bool {
    &&& lists.len() == 2
    &&& list_matches(lists[0], dec_pub)
    &&& list_matches(lists[1], dec_votes)
}

/// Whether the decryptions are those of the ciphertexts of a list.
fn matches_list(list: &Vec<Ciphertext>, decryptions: &Vec<DecOk>) -> (r: bool)
    ensures
        r == list_matches(ct_views(list@), decryptions@),
{
    if list.len() != decryptions.len() {
        return false;
    }
    let ghost views = ct_views(list@);
    let mut i: usize = 0;
    while i < list.len()
        invariant
            i <= list@.len(),
            list@.len() == decryptions@.len(),
            views == ct_views(list@),
            forall|k: int|
                #![trigger decryptions@[k]]
                0 <= k < i ==> views[k] == decryptions@[k].ciphertext@,
        decreases list@.len() - i,
    {
        if !list[i].equals(&decryptions[i].ciphertext) {
            proof {
                assert(views[i as int] != decryptions@[i as int].ciphertext@);
            }
            return false;
        }
        i += 1;
    }
    true
}

/// Whether there are two lists of fingerprints, and the decryptions are of
/// these.
pub fn fingerprints_agree(
    fp_lists: &Vec<Vec<Ciphertext>>,
    dec_pub_fp: &Vec<DecOk>,
    dec_votes_fp: &Vec<DecOk>,
) -> (r: bool)
    ensures
        r == lists_match(ct_rows(fp_lists@), dec_pub_fp@, dec_votes_fp@),
{
    if fp_lists.len() != 2 {
        return false;
    }
    proof {
        assert(ct_rows(fp_lists@)[0] == ct_views(fp_lists@[0]@));
        assert(ct_rows(fp_lists@)[1] == ct_views(fp_lists@[1]@));
    }
    matches_list(&fp_lists[0], dec_pub_fp) && matches_list(&fp_lists[1], dec_votes_fp)
}

/// Whether every vote can be encoded.
pub open spec fn all_encodable(votes: Seq<VoteView>) -> bool {
    forall|i: int| #![trigger votes[i]] 0 <= i < votes.len() ==> votes[i].encodable()
}

/// Whether an entry holds choice and credential of the vote at its position.
pub open spec fn stripped_from(entry: (usize, VoteWithEncPubCred), votes: Seq<VoteView>) -> bool {
    &&& entry.0 < votes.len()
    &&& entry.1.choice@ == votes[entry.0 as int].choice
    &&& entry.1.A_enc@ == votes[entry.0 as int].a
}

/// The positions of votes.
pub open spec fn positions(votes: Seq<(usize, VoteWithEncPubCred)>) -> Seq<int> {
    votes.map_values(|v: (usize, VoteWithEncPubCred)| v.0 as int)
}

/// The positions below `n` at which the plaintext is neutral, in order.
pub open spec fn neutral_positions(list: Seq<DecOk>, n: int) -> Seq<int>
    decreases n,
{
    if n <= 0 {
        seq![]
    } else if list[n - 1].plaintext.log() == 0 {
        neutral_positions(list, n - 1).push(n - 1)
    } else {
        neutral_positions(list, n - 1)
    }
}

/// Whether one of the first `n` plaintexts has this logarithm.
pub open spec fn among(list: Seq<DecOk>, n: int, log: int) -> bool {
    exists|k: int| 0 <= k < n && (#[trigger] list[k]).plaintext.log() == log
}

/// The positions below `n` whose plaintext does not occur before, in order.
pub open spec fn first_positions(list: Seq<DecOk>, n: int) -> Seq<int>
    decreases n,
{
    if n <= 0 {
        seq![]
    } else if among(list, n - 1, list[n - 1].plaintext.log()) {
        first_positions(list, n - 1)
    } else {
        first_positions(list, n - 1).push(n - 1)
    }
}

/// The positions below `n` whose fingerprint is one of a registered credential,
/// in order.
pub open spec fn registered_positions(registered: Seq<DecOk>, votes: Seq<DecOk>, n: int) -> Seq<int>
    decreases n,
{
    if n <= 0 {
        seq![]
    } else if among(registered, registered.len() as int, votes[n - 1].plaintext.log()) {
        registered_positions(registered, votes, n - 1).push(n - 1)
    } else {
        registered_positions(registered, votes, n - 1)
    }
}

/// The elements at the given positions.
pub open spec fn pick<T>(list: Seq<T>, at: Seq<int>) -> Seq<T> {
    at.map_values(|i: int| list[i])
}

/// The encrypted choices.
pub open spec fn choice_views(choices: Seq<EncrChoice>) -> Seq<EncrChoiceView> {
    choices.map_values(|c: EncrChoice| c@)
}

/// The encrypted choices of the votes at the given positions.
pub open spec fn picked_choices(votes: Seq<VoteWithEncPubCred>, at: Seq<int>) -> Seq<EncrChoiceView> {
    at.map_values(|i: int| votes[i].choice@)
}

/// Whether one of the first `n` plaintexts is this point.
pub fn contains_plaintext(list: &Vec<DecOk>, n: usize, point: &Point) -> (r: bool)
    requires
        n <= list@.len(),
    ensures
        r == among(list@, n as int, point.log()),
{
    let mut i: usize = 0;
    while i < n
        invariant
            i <= n <= list@.len(),
            !among(list@, i as int, point.log()),
        decreases n - i,
    {
        if list[i].plaintext.equals(point) {
            proof {
                assert(list@[i as int].plaintext.log() == point.log());
            }
            return true;
        }
        proof {
            assert forall|k: int| 0 <= k < i + 1 implies (#[trigger] list@[k]).plaintext.log()
                != point.log() by {
                if k < i {
                    assert(!(list@[k].plaintext.log() == point.log()));
                }
            }
        }
        i += 1;
    }
    false
}

/// What the check of a vote decrypts to: the difference between the secret that
/// was signed and the one that was voted with, times `g3`.  It is the neutral
/// element where the credential was opened with the right PIN.
pub proof fn law_credential_check(
    pk: ElectionPublicKey,
    x1: int,
    x2: int,
    vote: VoteView,
    control: CredentialControlProof,
    sign: RTSignature,
    y: int,
    signed_x: int,
    voted_x: int,
)
    requires
        sign.signs(pk.params, y, signed_x),
        ct_decrypt(x1, x2, vote.a) == sign.A.log(),
        ct_decrypt(x1, x2, vote.ar) == red(sign.A.log() * sign.r@),
        ct_decrypt(x1, x2, vote.g3x) == red(pk.params.g3.log() * voted_x),
        control.Ay_enc@ == ct_scale(vote.a, y),
    ensures
        ct_decrypt(x1, x2, pk.check(vote, control)) == red(
            pk.params.g3.log() * (signed_x - voted_x),
        ),
        signed_x == voted_x ==> ct_decrypt(x1, x2, pk.check(vote, control)) == 0,
{
    let g1 = pk.params.elgamal.g1.log();
    let g3 = pk.params.g3.log();
    let a = sign.A.log();
    let r = sign.r@;
    let first = ct_strip(vote.ar, g1);
    let second = ct_sub(first, vote.g3x);
    law_decrypt_strip(x1, x2, vote.ar, g1);
    law_decrypt_sub(x1, x2, first, vote.g3x);
    law_decrypt_add(x1, x2, second, control.Ay_enc@);
    law_decrypt_scale(x1, x2, vote.a, y);
    lemma_red_sub(a * r, g1);
    lemma_red_sub(a * r - g1, g3 * voted_x);
    lemma_red_add(a * r - g1 - g3 * voted_x, a * y);
    assert(a * r - g1 - g3 * voted_x + a * y == a * (r + y) - (g1 + g3 * voted_x)) by (nonlinear_arith);
    lemma_red_sub(a * (r + y), g1 + g3 * voted_x);
    lemma_red_sub(g1 + g3 * signed_x, g1 + g3 * voted_x);
    assert(g1 + g3 * signed_x - (g1 + g3 * voted_x) == g3 * (signed_x - voted_x)) by (nonlinear_arith);
    if signed_x == voted_x {
        assert(g3 * 0 == 0);
        lemma_order();
        lemma_red_small(0);
    }
}

/// The check of a vote decrypts to the neutral element exactly where the voter
/// opened the credential with its PIN, where `g3` generates the group.
pub proof fn law_pin_decides(
    pk: ElectionPublicKey,
    x1: int,
    x2: int,
    vote: VoteView,
    control: CredentialControlProof,
    sign: RTSignature,
    y: int,
    pin: PIN,
    masked: MaskedPIN,
    guess: int,
    inverse: int,
)
    requires
        red(pk.params.g3.log() * inverse) == 1,
        masked.masked_x@ == red(pin.x@ + pin.mask@),
        masked.partial_mask@ == red(pin.mask@ - pin_of(pin.mask@)),
        0 <= guess <= u64::MAX,
        sign.signs(pk.params, y, pin.x@),
        ct_decrypt(x1, x2, vote.a) == sign.A.log(),
        ct_decrypt(x1, x2, vote.ar) == red(sign.A.log() * sign.r@),
        ct_decrypt(x1, x2, vote.g3x) == red(pk.params.g3.log() * masked.secret(guess)),
        control.Ay_enc@ == ct_scale(vote.a, y),
    ensures
        ct_decrypt(x1, x2, pk.check(vote, control)) == 0 <==> guess == pin_of(pin.mask@),
{
    let g3 = pk.params.g3.log();
    let value = pin_of(pin.mask@);
    let voted = masked.secret(guess);
    law_masked_pin(pin, masked, guess);
    law_credential_check(pk, x1, x2, vote, control, sign, y, pin.x@, voted);
    if ct_decrypt(x1, x2, pk.check(vote, control)) == 0 {
        lemma_order();
        lemma_red_small(0);
        assert(g3 * 0 == 0);
        lemma_red_cancel(g3, inverse, pin.x@ - voted, 0);
        lemma_red_sub(pin.x@, pin.x@ + value - guess);
        assert(pin.x@ - (pin.x@ + value - guess) == guess - value);
        if guess >= value {
            lemma_red_small(guess - value);
        } else {
            lemma_red_sub(0, guess - value);
            lemma_red_small(value - guess);
        }
    }
}

/// Fingerprints raise ciphertexts to one secret exponent: two fingerprints
/// decrypt to the same point exactly where the ciphertexts do, as long as the
/// exponent has an inverse.
pub proof fn law_fingerprints(x1: int, x2: int, a: CtView, b: CtView, k: int, inverse: int)
    requires
        red(k * inverse) == 1,
    ensures
        ct_decrypt(x1, x2, ct_scale(a, k)) == ct_decrypt(x1, x2, ct_scale(b, k)) <==> ct_decrypt(
            x1,
            x2,
            a,
        ) == ct_decrypt(x1, x2, b),
{
    let da = ct_decrypt(x1, x2, a);
    let db = ct_decrypt(x1, x2, b);
    law_decrypt_scale(x1, x2, a, k);
    law_decrypt_scale(x1, x2, b, k);
    if ct_decrypt(x1, x2, ct_scale(a, k)) == ct_decrypt(x1, x2, ct_scale(b, k)) {
        assert(da * k == k * da && db * k == k * db) by (nonlinear_arith);
        lemma_red_cancel(k, inverse, da, db);
        lemma_red_twice(a.b - (x1 * a.r1 + x2 * a.r2));
        lemma_red_twice(b.b - (x1 * b.r1 + x2 * b.r2));
    }
}

} // verus!
