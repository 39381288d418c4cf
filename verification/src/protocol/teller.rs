//! The secret key of the tally, and what is decrypted with it.

use merlin::Transcript;
use rand::rngs::StdRng;
use vstd::prelude::*;

use crate::elgamal::{
    ct_decrypt, ct_rows, ct_views, dlog_table_values, table_lookup, Ciphertext, CtView, DlogTable,
    SecretKey,
};
use crate::error::{CryptoError, DecryptionError, Error};
use crate::proofs::decryption::{
    decrypt_list, decrypts, held_before, lemma_one_more, list_holds, DecOk,
};
use crate::protocol::filter::all_encodable;
use crate::protocol::keys::ElectionPublicKey;
use crate::protocol::mix::vote_views;
use crate::protocol::tally::{
    held_at, held_before_party, CredentialControlProof, DecryptedTally, Place, Tally,
};
use crate::protocol::vote::auth::ShortPublicACC;
use crate::protocol::vote::choice::{EncrChoice, EncrChoiceView};
use crate::protocol::vote::vote::{Vote, VoteView, VoteWithEncPubCred};
use crate::transcript::{transcript_entries, Entry};

verus! {

/// The secret key of the tally.
#[derive(Clone, Copy, Debug)]
pub struct TTSecretKey {
    pub meg_sk: SecretKey,
}

impl TTSecretKey {
    /// A random secret key.
    pub fn new(rng: &mut StdRng) -> Self {
        TTSecretKey { meg_sk: SecretKey::new(rng) }
    }

    /// The key triple that belongs to the secret key.
    pub open spec fn key(self, pk: ElectionPublicKey) -> CtView {
        self.meg_sk.key(pk.params.elgamal)
    }

    /// What a ciphertext decrypts to.
    pub open spec fn opens(self, ct: CtView) -> int {
        ct_decrypt(self.meg_sk.x1@, self.meg_sk.x2@, ct)
    }

    /// Decrypts the fingerprints of ballots.
    ///
    /// `verified` is the outcome of the verification of the fingerprints, and
    /// the transcript is as that verification left it.
    pub fn decrypt_ballot_fingerprints(
        &self,
        election_pk: &ElectionPublicKey,
        fp_lists: &Vec<Vec<Ciphertext>>,
        verified: Result<(), CryptoError>,
        transcript: &mut Transcript,
        rng: &mut StdRng,
    ) -> (r: Result<Vec<DecOk>, Error>)
        requires
            verified.is_ok() ==> fp_lists@.len() >= 1,
        ensures
            match r {
                Ok(list) => {
                    &&& verified.is_ok()
                    &&& decrypts(list@, self.meg_sk, ct_rows(fp_lists@)[0])
                    &&& list_holds(
                        list@,
                        self.key(*election_pk),
                        transcript_entries(*old(transcript)),
                        list@.len() as int,
                    )
                    &&& transcript_entries(*final(transcript)) == held_before(
                        list@,
                        self.key(*election_pk),
                        transcript_entries(*old(transcript)),
                        list@.len() as int,
                    )
                },
                Err(e) => {
                    &&& verified.is_err()
                    &&& e == Error::FailedVerification(verified->Err_0)
                    &&& transcript_entries(*final(transcript)) == transcript_entries(
                        *old(transcript),
                    )
                },
            },
    {
        if let Err(error) = verified {
            return Err(Error::FailedVerification(error));
        }
        proof {
            assert(ct_rows(fp_lists@)[0] == ct_views(fp_lists@[0]@));
        }
        Ok(
            decrypt_list(
                &self.meg_sk,
                &election_pk.params.elgamal,
                &fp_lists[0],
                transcript,
                rng,
            ),
        )
    }

    /// Decrypts the fingerprints of credentials and of votes.
    ///
    /// `verified` is the outcome of the verification of the fingerprints, and
    /// the transcript is as that verification left it.
    pub fn decrypt_credential_fingerprints(
        &self,
        election_pk: &ElectionPublicKey,
        valid_votes: &Vec<VoteWithEncPubCred>,
        fp_lists: &Vec<Vec<Ciphertext>>,
        verified: Result<(), CryptoError>,
        shuffled: &Vec<ShortPublicACC>,
        transcript: &mut Transcript,
        rng: &mut StdRng,
    ) -> (r: Result<(Vec<DecOk>, Vec<DecOk>), Error>)
        requires
            fp_lists@.len() == 2,
            fp_lists@[0]@.len() == shuffled@.len(),
            fp_lists@[1]@.len() == valid_votes@.len(),
        ensures
            match r {
                Ok(lists) => {
                    &&& verified.is_ok()
                    &&& decrypts(lists.0@, self.meg_sk, ct_rows(fp_lists@)[0])
                    &&& decrypts(lists.1@, self.meg_sk, ct_rows(fp_lists@)[1])
                    &&& list_holds(
                        lists.0@,
                        self.key(*election_pk),
                        transcript_entries(*old(transcript)),
                        lists.0@.len() as int,
                    )
                    &&& list_holds(
                        lists.1@,
                        self.key(*election_pk),
                        held_before(
                            lists.0@,
                            self.key(*election_pk),
                            transcript_entries(*old(transcript)),
                            lists.0@.len() as int,
                        ),
                        lists.1@.len() as int,
                    )
                    &&& transcript_entries(*final(transcript)) == held_before(
                        lists.1@,
                        self.key(*election_pk),
                        held_before(
                            lists.0@,
                            self.key(*election_pk),
                            transcript_entries(*old(transcript)),
                            lists.0@.len() as int,
                        ),
                        lists.1@.len() as int,
                    )
                },
                Err(e) => {
                    &&& verified.is_err()
                    &&& e == Error::FailedVerification(verified->Err_0)
                    &&& transcript_entries(*final(transcript)) == transcript_entries(
                        *old(transcript),
                    )
                },
            },
    {
        if let Err(error) = verified {
            return Err(Error::FailedVerification(error));
        }
        proof {
            assert(ct_rows(fp_lists@)[0] == ct_views(fp_lists@[0]@));
            assert(ct_rows(fp_lists@)[1] == ct_views(fp_lists@[1]@));
        }
        let params = &election_pk.params.elgamal;
        let first = decrypt_list(&self.meg_sk, params, &fp_lists[0], transcript, rng);
        let second = decrypt_list(&self.meg_sk, params, &fp_lists[1], transcript, rng);
        Ok((first, second))
    }

    /// Decrypts the credential checks of votes.
    #[allow(non_snake_case)]
    #[verifier::spinoff_prover]
    #[verifier::rlimit(40)]
    pub fn gen_ACC_checks(
        &self,
        election_pk: &ElectionPublicKey,
        votes: &Vec<Vote>,
        controls: &Vec<CredentialControlProof>,
        rng: &mut StdRng,
        transcript: &mut Transcript,
    ) -> (r: Result<Vec<DecOk>, Error>)
        requires
            controls@.len() == votes@.len(),
            all_encodable(vote_views(votes@)),
        ensures
            match r {
                Ok(list) => {
                    &&& controls_accepted(
                        *election_pk,
                        vote_views(votes@),
                        controls@,
                        votes@.len() as int,
                    )
                    &&& decrypts(
                        list@,
                        self.meg_sk,
                        checks(*election_pk, vote_views(votes@), controls@),
                    )
                    &&& list_holds(
                        list@,
                        self.key(*election_pk),
                        transcript_entries(*old(transcript)),
                        list@.len() as int,
                    )
                    &&& transcript_entries(*final(transcript)) == held_before(
                        list@,
                        self.key(*election_pk),
                        transcript_entries(*old(transcript)),
                        list@.len() as int,
                    )
                },
                Err(Error::FailedCredentialControl(i)) => {
                    &&& i < votes@.len()
                    &&& !election_pk.control(votes@[i as int]@).accepts(controls@[i as int])
                    &&& controls_accepted(
                        *election_pk,
                        vote_views(votes@),
                        controls@,
                        i as int,
                    )
                    &&& exists|done: Seq<DecOk>|
                        {
                            &&& #[trigger] decrypts(
                                done,
                                self.meg_sk,
                                checks(*election_pk, vote_views(votes@), controls@).take(i as int),
                            )
                            &&& list_holds(
                                done,
                                self.key(*election_pk),
                                transcript_entries(*old(transcript)),
                                i as int,
                            )
                            &&& transcript_entries(*final(transcript)) == held_before(
                                done,
                                self.key(*election_pk),
                                transcript_entries(*old(transcript)),
                                i as int,
                            )
                        }
                },
                Err(_) => false,
            },
    {
        let mut out: Vec<DecOk> = Vec::new();
        let ghost start = transcript_entries(*transcript);
        let ghost key = self.key(*election_pk);
        let ghost views = vote_views(votes@);
        let ghost all = checks(*election_pk, views, controls@);
        let mut i: usize = 0;
        while i < controls.len()
            invariant
                i <= controls@.len(),
                controls@.len() == votes@.len(),
                key == self.key(*election_pk),
                views == vote_views(votes@),
                all == checks(*election_pk, views, controls@),
                start == transcript_entries(*old(transcript)),
                all_encodable(views),
                controls_accepted(*election_pk, views, controls@, i as int),
                out@.len() == i,
                decrypts(out@, self.meg_sk, all.take(i as int)),
                list_holds(out@, key, start, i as int),
                transcript_entries(*transcript) == held_before(out@, key, start, i as int),
            decreases controls@.len() - i,
        {
            proof {
                assert(views[i as int] == votes@[i as int]@);
            }
            let ct = match election_pk.gen_credential_check(&votes[i], &controls[i]) {
                Ok(ct) => ct,
                Err(_) => {
                    proof {
                        assert(decrypts(out@, self.meg_sk, all.take(i as int)));
                    }
                    return Err(Error::FailedCredentialControl(i));
                },
            };
            let ghost previous = out@;
            let d = self.meg_sk.ver_decrypt(&election_pk.params.elgamal, &ct, transcript, rng);
            out.push(d);
            proof {
                assert(all[i as int] == ct@);
                lemma_one_more(previous, d, self.meg_sk, key, start, all);
            }
            i += 1;
        }
        proof {
            assert(all.take(i as int) =~= all);
        }
        Ok(out)
    }

    /// Decrypts a tally and looks the counts up in a table.
    pub fn decrypt_tally(
        &self,
        pk: &ElectionPublicKey,
        tallied: &EncrChoice,
        table: &DlogTable,
        rng: &mut StdRng,
        transcript: &mut Transcript,
    ) -> (r: Result<DecryptedTally, DecryptionError>)
        requires
            tallied@.l2.len() >= tallied@.l1.len(),
        ensures
            match r {
                Ok(d) => {
                    &&& d.fills(tallied@)
                    &&& d.all_right(
                        self.key(*pk),
                        tallied@,
                        transcript_entries(*old(transcript)),
                    )
                    &&& forall|p: Place|
                        p.within(tallied@) ==> d.count(p) == self.opens(
                            #[trigger] tallied@.at(p),
                        ) && table_lookup(
                            dlog_table_values(*table),
                            self.opens(tallied@.at(p)),
                        ) is Some
                    &&& transcript_entries(*final(transcript)) == held_before_party(
                        d.l1_d@,
                        d.l2_d@,
                        self.key(*pk),
                        tallied@,
                        transcript_entries(*old(transcript)),
                        tallied@.l1.len() as int,
                    )
                },
                Err(e) => {
                    &&& e == DecryptionError::ElementNotFound
                    &&& exists|p: Place|
                        p.within(tallied@) && table_lookup(
                            dlog_table_values(*table),
                            self.opens(#[trigger] tallied@.at(p)),
                        ) is None
                    &&& exists|l1: Seq<DecOk>, l2: Seq<Vec<DecOk>>|
                        {
                            &&& #[trigger] self.all_decrypted(
                                l1,
                                l2,
                                self.key(*pk),
                                tallied@,
                                transcript_entries(*old(transcript)),
                            )
                            &&& transcript_entries(*final(transcript)) == held_before_party(
                                l1,
                                l2,
                                self.key(*pk),
                                tallied@,
                                transcript_entries(*old(transcript)),
                                tallied@.l1.len() as int,
                            )
                        }
                },
            },
    {
        let ghost start = transcript_entries(*transcript);
        let ghost enc = tallied@;
        let ghost key = self.key(*pk);
        let mut l1_d: Vec<DecOk> = Vec::new();
        let mut l2_d: Vec<Vec<DecOk>> = Vec::new();
        let mut i: usize = 0;
        while i < tallied.l1.len()
            invariant
                i <= tallied.l1@.len(),
                enc == tallied@,
                enc.l2.len() >= enc.l1.len(),
                key == self.key(*pk),
                l1_d@.len() == i,
                l2_d@.len() == i,
                forall|k: int| #![trigger l2_d@[k]] 0 <= k < i ==> l2_d@[k]@.len() == enc.l2[k].len(),
                transcript_entries(*transcript) == held_before_party(
                    l1_d@,
                    l2_d@,
                    key,
                    enc,
                    start,
                    i as int,
                ),
                forall|q: Place|
                    q.within(enc) && q.precedes(Place::Party { i: i as int })
                        ==> #[trigger] self.decrypted(l1_d@, l2_d@, key, enc, start, q),
            decreases tallied.l1@.len() - i,
        {
            proof {
                assert(enc.l1[i as int] == tallied.l1@[i as int]@);
                assert(enc.l2[i as int] == ct_views(tallied.l2@[i as int]@));
            }
            let ghost before = (l1_d@, l2_d@);
            let params = &pk.params.elgamal;
            let d = self.meg_sk.ver_decrypt(params, &tallied.l1[i], transcript, rng);
            let row = decrypt_list(&self.meg_sk, params, &tallied.l2[i], transcript, rng);
            l1_d.push(d);
            l2_d.push(row);
            proof {
                lemma_held_party(before.0, before.1, l1_d@, l2_d@, key, enc, start, i as int);
                assert forall|q: Place|
                    q.within(enc) && q.precedes(
                        Place::Party { i: i + 1 },
                    ) implies #[trigger] self.decrypted(l1_d@, l2_d@, key, enc, start, q) by {
                    match q {
                        Place::Party { i: h } => {
                            lemma_held_party(before.0, before.1, l1_d@, l2_d@, key, enc, start, h);
                            if h < i {
                                assert(self.decrypted(before.0, before.1, key, enc, start, q));
                                assert(before.0[h] == l1_d@[h]);
                            }
                        },
                        Place::Candidate { i: h, j: m } => {
                            lemma_held_party(before.0, before.1, l1_d@, l2_d@, key, enc, start, h);
                            if h < i {
                                assert(self.decrypted(before.0, before.1, key, enc, start, q));
                                assert(before.0[h] == l1_d@[h]);
                                assert(before.1[h] == l2_d@[h]);
                            } else {
                                assert(row@[m].ciphertext@ == enc.l2[h][m]);
                                assert(l2_d@[h] == row);
                            }
                        },
                    }
                }
            }
            i += 1;
        }
        proof {
            assert(self.all_decrypted(l1_d@, l2_d@, key, enc, start)) by {
                assert forall|q: Place| q.within(enc) implies #[trigger] self.decrypted(
                    l1_d@,
                    l2_d@,
                    key,
                    enc,
                    start,
                    q,
                ) by {
                    assert(q.precedes(Place::Party { i: i as int }));
                }
            }
        }
        let mut l1: Vec<u64> = Vec::new();
        let mut i: usize = 0;
        while i < l1_d.len()
            invariant
                i <= l1_d@.len(),
                enc == tallied@,
                l1_d@.len() == enc.l1.len(),
                start == transcript_entries(*old(transcript)),
                key == self.key(*pk),
                self.all_decrypted(l1_d@, l2_d@, key, enc, start),
                transcript_entries(*transcript) == held_before_party(
                    l1_d@,
                    l2_d@,
                    key,
                    enc,
                    start,
                    enc.l1.len() as int,
                ),
                l1@.len() == i,
                forall|k: int|
                    #![trigger l1@[k]]
                    0 <= k < i ==> table_lookup(
                        dlog_table_values(*table),
                        l1_d@[k].plaintext.log(),
                    ) == Some(l1@[k]),
            decreases l1_d@.len() - i,
        {
            proof {
                assert(self.decrypted(
                    l1_d@,
                    l2_d@,
                    key,
                    enc,
                    start,
                    Place::Party { i: i as int },
                ));
                l1_d@[i as int].plaintext.lemma_bounds();
            }
            match table.get(&l1_d[i].plaintext) {
                Some(count) => l1.push(count),
                None => {
                    proof {
                        let p = Place::Party { i: i as int };
                        assert(p.within(enc));
                        assert(enc.at(p) == l1_d@[i as int].ciphertext@);
                    }
                    return Err(DecryptionError::ElementNotFound);
                },
            }
            i += 1;
        }
        let mut l2: Vec<Vec<u64>> = Vec::new();
        let mut i: usize = 0;
        while i < l2_d.len()
            invariant
                i <= l2_d@.len(),
                enc == tallied@,
                l2_d@.len() == enc.l1.len(),
                forall|k: int|
                    #![trigger l2_d@[k]]
                    0 <= k < l2_d@.len() ==> l2_d@[k]@.len() == enc.l2[k].len(),
                start == transcript_entries(*old(transcript)),
                key == self.key(*pk),
                self.all_decrypted(l1_d@, l2_d@, key, enc, start),
                transcript_entries(*transcript) == held_before_party(
                    l1_d@,
                    l2_d@,
                    key,
                    enc,
                    start,
                    enc.l1.len() as int,
                ),
                l2@.len() == i,
                forall|k: int|
                    #![trigger l2@[k]]
                    0 <= k < i ==> counts_row(dlog_table_values(*table), l2@[k]@, l2_d@[k]@),
            decreases l2_d@.len() - i,
        {
            let row = &l2_d[i];
            let mut counts: Vec<u64> = Vec::new();
            let mut j: usize = 0;
            while j < row.len()
                invariant
                    i < l2_d@.len(),
                    j <= row@.len(),
                    row@ == l2_d@[i as int]@,
                    enc == tallied@,
                    l2_d@.len() == enc.l1.len(),
                    row@.len() == enc.l2[i as int].len(),
                    start == transcript_entries(*old(transcript)),
                    key == self.key(*pk),
                    self.all_decrypted(l1_d@, l2_d@, key, enc, start),
                    transcript_entries(*transcript) == held_before_party(
                        l1_d@,
                        l2_d@,
                        key,
                        enc,
                        start,
                        enc.l1.len() as int,
                    ),
                    counts@.len() == j,
                    forall|k: int|
                        #![trigger counts@[k]]
                        0 <= k < j ==> table_lookup(
                            dlog_table_values(*table),
                            row@[k].plaintext.log(),
                        ) == Some(counts@[k]),
                decreases row@.len() - j,
            {
                proof {
                    assert(self.decrypted(
                        l1_d@,
                        l2_d@,
                        key,
                        enc,
                        start,
                        Place::Candidate { i: i as int, j: j as int },
                    ));
                }
                match table.get(&row[j].plaintext) {
                    Some(count) => counts.push(count),
                    None => {
                        proof {
                            let p = Place::Candidate { i: i as int, j: j as int };
                            assert(p.within(enc));
                            assert(enc.at(p) == row@[j as int].ciphertext@);
                        }
                        return Err(DecryptionError::ElementNotFound);
                    },
                }
                j += 1;
            }
            l2.push(counts);
            i += 1;
        }
        let out = DecryptedTally { tally: Tally { l1, l2 }, l1_d, l2_d };
        proof {
            assert forall|p: Place| p.within(enc) implies #[trigger] out.right(
                key,
                enc,
                start,
                p,
            ) by {
                assert(self.decrypted(l1_d@, l2_d@, key, enc, start, p));
                match p {
                    Place::Party { i } => {
                        assert(l1@[i] as int == l1_d@[i].plaintext.log());
                    },
                    Place::Candidate { i, j } => {
                        assert(counts_row(dlog_table_values(*table), l2@[i]@, l2_d@[i]@));
                        assert(l2@[i]@[j] as int == l2_d@[i]@[j].plaintext.log());
                    },
                }
            }
            assert forall|p: Place| p.within(enc) implies out.count(p) == self.opens(
                #[trigger] enc.at(p),
            ) by {
                assert(out.right(key, enc, start, p));
                assert(self.decrypted(l1_d@, l2_d@, key, enc, start, p));
            }
            assert forall|i: int|
                #![trigger out.l2_d@[i]]
                #![trigger out.tally.l2@[i]]
                0 <= i < enc.l1.len() implies out.l2_d@[i]@.len() >= enc.l2[i].len()
                && out.tally.l2@[i]@.len() >= enc.l2[i].len() by {
                assert(counts_row(dlog_table_values(*table), l2@[i]@, l2_d@[i]@));
            }
        }
        Ok(out)
    }

    /// Whether the ciphertexts at all places were decrypted, with valid proofs.
    pub open spec fn all_decrypted(
        self,
        l1: Seq<DecOk>,
        l2: Seq<Vec<DecOk>>,
        key: CtView,
        enc: EncrChoiceView,
        start: Seq<Entry>,
    ) -> bool {
        forall|p: Place| p.within(enc) ==> #[trigger] self.decrypted(l1, l2, key, enc, start, p)
    }

    /// Whether the ciphertext at a place was decrypted, with a valid proof.
    pub open spec fn decrypted(
        self,
        l1: Seq<DecOk>,
        l2: Seq<Vec<DecOk>>,
        key: CtView,
        enc: EncrChoiceView,
        start: Seq<Entry>,
        p: Place,
    ) -> bool {
        let d = match p {
            Place::Party { i } => l1[i],
            Place::Candidate { i, j } => l2[i]@[j],
        };
        &&& d.ciphertext@ == enc.at(p)
        &&& d.plaintext.log() == self.opens(enc.at(p))
        &&& d.holds(key, held_at(l1, l2, key, enc, start, p))
    }
}

/// Whether the counts are those that a table for `values` tells of the
/// decryptions.
pub open spec fn counts_row(values: Set<u64>, counts: Seq<u64>, decryptions: Seq<DecOk>) -> bool {
    &&& counts.len() == decryptions.len()
    &&& forall|k: int|
        #![trigger counts[k]]
        0 <= k < counts.len() ==> table_lookup(values, decryptions[k].plaintext.log()) == Some(
            counts[k],
        )
}

/// The encrypted credential checks of votes.
pub open spec fn checks(
    pk: ElectionPublicKey,
    votes: Seq<VoteView>,
    controls: Seq<CredentialControlProof>,
) -> Seq<CtView> {
    Seq::new(votes.len(), |i: int| pk.check(votes[i], controls[i]))
}

/// Whether the controls of the first `n` votes are accepted.
pub open spec fn controls_accepted(
    pk: ElectionPublicKey,
    votes: Seq<VoteView>,
    controls: Seq<CredentialControlProof>,
    n: int,
) -> bool {
    forall|i: int| #![trigger votes[i]] 0 <= i < n ==> pk.control(votes[i]).accepts(controls[i])
}

/// What comes before depends on the earlier decryptions alone.
proof fn lemma_held_party(
    a1: Seq<DecOk>,
    a2: Seq<Vec<DecOk>>,
    b1: Seq<DecOk>,
    b2: Seq<Vec<DecOk>>,
    key: CtView,
    enc: EncrChoiceView,
    start: Seq<Entry>,
    i: int,
)
    requires
        i <= a1.len(),
        i <= a2.len(),
        i <= b1.len(),
        i <= b2.len(),
        forall|k: int| #![trigger a1[k]] 0 <= k < i ==> a1[k] == b1[k],
        forall|k: int| #![trigger a2[k]] 0 <= k < i ==> a2[k] == b2[k],
    ensures
        held_before_party(a1, a2, key, enc, start, i) == held_before_party(
            b1,
            b2,
            key,
            enc,
            start,
            i,
        ),
    decreases i,
{
    if i > 0 {
        lemma_held_party(a1, a2, b1, b2, key, enc, start, i - 1);
        assert(a1[i - 1] == b1[i - 1]);
        assert(a2[i - 1] == b2[i - 1]);
    }
}

} // verus!
