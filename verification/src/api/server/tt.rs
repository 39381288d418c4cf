//! The tabulation teller: it decrypts, with proofs that anyone can verify.

use merlin::Transcript;
use rand::rngs::StdRng;
use vstd::prelude::*;

use crate::api::server::context::ElectionContext;
use crate::constants::{lemma_labels, ACC_CHECK, TALLY};
use crate::elgamal::{ct_rows, dlog_table_values, table_lookup, Ciphertext, DlogTable};
use crate::error::{CryptoError, DecryptionError, Error};
use crate::proofs::decryption::{decrypts, held_before, list_holds, DecOk};
use crate::protocol::filter::all_encodable;
use crate::protocol::mix::vote_views;
use crate::protocol::tally::{CredentialControlProof, DecryptedTally, Place};
use crate::protocol::teller::{checks, controls_accepted, TTSecretKey};
use crate::protocol::vote::auth::ShortPublicACC;
use crate::protocol::vote::choice::EncrChoice;
use crate::protocol::vote::vote::{Vote, VoteWithEncPubCred};
use crate::transcript::transcript_entries;

verus! {

/// The tabulation teller of an election.
#[derive(Clone, Debug)]
pub struct TabulationTeller {
    sk: TTSecretKey,
    election: ElectionContext,
}

impl TabulationTeller {
    /// The secret key and the election.
    pub closed spec fn parts(self) -> (TTSecretKey, ElectionContext) {
        (self.sk, self.election)
    }

    /// Whether the secret key is that of the election.
    pub open spec fn wf(self) -> bool {
        self.parts().0.key(self.parts().1.pk) == self.parts().1.pk.key()
    }

    /// The teller with a secret key, for an election.
    pub fn new(sk: TTSecretKey, election: &ElectionContext) -> (r: Self)
        ensures
            r.parts().0 == sk,
            r.parts().1.same(*election),
    {
        TabulationTeller { sk, election: election.clone() }
    }

    /// The election.
    pub fn election(&self) -> (r: &ElectionContext)
        ensures
            *r == self.parts().1,
    {
        &self.election
    }

    /// Decrypts the credential checks of votes.  With the election's key, the
    /// public verification accepts them.
    pub fn gen_acc_checks(
        &self,
        votes: &Vec<Vote>,
        controls: &Vec<CredentialControlProof>,
        rng: &mut StdRng,
    ) -> (r: Result<Vec<DecOk>, Error>)
        requires
            controls@.len() == votes@.len(),
            all_encodable(vote_views(votes@)),
        ensures
            match r {
                Ok(list) => {
                    let pk = self.parts().1.pk;
                    let start = self.parts().1.steps(ACC_CHECK@);
                    &&& controls_accepted(pk, vote_views(votes@), controls@, votes@.len() as int)
                    &&& decrypts(
                        list@,
                        self.parts().0.meg_sk,
                        checks(pk, vote_views(votes@), controls@),
                    )
                    &&& list_holds(list@, self.parts().0.key(pk), start, list@.len() as int)
                    &&& pk.all_checked(
                        vote_views(votes@),
                        controls@,
                        list@,
                        votes@.len() as int,
                    )
                },
                Err(Error::FailedCredentialControl(i)) => {
                    let pk = self.parts().1.pk;
                    &&& i < votes@.len()
                    &&& !pk.control(votes@[i as int]@).accepts(controls@[i as int])
                    &&& controls_accepted(pk, vote_views(votes@), controls@, i as int)
                },
                Err(_) => false,
            },
    {
        proof {
            lemma_labels();
        }
        let mut transcript = self.election.tr(ACC_CHECK);
        let r = self.sk.gen_ACC_checks(&self.election.pk, votes, controls, rng, &mut transcript);
        proof {
            if r.is_ok() {
                let list = r->Ok_0;
                let pk = self.election.pk;
                let views = vote_views(votes@);
                assert forall|i: int| #![trigger views[i]] 0 <= i < views.len() implies pk.checked(
                    views[i],
                    controls@[i],
                    list@[i],
                ) by {
                    assert(list@[i].ciphertext@ == checks(pk, views, controls@)[i]);
                }
            }
        }
        r
    }

    /// Decrypts the fingerprints of credentials and of votes.
    ///
    /// `verified` is the outcome of the verification of the fingerprints, and
    /// the transcript is as that verification left it.  With the election's key,
    /// the public verification accepts the decryptions.
    pub fn decrypt_credential_fingerprints(
        &self,
        valid_votes: &Vec<VoteWithEncPubCred>,
        fp_lists: &Vec<Vec<Ciphertext>>,
        verified: Result<(), CryptoError>,
        shuffled_creds: &Vec<ShortPublicACC>,
        transcript: &mut Transcript,
        rng: &mut StdRng,
    ) -> (r: Result<(Vec<DecOk>, Vec<DecOk>), Error>)
        requires
            fp_lists@.len() == 2,
            fp_lists@[0]@.len() == shuffled_creds@.len(),
            fp_lists@[1]@.len() == valid_votes@.len(),
        ensures
            match r {
                Ok(lists) => {
                    let pk = self.parts().1.pk;
                    let key = self.parts().0.key(pk);
                    let start = transcript_entries(*old(transcript));
                    let middle = held_before(lists.0@, key, start, lists.0@.len() as int);
                    &&& verified.is_ok()
                    &&& decrypts(lists.0@, self.parts().0.meg_sk, ct_rows(fp_lists@)[0])
                    &&& decrypts(lists.1@, self.parts().0.meg_sk, ct_rows(fp_lists@)[1])
                    &&& list_holds(lists.0@, key, start, lists.0@.len() as int)
                    &&& list_holds(lists.1@, key, middle, lists.1@.len() as int)
                    &&& transcript_entries(*final(transcript)) == held_before(
                        lists.1@,
                        key,
                        middle,
                        lists.1@.len() as int,
                    )
                    &&& self.wf() ==> pk.fingerprints_decrypted(
                        verified,
                        lists.0@,
                        lists.1@,
                        start,
                    ).is_ok()
                },
                Err(e) => {
                    &&& verified.is_err()
                    &&& e == Error::FailedVerification(verified->Err_0)
                    &&& transcript_entries(*final(transcript)) == transcript_entries(
                        *old(transcript),
                    )
                },
            },
    {
        self.sk.decrypt_credential_fingerprints(
            &self.election.pk,
            valid_votes,
            fp_lists,
            verified,
            shuffled_creds,
            transcript,
            rng,
        )
    }

    /// Decrypts a tally and looks the counts up in a table.  With the election's
    /// key, the public verification accepts it.
    pub fn decrypt_tally(&self, enc_tally: &EncrChoice, table: &DlogTable, rng: &mut StdRng) -> (r:
        Result<DecryptedTally, Error>)
        requires
            enc_tally@.l2.len() >= enc_tally@.l1.len(),
        ensures
            match r {
                Ok(d) => {
                    &&& d.fills(enc_tally@)
                    &&& d.all_right(
                        self.parts().0.key(self.parts().1.pk),
                        enc_tally@,
                        self.parts().1.steps(TALLY@),
                    )
                    &&& forall|p: Place|
                        p.within(enc_tally@) ==> d.count(p) == self.parts().0.opens(
                            #[trigger] enc_tally@.at(p),
                        ) && table_lookup(
                            dlog_table_values(*table),
                            self.parts().0.opens(enc_tally@.at(p)),
                        ) is Some
                },
                Err(e) => e == Error::FailedDecryption(DecryptionError::ElementNotFound) && exists|p:
                    Place|
                    p.within(enc_tally@) && table_lookup(
                        dlog_table_values(*table),
                        self.parts().0.opens(#[trigger] enc_tally@.at(p)),
                    ) is None,
            },
    {
        proof {
            lemma_labels();
        }
        let mut transcript = self.election.tr(TALLY);
        match self.sk.decrypt_tally(
            &self.election.pk,
            enc_tally,
            table,
            rng,
            &mut transcript,
        ) {
            Ok(d) => Ok(d),
            Err(e) => Err(Error::FailedDecryption(e)),
        }
    }
}

} // verus!
