//! The bulletin board: records with receipts, and their storage.
//!
//! The board is an append-only log.  Receipts number the ballots in the order in
//! which they came, and this order decides which vote of a voter is the last.

use vstd::prelude::*;

use crate::api::client::Ballot;
use crate::error::Error;
use crate::protocol::tally::CredentialControlProof;
use crate::protocol::vote::vote::{Vote, VoteWithEncPubCred};

pub use crate::api::server::context::{ElectionContext, ElectionManifest};
pub use crate::api::server::pipeline::{
    CredMixArtifact, PublicElection, PublicPipeline, VoteMixArtifact,
};

verus! {

/// A receipt: the number of a ballot, and when it came.
#[derive(Clone, Copy, Debug, PartialEq, Eq)]
pub struct Receipt {
    pub seq_no: u64,
    pub received_at_unix_ms: u64,
}

/// A ballot with its receipt.
#[derive(Debug, PartialEq)]
pub struct BallotRecord {
    pub receipt: Receipt,
    pub ballot: Ballot,
}

impl BallotRecord {
    /// Whether the other is the same record.
    pub open spec fn same(self, other: BallotRecord) -> bool {
        self.receipt == other.receipt && self.ballot.same(other.ballot)
    }
}

impl Clone for BallotRecord {
    fn clone(&self) -> (r: Self)
        ensures
            r.same(*self),
    {
        BallotRecord { receipt: self.receipt, ballot: self.ballot.clone() }
    }
}

/// A vote whose ballot was verified, with its receipt.
#[derive(Debug, PartialEq)]
pub struct VerifiedVoteRecord {
    pub receipt: Receipt,
    pub vote: Vote,
}

impl VerifiedVoteRecord {
    /// Whether the other is the same record.
    pub open spec fn same(self, other: VerifiedVoteRecord) -> bool {
        self.receipt == other.receipt && self.vote@ == other.vote@
    }
}

impl Clone for VerifiedVoteRecord {
    fn clone(&self) -> (r: Self)
        ensures
            r.same(*self),
    {
        VerifiedVoteRecord { receipt: self.receipt, vote: self.vote.clone() }
    }
}

/// A vote whose credential was checked, with its receipt.
#[derive(Debug, PartialEq)]
pub struct ValidVoteRecord {
    pub receipt: Receipt,
    pub vote: VoteWithEncPubCred,
}

/// The storage of a bulletin board.
pub trait BulletinBoardStore {
    /// Whether there is a number left for another ballot.
    spec fn has_room(&self) -> bool;

    fn post_ballot(&mut self, ballot: Ballot, received_at_unix_ms: u64) -> (r: Result<
        BallotRecord,
        Error,
    >)
        requires
            old(self).has_room(),
    ;

    fn list_ballots(&self) -> (r: Vec<BallotRecord>);

    fn post_controls(&mut self, controls: Vec<CredentialControlProof>) -> (r: Result<(), Error>);

    fn list_controls(&self) -> (r: Vec<CredentialControlProof>);

    fn post_verified_votes(&mut self, votes: Vec<VerifiedVoteRecord>) -> (r: Result<(), Error>);

    fn list_verified_votes(&self) -> (r: Vec<VerifiedVoteRecord>);
}

/// A bulletin board in memory.
#[derive(Debug)]
pub struct InMemoryBB {
    next_seq_no: u64,
    ballots: Vec<BallotRecord>,
    controls: Vec<CredentialControlProof>,
    verified_votes: Vec<VerifiedVoteRecord>,
}

impl InMemoryBB {
    /// Whether the receipts number the ballots from zero, in their order.
    pub closed spec fn wf(self) -> bool {
        &&& self.next_seq_no == self.ballots@.len()
        &&& forall|i: int|
            #![trigger self.ballots@[i]]
            0 <= i < self.ballots@.len() ==> self.ballots@[i].receipt.seq_no == i
    }

    /// The ballots, oldest first.
    pub closed spec fn posted(self) -> Seq<BallotRecord> {
        self.ballots@
    }

    /// The control proofs, oldest first.
    pub closed spec fn posted_controls(self) -> Seq<CredentialControlProof> {
        self.controls@
    }

    /// The verified votes, oldest first.
    pub closed spec fn posted_votes(self) -> Seq<VerifiedVoteRecord> {
        self.verified_votes@
    }

    /// The number of the next ballot.
    pub closed spec fn next(self) -> int {
        self.next_seq_no as int
    }

    /// The number of the next ballot.
    pub fn next_seq_no(&self) -> (r: u64)
        ensures
            r == self.next(),
    {
        self.next_seq_no
    }

    /// The next receipt.
    fn next_receipt(&mut self, received_at_unix_ms: u64) -> (r: Receipt)
        requires
            old(self).next_seq_no < u64::MAX,
        ensures
            r == (Receipt { seq_no: old(self).next_seq_no, received_at_unix_ms }),
            final(self).next_seq_no == old(self).next_seq_no + 1,
            final(self).ballots == old(self).ballots,
            final(self).controls == old(self).controls,
            final(self).verified_votes == old(self).verified_votes,
    {
        let r = Receipt { seq_no: self.next_seq_no, received_at_unix_ms };
        self.next_seq_no = self.next_seq_no + 1;
        r
    }

    /// On a board whose receipts number its ballots, the ballot at position `i`
    /// has the number `i`.
    pub proof fn law_receipts(self)
        requires
            self.wf(),
        ensures
            self.next() == self.posted().len(),
            forall|i: int|
                #![trigger self.posted()[i]]
                0 <= i < self.posted().len() ==> self.posted()[i].receipt.seq_no == i,
    {
    }
}

impl Default for InMemoryBB {
    fn default() -> (r: Self)
        ensures
            r.wf(),
            r.next() == 0,
            r.posted() == Seq::<BallotRecord>::empty(),
            r.posted_controls() == Seq::<CredentialControlProof>::empty(),
            r.posted_votes() == Seq::<VerifiedVoteRecord>::empty(),
    {
        InMemoryBB {
            next_seq_no: 0,
            ballots: Vec::new(),
            controls: Vec::new(),
            verified_votes: Vec::new(),
        }
    }
}

impl BulletinBoardStore for InMemoryBB {
    open spec fn has_room(&self) -> bool {
        self.next() < u64::MAX
    }

    fn post_ballot(&mut self, ballot: Ballot, received_at_unix_ms: u64) -> (r: Result<
        BallotRecord,
        Error,
    >)
        ensures
            old(self).wf() ==> final(self).wf(),
            r.is_ok(),
            r->Ok_0.receipt.seq_no == old(self).next(),
            r->Ok_0.receipt.received_at_unix_ms == received_at_unix_ms,
            r->Ok_0.ballot == ballot,
            final(self).next() == old(self).next() + 1,
            final(self).posted().len() == old(self).posted().len() + 1,
            final(self).posted().drop_last() == old(self).posted(),
            final(self).posted().last().same(r->Ok_0),
            final(self).posted_controls() == old(self).posted_controls(),
            final(self).posted_votes() == old(self).posted_votes(),
    {
        let ghost before = self.ballots@;
        let receipt = self.next_receipt(received_at_unix_ms);
        let record = BallotRecord { receipt, ballot };
        self.ballots.push(record.clone());
        proof {
            assert(self.ballots@.drop_last() =~= before);
        }
        Ok(record)
    }

    fn list_ballots(&self) -> (r: Vec<BallotRecord>)
        ensures
            r@.len() == self.posted().len(),
            forall|i: int| #![trigger r@[i]] 0 <= i < r@.len() ==> r@[i].same(self.posted()[i]),
    {
        let mut out: Vec<BallotRecord> = Vec::new();
        let mut i: usize = 0;
        while i < self.ballots.len()
            invariant
                i <= self.ballots@.len(),
                out@.len() == i,
                forall|k: int| #![trigger out@[k]] 0 <= k < i ==> out@[k].same(self.ballots@[k]),
            decreases self.ballots@.len() - i,
        {
            out.push(self.ballots[i].clone());
            i += 1;
        }
        out
    }

    fn post_controls(&mut self, controls: Vec<CredentialControlProof>) -> (r: Result<(), Error>)
        ensures
            r.is_ok(),
            old(self).wf() ==> final(self).wf(),
            final(self).next() == old(self).next(),
            final(self).posted() == old(self).posted(),
            final(self).posted_controls() == old(self).posted_controls() + controls@,
            final(self).posted_votes() == old(self).posted_votes(),
    {
        let mut more = controls;
        self.controls.append(&mut more);
        Ok(())
    }

    fn list_controls(&self) -> (r: Vec<CredentialControlProof>)
        ensures
            r@ == self.posted_controls(),
    {
        let out = self.controls.clone();
        proof {
            assert(out@ =~= self.controls@);
        }
        out
    }

    fn post_verified_votes(&mut self, votes: Vec<VerifiedVoteRecord>) -> (r: Result<(), Error>)
        ensures
            r.is_ok(),
            old(self).wf() ==> final(self).wf(),
            final(self).next() == old(self).next(),
            final(self).posted() == old(self).posted(),
            final(self).posted_controls() == old(self).posted_controls(),
            final(self).posted_votes() == old(self).posted_votes() + votes@,
    {
        let mut more = votes;
        self.verified_votes.append(&mut more);
        Ok(())
    }

    fn list_verified_votes(&self) -> (r: Vec<VerifiedVoteRecord>)
        ensures
            r@.len() == self.posted_votes().len(),
            forall|i: int| #![trigger r@[i]] 0 <= i < r@.len() ==> r@[i].same(self.posted_votes()[i]),
    {
        let mut out: Vec<VerifiedVoteRecord> = Vec::new();
        let mut i: usize = 0;
        while i < self.verified_votes.len()
            invariant
                i <= self.verified_votes@.len(),
                out@.len() == i,
                forall|k: int|
                    #![trigger out@[k]]
                    0 <= k < i ==> out@[k].same(self.verified_votes@[k]),
            decreases self.verified_votes@.len() - i,
        {
            out.push(self.verified_votes[i].clone());
            i += 1;
        }
        out
    }
}

} // verus!
