//! Control of credentials, and the tally.

use merlin::Transcript;
use rand::rngs::StdRng;
use vstd::prelude::*;

use crate::arith::{lemma_order, lemma_red_add, lemma_red_mul, lemma_red_small, red};
use crate::elgamal::{
    ct_add, ct_scale, ct_views, Ciphertext, CtView, ElGamalParams, PublicKey,
};
use crate::error::{CryptoError, Error};
use crate::group::{Point, Scalar};
use crate::proofs::decryption::{held_before, DecOk};
use crate::protocol::vote::choice::{EncrChoice, EncrChoiceView};
use crate::protocol::vote::vote::{Vote, VoteView};
use crate::text::{decimal, with_number, with_numbers};
use crate::transcript::{
    append_ciphertext, append_message, append_point, challenge_scalar, challenge_value, ct_message,
    message, point_message, prelude, start_proof, transcript_entries, Entry,
};

verus! {

/// The public values of a control proof.
#[allow(non_snake_case)]
#[derive(Clone, Copy, Debug)]
pub struct CredentialControlPublicBorrowed<'a> {
    pub g3: &'a Point,
    pub registration_pk: &'a Point,
    pub vote: &'a Vote,
    pub A_enc: Ciphertext,
}

/// The public values by their values.
pub struct ControlView {
    pub g3: int,
    pub registration_pk: int,
    pub vote: VoteView,
    pub a: CtView,
}

impl<'a> View for CredentialControlPublicBorrowed<'a> {
    type V = ControlView;

    open spec fn view(&self) -> ControlView {
        ControlView {
            g3: self.g3.log(),
            registration_pk: self.registration_pk.log(),
            vote: self.vote@,
            a: self.A_enc@,
        }
    }
}

/// Registration's multiple of the encrypted signature of a vote, with the proof
/// that it is the multiple by the registration secret.
#[allow(non_snake_case)]
#[derive(Clone, Copy, Debug, PartialEq)]
pub struct CredentialControlProof {
    pub Ay_enc: Ciphertext,
    pub I_ct: Ciphertext,
    pub I_pk: Point,
    pub z: Scalar,
}

impl ControlView {
    /// The steps up to the challenge.
    pub open spec fn steps(self, i_ct: CtView, i_pk: int) -> Seq<Entry> {
        prelude("CREDENTIAL-CONTROL"@) + seq![
            point_message("g3"@, self.g3),
            point_message("reg_pk"@, self.registration_pk),
            message("vote"@, self.vote.encoding()),
            ct_message("A_enc"@, self.a),
            ct_message("I_ct=[t]A_enc"@, i_ct),
            point_message("I_pk=[t]g3"@, i_pk),
        ]
    }

    /// The challenge.
    pub open spec fn challenge(self, i_ct: CtView, i_pk: int) -> int {
        challenge_value(self.steps(i_ct, i_pk), "c"@)
    }

    /// The proof that registration gives with its secret `y` and the nonce `t`.
    pub open spec fn proof_by(self, y: int, t: int, p: CredentialControlProof) -> bool {
        &&& p.I_ct@ == ct_scale(self.a, t)
        &&& p.I_pk.log() == red(self.g3 * t)
        &&& p.Ay_enc@ == ct_scale(self.a, y)
        &&& p.z@ == red(self.challenge(p.I_ct@, p.I_pk.log()) * y + t)
    }

    /// Whether the proof is one that registration gives for some nonce.
    pub open spec fn made_by(self, y: int, p: CredentialControlProof) -> bool {
        exists|t: int| self.proof_by(y, t, p)
    }

    /// Whether the verifier accepts a proof.
    pub open spec fn accepts(self, p: CredentialControlProof) -> bool {
        let c = self.challenge(p.I_ct@, p.I_pk.log());
        &&& ct_scale(self.a, p.z@) == ct_add(p.I_ct@, ct_scale(p.Ay_enc@, c))
        &&& red(self.g3 * p.z@) == red(p.I_pk.log() + self.registration_pk * c)
    }
}

impl<'a> CredentialControlPublicBorrowed<'a> {
    /// The public values.
    #[allow(non_snake_case)]
    pub fn new(g3: &'a Point, registration_pk: &'a Point, vote: &'a Vote, A_enc: Ciphertext) -> (r:
        Self)
        ensures
            r.g3 == g3,
            r.registration_pk == registration_pk,
            r.vote == vote,
            r.A_enc == A_enc,
    {
        CredentialControlPublicBorrowed { g3, registration_pk, vote, A_enc }
    }

    #[allow(non_snake_case)]
    fn start(&self, I_ct: &Ciphertext, I_pk: &Point) -> (r: Transcript)
        requires
            self.vote@.encodable(),
        ensures
            transcript_entries(r) == self@.steps(I_ct@, I_pk.log()),
    {
        proof {
            reveal_strlit("CREDENTIAL-CONTROL");
        }
        let mut tr = start_proof("CREDENTIAL-CONTROL");
        append_point(&mut tr, "g3", self.g3);
        append_point(&mut tr, "reg_pk", self.registration_pk);
        let bytes = self.vote.to_bytes();
        append_message(&mut tr, "vote", bytes.as_slice());
        append_ciphertext(&mut tr, "A_enc", &self.A_enc);
        append_ciphertext(&mut tr, "I_ct=[t]A_enc", I_ct);
        append_point(&mut tr, "I_pk=[t]g3", I_pk);
        proof {
            assert(transcript_entries(tr) =~= self@.steps(I_ct@, I_pk.log()));
        }
        tr
    }
}

impl CredentialControlProof {
    /// Proves with the registration secret.
    #[allow(non_snake_case)]
    pub fn prove(public: &CredentialControlPublicBorrowed, secret: &Scalar, rng: &mut StdRng) -> (r: Self)
        requires
            public.vote@.encodable(),
        ensures
            public@.made_by(secret@, r),
    {
        let t = Scalar::random(rng);
        let I_ct = public.A_enc.times(&t);
        let I_pk = public.g3.times(&t);
        let mut tr = public.start(&I_ct, &I_pk);
        let c = challenge_scalar(&mut tr, "c");
        let z = c.times(secret).plus(&t);
        let Ay_enc = public.A_enc.times(secret);
        let out = CredentialControlProof { Ay_enc, I_ct, I_pk, z };
        proof {
            lemma_red_add(c@ * secret@, t@);
            assert(public@.proof_by(secret@, t@, out));
        }
        out
    }

    /// Checks the proof.
    pub fn verify(&self, public: &CredentialControlPublicBorrowed) -> (r: Result<(), CryptoError>)
        requires
            public.vote@.encodable(),
        ensures
            r == if public@.accepts(*self) {
                Ok::<(), CryptoError>(())
            } else {
                Err(CryptoError::CommitmentMismatch)
            },
    {
        let mut tr = public.start(&self.I_ct, &self.I_pk);
        let c = challenge_scalar(&mut tr, "c");
        if !public.A_enc.times(&self.z).equals(&self.I_ct.plus(&self.Ay_enc.times(&c))) {
            return Err(CryptoError::CommitmentMismatch);
        }
        proof {
            lemma_red_add(self.I_pk.log(), public.registration_pk.log() * c@);
        }
        if !public.g3.times(&self.z).equals(&self.I_pk.plus(&public.registration_pk.times(&c))) {
            return Err(CryptoError::CommitmentMismatch);
        }
        Ok(())
    }
}

/// One component of the verifier's equation.
proof fn lemma_control(g: int, y: int, t: int, c: int)
    ensures
        red(g * red(c * y + t)) == red(red(g * t) + red(red(g * y) * c)),
        red(g * red(c * y + t)) == red(red(g * t) + red(g * y) * c),
{
    lemma_red_mul(g, c * y + t);
    lemma_red_mul(g * y, c);
    lemma_red_add(g * t, (g * y) * c);
    lemma_red_add(g * t, red(g * y) * c);
    assert(g * (c * y + t) == g * t + (g * y) * c) by (nonlinear_arith);
}

/// Registration's control proofs are accepted under its own key.
pub proof fn law_honest_control(public: ControlView, y: int, p: CredentialControlProof)
    requires
        public.made_by(y, p),
        public.registration_pk == red(public.g3 * y),
    ensures
        public.accepts(p),
        p.Ay_enc@ == ct_scale(public.a, y),
{
    let t = choose|t: int| public.proof_by(y, t, p);
    let c = public.challenge(p.I_ct@, p.I_pk.log());
    lemma_control(public.a.r1, y, t, c);
    lemma_control(public.a.r2, y, t, c);
    lemma_control(public.a.b, y, t, c);
    lemma_control(public.g3, y, t, c);
}

/// The result: votes for each party and for each candidate.
#[derive(Clone, Debug, PartialEq)]
pub struct Tally {
    pub l1: Vec<u64>,
    pub l2: Vec<Vec<u64>>,
}

/// The result with the decryptions that prove it.
#[derive(Clone, Debug, PartialEq)]
pub struct DecryptedTally {
    pub tally: Tally,
    pub l1_d: Vec<DecOk>,
    pub l2_d: Vec<Vec<DecOk>>,
}

/// A place in a tally.
pub enum Place {
    Party { i: int },
    Candidate { i: int, j: int },
}

impl Place {
    /// Whether the place exists in an encrypted tally.
    pub open spec fn within(self, enc: EncrChoiceView) -> bool {
        match self {
            Place::Party { i } => 0 <= i < enc.l1.len(),
            Place::Candidate { i, j } => 0 <= i < enc.l1.len() && 0 <= j < enc.l2[i].len(),
        }
    }

    /// Whether the other place comes later: each party comes before its
    /// candidates, and these before the next party.
    pub open spec fn precedes(self, other: Place) -> bool {
        match (self, other) {
            (Place::Party { i }, Place::Party { i: k }) => i < k,
            (Place::Party { i }, Place::Candidate { i: k, j: _ }) => i <= k,
            (Place::Candidate { i, j: _ }, Place::Party { i: k }) => i < k,
            (Place::Candidate { i, j }, Place::Candidate { i: k, j: m }) => i < k || (i == k && j < m),
        }
    }

    /// The text that names the place.
    pub open spec fn text(self) -> Seq<char> {
        match self {
            Place::Party { i } => "check first failed at layer l1, index "@ + decimal(i),
            Place::Candidate { i, j } => "check first failed at layer l2, index ("@ + decimal(i) + ","@
                + decimal(j) + ")"@,
        }
    }
}

impl EncrChoiceView {
    /// The ciphertext at a place.
    pub open spec fn at(self, p: Place) -> CtView {
        match p {
            Place::Party { i } => self.l1[i],
            Place::Candidate { i, j } => self.l2[i][j],
        }
    }
}

impl DecryptedTally {
    /// The decryption at a place.
    pub open spec fn decryption(self, p: Place) -> DecOk {
        match p {
            Place::Party { i } => self.l1_d@[i],
            Place::Candidate { i, j } => self.l2_d@[i]@[j],
        }
    }

    /// The count at a place.
    pub open spec fn count(self, p: Place) -> int {
        match p {
            Place::Party { i } => self.tally.l1@[i] as int,
            Place::Candidate { i, j } => self.tally.l2@[i]@[j] as int,
        }
    }

    /// Whether there is a count and a decryption at each place.
    pub open spec fn shaped(self, enc: EncrChoiceView) -> bool {
        &&& enc.l2.len() >= enc.l1.len()
        &&& self.l1_d@.len() >= enc.l1.len()
        &&& self.l2_d@.len() >= enc.l1.len()
        &&& self.tally.l1@.len() >= enc.l1.len()
        &&& self.tally.l2@.len() >= enc.l1.len()
        &&& forall|i: int|
            #![trigger self.l2_d@[i]]
            #![trigger self.tally.l2@[i]]
            0 <= i < enc.l1.len() ==> self.l2_d@[i]@.len() >= enc.l2[i].len()
                && self.tally.l2@[i]@.len() >= enc.l2[i].len()
    }

    /// Whether there is a count and a decryption at each place.
    pub fn is_shaped(&self, enc_tally: &EncrChoice) -> (r: bool)
        ensures
            r == self.shaped(enc_tally@),
    {
        let n = enc_tally.l1.len();
        if enc_tally.l2.len() < n || self.l1_d.len() < n || self.l2_d.len() < n
            || self.tally.l1.len() < n || self.tally.l2.len() < n {
            return false;
        }
        let mut i: usize = 0;
        while i < n
            invariant
                i <= n,
                n == enc_tally@.l1.len(),
                n <= enc_tally.l2@.len(),
                n <= self.l2_d@.len(),
                n <= self.tally.l2@.len(),
                forall|k: int|
                    #![trigger self.l2_d@[k]]
                    #![trigger self.tally.l2@[k]]
                    0 <= k < i ==> self.l2_d@[k]@.len() >= enc_tally@.l2[k].len()
                        && self.tally.l2@[k]@.len() >= enc_tally@.l2[k].len(),
            decreases n - i,
        {
            let width = enc_tally.l2[i].len();
            proof {
                assert(enc_tally@.l2[i as int].len() == width);
            }
            if self.l2_d[i].len() < width || self.tally.l2[i].len() < width {
                return false;
            }
            i += 1;
        }
        true
    }

    /// Whether there are a count and a decryption for each place, and no others.
    pub open spec fn fills(self, enc: EncrChoiceView) -> bool {
        &&& self.shaped(enc)
        &&& self.l1_d@.len() == enc.l1.len()
        &&& self.l2_d@.len() == enc.l1.len()
        &&& self.tally.l1@.len() == enc.l1.len()
        &&& self.tally.l2@.len() == enc.l1.len()
        &&& forall|i: int|
            #![trigger self.l2_d@[i]]
            #![trigger self.tally.l2@[i]]
            0 <= i < enc.l1.len() ==> self.l2_d@[i]@.len() == enc.l2[i].len()
                && self.tally.l2@[i]@.len() == enc.l2[i].len()
    }

    /// Whether ciphertext, decryption and count agree at a place.
    pub open spec fn right(self, key: CtView, enc: EncrChoiceView, start: Seq<Entry>, p: Place) -> bool {
        let d = self.decryption(p);
        &&& enc.at(p) == d.ciphertext@
        &&& d.holds(key, held_at(self.l1_d@, self.l2_d@, key, enc, start, p))
        &&& self.count(p) == d.plaintext.log()
    }

    /// Whether `e` is the error for the first place that is wrong.
    pub open spec fn fault(self, key: CtView, enc: EncrChoiceView, start: Seq<Entry>, p: Place, e: Error) -> bool {
        let d = self.decryption(p);
        if enc.at(p) != d.ciphertext@ {
            e matches Error::CiphertextMismatch(text) && text@ == p.text()
        } else if !d.holds(key, held_at(self.l1_d@, self.l2_d@, key, enc, start, p)) {
            e == Error::FailedVerification(CryptoError::CommitmentMismatch)
        } else {
            e matches Error::DlogMismatch(text) && text@ == p.text()
        }
    }

    /// Whether a place is the first that is wrong, and `e` is the error for it.
    pub open spec fn stopped(self, key: CtView, enc: EncrChoiceView, start: Seq<Entry>, p: Place, e: Error) -> bool {
        &&& p.within(enc)
        &&& !self.right(key, enc, start, p)
        &&& self.fault(key, enc, start, p, e)
        &&& forall|q: Place|
            q.within(enc) && q.precedes(p) ==> #[trigger] self.right(key, enc, start, q)
    }

    /// Whether everything is right.
    pub open spec fn all_right(self, key: CtView, enc: EncrChoiceView, start: Seq<Entry>) -> bool {
        forall|p: Place| p.within(enc) ==> #[trigger] self.right(key, enc, start, p)
    }

    /// Checks one place.
    fn check_place(
        enc: &Ciphertext,
        decryption: &DecOk,
        count: u64,
        pk: &PublicKey,
        params: &ElGamalParams,
        transcript: &mut Transcript,
    ) -> (r: u8)
        ensures
            r == if enc@ != decryption.ciphertext@ {
                1u8
            } else if !decryption.holds(pk.key(*params), transcript_entries(*old(transcript))) {
                2
            } else if count as int != decryption.plaintext.log() {
                3
            } else {
                0
            },
            r == 0 || r == 3 ==> transcript_entries(*final(transcript)) == decryption.after(
                pk.key(*params),
                transcript_entries(*old(transcript)),
            ),
    {
        if !enc.equals(&decryption.ciphertext) {
            return 1;
        }
        if decryption.verify(pk, params, transcript).is_err() {
            return 2;
        }
        let expected = Point::generator().times(&Scalar::from_u64(count));
        proof {
            lemma_order();
            lemma_red_small(count as int);
        }
        if !expected.equals(&decryption.plaintext) {
            return 3;
        }
        0
    }

    /// Checks the result against the encrypted tally, place by place: each
    /// decryption must be of the right ciphertext and proved, and each count
    /// must be what was decrypted.
    pub fn verify(
        &self,
        pk: &PublicKey,
        params: &ElGamalParams,
        enc_tally: &EncrChoice,
        transcript: &mut Transcript,
    ) -> (r: Result<(), Error>)
        requires
            self.shaped(enc_tally@),
        ensures
            match r {
                Ok(()) => self.all_right(
                    pk.key(*params),
                    enc_tally@,
                    transcript_entries(*old(transcript)),
                ),
                Err(e) => exists|p: Place| #[trigger]
                    self.stopped(
                        pk.key(*params),
                        enc_tally@,
                        transcript_entries(*old(transcript)),
                        p,
                        e,
                    ),
            },
            r.is_ok() ==> transcript_entries(*final(transcript)) == held_before_party(
                self.l1_d@,
                self.l2_d@,
                pk.key(*params),
                enc_tally@,
                transcript_entries(*old(transcript)),
                enc_tally@.l1.len() as int,
            ),
    {
        let ghost start = transcript_entries(*transcript);
        let ghost key = pk.key(*params);
        let ghost enc = enc_tally@;
        let mut i: usize = 0;
        while i < enc_tally.l1.len()
            invariant
                i <= enc_tally.l1@.len(),
                start == transcript_entries(*old(transcript)),
                key == pk.key(*params),
                enc == enc_tally@,
                self.shaped(enc),
                transcript_entries(*transcript) == held_before_party(
                    self.l1_d@,
                    self.l2_d@,
                    key,
                    enc,
                    start,
                    i as int,
                ),
                forall|q: Place|
                    q.within(enc) && q.precedes(Place::Party { i: i as int })
                        ==> #[trigger] self.right(key, enc, start, q),
            decreases enc_tally.l1@.len() - i,
        {
            let ghost here = Place::Party { i: i as int };
            proof {
                assert(enc.l1[i as int] == enc_tally.l1@[i as int]@);
                assert(enc.l2[i as int] == ct_views(enc_tally.l2@[i as int]@));
                assert(self.l2_d@[i as int]@.len() >= enc.l2[i as int].len());
                assert(self.tally.l2@[i as int]@.len() >= enc.l2[i as int].len());
            }
            let code = Self::check_place(
                &enc_tally.l1[i],
                &self.l1_d[i],
                self.tally.l1[i],
                pk,
                params,
                transcript,
            );
            if code != 0 {
                let text = with_number("check first failed at layer l1, index ", i);
                let error = if code == 1 {
                    Error::CiphertextMismatch(text)
                } else if code == 2 {
                    Error::FailedVerification(CryptoError::CommitmentMismatch)
                } else {
                    Error::DlogMismatch(text)
                };
                proof {
                    assert(here.within(enc));
                    assert(!self.right(key, enc, start, here));
                    assert(self.fault(key, enc, start, here, error));
                    assert(self.stopped(key, enc, start, here, error));
                }
                return Err(error);
            }
            proof {
                assert(self.right(key, enc, start, here));
                assert forall|q: Place|
                    q.within(enc) && q.precedes(
                        Place::Candidate { i: i as int, j: 0 },
                    ) implies #[trigger] self.right(key, enc, start, q) by {
                    match q {
                        Place::Party { i: h } => {
                            if h < i {
                                assert(q.precedes(here));
                            } else {
                                assert(q == here);
                            }
                        },
                        Place::Candidate { i: h, j: m } => {
                            assert(q.precedes(here));
                        },
                    }
                }
            }
            let row = &enc_tally.l2[i];
            let decryptions = &self.l2_d[i];
            let counts = &self.tally.l2[i];
            let mut j: usize = 0;
            while j < row.len()
                invariant
                    i < enc_tally.l1@.len(),
                    j <= row@.len(),
                    start == transcript_entries(*old(transcript)),
                    key == pk.key(*params),
                    enc == enc_tally@,
                    enc.l2[i as int] == ct_views(row@),
                    decryptions@ == self.l2_d@[i as int]@,
                    counts@ == self.tally.l2@[i as int]@,
                    decryptions@.len() >= row@.len(),
                    counts@.len() >= row@.len(),
                    transcript_entries(*transcript) == held_before_candidate(
                        self.l1_d@,
                        self.l2_d@,
                        key,
                        enc,
                        start,
                        i as int,
                        j as int,
                    ),
                    forall|q: Place|
                        q.within(enc) && q.precedes(Place::Candidate { i: i as int, j: j as int })
                            ==> #[trigger] self.right(key, enc, start, q),
                decreases row@.len() - j,
            {
                let ghost there = Place::Candidate { i: i as int, j: j as int };
                proof {
                    assert(ct_views(row@)[j as int] == row@[j as int]@);
                }
                let code = Self::check_place(
                    &row[j],
                    &decryptions[j],
                    counts[j],
                    pk,
                    params,
                    transcript,
                );
                if code != 0 {
                    let text = with_numbers(
                        "check first failed at layer l2, index (",
                        i,
                        ",",
                        j,
                        ")",
                    );
                    let error = if code == 1 {
                        Error::CiphertextMismatch(text)
                    } else if code == 2 {
                        Error::FailedVerification(CryptoError::CommitmentMismatch)
                    } else {
                        Error::DlogMismatch(text)
                    };
                    proof {
                        assert(there.within(enc));
                        assert(!self.right(key, enc, start, there));
                        assert(self.fault(key, enc, start, there, error));
                        assert(self.stopped(key, enc, start, there, error));
                    }
                    return Err(error);
                }
                proof {
                    assert(self.right(key, enc, start, there));
                    assert forall|q: Place|
                        q.within(enc) && q.precedes(
                            Place::Candidate { i: i as int, j: j + 1 },
                        ) implies #[trigger] self.right(key, enc, start, q) by {
                        if !q.precedes(there) {
                            assert(q == there);
                        }
                    }
                }
                j += 1;
            }
            proof {
                assert forall|q: Place|
                    q.within(enc) && q.precedes(
                        Place::Party { i: i + 1 },
                    ) implies #[trigger] self.right(key, enc, start, q) by {
                    assert(q.precedes(Place::Candidate { i: i as int, j: j as int }));
                }
            }
            i += 1;
        }
        proof {
            assert forall|p: Place| p.within(enc) implies #[trigger] self.right(
                key,
                enc,
                start,
                p,
            ) by {
                assert(p.precedes(Place::Party { i: i as int }));
            }
        }
        Ok(())
    }
}

/// What the transcript holds before the decryption of a party is made or
/// checked, where it held `start` at first: each party is followed by its
/// candidates.
pub open spec fn held_before_party(
    l1: Seq<DecOk>,
    l2: Seq<Vec<DecOk>>,
    key: CtView,
    enc: EncrChoiceView,
    start: Seq<Entry>,
    i: int,
) -> Seq<Entry>
    decreases i,
{
    if i <= 0 {
        start
    } else {
        held_before(
            l2[i - 1]@,
            key,
            l1[i - 1].after(key, held_before_party(l1, l2, key, enc, start, i - 1)),
            enc.l2[i - 1].len() as int,
        )
    }
}

/// What the transcript holds before the decryption of a candidate is made or
/// checked.
pub open spec fn held_before_candidate(
    l1: Seq<DecOk>,
    l2: Seq<Vec<DecOk>>,
    key: CtView,
    enc: EncrChoiceView,
    start: Seq<Entry>,
    i: int,
    j: int,
) -> Seq<Entry> {
    held_before(
        l2[i]@,
        key,
        l1[i].after(key, held_before_party(l1, l2, key, enc, start, i)),
        j,
    )
}

/// What the transcript holds before the decryption at a place is made or
/// checked.
pub open spec fn held_at(
    l1: Seq<DecOk>,
    l2: Seq<Vec<DecOk>>,
    key: CtView,
    enc: EncrChoiceView,
    start: Seq<Entry>,
    p: Place,
) -> Seq<Entry> {
    match p {
        Place::Party { i } => held_before_party(l1, l2, key, enc, start, i),
        Place::Candidate { i, j } => held_before_candidate(l1, l2, key, enc, start, i, j),
    }
}

} // verus!
