//! Proofs of a shuffle: that a list of ciphertexts is a rearrangement of
//! another, each re-encrypted.

use dlog_group::group::GroupPoint;
use dlog_group::group::GroupScalar;
use dlog_group::ristretto::RistrettoGroup;
use dlog_sigma_primitives::elgamal::ciphertext::Ciphertext as GroupCiphertext;
use dlog_sigma_primitives::elgamal::keys::{
    ElGamalParams as GroupParams, PublicKey as GroupPublicKey,
};
use dlog_sigma_primitives::error::Error as GroupError;
use dlog_sigma_primitives::pedersen::commitment::Parameters as GroupParameters;
use dlog_sigma_primitives::proofs::shuffle::{
    Shuffle as GroupShuffle, ShuffleBuilder as GroupShuffleBuilder,
};
use merlin::Transcript;
use rand::rngs::StdRng;
use vstd::prelude::*;

use crate::arith::red;
use crate::elgamal::{
    ct_add, ct_encrypt, ct_scale, ct_sub, ct_views, ct_zero, Ciphertext, CtView, ElGamalParams,
    ExtendedCiphertext, PublicKey,
};
use crate::error::CryptoError;
use crate::group::{Point, Scalar};
use crate::proofs::relation::scalar_views;
use crate::random::is_permutation;
use crate::transcript::{
    append_scalar, challenge, point_message, scalar_message, seed, transcript_entries, Entry,
};

verus! {

/// The bases of the commitments.
#[derive(Clone, Debug, PartialEq)]
pub struct Parameters {
    pub point: Point,
    pub generators: Vec<Point>,
    pub list_len: usize,
}

impl Parameters {
    /// Whether there are as many bases as `list_len` says.
    pub open spec fn wf(self) -> bool {
        self.generators@.len() == self.list_len
    }

    /// The logarithms of the blinding base and of the other bases.
    pub open spec fn logs(self) -> Seq<int> {
        seq![self.point.log()] + self.generators@.map_values(|p: Point| p.log())
    }

    /// Random bases for lists of length `n`.
    pub fn new(n: usize, rng: &mut StdRng) -> (r: Parameters)
        ensures
            r.wf(),
            r.list_len == n,
    {
        let mut generators: Vec<Point> = Vec::new();
        let mut i: usize = 0;
        while i < n
            invariant
                i <= n,
                generators@.len() == i,
            decreases n - i,
        {
            generators.push(Point::random(rng));
            i += 1;
        }
        Parameters { point: Point::random(rng), generators, list_len: n }
    }
}

/// The prover of a shuffle: it has committed to a permutation and to a mask for
/// each position.
#[verifier::external_body]
pub struct ShuffleBuilder {
    inner: GroupShuffleBuilder<RistrettoGroup>,
}

/// What a prover holds: the logarithms of both commitments, each in a list of
/// its own, the masks, the permutation, and the logarithms of the bases.
pub uninterp spec fn builder_parts(builder: ShuffleBuilder) -> Seq<Seq<int>>;

/// A finished proof, as the outside crate holds it.
#[verifier::external_body]
pub struct ShuffleParts {
    inner: GroupShuffle<RistrettoGroup>,
}

/// What a proof holds, in this order: the two commitments, the list `f`, the
/// four commitments of the inner argument, and its responses `f`, `z`,
/// `f_delta` and `z_delta`; points by their logarithms, and what is single in a
/// list of its own.
pub uninterp spec fn shuffle_parts(proof: ShuffleParts) -> Seq<Seq<int>>;

/// The scalars that both sides derive from a transcript that holds `entries`.
pub uninterp spec fn shuffle_challenges(entries: Seq<(Seq<char>, Seq<u8>, nat)>, n: int) -> Seq<int>;

/// What `Shuffle::verify` says to the proof with these parts under the given
/// bases, after a transcript that holds `entries`: zero where it accepts, one for
/// a mismatch of commitments, two for one of lengths.
pub uninterp spec fn shuffle_verdict(
    bases: Seq<int>,
    parts: Seq<Seq<int>>,
    entries: Seq<(Seq<char>, Seq<u8>, nat)>,
) -> int;

/// Whether the proof with these parts is valid under the given bases, after a
/// transcript that holds `entries`.
pub open spec fn shuffle_valid(
    bases: Seq<int>,
    parts: Seq<Seq<int>>,
    entries: Seq<(Seq<char>, Seq<u8>, nat)>,
) -> bool {
    shuffle_verdict(bases, parts, entries) == 0
}

/// The parts of an encoded proof, as `serde_json::from_str` reads them; nothing
/// where the text is no proof.
pub uninterp spec fn shuffle_from_text(text: Seq<char>) -> Option<Seq<Seq<int>>>;

/// The combination of the ciphertexts with the coefficients `ks`.
pub open spec fn ct_combination(cts: Seq<CtView>, ks: Seq<int>) -> CtView
    decreases cts.len(),
{
    if cts.len() == 0 {
        ct_zero()
    } else {
        ct_add(
            ct_combination(cts.drop_last(), ks),
            ct_scale(cts.last(), ks[cts.len() - 1]),
        )
    }
}

/// The steps that append the two commitments.
pub open spec fn shuffle_commit_steps(parts: Seq<Seq<int>>) -> Seq<Entry> {
    seq![point_message("commit"@, parts[0][0]), point_message("commit_d"@, parts[1][0])]
}

/// The steps that append the list `f`.
pub open spec fn f_steps(f: Seq<int>) -> Seq<Entry> {
    Seq::new(f.len(), |i: int| scalar_message("f"@, f[i]))
}

/// The steps before the inner argument.
pub open spec fn shuffle_head(parts: Seq<Seq<int>>) -> Seq<Entry> {
    shuffle_commit_steps(parts).push(seed("c"@)) + f_steps(parts[2])
}

/// The steps of the inner argument.
pub open spec fn shuffle_tail(parts: Seq<Seq<int>>) -> Seq<Entry> {
    seq![
        challenge("lambda"@),
        point_message("c_prime"@, parts[3][0]),
        point_message("commitment"@, parts[3][0]),
        challenge("x"@),
        point_message("c_d"@, parts[4][0]),
        point_message("c_delta"@, parts[5][0]),
        point_message("c_a"@, parts[6][0]),
        challenge("e"@),
    ]
}

/// Whether the lists of a proof have the lengths that belong to lists of `n`
/// ciphertexts.
pub open spec fn shuffle_sized(parts: Seq<Seq<int>>, n: int) -> bool {
    &&& parts.len() == 11
    &&& parts[2].len() == n
    &&& parts[7].len() == n
    &&& parts[9].len() == n - 1
}

/// Whether the lists of a proof are within the bases for lists of `n`
/// ciphertexts.
pub open spec fn shuffle_fits(parts: Seq<Seq<int>>, n: int) -> bool {
    &&& parts.len() == 11
    &&& parts[2].len() <= n
    &&& parts[7].len() <= n
    &&& parts[9].len() <= n
}

/// Whether the lists of a proof are long enough for an encoding.
pub open spec fn shuffle_long(parts: Seq<Seq<int>>) -> bool {
    &&& parts.len() == 11
    &&& parts[2].len() >= 2
    &&& parts[7].len() >= 2
    &&& parts[9].len() >= 2
}

impl ShuffleBuilder {
    /// Whether the prover holds all its parts, with `n` masks.
    pub open spec fn sized(self, n: int) -> bool {
        &&& builder_parts(self).len() == 5
        &&& builder_parts(self)[2].len() == n
    }

    /// Whether the prover has committed to the permutation.
    pub open spec fn shuffles(self, perm: Seq<usize>) -> bool {
        builder_parts(self)[3] == perm.map_values(|i: usize| i as int)
    }

    /// Whether the prover has committed under the bases.
    pub open spec fn uses(self, ped: Parameters) -> bool {
        builder_parts(self)[4] == ped.logs()
    }

    /// The masks.
    pub open spec fn masks(self) -> Seq<int> {
        builder_parts(self)[2]
    }

    /// Calls `ShuffleBuilder::new` of `dlog-sigma-primitives`, which commits to
    /// the permutation and to as many random masks as the bases are for.
    #[verifier::external_body]
    pub(crate) fn new(ped: &Parameters, perm: &Vec<usize>, rng: &mut StdRng) -> (r: Self)
        requires
            ped.wf(),
            perm@.len() <= ped.list_len,
        ensures
            builder_parts(r).len() == 5,
            builder_parts(r)[2].len() == ped.list_len,
            r.shuffles(perm@),
            r.uses(*ped),
    {
        let p = |x: &Point| RistrettoGroup::point_from_bytes(&x.to_bytes()).unwrap();
        let generators = ped.generators.iter().map(p).collect();
        let ped = GroupParameters { point: p(&ped.point), generators, list_len: ped.list_len };
        ShuffleBuilder { inner: GroupShuffleBuilder::new(&ped, perm, rng) }
    }

    /// Calls `ShuffleBuilder::get_e_d` of `dlog-sigma-primitives`: the
    /// combination of the ciphertexts with the masks, re-encrypted with the
    /// randomness that comes with it.
    #[verifier::external_body]
    pub(crate) fn get_e_d(
        &self,
        pk: &PublicKey,
        params: &ElGamalParams,
        shuffled: &Vec<Ciphertext>,
        rng: &mut StdRng,
    ) -> (r: ExtendedCiphertext)
        requires
            self.sized(shuffled@.len() as int),
        ensures
            r.inner@ == ct_add(
                ct_combination(ct_views(shuffled@), self.masks()),
                ct_encrypt(pk.key(*params), 0, r.random_scalar@),
            ),
    {
        let p = |x: &Point| RistrettoGroup::point_from_bytes(&x.to_bytes()).unwrap();
        let params = GroupParams { g1: p(&params.g1), g2: p(&params.g2) };
        let pk = GroupPublicKey { h: p(&pk.h) };
        let decode = |ct: &Ciphertext| GroupCiphertext::from_bytes(&ct.to_bytes()).unwrap();
        let shuffled: Vec<_> = shuffled.iter().map(decode).collect();
        let out = self.inner.get_e_d(&pk, &params, &shuffled, rng);
        ExtendedCiphertext {
            inner: Ciphertext::from_bytes(&out.inner.to_bytes()).unwrap(),
            random_scalar: Scalar::from_bytes(out.expose().as_bytes()).unwrap(),
        }
    }

    /// Calls `ShuffleBuilder::update_transcript1` of `dlog-sigma-primitives`,
    /// which appends both commitments.
    #[verifier::external_body]
    pub(crate) fn append_commitments(&self, transcript: &mut Transcript)
        ensures
            transcript_entries(*final(transcript)) == transcript_entries(*old(transcript))
                + shuffle_commit_steps(builder_parts(*self)),
    {
        self.inner.update_transcript1(transcript);
    }

    /// Calls `ShuffleBuilder::compute_t` of `dlog-sigma-primitives`, which
    /// derives the scalars `t` from the transcript and hides the permuted ones
    /// behind the masks: `f[i] = t[perm[i]] - mask[i]`.  It gives `f` and `t`.
    #[verifier::external_body]
    pub(crate) fn compute_t(&self, perm: &Vec<usize>, transcript: &mut Transcript) -> (r: (
        Vec<Scalar>,
        Vec<Scalar>,
    ))
        requires
            self.sized(perm@.len() as int),
            is_permutation(perm@, perm@.len() as int),
        ensures
            scalar_views(r.1@) == shuffle_challenges(
                transcript_entries(*old(transcript)),
                perm@.len() as int,
            ),
            r.1@.len() == perm@.len(),
            r.0@.len() == perm@.len(),
            forall|i: int|
                #![trigger r.0@[i]]
                0 <= i < perm@.len() ==> r.0@[i]@ == red(r.1@[perm@[i] as int]@ - self.masks()[i]),
            transcript_entries(*final(transcript)) == transcript_entries(*old(transcript)).push(
                seed("c"@),
            ),
    {
        let convert = |list: Vec<<RistrettoGroup as GroupScalar>::Scalar>|
            list.iter().map(|s| Scalar::from_bytes(s.as_bytes()).unwrap()).collect();
        let (f, t) = self.inner.compute_t(perm, transcript);
        (convert(f), convert(t))
    }

    /// Calls `ShuffleBuilder::complete` of `dlog-sigma-primitives`, which makes
    /// the inner argument.  Permutation and bases are those of the commitments;
    /// where the scalars `t` are those derived from the transcript, and `f` hides
    /// them behind the masks, the proof is valid.
    #[verifier::external_body]
    fn complete(
        self,
        ped: &Parameters,
        f: &Vec<Scalar>,
        t: &Vec<Scalar>,
        perm: &Vec<usize>,
        transcript: &mut Transcript,
        rng: &mut StdRng,
    ) -> (r: ShuffleParts)
        requires
            ped.wf(),
            ped.list_len >= 2,
            is_permutation(perm@, ped.list_len as int),
            self.sized(ped.list_len as int),
            self.shuffles(perm@),
            self.uses(*ped),
            f@.len() == ped.list_len,
            t@.len() == ped.list_len,
        ensures
            shuffle_sized(shuffle_parts(r), ped.list_len as int),
            shuffle_parts(r)[0] == builder_parts(self)[0],
            shuffle_parts(r)[1] == builder_parts(self)[1],
            shuffle_parts(r)[2] == scalar_views(f@),
            transcript_entries(*final(transcript)) == transcript_entries(*old(transcript))
                + shuffle_tail(shuffle_parts(r)),
            forall|start: Seq<Entry>|
                #![trigger shuffle_valid(ped.logs(), shuffle_parts(r), start)]
                transcript_entries(*old(transcript)) == start + shuffle_head(shuffle_parts(r))
                    && scalar_views(t@) == shuffle_challenges(
                    start + shuffle_commit_steps(shuffle_parts(r)),
                    ped.list_len as int,
                ) && (forall|i: int|
                    #![trigger f@[i]]
                    0 <= i < f@.len() ==> f@[i]@ == red(t@[perm@[i] as int]@ - self.masks()[i]))
                    ==> shuffle_valid(ped.logs(), shuffle_parts(r), start),
    {
        let p = |x: &Point| RistrettoGroup::point_from_bytes(&x.to_bytes()).unwrap();
        let s = |x: &Scalar| RistrettoGroup::scalar_from_bytes(&x.to_bytes()).unwrap();
        let generators = ped.generators.iter().map(p).collect();
        let ped = GroupParameters { point: p(&ped.point), generators, list_len: ped.list_len };
        let f: Vec<_> = f.iter().map(s).collect();
        let t: Vec<_> = t.iter().map(s).collect();
        ShuffleParts { inner: self.inner.complete(&ped, &f, &t, perm, transcript, rng) }
    }

    /// Finishes the proof.
    pub fn finish(
        self,
        ped: &Parameters,
        f: &Vec<Scalar>,
        t: &Vec<Scalar>,
        perm: &Vec<usize>,
        transcript: &mut Transcript,
        rng: &mut StdRng,
    ) -> (r: Shuffle)
        requires
            ped.wf(),
            ped.list_len >= 2,
            is_permutation(perm@, ped.list_len as int),
            self.sized(ped.list_len as int),
            self.shuffles(perm@),
            self.uses(*ped),
            f@.len() == ped.list_len,
            t@.len() == ped.list_len,
        ensures
            r.size() == ped.list_len,
            shuffle_sized(r.parts(), ped.list_len as int),
            r.parts()[0] == builder_parts(self)[0],
            r.parts()[1] == builder_parts(self)[1],
            r.f() == scalar_views(f@),
            transcript_entries(*final(transcript)) == transcript_entries(*old(transcript))
                + f_steps(r.f()) + shuffle_tail(r.parts()),
            forall|start: Seq<Entry>|
                #![trigger r.valid(*ped, start)]
                transcript_entries(*old(transcript)) == (start + shuffle_commit_steps(
                    r.parts(),
                )).push(seed("c"@)) && scalar_views(t@) == shuffle_challenges(
                    start + shuffle_commit_steps(r.parts()),
                    ped.list_len as int,
                ) && (forall|i: int|
                    #![trigger f@[i]]
                    0 <= i < f@.len() ==> f@[i]@ == red(t@[perm@[i] as int]@ - self.masks()[i]))
                    ==> r.valid(*ped, start),
    {
        let ghost before = transcript_entries(*transcript);
        let ghost fs = scalar_views(f@);
        let mut i: usize = 0;
        proof {
            assert(before + f_steps(fs.take(0)) =~= before);
        }
        while i < f.len()
            invariant
                i <= f@.len(),
                fs == scalar_views(f@),
                transcript_entries(*transcript) == before + f_steps(fs.take(i as int)),
            decreases f@.len() - i,
        {
            append_scalar(transcript, "f", &f[i]);
            i += 1;
            proof {
                assert(transcript_entries(*transcript) =~= before + f_steps(fs.take(i as int)));
            }
        }
        proof {
            assert(fs.take(i as int) =~= fs);
        }
        let size = ped.list_len;
        let parts = self.complete(ped, f, t, perm, transcript, rng);
        let out = Shuffle { parts, size, inner: size, products: size - 1 };
        proof {
            assert forall|start: Seq<Entry>|
                #![trigger out.valid(*ped, start)]
                before == (start + shuffle_commit_steps(out.parts())).push(seed("c"@))
                    && scalar_views(t@) == shuffle_challenges(
                    start + shuffle_commit_steps(out.parts()),
                    ped.list_len as int,
                ) && (forall|i: int|
                    #![trigger f@[i]]
                    0 <= i < f@.len() ==> f@[i]@ == red(
                        t@[perm@[i] as int]@ - self.masks()[i],
                    )) implies out.valid(*ped, start) by {
                assert(before + f_steps(fs) =~= start + shuffle_head(out.parts()));
                assert(shuffle_valid(ped.logs(), shuffle_parts(parts), start));
            }
        }
        out
    }
}

/// A proof of a shuffle, with the lengths of its list `f` and of the two lists of
/// the inner argument.
pub struct Shuffle {
    parts: ShuffleParts,
    size: usize,
    inner: usize,
    products: usize,
}

/// Calls `Shuffle::verify` of `dlog-sigma-primitives`, which checks the proof
/// and gives the scalars derived from the transcript.  No list of the proof may
/// be longer than the list of bases, which must not be empty.  Inner lists of the
/// wrong length are not accepted; with lists of the right length there is no
/// mismatch of lengths.
#[verifier::external_body]
fn check(proof: &ShuffleParts, ped: &Parameters, transcript: &mut Transcript) -> (r: Result<
    Vec<Scalar>,
    CryptoError,
>)
    requires
        ped.wf(),
        ped.list_len >= 1,
        shuffle_fits(shuffle_parts(*proof), ped.list_len as int),
    ensures
        verdict_number(r) == shuffle_verdict(
            ped.logs(),
            shuffle_parts(*proof),
            transcript_entries(*old(transcript)),
        ),
        r matches Err(e) ==> e == CryptoError::CommitmentMismatch || (e
            == CryptoError::LengthMismatch && !shuffle_sized(
            shuffle_parts(*proof),
            ped.list_len as int,
        )),
        r.is_ok() ==> shuffle_parts(*proof)[7].len() == ped.list_len && shuffle_parts(
            *proof,
        )[9].len() == ped.list_len - 1,
        r matches Ok(t) ==> t@.len() == ped.list_len && scalar_views(t@) == shuffle_challenges(
            transcript_entries(*old(transcript)) + shuffle_commit_steps(shuffle_parts(*proof)),
            ped.list_len as int,
        ),
        r.is_ok() ==> transcript_entries(*final(transcript)) == transcript_entries(
            *old(transcript),
        ) + shuffle_head(shuffle_parts(*proof)) + shuffle_tail(shuffle_parts(*proof)),
{
    let p = |x: &Point| RistrettoGroup::point_from_bytes(&x.to_bytes()).unwrap();
    let generators = ped.generators.iter().map(p).collect();
    let ped = GroupParameters { point: p(&ped.point), generators, list_len: ped.list_len };
    match proof.inner.verify(&ped, transcript) {
        Ok(t) => Ok(t.iter().map(|s| Scalar::from_bytes(s.as_bytes()).unwrap()).collect()),
        Err(GroupError::LengthMismatch) => Err(CryptoError::LengthMismatch),
        Err(_) => Err(CryptoError::CommitmentMismatch),
    }
}

/// The number of a verdict.
pub open spec fn verdict_number(r: Result<Vec<Scalar>, CryptoError>) -> int {
    match r {
        Ok(_) => 0,
        Err(CryptoError::LengthMismatch) => 2,
        Err(_) => 1,
    }
}

/// Calls `serde_json::to_string` on a proof.  An encoded proof has at least two
/// entries in each of its lists; reading the text gives the proof back.
#[verifier::external_body]
fn write(proof: &ShuffleParts) -> (r: String)
    requires
        shuffle_long(shuffle_parts(*proof)),
    ensures
        shuffle_from_text(r@) == Some(shuffle_parts(*proof)),
{
    serde_json::to_string(&proof.inner).unwrap()
}

/// Calls `serde_json::from_str` for a proof, which refuses lists of fewer than
/// two entries.
#[verifier::external_body]
fn read(text: &String) -> (r: Option<ShuffleParts>)
    ensures
        r.is_some() == shuffle_from_text(text@).is_some(),
        r matches Some(p) ==> shuffle_from_text(text@) == Some(shuffle_parts(p)) && shuffle_long(
            shuffle_parts(p),
        ),
{
    serde_json::from_str(text).ok().map(|inner| ShuffleParts { inner })
}

/// Calls `serde_json::to_value` on a proof and tells the lengths of its list `f`
/// and of the two lists of the inner argument.
#[verifier::external_body]
fn lengths(proof: &ShuffleParts) -> (r: (usize, usize, usize))
    requires
        shuffle_long(shuffle_parts(*proof)),
    ensures
        r.0 == shuffle_parts(*proof)[2].len(),
        r.1 == shuffle_parts(*proof)[7].len(),
        r.2 == shuffle_parts(*proof)[9].len(),
{
    let value = serde_json::to_value(&proof.inner).unwrap();
    let len = |list: &serde_json::Value| list.as_array().unwrap().len();
    (len(&value["f"]), len(&value["kcs"]["f"]), len(&value["kcs"]["f_delta"]))
}

/// Calls `Shuffle::check_re_encryption` of `dlog-sigma-primitives`: whether
/// `e_d`, less the originals combined with `t`, plus the shuffled ones combined
/// with the proof's list `f`, encrypts zero with randomness `z` under the key
/// triple `key`.
#[verifier::external_body]
fn linked(
    proof: &ShuffleParts,
    key: &Ciphertext,
    e_d: &Ciphertext,
    z: &Scalar,
    t: &Vec<Scalar>,
    lists: (&Vec<Ciphertext>, &Vec<Ciphertext>),
) -> (r: bool)
    requires
        lists.0@.len() <= t@.len(),
        lists.0@.len() == lists.1@.len(),
        shuffle_parts(*proof).len() == 11,
        shuffle_parts(*proof)[2].len() == lists.0@.len(),
    ensures
        r == re_encryption_holds(
            key@,
            e_d@,
            z@,
            scalar_views(t@),
            shuffle_parts(*proof)[2],
            ct_views(lists.0@),
            ct_views(lists.1@),
        ),
{
    let s = |x: &Scalar| RistrettoGroup::scalar_from_bytes(&x.to_bytes()).unwrap();
    let c = |x: &Ciphertext| GroupCiphertext::from_bytes(&x.to_bytes()).unwrap();
    let params = GroupParams { g1: c(key).random_point, g2: c(key).random_point2 };
    let pk = GroupPublicKey { h: c(key).blinded_point };
    let t: Vec<_> = t.iter().map(s).collect();
    let originals: Vec<_> = lists.0.iter().map(c).collect();
    let shuffled: Vec<_> = lists.1.iter().map(c).collect();
    proof.inner.check_re_encryption(&pk, &params, &c(e_d), &s(z), &t, &originals, &shuffled).is_ok()
}

/// The equation that links a shuffle proof to lists of ciphertexts.
pub open spec fn re_encryption_holds(
    key: CtView,
    e_d: CtView,
    z: int,
    t: Seq<int>,
    f: Seq<int>,
    originals: Seq<CtView>,
    shuffled: Seq<CtView>,
) -> bool {
    ct_add(ct_sub(e_d, ct_combination(originals, t)), ct_combination(shuffled, f)) == ct_encrypt(
        key,
        0,
        z,
    )
}

impl Shuffle {
    #[verifier::type_invariant]
    spec fn inv(self) -> bool {
        &&& shuffle_parts(self.parts).len() == 11
        &&& shuffle_parts(self.parts)[2].len() == self.size
        &&& shuffle_parts(self.parts)[7].len() == self.inner
        &&& shuffle_parts(self.parts)[9].len() == self.products
    }

    /// The parts of the proof.
    pub closed spec fn parts(self) -> Seq<Seq<int>> {
        shuffle_parts(self.parts)
    }

    /// The list `f`.
    pub open spec fn f(self) -> Seq<int> {
        self.parts()[2]
    }

    /// The number of ciphertexts that were shuffled.
    pub open spec fn size(self) -> int {
        self.f().len() as int
    }

    /// Whether the proof is valid under the bases, after `entries`, and for as
    /// many ciphertexts as there are bases.
    pub open spec fn valid(self, ped: Parameters, entries: Seq<Entry>) -> bool {
        &&& shuffle_valid(ped.logs(), self.parts(), entries)
        &&& self.size() == ped.list_len
    }

    /// What is said to a proof that is not accepted: a mismatch of lengths, where
    /// the verifier of the shuffle says so or the proof is for fewer ciphertexts,
    /// else one of commitments.
    pub open spec fn refusal(self, ped: Parameters, entries: Seq<Entry>) -> CryptoError {
        let verdict = shuffle_verdict(ped.logs(), self.parts(), entries);
        if verdict == 2 || (verdict == 0 && self.size() != ped.list_len) {
            CryptoError::LengthMismatch
        } else {
            CryptoError::CommitmentMismatch
        }
    }

    /// Whether the lists of the proof are within bases for lists of length `n`.
    pub fn is_fitting(&self, n: usize) -> (r: bool)
        ensures
            r == shuffle_fits(self.parts(), n as int),
    {
        proof {
            use_type_invariant(self);
        }
        self.size <= n && self.inner <= n && self.products <= n
    }

    /// The proof as a text, where its lists are long enough for one.
    pub fn to_text(&self) -> (r: Option<String>)
        ensures
            r.is_some() == shuffle_long(self.parts()),
            r matches Some(text) ==> shuffle_from_text(text@) == Some(self.parts()),
    {
        proof {
            use_type_invariant(self);
        }
        if self.size >= 2 && self.inner >= 2 && self.products >= 2 {
            Some(write(&self.parts))
        } else {
            None
        }
    }

    /// Reads a proof from a text.
    pub fn from_text(text: &String) -> (r: Option<Self>)
        ensures
            r.is_some() == shuffle_from_text(text@).is_some(),
            r matches Some(p) ==> shuffle_from_text(text@) == Some(p.parts()),
    {
        match read(text) {
            Some(parts) => {
                let (size, inner, products) = lengths(&parts);
                Some(Shuffle { parts, size, inner, products })
            },
            None => None,
        }
    }

    /// The number of ciphertexts that were shuffled.
    pub fn len(&self) -> (r: usize)
        ensures
            r == self.size(),
    {
        proof {
            use_type_invariant(self);
        }
        self.size
    }

    /// Checks the proof and gives the scalars derived from the transcript; refuses
    /// a proof for fewer ciphertexts than there are bases.
    pub fn verify(&self, ped: &Parameters, transcript: &mut Transcript) -> (r: Result<
        Vec<Scalar>,
        CryptoError,
    >)
        requires
            ped.wf(),
            ped.list_len >= 1,
            shuffle_fits(self.parts(), ped.list_len as int),
        ensures
            match r {
                Ok(t) => {
                    &&& self.valid(*ped, transcript_entries(*old(transcript)))
                    &&& t@.len() == ped.list_len
                    &&& scalar_views(t@) == shuffle_challenges(
                        transcript_entries(*old(transcript)) + shuffle_commit_steps(self.parts()),
                        ped.list_len as int,
                    )
                    &&& transcript_entries(*final(transcript)) == transcript_entries(
                        *old(transcript),
                    ) + shuffle_head(self.parts()) + shuffle_tail(self.parts())
                },
                Err(e) => !self.valid(*ped, transcript_entries(*old(transcript))) && e
                    == self.refusal(*ped, transcript_entries(*old(transcript))),
            },
    {
        proof {
            use_type_invariant(self);
        }
        match check(&self.parts, ped, transcript) {
            Ok(t) => if self.size == ped.list_len {
                Ok(t)
            } else {
                Err(CryptoError::LengthMismatch)
            },
            Err(e) => Err(e),
        }
    }

    /// Checks that the shuffled ciphertexts belong to the originals.
    pub fn check_re_encryption(
        &self,
        pk: &PublicKey,
        params: &ElGamalParams,
        e_d: &Ciphertext,
        z: &Scalar,
        t: &Vec<Scalar>,
        originals: &Vec<Ciphertext>,
        shuffled: &Vec<Ciphertext>,
    ) -> (r: Result<(), CryptoError>)
        requires
            t@.len() == self.size(),
            originals@.len() == self.size(),
            shuffled@.len() == self.size(),
        ensures
            r == if re_encryption_holds(
                pk.key(*params),
                e_d@,
                z@,
                scalar_views(t@),
                self.f(),
                ct_views(originals@),
                ct_views(shuffled@),
            ) {
                Ok::<(), CryptoError>(())
            } else {
                Err(CryptoError::CommitmentMismatch)
            },
    {
        proof {
            use_type_invariant(self);
        }
        let key = pk.to_ciphertext(params);
        if linked(&self.parts, &key, e_d, z, t, (originals, shuffled)) {
            Ok(())
        } else {
            Err(CryptoError::CommitmentMismatch)
        }
    }
}

} // verus!
