//! Fiat-Shamir transcripts.
//!
//! A transcript is the list of what was appended to it and of the challenges
//! drawn from it; a challenge is a function of that list.

use dlog_group::ristretto::RistrettoGroup;
use dlog_sigma_primitives::proofs::TranscriptForGroup;
use merlin::Transcript;
use vstd::prelude::*;
use vstd::utf8::{encode_scalar, encode_utf8};

use crate::elgamal::{ct_encoding, Ciphertext, CtView};
use crate::group::{point_encoding, scalar_encoding, Point, Scalar};

verus! {

/// One step of a transcript: a label, the message appended under it, and the
/// number of bytes drawn under it; a step either appends or draws.
pub type Entry = (Seq<char>, Seq<u8>, nat);

/// A `merlin` transcript.
#[verifier::external_type_specification]
#[verifier::external_body]
pub struct ExTranscript(Transcript);

/// What a transcript holds: its steps, oldest first.
pub uninterp spec fn transcript_entries(transcript: Transcript) -> Seq<(Seq<char>, Seq<u8>, nat)>;

/// The value of the challenge that `challenge_scalar` draws under `label` from
/// a transcript with these steps.
pub uninterp spec fn challenge_value(
    entries: Seq<(Seq<char>, Seq<u8>, nat)>,
    label: Seq<char>,
) -> int;

/// The step that appends `bytes` under `label`.
pub open spec fn message(label: Seq<char>, bytes: Seq<u8>) -> Entry {
    (label, bytes, 0)
}

/// The step that appends the text `text` under `label`.
pub open spec fn text_message(label: Seq<char>, text: Seq<char>) -> Entry {
    (label, encode_utf8(text), 0)
}

/// The step that draws a challenge scalar under `label`, which takes 64 bytes.
pub open spec fn challenge(label: Seq<char>) -> Entry {
    (label, seq![], 64)
}

/// The step that draws a seed under `label`, which takes 32 bytes.
pub open spec fn seed(label: Seq<char>) -> Entry {
    (label, seq![], 32)
}

/// The step that appends the scalar with value `v` under `label`.
pub open spec fn scalar_message(label: Seq<char>, v: int) -> Entry {
    message(label, scalar_encoding(v))
}

/// The step that appends the point with logarithm `log` under `label`.
pub open spec fn point_message(label: Seq<char>, log: int) -> Entry {
    message(label, point_encoding(log))
}

/// The step that appends a ciphertext under `label`.
pub open spec fn ct_message(label: Seq<char>, ct: CtView) -> Entry {
    message(label, ct_encoding(ct))
}

/// Calls `merlin::Transcript::new`, which starts a transcript by appending the
/// label under `dom-sep`; it panics on a label of 2^32 bytes or more.
#[verifier::external_body]
pub(crate) fn new_transcript(label: &'static str) -> (r: Transcript)
    requires
        encode_utf8(label@).len() <= u32::MAX,
    ensures
        transcript_entries(r) == seq![text_message("dom-sep"@, label@)],
{
    Transcript::new(label.as_bytes())
}

/// Calls `merlin::Transcript::append_message`, which panics on a message of
/// 2^32 bytes or more.
#[verifier::external_body]
pub(crate) fn append_message(transcript: &mut Transcript, label: &'static str, bytes: &[u8])
    requires
        bytes@.len() <= u32::MAX,
    ensures
        transcript_entries(*final(transcript)) == transcript_entries(*old(transcript)).push(
            message(label@, bytes@),
        ),
{
    transcript.append_message(label.as_bytes(), bytes);
}

/// Calls `Transcript::clone`: a transcript that holds the same.
#[verifier::external_body]
pub(crate) fn copy_transcript(transcript: &Transcript) -> (r: Transcript)
    ensures
        transcript_entries(r) == transcript_entries(*transcript),
{
    transcript.clone()
}

/// Calls `TranscriptForGroup::challenge_scalar` of `dlog-sigma-primitives`: a
/// scalar that depends on the label and on what the transcript holds, and on
/// nothing else.
#[verifier::external_body]
pub(crate) fn challenge_scalar(transcript: &mut Transcript, label: &'static str) -> (r: Scalar)
    ensures
        r@ == challenge_value(transcript_entries(*old(transcript)), label@),
        transcript_entries(*final(transcript)) == transcript_entries(*old(transcript)).push(
            challenge(label@),
        ),
{
    let value = transcript.challenge_scalar::<RistrettoGroup>(label.as_bytes());
    Scalar::from_bytes(value.as_bytes()).unwrap()
}

/// The first steps of a proof that has a transcript of its own.
pub open spec fn prelude(domain: Seq<char>) -> Seq<Entry> {
    seq![text_message("dom-sep"@, ""@), text_message("dom-sep"@, domain)]
}

/// A transcript for one proof.
pub(crate) fn start_proof(domain: &'static str) -> (r: Transcript)
    requires
        domain@.len() <= 1000,
    ensures
        transcript_entries(r) == prelude(domain@),
{
    proof {
        reveal_strlit("");
        lemma_utf8_len(""@);
    }
    let mut transcript = new_transcript("");
    append_text(&mut transcript, "dom-sep", domain);
    proof {
        assert(transcript_entries(transcript) =~= prelude(domain@));
    }
    transcript
}

/// Appends a text.
pub(crate) fn append_text(transcript: &mut Transcript, label: &'static str, text: &str)
    requires
        text@.len() <= 1000,
    ensures
        transcript_entries(*final(transcript)) == transcript_entries(*old(transcript)).push(
            text_message(label@, text@),
        ),
{
    proof {
        lemma_utf8_len(text@);
    }
    append_message(transcript, label, text.as_bytes());
}

/// Appends a point.
pub(crate) fn append_point(transcript: &mut Transcript, label: &'static str, point: &Point)
    ensures
        transcript_entries(*final(transcript)) == transcript_entries(*old(transcript)).push(
            point_message(label@, point.log()),
        ),
{
    let bytes = point.to_bytes();
    append_message(transcript, label, bytes.as_slice());
}

/// Appends a ciphertext.
pub(crate) fn append_ciphertext(
    transcript: &mut Transcript,
    label: &'static str,
    ciphertext: &Ciphertext,
)
    ensures
        transcript_entries(*final(transcript)) == transcript_entries(*old(transcript)).push(
            ct_message(label@, ciphertext@),
        ),
{
    let bytes = ciphertext.to_bytes();
    append_message(transcript, label, bytes.as_slice());
}

/// Appends a scalar.
pub(crate) fn append_scalar(transcript: &mut Transcript, label: &'static str, scalar: &Scalar)
    ensures
        transcript_entries(*final(transcript)) == transcript_entries(*old(transcript)).push(
            scalar_message(label@, scalar@),
        ),
{
    let bytes = scalar.to_bytes();
    append_message(transcript, label, bytes.as_slice());
}

/// A character takes at most four bytes.
pub(crate) proof fn lemma_utf8_len(text: Seq<char>)
    ensures
        encode_utf8(text).len() <= 4 * text.len(),
    decreases text.len(),
{
    if text.len() > 0 {
        assert(encode_scalar(text[0] as u32).len() <= 4);
        lemma_utf8_len(text.drop_first());
    }
}

} // verus!
