//! The public data of an election that everyone agrees on.

use merlin::Transcript;
use vstd::prelude::*;

use crate::encoding::{
    cbor_number, cbor_text, digest, encode_number, encode_text, field, put_field, sha3_256,
};
use crate::protocol::keys::ElectionPublicKey;
use crate::protocol::vote::choice::ChoiceParameters;
use crate::transcript::{
    append_message, message, new_transcript, text_message, transcript_entries, Entry,
};

verus! {

/// What an election is called.
#[derive(Debug, PartialEq)]
pub struct ElectionManifest {
    pub election_id: String,
    pub title: String,
    pub authority: String,
    pub version: u32,
}

/// A manifest by its values.
pub struct ManifestView {
    pub election_id: Seq<char>,
    pub title: Seq<char>,
    pub authority: Seq<char>,
    pub version: u32,
}

impl View for ElectionManifest {
    type V = ManifestView;

    open spec fn view(&self) -> ManifestView {
        ManifestView {
            election_id: self.election_id@,
            title: self.title@,
            authority: self.authority@,
            version: self.version,
        }
    }
}

impl Clone for ElectionManifest {
    fn clone(&self) -> (r: Self)
        ensures
            r@ == self@,
    {
        ElectionManifest {
            election_id: self.election_id.clone(),
            title: self.title.clone(),
            authority: self.authority.clone(),
            version: self.version,
        }
    }
}

/// The public data of an election, with their digest.
#[derive(Debug, PartialEq)]
pub struct ElectionContext {
    pub manifest: ElectionManifest,
    pub pk: ElectionPublicKey,
    pub choice: ChoiceParameters,
    pub context_hash: [u8; 32],
}

impl ManifestView {
    /// The encoding: a record of texts and version.
    pub open spec fn encoding(self) -> Seq<u8> {
        seq![0xa4u8] + field("election_id"@, cbor_text(self.election_id)) + field(
            "title"@,
            cbor_text(self.title),
        ) + field("authority"@, cbor_text(self.authority)) + field(
            "version"@,
            cbor_number(self.version as int),
        )
    }
}

impl ElectionManifest {
    /// The encoding.
    pub fn to_bytes(&self) -> (r: Vec<u8>)
        ensures
            r@ == self@.encoding(),
    {
        let mut out: Vec<u8> = Vec::new();
        out.push(0xa4);
        proof {
            assert(out@ =~= seq![0xa4u8]);
        }
        put_field(&mut out, "election_id", &encode_text(self.election_id.as_str()));
        put_field(&mut out, "title", &encode_text(self.title.as_str()));
        put_field(&mut out, "authority", &encode_text(self.authority.as_str()));
        put_field(&mut out, "version", &encode_number(self.version as u64));
        out
    }
}

/// The encoding of the public data: a list of the manifest, the key and the
/// shape of ballots.
pub open spec fn context_encoding(
    manifest: ManifestView,
    pk: ElectionPublicKey,
    choice: ChoiceParameters,
) -> Seq<u8> {
    seq![0x83u8] + manifest.encoding() + pk.encoding() + choice.encoding()
}

/// The digest of the public data.
fn compute_context_hash(
    manifest: &ElectionManifest,
    pk: &ElectionPublicKey,
    choice: &ChoiceParameters,
) -> (r: [u8; 32])
    ensures
        r@ == sha3_256(context_encoding(manifest@, *pk, *choice)),
{
    let mut out: Vec<u8> = Vec::new();
    out.push(0x83);
    proof {
        assert(out@ =~= seq![0x83u8]);
    }
    out.extend_from_slice(manifest.to_bytes().as_slice());
    out.extend_from_slice(pk.to_bytes().as_slice());
    out.extend_from_slice(choice.to_bytes().as_slice());
    proof {
        assert(out@ =~= context_encoding(manifest@, *pk, *choice));
    }
    digest(out.as_slice())
}

impl ElectionContext {
    /// Whether the digest is that of the data.
    pub open spec fn wf(self) -> bool {
        self.context_hash@ == sha3_256(
            context_encoding(self.manifest@, self.pk, self.choice),
        )
    }

    /// Whether the other holds the same data.
    pub open spec fn same(self, other: ElectionContext) -> bool {
        &&& self.manifest@ == other.manifest@
        &&& self.pk == other.pk
        &&& self.choice.n1 == other.choice.n1
        &&& self.choice.ln2@ == other.choice.ln2@
        &&& self.context_hash == other.context_hash
    }

    /// The public data with their digest.
    pub fn new(manifest: ElectionManifest, pk: ElectionPublicKey, choice: ChoiceParameters) -> (r: Self)
        ensures
            r.wf(),
            r.manifest == manifest,
            r.pk == pk,
            r.choice == choice,
    {
        let context_hash = compute_context_hash(&manifest, &pk, &choice);
        ElectionContext { manifest, pk, choice, context_hash }
    }

    /// The first steps of a transcript for the election.
    pub open spec fn steps(self, label: Seq<char>) -> Seq<Entry> {
        seq![text_message("dom-sep"@, label), message("election_ctx"@, self.context_hash@)]
    }

    /// A transcript for one step of the protocol, bound to the election.
    pub fn tr(&self, label: &'static str) -> (r: Transcript)
        requires
            vstd::utf8::encode_utf8(label@).len() <= u32::MAX,
        ensures
            transcript_entries(r) == self.steps(label@),
    {
        let mut tr = new_transcript(label);
        append_message(&mut tr, "election_ctx", self.context_hash.as_slice());
        proof {
            assert(transcript_entries(tr) =~= self.steps(label@));
        }
        tr
    }
}

impl Clone for ElectionContext {
    fn clone(&self) -> (r: Self)
        ensures
            r.same(*self),
    {
        ElectionContext {
            manifest: self.manifest.clone(),
            pk: self.pk,
            choice: self.choice.clone(),
            context_hash: self.context_hash,
        }
    }
}

/// What a transcript of one step of the protocol holds tells the step and the
/// election: transcripts for different labels or different digests differ.
pub proof fn law_transcripts_bound(
    a: ElectionContext,
    b: ElectionContext,
    label: Seq<char>,
    other: Seq<char>,
)
    requires
        a.steps(label) == b.steps(other),
    ensures
        label == other,
        a.context_hash@ == b.context_hash@,
{
    let first = a.steps(label);
    let second = b.steps(other);
    assert(first[0] == second[0]);
    assert(first[1] == second[1]);
    assert(first[1].1 == a.context_hash@);
    assert(second[1].1 == b.context_hash@);
    vstd::utf8::encode_utf8_decode_utf8(label);
    vstd::utf8::encode_utf8_decode_utf8(other);
}

} // verus!
