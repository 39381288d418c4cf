//! Mixing of credentials.

use merlin::Transcript;
use rand::rngs::StdRng;
use vstd::prelude::*;

use crate::arith::red;
use crate::elgamal::{ct_add, ct_encrypt, ct_views, Ciphertext, CtView, ExtendedCiphertext};
use crate::error::{CryptoError, Error};
use crate::group::Scalar;
use crate::proofs::linkage::{int_sum, law_linkage, permuted, products};
use crate::proofs::relation::scalar_views;
use crate::proofs::shuffle::{
    builder_parts, ct_combination, re_encryption_holds, shuffle_challenges, shuffle_commit_steps,
    shuffle_fits, shuffle_head, shuffle_sized, shuffle_tail, Parameters, Shuffle, ShuffleBuilder,
};
use crate::protocol::keys::ElectionPublicKey;
use crate::protocol::mix::{accumulate, answered, hides, respond};
use crate::protocol::vote::auth::{ExtendedShortPublicACC, ShortPublicACC};
use crate::protocol::vote::auth_proof::re_encryption;
use crate::protocol::vote::choice::{inner_views, randomness};
use crate::random::is_permutation;
use crate::transcript::{append_ciphertext, ct_message, seed, transcript_entries, Entry};

verus! {

/// The proof of a credential mix.
pub struct MixedCredentials {
    pub core_proof: Shuffle,
    pub e_d: Ciphertext,
    pub z: Scalar,
}

/// The ciphertexts of credentials, with randomness.
pub open spec fn ext_credentials(creds: Seq<ExtendedShortPublicACC>) -> Seq<ExtendedCiphertext> {
    creds.map_values(|c: ExtendedShortPublicACC| c.enc_A)
}

/// The ciphertexts of the first `n` credentials.
pub open spec fn credentials(creds: Seq<ShortPublicACC>, n: int) -> Seq<CtView> {
    Seq::new(n as nat, |k: int| creds[k].enc_A@)
}

/// The ciphertexts of the first `n` credentials.
pub fn credential_list(creds: &Vec<ShortPublicACC>, n: usize) -> (r: Vec<Ciphertext>)
    requires
        n <= creds@.len(),
    ensures
        r@.len() == n,
        ct_views(r@) == credentials(creds@, n as int),
{
    let mut out: Vec<Ciphertext> = Vec::new();
    let mut k: usize = 0;
    while k < n
        invariant
            k <= n <= creds@.len(),
            out@.len() == k,
            forall|h: int| #![trigger out@[h]] 0 <= h < k ==> out@[h]@ == creds@[h].enc_A@,
        decreases n - k,
    {
        out.push(creds[k].enc_A);
        k += 1;
    }
    proof {
        assert(ct_views(out@) =~= credentials(creds@, n as int));
    }
    out
}

impl MixedCredentials {
    /// The scalars that both sides derive.
    pub open spec fn challenges(self, entries: Seq<Entry>, n: int) -> Seq<int> {
        shuffle_challenges(
            entries.push(ct_message(""@, self.e_d@)) + shuffle_commit_steps(
                self.core_proof.parts(),
            ),
            n,
        )
    }

    /// Whether the proof is accepted.
    pub open spec fn accepted(
        self,
        pk: ElectionPublicKey,
        ped: Parameters,
        originals: Seq<ShortPublicACC>,
        shuffled: Seq<ShortPublicACC>,
        entries: Seq<Entry>,
    ) -> bool {
        let n = originals.len() as int;
        &&& self.core_proof.valid(ped, entries.push(ct_message(""@, self.e_d@)))
        &&& re_encryption_holds(
            pk.key(),
            self.e_d@,
            self.z@,
            self.challenges(entries, n),
            self.core_proof.f(),
            credentials(originals, n),
            credentials(shuffled, n),
        )
    }

    /// What is said to a proof that is not accepted.
    pub open spec fn refusal(self, ped: Parameters, entries: Seq<Entry>) -> CryptoError {
        self.core_proof.refusal(ped, entries.push(ct_message(""@, self.e_d@)))
    }

    /// What the transcript holds after the proof was made or accepted.
    pub open spec fn after(self, entries: Seq<Entry>) -> Seq<Entry> {
        entries.push(ct_message(""@, self.e_d@)) + shuffle_head(self.core_proof.parts())
            + shuffle_tail(self.core_proof.parts())
    }

    /// Proves that the shuffled credentials are other credentials, rearranged
    /// by `perm` and re-encrypted.
    pub fn new(
        pk: &ElectionPublicKey,
        ped_params: &Parameters,
        perm: &Vec<usize>,
        shuffled: &Vec<ExtendedShortPublicACC>,
        rng: &mut StdRng,
        transcript: &mut Transcript,
    ) -> (r: Self)
        requires
            ped_params.wf(),
            ped_params.list_len >= 2,
            ped_params.list_len == shuffled@.len(),
            is_permutation(perm@, ped_params.list_len as int),
        ensures
            r.core_proof.size() == ped_params.list_len,
            shuffle_sized(r.core_proof.parts(), ped_params.list_len as int),
            r.core_proof.valid(
                *ped_params,
                transcript_entries(*old(transcript)).push(ct_message(""@, r.e_d@)),
            ),
            exists|d: Seq<int>|
                hides(
                    r.core_proof.f(),
                    r.challenges(
                        transcript_entries(*old(transcript)),
                        ped_params.list_len as int,
                    ),
                    perm@,
                    d,
                ) && #[trigger] answered(
                    pk.key(),
                    ext_credentials(shuffled@),
                    d,
                    r.challenges(
                        transcript_entries(*old(transcript)),
                        ped_params.list_len as int,
                    ),
                    perm@,
                    r.e_d@,
                    r.z@,
                ),
            transcript_entries(*final(transcript)) == r.after(transcript_entries(*old(transcript))),
    {
        let ghost before = transcript_entries(*transcript);
        let ghost n = ped_params.list_len as int;
        let builder = ShuffleBuilder::new(ped_params, perm, rng);
        let ghost d = builder.masks();
        let mut col: Vec<ExtendedCiphertext> = Vec::new();
        let mut k: usize = 0;
        while k < shuffled.len()
            invariant
                k <= shuffled@.len(),
                col@.len() == k,
                forall|h: int| #![trigger col@[h]] 0 <= h < k ==> col@[h] == shuffled@[h].enc_A,
            decreases shuffled@.len() - k,
        {
            col.push(shuffled[k].enc_A);
            k += 1;
        }
        proof {
            assert(col@ =~= ext_credentials(shuffled@));
        }
        let e = accumulate(&builder, pk, &col, rng, transcript);
        let ghost appended = transcript_entries(*transcript);
        builder.append_commitments(transcript);
        let (f_list, t_list) = builder.compute_t(perm, transcript);
        let ghost t = scalar_views(t_list@);
        let z = respond(&e.random_scalar, &col, &t_list, perm);
        let ghost held = builder_parts(builder);
        let ghost seeded = transcript_entries(*transcript);
        let core_proof = builder.finish(ped_params, &f_list, &t_list, perm, transcript, rng);
        let out = MixedCredentials { core_proof, e_d: e.inner, z };
        proof {
            let parts = core_proof.parts();
            assert(appended == before.push(ct_message(""@, out.e_d@)));
            assert(shuffle_commit_steps(parts) =~= shuffle_commit_steps(held));
            assert(t == out.challenges(before, n));
            assert(seeded == (appended + shuffle_commit_steps(parts)).push(seed("c"@)));
            assert(core_proof.valid(*ped_params, appended));
            assert(transcript_entries(*transcript) =~= out.after(before));
            let f = core_proof.f();
            assert forall|k: int| #![trigger f[k]] 0 <= k < f.len() implies f[k] == red(
                t[perm@[k] as int] - d[k],
            ) by {
                assert(f_list@[k]@ == red(t_list@[perm@[k] as int]@ - d[k]));
                assert(perm@[k] < n);
            }
            assert(hides(f, t, perm@, d));
            assert(out.e_d@ == ct_add(
                ct_combination(inner_views(col@), d),
                ct_encrypt(pk.key(), 0, e.random_scalar@),
            ));
            assert(answered(pk.key(), ext_credentials(shuffled@), d, t, perm@, out.e_d@, out.z@));
        }
        out
    }

    /// Checks that the shuffled credentials are the originals, rearranged and
    /// re-encrypted.
    pub fn verify(
        &self,
        pk: &ElectionPublicKey,
        ped_params: &Parameters,
        originals: &Vec<ShortPublicACC>,
        shuffled: &Vec<ShortPublicACC>,
        transcript: &mut Transcript,
    ) -> (r: Result<(), Error>)
        requires
            ped_params.wf(),
            ped_params.list_len >= 1,
            ped_params.list_len == originals@.len(),
            shuffle_fits(self.core_proof.parts(), ped_params.list_len as int),
            shuffled@.len() >= originals@.len(),
        ensures
            r == if self.accepted(
                *pk,
                *ped_params,
                originals@,
                shuffled@,
                transcript_entries(*old(transcript)),
            ) {
                Ok::<(), Error>(())
            } else {
                Err(
                    Error::FailedVerification(
                        self.refusal(*ped_params, transcript_entries(*old(transcript))),
                    ),
                )
            },
            r.is_ok() ==> transcript_entries(*final(transcript)) == self.after(
                transcript_entries(*old(transcript)),
            ),
    {
        append_ciphertext(transcript, "", &self.e_d);
        let t_list = match self.core_proof.verify(ped_params, transcript) {
            Ok(t_list) => t_list,
            Err(e) => return Err(Error::FailedVerification(e)),
        };
        let n = originals.len();
        let first = credential_list(originals, n);
        let second = credential_list(shuffled, n);
        match self.core_proof.check_re_encryption(
            &pk.params.tally,
            &pk.params.elgamal,
            &self.e_d,
            &self.z,
            &t_list,
            &first,
            &second,
        ) {
            Ok(()) => Ok(()),
            Err(e) => Err(Error::FailedVerification(e)),
        }
    }
}

/// An honest credential mix is accepted: where each shuffled credential is the
/// original at its place in the permutation, re-encrypted, and the prover made
/// accumulator and response for them, the verifier's equation holds.
pub proof fn law_honest_credential_mix(
    proof_: MixedCredentials,
    pk: ElectionPublicKey,
    originals: Seq<ShortPublicACC>,
    ext: Seq<ExtendedShortPublicACC>,
    shuffled: Seq<ShortPublicACC>,
    perm: Seq<usize>,
    d: Seq<int>,
    t: Seq<int>,
)
    requires
        is_permutation(perm, originals.len() as int),
        ext.len() == originals.len(),
        shuffled.len() == originals.len(),
        forall|k: int|
            #![trigger ext[k]]
            0 <= k < ext.len() ==> re_encryption(
                ext[k].enc_A,
                originals[perm[k] as int].enc_A@,
                pk.key(),
            ) && shuffled[k].enc_A@ == ext[k].enc_A.inner@,
        hides(proof_.core_proof.f(), t, perm, d),
        answered(pk.key(), ext_credentials(ext), d, t, perm, proof_.e_d@, proof_.z@),
    ensures
        re_encryption_holds(
            pk.key(),
            proof_.e_d@,
            proof_.z@,
            t,
            proof_.core_proof.f(),
            credentials(originals, originals.len() as int),
            credentials(shuffled, originals.len() as int),
        ),
{
    let key = pk.key();
    let n = originals.len() as int;
    let col = ext_credentials(ext);
    let r0 = choose|r0: int|
        proof_.e_d@ == #[trigger] ct_add(
            ct_combination(inner_views(col), d),
            ct_encrypt(key, 0, r0),
        ) && proof_.z@ == red(r0 + int_sum(products(randomness(col), permuted(t, perm))));
    let first = credentials(originals, n);
    let second = credentials(shuffled, n);
    assert forall|k: int| 0 <= k < n implies #[trigger] second[k] == ct_add(
        ct_encrypt(key, 0, randomness(col)[k]),
        first[perm[k] as int],
    ) && second[k] == inner_views(col)[k] by {
        assert(re_encryption(ext[k].enc_A, originals[perm[k] as int].enc_A@, key));
        assert(perm[k] < n);
    }
    assert(inner_views(col) =~= second);
    law_linkage(key, first, second, randomness(col), perm, d, proof_.core_proof.f(), t, r0);
}

} // verus!
