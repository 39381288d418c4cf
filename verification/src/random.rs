//! Random choices.

use rand::rngs::StdRng;
use rand::seq::SliceRandom;
use rand::RngCore;
use vstd::prelude::*;

verus! {

/// Calls `RngCore::next_u32`; nothing is claimed of the number.
#[verifier::external_body]
pub(crate) fn next_u32(rng: &mut StdRng) -> (r: u32) {
    rng.next_u32()
}

/// Calls `RngCore::fill_bytes`; nothing is claimed of the bytes.
#[verifier::external_body]
pub(crate) fn random_bytes(rng: &mut StdRng) -> (r: [u8; 32]) {
    let mut bytes = [0u8; 32];
    rng.fill_bytes(&mut bytes);
    bytes
}

/// Calls `SliceRandom::shuffle`, which rearranges the list.
#[verifier::external_body]
fn shuffle(list: &mut Vec<usize>, rng: &mut StdRng)
    ensures
        final(list)@.to_multiset() == old(list)@.to_multiset(),
{
    list.shuffle(rng);
}

/// Whether `perm` lists the numbers below `n`, each once.
pub open spec fn is_permutation(perm: Seq<usize>, n: int) -> bool {
    &&& perm.len() == n
    &&& perm.no_duplicates()
    &&& forall|i: int| #![trigger perm[i]] 0 <= i < n ==> perm[i] < n
}

/// The numbers below `n` in random order.
pub fn random_permutation(n: usize, rng: &mut StdRng) -> (r: Vec<usize>)
    ensures
        is_permutation(r@, n as int),
{
    let mut perm: Vec<usize> = Vec::new();
    let mut i: usize = 0;
    while i < n
        invariant
            i <= n,
            perm@.len() == i,
            forall|j: int| #![trigger perm@[j]] 0 <= j < i ==> perm@[j] == j,
        decreases n - i,
    {
        perm.push(i);
        i += 1;
    }
    let ghost sorted = perm@;
    shuffle(&mut perm, rng);
    proof {
        broadcast use vstd::seq_lib::group_to_multiset_ensures;

        sorted.lemma_multiset_has_no_duplicates();
        perm@.lemma_multiset_has_no_duplicates_conv();
        assert(perm@.len() == perm@.to_multiset().len());
        assert(sorted.len() == sorted.to_multiset().len());
        assert forall|j: int| #![trigger perm@[j]] 0 <= j < perm@.len() implies perm@[j] < n by {
            assert(perm@.contains(perm@[j]));
            assert(perm@.to_multiset().contains(perm@[j]));
            assert(sorted.contains(perm@[j]));
        }
    }
    perm
}

} // verus!
