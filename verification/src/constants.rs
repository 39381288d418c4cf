//! Fixed parameters of the protocol.

use vstd::prelude::*;
use vstd::utf8::encode_utf8;

use crate::transcript::lemma_utf8_len;

verus! {

/// Every PIN is below this number.
pub const MAX_PIN: usize = 100_000;

/// The modulus of the verification codes.
pub const CAI_POW: u32 = 100;

/// The label of the transcripts of vote mixing.
pub const MIX_VOTES: &'static str = "mix-votes";

/// The label of the transcripts of credential mixing.
pub const MIX_CREDS: &'static str = "mix-creds";

/// The label of the transcripts of credential checks.
pub const ACC_CHECK: &'static str = "acc-checks";

/// The label of the transcripts of the tally.
pub const TALLY: &'static str = "tally";

/// The labels are short.
pub proof fn lemma_labels()
    ensures
        encode_utf8(MIX_VOTES@).len() <= u32::MAX,
        encode_utf8(MIX_CREDS@).len() <= u32::MAX,
        encode_utf8(ACC_CHECK@).len() <= u32::MAX,
        encode_utf8(TALLY@).len() <= u32::MAX,
{
    reveal_strlit("mix-votes");
    reveal_strlit("mix-creds");
    reveal_strlit("acc-checks");
    reveal_strlit("tally");
    lemma_utf8_len(MIX_VOTES@);
    lemma_utf8_len(MIX_CREDS@);
    lemma_utf8_len(ACC_CHECK@);
    lemma_utf8_len(TALLY@);
}

} // verus!
