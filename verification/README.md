# evoting

A verifiable voting protocol, from registration to the counted tally, written
in Verus: what each function returns is stated in its contract and proved.

A registration teller issues credentials that are bound to a PIN; a voter
encrypts a choice and proves that the ballot is well formed; the bulletin board
numbers the ballots, verifies and mixes them, and filters out those with a wrong
PIN or without a registered credential, keeping each credential's last vote; the
tabulation teller decrypts the sum and proves that it did so correctly.

This is for research and prototyping, not for use in an election.

## Layout

- `src/arith.rs`, `group.rs`, `elgamal.rs`: the Ristretto group, with a point
  modelled by its discrete logarithm, and the encryption.
- `src/transcript.rs`, `encoding.rs`, `random.rs`, `text.rs`: transcripts,
  encodings and digests, randomness, and texts.
- `src/proofs/`: the zero-knowledge proofs.
- `src/protocol/`: keys, credentials, ballots, mixes, filters and counting.
- `src/api/`: the roles (client, bulletin board, tellers) and the public
  pipeline.
- `app/`: ordinary Rust around it: the clock, serde copies of public values,
  standard errors, an observer's checks, and the use of a fingerprint scheme.
- `tests/`: tests.

## What is trusted

Group operations, transcripts, digests, encodings, shuffles, decryption proofs,
the verifiers of the proofs about ciphertexts and randomness come from other
crates.  Each call stands behind a small function whose doc comment says what is
taken from that crate without proof.

Functions whose names begin with `law_` state properties of the protocol as a
whole: that honest proofs, ballots, mixes and decryptions are accepted, that
mixing keeps votes, that the PIN decides whether a vote stays, that the last
vote of a credential counts, that the tally is the number of votes, and, of a
whole run, that it counts the last ballot cast with each registered credential
and its PIN, and no other.
