# arcadeum

Authenticated two-player game states, verified with Verus.

A game is played over a *proof*: a root proof signed by the game's owner, followed by actions
that the owner and the two players sign in turn through *diffs*. Each party keeps signed
checkpoints, so that anybody can check who performed every action and replay the game's
state. The library proves, among other things, that:

- reading back what is written gives back what was written (actions, consensus states, root
  proofs, diffs, proofs, Merkle trees and proofs, hexadecimal text);
- a proof made from a root proof, and kept up by applying diffs, always reads back from its
  binary representation;
- applying a diff takes the latest state through the diff's actions, and a diff generated from
  a proof is accepted by that proof;
- a Merkle proof leads from its element to the tree's root;
- a commit-reveal exchange settles randomness on the reply and the committed seed;
- a client store starts a domain-specific transition only on an action that the game's own
  check accepts, refuses every other action without changing, and accepts what it sends when
  it flushes;
- what a store keeps between sessions reads back as written, and what it writes for one
  player, or for nobody, does not depend on the other player's secrets;
- the proofs of any two elements of a Merkle tree carry numbers of hashes that differ by at
  most one.

Layout:

- `src/utils.rs`: hexadecimal text and little-endian framing;
- `src/crypto.rs`: Keccak-256, secp256k1 signatures, Ethereum addresses and EIP-55;
- `src/merkle.rs`: salted Merkle trees and proofs;
- `src/traits.rs`: the traits a game implements (state, identifier, nonce, action);
- `src/action.rs`, `src/proof_state.rs`: attributable actions and the consensus state;
- `src/authenticated.rs`: root proofs, diffs and proofs;
- `src/store.rs`: store actions, commit-reveal exchanges, the store's state machine, flushing,
  and the binary representation of a store image;
- `src/tester.rs`: the keys drawn for a test game, the owner's approvals and the signed root
  proof that start it;
- `src/game.rs`: tic-tac-toe;
- `src/version.rs`: digests of file contents;
- `src/records.rs`: signed match transcripts and their outcomes;
- `app/lib.rs`: file and random-number plumbing (version tags, salted trees), and a
  driver that runs a client store's domain-specific transitions around the library's state
  machine;
- `tests/`: tests on concrete values.
