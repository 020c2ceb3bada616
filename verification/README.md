# entangled_substrate

Fixed-width post-quantum state proofs, and a sorted Merkle tree for revocation
checks, verified with Verus.

- `src/wire.rs`: the layout of a proof (5317 bytes) and reading it in place.
- `src/commitment.rs`: SHA3-256 commitments to a lineage and a block height.
- `src/attestation.rs`: verifying and issuing proofs with ML-DSA-65.
- `src/merkle/`: the tree, its proofs, and what holds of them.
- `src/hashing.rs`: BLAKE3 digests with domain separation.
- `src/clock.rs`, `src/bytes.rs`, `src/text.rs`, `src/error.rs`: the rest.
- `app/main.rs`: a program that issues, stores and verifies one proof.

The digests and the signature scheme come from the crates `blake3`, `sha3` and
`ml-dsa`. Each call stands behind a function whose doc comment says what is
claimed of it.
