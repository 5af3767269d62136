# rust_blockchain

A small proof-of-work blockchain, verified with Verus.

- `src/block.rs`: blocks, their JSON encoding, SHA3-512 hash and mining.
- `src/blockchain.rs`: the chain and appending mined blocks.
- `src/consensus.rs`: choosing the block that the peers agree on.
- `src/utils.rs`: the command line and the server configuration text.
- `src/json.rs`: JSON string literals.
- `src/text.rs`: decimal and hexadecimal renderings.
- `src/primitives.rs`: the calls into `sha3` and `chrono`, whose contracts
  are trusted.
- `app/`: the program around the library (networking, files, the command line).
