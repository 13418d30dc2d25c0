# btclib

A toy bitcoin-like chain: transactions over unspent outputs, blocks mined against a
target, a node that validates and stores them, a miner and a wallet. The library in
`src/` is written in Verus and verified; the programs in `app/` are ordinary Rust
around it (sockets, files, command lines, threads and timers).

## Library (`src/`)

- `cbor`, `decode`: the CBOR encoding that everything is hashed, stored and sent in,
  and readers that accept exactly the encodings the writers produce: shortest-form
  heads, public keys in compressed SEC1 form, times in the RFC 3339 form chrono
  writes. Key files are the exception: a public key file is read in any SEC1 form
  `k256` accepts, and a private key file as any scalar `SigningKey::from_slice`
  accepts (24 to 32 bytes).
- `sha256`, `crypto`, `timestamp`: hashes, secp256k1 keys and signatures, and points in
  time, each calling its outside crate (`sha2`, `k256`, `chrono`, `uuid`) behind a
  small trusted function whose contract names or states what it returns.
- `types`: transactions, blocks, the chain (blocks, unspent outputs, mempool, target),
  the hash-keyed table they are kept in, and the chain's stored form.
- `util`: Merkle roots and the `Saveable` trait.
- `network`: the messages peers exchange, framed by an 8-byte big-endian length.
- `node`, `miner`, `wallet`: what a node answers to each message, the miner's
  decisions, and how a wallet selects outputs, signs and pays.

The contracts state what each function returns over spec functions; laws that relate
several functions are public proof functions (for instance `law_double_spend_refused`,
`law_mined_template_is_accepted`, `law_add_block_keeps_chain_well_formed`,
`law_rebuild_is_idempotent` and `law_reward_halves` in `types/blockchain.rs`, and
`law_odd_layer_repeats_last` in `util.rs`).

## Programs (`app/`)

`app <node|miner|wallet|key-gen|block-gen|block-print|tx-gen|tx-print> [arguments]`.
