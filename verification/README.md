# gravity_reth

Parts of an execution node, written in Verus: executable Rust whose behaviour is stated in
contracts and proved.

- `src/trie`: the streaming hash builder. `model.rs` says what a Merkle Patricia trie is: its root
  and the branch nodes that the database keeps. `builder/` builds both from items that come in the
  order of their keys, and `laws.rs` states what holds of every trie.
- `src/relayer`: the source of `MessageSent` events from another chain. `discovery.rs` searches for
  the block to begin with, `source.rs` polls, and `laws.rs` states that no block is left out and no
  nonce is returned twice.
- `src/transaction`: signed transactions, the recovery of their signers, and the cache of signers by
  gas limit.
- `src/rpc`: what is done with a raw transaction until it is in the pool.
- `src/crypto`, `src/hex.rs`, `src/bytes.rs`: hashes, signatures, hexadecimal text, and numbers as
  bytes.
- `app`: RPC clients, the transaction pool, files and the environment, around the library.
- `tests`: tests of the library together with the crates that it calls.

RLP encoding, Keccak-256, ABI encoding, signature recovery and hexadecimal text come from outside
crates. Each such call stands in a small function whose doc comment says what is taken for granted
of it.
