//! Parts of an execution node with what they do stated and proved: the hash builder of the state
//! trie, the relayer of messages from other chains, the recovery of transaction signers, and the
//! submission of raw transactions.
pub mod bytes;
pub mod crypto;
pub mod hex;
pub mod relayer;
pub mod rpc;
pub mod transaction;
pub mod trie;
