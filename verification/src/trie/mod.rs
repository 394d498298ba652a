//! Merkle Patricia trie: nibble paths, child masks and the streaming hash builder.
pub mod lemmas;
pub mod levels;
pub mod mask;
pub mod model;
pub mod nibbles;
pub mod node;
pub mod proofs;
pub mod rlp;
pub mod updates;
pub mod value;
pub mod builder;
pub mod form;
pub mod kept;
pub mod laws;
