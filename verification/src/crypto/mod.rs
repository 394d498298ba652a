//! Cryptographic functions.
pub mod keccak;
pub mod secp256k1;
