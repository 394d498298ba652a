//! Signed transactions and their signers.
pub mod cache;
pub mod laws;
pub mod pooled;
pub mod recovered;
pub mod signed;
