//! Submission of raw transactions to the pool.
pub mod submission;
