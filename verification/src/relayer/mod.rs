//! The relayer of messages from other chains.
pub mod discovery;
pub mod event;
pub mod laws;
pub mod source;
