//! Talking to the language server: which messages are sent, and what the ones
//! that arrive mean.
pub mod client;
pub mod transport;
