//! Regroups a length-delimited stream of transactions into a length-delimited
//! stream of batches, each batch holding up to a fixed number of consecutive
//! transactions and a header that lists their signatures in order.
//!
//! - `wire`: varints and length-delimited framing.
//! - `message`: the transaction and batch messages in protocol-buffer form.
//! - `batch_gen`: the framed transaction reader, the batch producer and the
//!   generator that drains the one into the other.
//! - `laws`: what holds of every well-formed (or truncated) input stream.
pub mod wire;
pub mod message;
pub mod batch_gen;
pub mod laws;
