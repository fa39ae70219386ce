//! A bounded-memory quorum aggregator: claims about a request are collected
//! from distinct senders until a threshold is met, and the request then
//! resolves to the lower median of its claims.
pub mod cache;
pub mod laws;
pub mod median;
pub mod sentinel;
