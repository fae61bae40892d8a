//! A per-instrument limit order book reconstructed from a market-by-order
//! event feed, together with the small pure pieces of the surrounding
//! fan-out server: a bounded tail cache of recent events and the
//! per-subscriber delivery policy.

pub mod msg;
pub mod level;
pub mod book_model;
pub mod book;
pub mod book_laws;
pub mod market;
pub mod tail;
pub mod feed;
