//! Core of a batch-auction exchange driver.
//!
//! The crate provides the pieces that compute a batch solution:
//! an auction-element codec, a paginated snapshot reader, an event-sourced
//! orderbook state engine, a block-timestamp cache, a snapshot filter, a
//! shadow-reader comparison, a naive uniform-price matcher and the pure part
//! of an exchange-rate client. All I/O stays outside; every function here is
//! specified and verified.

pub mod account_state;
pub mod codec;
pub mod filter;
pub mod kraken;
pub mod models;
pub mod paginated;
pub mod reader;
pub mod shadow;
pub mod solver;
pub mod state;
pub mod timestamps;
pub mod updater;
pub mod wide_math;
