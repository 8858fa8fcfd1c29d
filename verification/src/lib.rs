//! A central limit order book: order intake, price-time matching, an event log
//! and the recovery of all state from it.
pub mod api;
pub mod bytes;
pub mod cli;
pub mod clock;
pub mod crypto;
pub mod db;
pub mod domain;
pub mod engine;
pub mod events;
pub mod keys;
pub mod ops;
pub mod ordmap;
pub mod replay;
pub mod risk;
pub mod sequencer;
pub mod snapshot;
pub mod text;
pub mod wording;
