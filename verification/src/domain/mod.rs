//! What is traded: markets, orders and fills.
pub mod market;
pub mod order;
