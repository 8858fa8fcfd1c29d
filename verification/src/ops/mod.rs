//! Operations of the exchange itself.
pub mod admin;
