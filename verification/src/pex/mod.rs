//! Finding peers by asking connected peers whom they know.

pub mod client;
pub mod exchange_laws;
