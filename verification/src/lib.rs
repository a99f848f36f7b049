//! Austro: a proof-of-work blockchain with a UTXO transaction model.

pub mod api;
pub mod codec;
pub mod config;
pub mod crypto;
pub mod models;
pub mod network;
