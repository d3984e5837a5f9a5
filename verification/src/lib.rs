//! A durable-nonce transaction sniper for pump.fun token launches: the
//! decision logic (nonce pool, RPC health, log parsing, trading modes) as a
//! verified library.

pub mod clock;
pub mod config;
pub mod engine;
pub mod execution;
pub mod keys;
pub mod pumpfun_tx_builder;
pub mod sniffer;
pub mod state;
pub mod text;
pub mod ui;
pub mod wallet;
