//! The execution engine: the durable nonce pool, RPC endpoint health and the
//! race that dispatches transaction variants.

pub mod rpc_manager;
pub mod durable_nonce_manager;
pub mod quantum_race;
pub use durable_nonce_manager as nonce_manager;
