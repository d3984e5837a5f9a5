//! Default values of the bot's configuration, used for every setting the
//! configuration file leaves out.

use vstd::prelude::*;

verus! {

/// The default HTTP RPC endpoint.
pub const DEFAULT_RPC_URL: &'static str = "https://solana-devnet.g.alchemy.com/v2/rWsbieEnAlFuYs-KKUfv1";

/// The default WebSocket RPC endpoint.
pub const DEFAULT_WSS_RPC_URL: &'static str = "wss://devnet.helius-rpc.com/?api-key=18435404-2f2b-4046-b273-f66b7c488b9c";

/// The default HTTP RPC endpoint.
pub fn default_rpc_url() -> (url: String)
    ensures
        url@ == DEFAULT_RPC_URL@,
{
    DEFAULT_RPC_URL.to_owned()
}

/// The default WebSocket RPC endpoint.
pub fn default_wss_rpc_url() -> (url: String)
    ensures
        url@ == DEFAULT_WSS_RPC_URL@,
{
    DEFAULT_WSS_RPC_URL.to_owned()
}

/// The default set of endpoints to race over: the default RPC endpoint.
pub fn default_rpc_endpoints() -> (urls: Vec<String>)
    ensures
        urls@.len() == 1,
        urls@[0]@ == DEFAULT_RPC_URL@,
{
    let mut urls: Vec<String> = Vec::new();
    urls.push(default_rpc_url());
    urls
}

/// The default number of durable nonce accounts.
pub fn default_nonce_count() -> (n: usize)
    ensures
        n == 5,
{
    5
}

/// The default number of RPC endpoints each nonce variant is sent through.
pub fn default_rpcs_per_nonce() -> (n: usize)
    ensures
        n == 3,
{
    3
}

/// The default priority fee, in micro-lamports.
pub fn default_priority_fee_microlamports() -> (fee: u64)
    ensures
        fee == 500_000,
{
    500_000
}

} // verus!
