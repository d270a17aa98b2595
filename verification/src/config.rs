//! Settings shared by the services, read from the environment at start-up.
use crate::types::Address;
use vstd::prelude::*;
use vstd::string::StringExecFns;

verus! {

/// Settings of every service.
#[derive(Clone, Debug)]
pub struct AppConfig {
    pub database_url: String,
    pub kafka_brokers: String,
    pub rpc_url: String,
    pub chain_id: u64,
    pub custody_addr: Address,
    pub settlement_exchange_addr: Address,
    pub oracle_addr: Address,
    pub ctf_addr: Address,
    pub usdc_addr: Address,
    pub operator_key: String,
    pub log_format: String,
    pub gateway_bind: String,
    pub gateway_internal_secret: String,
    pub llm_api_url: String,
    pub llm_api_key: String,
    pub rust_log: String,
}

/// The log filter used when `RUST_LOG` is not set.
pub fn default_rust_log() -> (r: String)
    ensures
        r@ == "info"@,
{
    String::from_str("info")
}

/// The LLM endpoint used when `LLM_API_URL` is not set: a local OpenAI-compatible server.
pub fn default_llm_api_url() -> (r: String)
    ensures
        r@ == "http://localhost:11434/v1/chat/completions"@,
{
    String::from_str("http://localhost:11434/v1/chat/completions")
}

} // verus!
