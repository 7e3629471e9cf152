//! A verified transaction-assembly pipeline for a ledger whose transactions
//! are built from externally supplied instruction descriptions: decoding
//! them into typed executable instructions, resolving address-lookup
//! tables, compiling a versioned message, signing its exact serialized
//! bytes, and classifying the node's verdict on submission. Every stage's
//! behaviour is stated in its contract and checked by the verifier; only
//! base58/base64 text codecs and ed25519 signing are trusted calls into
//! outside crates.

use vstd::prelude::*;

pub mod codec;
pub mod compile;
pub mod errors;
pub mod instructions;
pub mod keys;
pub mod laws;
pub mod pipeline;
pub mod sign;
pub mod submit;
pub mod tables;
pub mod wire;

verus! {

/// Process-level configuration assembled once at startup and passed by
/// reference into the pipeline entry points.
pub struct Config {
    pub rpc_url: String,
    pub keypair_path: String,
}

/// The trading service's answer to a swap request: a pre-built transaction
/// in the transport text encoding, and the last ledger height at which its
/// freshness token is still valid.
pub struct SwapResponse {
    pub swap_transaction: String,
    pub last_valid_block_height: u64,
}

/// The trading service's answer to an order request in the simpler
/// quote-and-execute mode: a request identifier to echo back, and a
/// pre-built transaction in the transport text encoding.
#[allow(non_snake_case)]
pub struct UltraOrderResponse {
    pub requestId: String,
    pub transaction: String,
}

/// The trading service's answer to executing a recurring order.
pub struct ExecuteRecurringResponse {
    pub signature: String,
    pub status: String,
    pub order: Option<String>,
    pub error: Option<String>,
}

} // verus!
