//! A relay between JSON-RPC clients and a Solana validator's TPU port: the
//! transaction-retry queue, the signature and wire-transaction handling, and the
//! node-version report, each proved against its contract.

pub mod bridge;
pub mod signature;
pub mod version;
pub mod worker;

use vstd::prelude::*;

verus! {

/// A transaction as it travels on the wire: its bincode bytes.
pub type WireTransaction = Vec<u8>;

pub const DEFAULT_RPC_ADDR: &'static str = "http://127.0.0.1:8899";

pub const DEFAULT_WS_ADDR: &'static str = "ws://127.0.0.1:8900";

pub const DEFAULT_TX_MAX_RETRIES: u16 = 2;

pub const DEFAULT_TX_RETRY_BATCH_SIZE: usize = 20;

} // verus!
