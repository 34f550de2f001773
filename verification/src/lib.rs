//! A minimal single-node cryptocurrency ledger: proof-of-work blocks carrying
//! signed value-transfer transactions, a mempool of pending transactions, a
//! UTXO view derived from the chain, and a wallet keystore.

pub mod constants;
pub mod error;
pub mod hex;
pub mod primitives;
pub mod transaction;
pub mod block;
pub mod codec;
pub mod blockchain;
pub mod wallet;
pub mod utxo;
pub mod mempool;
pub mod node;

use vstd::prelude::*;

verus! {

} // verus!
