//! Build-time constants of the ledger.

use vstd::prelude::*;

verus! {

/// Value minted by every coinbase transaction.
pub const REWARD: u64 = 50;

/// Number of leading zero bits a block hash must have: a block hash,
/// read as a big-endian 256-bit integer, must be strictly below
/// 2^(256 - DIFFICULTY).
pub const DIFFICULTY: u64 = 12;

} // verus!
