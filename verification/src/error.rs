//! The user-facing error taxonomy of the ledger.

use vstd::prelude::*;

verus! {

/// Every failing ledger operation reports one of these kinds.
#[derive(Debug, Clone, Copy, PartialEq, Eq, Structural)]
pub enum Error {
    /// The spender's unspent outputs sum to less than the requested amount.
    InsufficientFunds,
    /// An input references a transaction id that is not in the chain.
    TransactionMissing,
    /// An input's output index is out of range of the referenced transaction.
    NoTXOutput,
    /// ECDSA verification failed: wrong key or wrong signature.
    PubkeySignatureMismatch,
    /// A block's previous-hash pointer does not match the expected predecessor.
    InvalidPreviousHash,
    /// A block's hash does not meet the difficulty target.
    InvalidNonce,
    /// A block contains more than one coinbase transaction.
    TooManyCoinbase,
    /// The sending address is not present in the wallet store.
    NoWalletForAddress,
}

impl Error {
    /// The single human-readable line printed for this error.
    pub fn to_string(&self) -> (r: String)
        ensures
            r@ == match *self {
                Error::InsufficientFunds => "Error: insufficient funds"@,
                Error::TransactionMissing => "Error: transaction does not exist"@,
                Error::NoTXOutput => "Error: transaction output does not exist"@,
                Error::PubkeySignatureMismatch => "Error: public key does not match the signature"@,
                Error::InvalidPreviousHash => "Error: previous_block_hash of the block is incorrect"@,
                Error::InvalidNonce => "Error: the block nonce is incorrect"@,
                Error::TooManyCoinbase => "Error: too many coinbase transactions in the block"@,
                Error::NoWalletForAddress => "Error: a wallet does not exist for this address"@,
            },
    {
        match *self {
            Error::InsufficientFunds => String::from_str("Error: insufficient funds"),
            Error::TransactionMissing => String::from_str("Error: transaction does not exist"),
            Error::NoTXOutput => String::from_str("Error: transaction output does not exist"),
            Error::PubkeySignatureMismatch => {
                String::from_str("Error: public key does not match the signature")
            },
            Error::InvalidPreviousHash => {
                String::from_str("Error: previous_block_hash of the block is incorrect")
            },
            Error::InvalidNonce => String::from_str("Error: the block nonce is incorrect"),
            Error::TooManyCoinbase => {
                String::from_str("Error: too many coinbase transactions in the block")
            },
            Error::NoWalletForAddress => {
                String::from_str("Error: a wallet does not exist for this address")
            },
        }
    }
}

/// Result type of every ledger operation that can fail.
pub type LedgerResult<T> = Result<T, Error>;

/// Why loading a persisted snapshot failed: the bytes did not parse (or are
/// inconsistent), or the recorded chain does not validate.
#[derive(Debug, Clone, Copy, PartialEq, Eq, Structural)]
pub enum LoadError {
    /// The snapshot bytes do not parse or are inconsistent.
    Corrupt,
    /// The chain parsed but a block failed validation.
    Invalid(Error),
}

} // verus!
