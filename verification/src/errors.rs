//! The error kinds the chain core surfaces.
use vstd::prelude::*;

verus! {

#[derive(Clone, Copy, Debug, PartialEq, Eq, Structural)]
pub enum ChainError {
    /// The chain data directory is absent where an existing chain was expected.
    StoreMissing,
    /// A chain was to be created over an existing data directory.
    StoreAlreadyExists,
    /// The store is present but holds no tip record.
    TipMissing,
    /// A canonical encoding could not be produced or read back.
    SerializationError,
    /// Spend selection could not reach the requested amount.
    InsufficientFunds,
    /// The address is not in the wallet bag.
    UnknownWallet,
    /// Signature verification failed, or a referenced transaction is missing.
    InvalidTransaction,
    /// A malformed Base58 address or hex text.
    DecodeError,
    /// An underlying store or system failure.
    IoError,
    /// The proof-of-work search ran out of nonces.
    NonceExhausted,
}

} // verus!
