//! Why a valuation run could not complete.
use vstd::prelude::*;

verus! {

/// The error kinds of the valuation pipeline.
#[derive(Debug, PartialEq, Eq, Structural, Clone, Copy)]
pub enum WalletError {
    /// A holdings row could not be read as a symbol and a decimal amount.
    MalformedInput,
    /// The provider directory was needed for a cache miss and is missing.
    DirectoryUnavailable,
    /// The pricing response holds no quote for a requested identifier.
    QuoteMissing,
    /// The exchange-rate provider gave no usable quote for a currency pair.
    RateUnavailable,
    /// The settings are missing or malformed.
    ConfigInvalid,
    /// A holding has no asset class.
    Unclassified,
    /// A batch to resolve holds some symbol twice.
    DuplicateSymbol,
    /// Some symbols could not be resolved and the run was asked to stop then.
    Unresolved,
    /// An amount or a total does not fit the fixed-point integer type.
    Overflow,
}

} // verus!
