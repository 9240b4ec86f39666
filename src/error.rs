//! Why a call on the ledger was refused.
use vstd::prelude::*;

verus! {

/// The reasons for which a call leaves the ledger as it was.
#[derive(Debug, Clone, Copy, PartialEq, Eq, Structural)]
pub enum LedgerError {
    /// A deposit notification named more than one token, or none.
    MultipleTokens,
    /// A deposit notification did not hold exactly one owner and one amount.
    InvalidInputLength,
    /// A deposit notification came from another than the trusted custodian.
    UntrustedSender,
    /// A deposit notification carried the amount zero.
    ZeroAmount,
    /// A credit would take a balance past the largest `u128`.
    Overflow,
    /// The account holds no ledger.
    NoTokensForAccount,
    /// The token's balance is zero or absent.
    ZeroBalance,
    /// A withdrawal callback found no ledger entry for its account and token.
    MissingEntry,
}

impl LedgerError {
    /// A sentence that describes the error.
    pub fn message(&self) -> &'static str {
        match self {
            LedgerError::MultipleTokens => "This contract only accepts one token at a time",
            LedgerError::InvalidInputLength => "Invalid input length",
            LedgerError::UntrustedSender => "Only accepts the intents.near multi-token contract",
            LedgerError::ZeroAmount => "Withdrawal in progress, cannot deposit",
            LedgerError::Overflow => "Balance overflow",
            LedgerError::NoTokensForAccount => "No tokens found for account",
            LedgerError::ZeroBalance => "Token balance is zero",
            LedgerError::MissingEntry => "No ledger entry for the withdrawn token",
        }
    }
}

} // verus!
