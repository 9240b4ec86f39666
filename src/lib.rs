//! A per-account, per-token balance ledger for deposits held by an outside
//! multi-token custodian, with withdrawals settled by a later callback.
pub mod assoc;
pub mod contract;
pub mod error;
pub mod laws;
pub mod store;

pub use contract::{Contract, StorageKey, TransferRequest};
pub use error::LedgerError;
pub use store::BalanceStore;
