//! A minimal account-balance ledger: per-account balances, a total-issuance
//! counter, and two state transitions (transfer and mint), each verified to
//! validate before it commits.
mod origin;
mod ledger;

pub use origin::{ensure_signed, AccountId, Origin};
pub use ledger::{Balance, LedgerError, Pallet};
