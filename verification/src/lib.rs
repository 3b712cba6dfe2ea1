//! A minimal fungible-token ledger: per-account balances, a global total
//! supply, and an owner who alone may mint. The ledger's conserved quantity —
//! the total supply always equals the sum of all balances — is stated as an
//! invariant and proved for every operation.

pub mod account;
pub mod ledger;

pub use account::Account;
pub use ledger::ErrorKind;
pub use ledger::TokenWallet;
