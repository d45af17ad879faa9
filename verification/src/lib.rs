//! A ledger whose balance transfers can be proven valid to a third party
//! without revealing the balances, and whose transaction history is anchored
//! as a succinct commitment for batched verification.
//!
//! The crate is organised around three interlocking pieces: the account
//! ledger state machine ([`ledger`]), the arithmetic transition relation that
//! encodes "this transfer followed the update rule" ([`relation`]), and the
//! commitment accumulator that folds an ordered batch of transactions into
//! one fixed-width digest ([`accumulator`]).

pub mod accumulator;
pub mod anchor;
pub mod codec;
pub mod executor;
pub mod hashing;
pub mod ledger;
pub mod lifecycle;
pub mod relation;
pub mod transaction;

pub use executor::execute_transaction;
pub use ledger::Account;
pub use ledger::State;
pub use transaction::Transaction;
