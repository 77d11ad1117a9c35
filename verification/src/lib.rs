//! Staking accounting engine: a deposit ledger keyed by account, a derived
//! stake index kept consistent with it, time-locked withdrawals, and exact
//! proportional reward splitting.

pub mod error;
pub mod pool;
pub mod reward;
pub mod types;
