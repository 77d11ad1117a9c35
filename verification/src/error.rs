use vstd::prelude::*;

verus! {

/// Errors reported by the staking operations.
///
/// `LedgerTransferFailed` carries the message of a failed external transfer;
/// it is produced by the code that drives the token ledger, never by the
/// accounting core itself.
#[derive(Debug, Clone, PartialEq, Eq)]
pub enum DepositError {
    InvalidLockPeriod,
    LockPeriodNotExpired,
    NoDepositFound,
    LedgerTransferFailed(String),
    NoStakerFound,
}

} // verus!
