//! Error taxonomy of the staking-pool engine.
//!
//! Three families: invariant violations (external tampering or arithmetic
//! underflow; the call aborts with no state mutated), precondition failures
//! (rejected before any mutation; retryable by the caller with corrected
//! input), and skipped drawings (an empty ticket pool defers the lottery to
//! the next eligible period).

use vstd::prelude::*;

verus! {

/// Everything a pool operation can reject a call with. No operation mutates
/// any state when it returns an error.
#[derive(Clone, Copy, Debug, PartialEq, Eq, Structural)]
pub enum PoolError {
    /// A share conversion was asked for while the relevant pool total is zero.
    DivisionByZero,
    /// The staked amount buys zero whole shares at the current share price.
    BelowShareGranularity,
    /// The moved amount must be positive.
    ZeroAmount,
    /// The caller's unstaked balance does not cover the charge.
    InsufficientBalance,
    /// The caller holds fewer shares than the unstake requires.
    InsufficientShares,
    /// The caller holds no staked balance at all.
    NothingStaked,
    /// A drawing was requested although the ticket pool holds no slots.
    EmptyPool,
    /// A drawing was requested before the next drawing period was reached.
    DrawingNotDue,
    /// The unstaked balance is still locked in the current period.
    WithdrawalLocked,
    /// There is no unstaked balance to withdraw.
    NothingToWithdraw,
    /// An externally observed value shrank, or a counter would underflow:
    /// external tampering or a bug; never silently repaired.
    InvariantViolation,
    /// The callback entry point was invoked by anyone but the engine itself.
    CallbackUnauthorized,
    /// The caller has not accumulated enough stake points to claim a reward.
    InsufficientStakePoints,
    /// No reward token is left to hand out.
    NoRewardAvailable,
}

} // verus!
