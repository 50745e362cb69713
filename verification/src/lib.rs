//! A share-based pooled-staking ledger with an attached lottery reward
//! mechanism.
//!
//! Depositors pool funds into a single staked position; each depositor's
//! claim is tracked as a proportional share, so the exchange rate between
//! shares and underlying value can only increase. On top sits a ticket
//! lottery: depositors earn tickets proportional to staked principal, and
//! once per drawing interval a pseudo-random ticket holder is paid the
//! accumulated reward pot.
//!
//! The host environment (balance custody, the staking action, clocks and
//! transfers) stays outside: every operation takes the externally observed
//! values as plain arguments and returns the actions the caller should
//! perform.

pub mod errors;
pub mod laws;
pub mod model;
pub mod model_lemmas;
pub mod ops;
pub mod pool;
pub mod share_math;

pub use errors::PoolError;
pub use pool::{PoolOutcome, PrizePayout, RestakeState, StakingPool, StakingPoolAccount};
