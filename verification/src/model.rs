//! Mathematical model of the pool.
//!
//! Every executable operation of the engine is specified against a pure
//! transition function over `PoolModel`, the ghost image of the pool state.
//! Randomness enters the transitions as an explicit `entropy` argument, so
//! each transition is a deterministic function; the executable operations
//! that draw entropy themselves promise that some entropy value explains the
//! transition they performed.

use crate::errors::PoolError;
use crate::share_math::{
    amount_from_shares_down, amount_from_shares_up, shares_from_amount_down,
    shares_from_amount_up,
};
use vstd::prelude::*;

verus! {

/// Value of one lottery ticket, in the smallest token unit.
pub const TICKET_UNIT_PRICE: u128 = 10_000_000_000_000_000_000_000_000;

/// Slice of the initial balance reserved to absorb rounding gaps, so the
/// share price can never be diluted by rounding.
pub const STAKE_SHARE_PRICE_GUARANTEE_FUND: u128 = 1_000_000_000_000;

/// Periods an unstaked balance stays locked before it can be withdrawn.
pub const NUM_EPOCHS_TO_UNLOCK: u64 = 4;

/// Periods between two lottery drawings.
pub const PRIZE_EVENT_INTERVAL: u64 = 14;

/// Stake points needed to claim a reward token.
pub const REWARD_CLAIM_STAKE_POINTS: u64 = 10;

/// Ghost image of one depositor record.
#[verifier::ext_equal]
pub struct AccountModel {
    pub account_id: Seq<char>,
    /// Withdrawable balance, not earning yield.
    pub unstaked_balance: int,
    /// Staked value; derived from the shares on every read, never
    /// authoritative.
    pub staked_balance: int,
    /// Claim on the pool.
    pub stake_shares: int,
    /// Incremented on stake, decremented on unstake; eligibility counter for
    /// the reward claim.
    pub stake_points: int,
    /// Live lottery entries of this account.
    pub tickets_amount: int,
    /// Active bonus multiplier; reset to 1 by any multiplier-consuming event.
    pub tickets_multiplier: int,
    /// Whether the unstaked balance was withdrawable when last derived.
    pub can_withdraw: bool,
    /// Period at or after which the unstaked balance becomes withdrawable.
    pub unstaked_available_epoch_height: int,
}

/// Ghost image of the restake state machine.
pub enum RestakeModel {
    Idle,
    /// A stake action for this amount has been issued and its callback is
    /// still outstanding.
    Pending { amount: int },
}

/// Ghost image of the whole pool.
#[verifier::ext_equal]
pub struct PoolModel {
    pub owner_id: Seq<char>,
    pub accounts: Seq<AccountModel>,
    /// Number of live ticket slots; always the length of
    /// `tickets_random_slots`.
    pub tickets_count: int,
    /// Lottery slots: one owner identifier per ticket. Order carries no
    /// meaning; the array exists for uniform random selection and O(1)
    /// swap-removal.
    pub tickets_random_slots: Seq<Seq<char>>,
    /// Period at which the next drawing becomes eligible.
    pub next_prize_event_epoch_height: int,
    /// Reward pot awaiting the next lottery payout.
    pub total_reward: int,
    /// Principal plus accrued reward backing the outstanding shares.
    pub total_staked_balance: int,
    /// Snapshot of the externally observed total; the next ping ingests the
    /// delta against it.
    pub last_total_balance: int,
    /// Outstanding shares across all accounts.
    pub total_stake_shares: int,
    /// Period of the last successful ping.
    pub last_epoch_height: int,
    /// Operator kill-switch for the external restake action.
    pub is_restake_paused: bool,
    /// State of the two-phase restake action.
    pub restake_state: RestakeModel,
    /// Reward tokens held for future claims.
    pub nft_hold: Seq<Seq<char>>,
}

/// A fresh record for a depositor seen for the first time.
pub open spec fn fresh_account(id: Seq<char>) -> AccountModel {
    AccountModel {
        account_id: id,
        unstaked_balance: 0,
        staked_balance: 0,
        stake_shares: 0,
        stake_points: 0,
        tickets_amount: 0,
        tickets_multiplier: 1,
        can_withdraw: false,
        unstaked_available_epoch_height: 0,
    }
}

/// Whether some record carries this identifier.
pub open spec fn has_account(accounts: Seq<AccountModel>, id: Seq<char>) -> bool {
    exists|i: int| 0 <= i < accounts.len() && accounts[i].account_id == id
}

/// Index of the record carrying this identifier (unique under
/// `distinct_ids`).
pub open spec fn account_index(accounts: Seq<AccountModel>, id: Seq<char>) -> int {
    choose|i: int| 0 <= i < accounts.len() && accounts[i].account_id == id
}

/// The record carrying this identifier, or a fresh one.
pub open spec fn account_or_fresh(accounts: Seq<AccountModel>, id: Seq<char>) -> AccountModel {
    if has_account(accounts, id) {
        accounts[account_index(accounts, id)]
    } else {
        fresh_account(id)
    }
}

/// Write a record back: replace the entry with the same identifier, or
/// append a new entry.
pub open spec fn store_account(accounts: Seq<AccountModel>, a: AccountModel) -> Seq<AccountModel> {
    if has_account(accounts, a.account_id) {
        accounts.update(account_index(accounts, a.account_id), a)
    } else {
        accounts.push(a)
    }
}

/// No two records carry the same identifier.
pub open spec fn distinct_ids(accounts: Seq<AccountModel>) -> bool {
    forall|i: int, j: int|
        0 <= i < j < accounts.len() ==> accounts[i].account_id != accounts[j].account_id
}

/// Total shares across all records.
pub open spec fn sum_shares(accounts: Seq<AccountModel>) -> int
    decreases accounts.len(),
{
    if accounts.len() == 0 {
        0
    } else {
        sum_shares(accounts.drop_last()) + accounts.last().stake_shares
    }
}

/// How many ticket slots this identifier owns.
pub open spec fn count_owned(slots: Seq<Seq<char>>, id: Seq<char>) -> int
    decreases slots.len(),
{
    if slots.len() == 0 {
        0
    } else {
        count_owned(slots.drop_last(), id) + if slots.last() == id {
            1int
        } else {
            0int
        }
    }
}

/// The slot array after a swap-removal at `i`: the last slot moves into
/// position `i` and the array shrinks by one.
pub open spec fn swap_remove_seq(slots: Seq<Seq<char>>, i: int) -> Seq<Seq<char>> {
    slots.update(i, slots.last()).drop_last()
}

/// The slot array after scanning the live range from position `i` on and
/// swap-removing up to `k` slots owned by `id`. This is the exact removal
/// order of the executable scan.
pub open spec fn remove_owned_from(slots: Seq<Seq<char>>, id: Seq<char>, k: int, i: int) -> Seq<
    Seq<char>,
>
    decreases slots.len() - i,
{
    if i < 0 || i >= slots.len() || k <= 0 {
        slots
    } else if slots[i] == id {
        remove_owned_from(swap_remove_seq(slots, i), id, k - 1, i)
    } else {
        remove_owned_from(slots, id, k, i + 1)
    }
}

/// Range sanity of one record.
pub open spec fn account_wf(a: AccountModel) -> bool {
    &&& 0 <= a.unstaked_balance <= u128::MAX
    &&& 0 <= a.staked_balance <= u128::MAX
    &&& 0 <= a.stake_shares <= u128::MAX
    &&& 0 <= a.stake_points <= u64::MAX
    &&& 0 <= a.tickets_amount <= u64::MAX
    &&& 1 <= a.tickets_multiplier <= u64::MAX
    &&& 0 <= a.unstaked_available_epoch_height <= u64::MAX
}

/// Well-formedness of the pool: range sanity, the share-price floor of one,
/// and agreement between the records and the ticket slot array.
pub open spec fn wf(m: PoolModel) -> bool {
    &&& 0 <= m.tickets_count <= u64::MAX
    &&& 0 <= m.next_prize_event_epoch_height <= u64::MAX + PRIZE_EVENT_INTERVAL
    &&& 0 <= m.total_reward <= u128::MAX
    &&& 0 <= m.total_staked_balance <= u128::MAX
    &&& 0 <= m.last_total_balance <= u128::MAX
    &&& 0 <= m.total_stake_shares <= u128::MAX
    &&& 0 <= m.last_epoch_height <= u64::MAX
    // The share price never falls below one: value covers shares.
    &&& m.total_stake_shares <= m.total_staked_balance
    // No value may be backed by zero shares.
    &&& (m.total_stake_shares == 0 ==> m.total_staked_balance == 0)
    &&& distinct_ids(m.accounts)
    &&& forall|i: int| 0 <= i < m.accounts.len() ==> account_wf(#[trigger] m.accounts[i])
    // The records never claim all outstanding shares: the shares minted at
    // construction back the guarantee fund and belong to nobody, so the
    // pool always backs value and conversions never divide by zero.
    &&& sum_shares(m.accounts) < m.total_stake_shares
    // The slot array is exactly the live tickets.
    &&& m.tickets_count == m.tickets_random_slots.len()
    // Every slot belongs to a known record.
    &&& forall|j: int|
        0 <= j < m.tickets_random_slots.len() ==> has_account(
            m.accounts,
            #[trigger] m.tickets_random_slots[j],
        )
    // Each record's ticket count is its number of slots.
    &&& forall|i: int|
        0 <= i < m.accounts.len() ==> count_owned(
            m.tickets_random_slots,
            (#[trigger] m.accounts[i]).account_id,
        ) == m.accounts[i].tickets_amount
}

/// The staked value of this identifier's shares at the current price,
/// rounded down.
pub open spec fn derived_staked(m: PoolModel, id: Seq<char>) -> int {
    let a = account_or_fresh(m.accounts, id);
    if m.total_stake_shares == 0 {
        0
    } else {
        amount_from_shares_down(a.stake_shares, m.total_stake_shares, m.total_staked_balance)
    }
}

/// The record as `get_account` reports it: staked balance and
/// withdrawability derived from the pool totals and the current period.
pub open spec fn derived_account(m: PoolModel, id: Seq<char>, period: int) -> AccountModel {
    let a = account_or_fresh(m.accounts, id);
    AccountModel {
        staked_balance: derived_staked(m, id),
        can_withdraw: a.unstaked_available_epoch_height <= period,
        ..a
    }
}

/// Whether a drawing is eligible at this period.
pub open spec fn drawing_due(m: PoolModel, period: int) -> bool {
    m.next_prize_event_epoch_height <= period
}

/// Whether a ping at this period would advance the accounting period.
pub open spec fn ping_advances(m: PoolModel, period: int) -> bool {
    m.last_epoch_height != period
}

/// The staked balance right after the reward ingestion a ping at this
/// period would perform.
pub open spec fn post_ping_value(m: PoolModel, period: int, observed: int) -> int {
    if ping_advances(m, period) {
        m.total_staked_balance + (observed - m.last_total_balance)
    } else {
        m.total_staked_balance
    }
}

/// The caller's derived staked value right after that reward ingestion.
pub open spec fn post_ping_staked(m: PoolModel, caller: Seq<char>, period: int, observed: int) -> int {
    let acct = account_or_fresh(m.accounts, caller);
    if m.total_stake_shares == 0 {
        0
    } else {
        amount_from_shares_down(
            acct.stake_shares,
            m.total_stake_shares,
            post_ping_value(m, period, observed),
        )
    }
}

/// The machine limits a ping needs: the ingested totals stay within
/// `u128`, and a drawing schedule stays within `u64`.
pub open spec fn ping_safe(m: PoolModel, period: int, observed: int) -> bool {
    ping_advances(m, period) && observed >= m.last_total_balance ==> {
        let delta = observed - m.last_total_balance;
        &&& m.total_reward + delta <= u128::MAX
        &&& m.total_staked_balance + delta <= u128::MAX
        &&& (drawing_due(m, period) && m.tickets_count > 0 ==> period + PRIZE_EVENT_INTERVAL
            <= u64::MAX)
    }
}

/// The machine limits of minting or burning tickets for `amount` at the
/// account's current multiplier: the ticket counters stay within `u64`.
pub open spec fn ticket_fit(m: PoolModel, caller: Seq<char>, amount: int) -> bool {
    let acct = account_or_fresh(m.accounts, caller);
    let tickets = amount / (TICKET_UNIT_PRICE as int) * acct.tickets_multiplier;
    &&& tickets <= u64::MAX
    &&& m.tickets_count + tickets <= u64::MAX
    &&& acct.tickets_amount + tickets <= u64::MAX
}

/// The machine limits of the full `stake` entry point.
pub open spec fn stake_safe(
    m: PoolModel,
    caller: Seq<char>,
    amount: int,
    period: int,
    observed: int,
) -> bool {
    &&& ping_safe(m, period, observed)
    &&& post_ping_value(m, period, observed) + amount <= u128::MAX
    &&& account_or_fresh(m.accounts, caller).stake_points + 1 <= u64::MAX
    &&& ticket_fit(m, caller, amount)
}

/// The machine limits of the full `unstake` entry point.
pub open spec fn unstake_safe(
    m: PoolModel,
    caller: Seq<char>,
    amount: int,
    period: int,
    observed: int,
) -> bool {
    &&& ping_safe(m, period, observed)
    &&& account_or_fresh(m.accounts, caller).unstaked_balance + post_ping_value(
        m,
        period,
        observed,
    ) <= u128::MAX
    &&& period + NUM_EPOCHS_TO_UNLOCK <= u64::MAX
    &&& ticket_fit(m, caller, amount)
}

/// The machine limits of the full `unstake_all` entry point.
pub open spec fn unstake_all_safe(m: PoolModel, caller: Seq<char>, period: int, observed: int) -> bool {
    &&& ping_safe(m, period, observed)
    &&& account_or_fresh(m.accounts, caller).unstaked_balance + post_ping_value(
        m,
        period,
        observed,
    ) <= u128::MAX
    &&& period + NUM_EPOCHS_TO_UNLOCK <= u64::MAX
    &&& ticket_fit(m, caller, post_ping_staked(m, caller, period, observed))
}

/// The machine limits of the full `deposit` entry point.
pub open spec fn deposit_safe(
    m: PoolModel,
    caller: Seq<char>,
    amount: int,
    period: int,
    observed: int,
) -> bool {
    &&& ping_safe(m, period, observed)
    &&& account_or_fresh(m.accounts, caller).unstaked_balance + amount <= u128::MAX
    &&& m.last_total_balance + amount <= u128::MAX
    &&& observed + amount <= u128::MAX
}

/// What one ping did: whether the period advanced, and which payout the
/// caller must perform.
pub struct PingEffect {
    pub advanced: bool,
    pub payout: Option<(Seq<char>, int)>,
}

/// Reward ingestion, idempotent per period. On a period advance the
/// externally observed total must not have shrunk; its growth is credited in
/// full to the staked balance and the reward pot. A due drawing pays the
/// whole pot to the owner of a uniformly drawn slot and schedules the next
/// drawing; with no live slots the drawing is skipped and retried at the
/// next period.
pub open spec fn ping_step(m: PoolModel, period: int, observed: int, entropy: int) -> Result<
    (PoolModel, PingEffect),
    PoolError,
> {
    if m.last_epoch_height == period {
        Ok((m, PingEffect { advanced: false, payout: None }))
    } else if observed < m.last_total_balance {
        Err(PoolError::InvariantViolation)
    } else {
        let delta = observed - m.last_total_balance;
        let m1 = PoolModel {
            last_epoch_height: period,
            total_reward: m.total_reward + delta,
            total_staked_balance: m.total_staked_balance + delta,
            last_total_balance: observed,
            ..m
        };
        if drawing_due(m, period) && m1.tickets_count > 0 {
            let idx = entropy % m1.tickets_count;
            let winner = m1.tickets_random_slots[idx];
            let prize = m1.total_reward;
            let m2 = PoolModel {
                total_reward: 0,
                next_prize_event_epoch_height: period + PRIZE_EVENT_INTERVAL,
                ..m1
            };
            Ok((m2, PingEffect { advanced: true, payout: Some((winner, prize)) }))
        } else {
            Ok((m1, PingEffect { advanced: true, payout: None }))
        }
    }
}

/// The restake decision: unless suspended, a stake action for the whole
/// staked balance is issued and the state machine moves to `Pending`.
/// Suspension short-circuits the machine to `Idle`.
pub open spec fn restake_step(m: PoolModel) -> (PoolModel, Option<int>) {
    if m.is_restake_paused {
        (PoolModel { restake_state: RestakeModel::Idle, ..m }, None)
    } else {
        (
            PoolModel {
                restake_state: RestakeModel::Pending { amount: m.total_staked_balance },
                ..m
            },
            Some(m.total_staked_balance),
        )
    }
}

/// Buying shares. The depositor receives `floor(shares(amount))` whole
/// shares, is charged the down-rounded value of those shares (never more
/// than `amount`), while the pool total grows by their up-rounded value, so
/// the rounding gap is absorbed by the guarantee fund and the share price
/// cannot decrease.
pub open spec fn stake_step(m: PoolModel, caller: Seq<char>, amount: int) -> Result<
    (PoolModel, int, int),
    PoolError,
> {
    if amount <= 0 {
        Err(PoolError::ZeroAmount)
    } else if m.total_staked_balance <= 0 {
        Err(PoolError::DivisionByZero)
    } else {
        let num_shares = shares_from_amount_down(
            amount,
            m.total_stake_shares,
            m.total_staked_balance,
        );
        if num_shares <= 0 {
            Err(PoolError::BelowShareGranularity)
        } else {
            let charge = amount_from_shares_down(
                num_shares,
                m.total_stake_shares,
                m.total_staked_balance,
            );
            let acct = account_or_fresh(m.accounts, caller);
            if acct.unstaked_balance < charge {
                Err(PoolError::InsufficientBalance)
            } else {
                let stake_amount = amount_from_shares_up(
                    num_shares,
                    m.total_stake_shares,
                    m.total_staked_balance,
                );
                let acct2 = AccountModel {
                    unstaked_balance: acct.unstaked_balance - charge,
                    stake_shares: acct.stake_shares + num_shares,
                    stake_points: acct.stake_points + 1,
                    ..acct
                };
                let m2 = PoolModel {
                    accounts: store_account(m.accounts, acct2),
                    total_staked_balance: m.total_staked_balance + stake_amount,
                    total_stake_shares: m.total_stake_shares + num_shares,
                    ..m
                };
                Ok((m2, charge, num_shares))
            }
        }
    }
}

/// Selling shares back. The depositor pays the up-rounded share count for
/// `amount`, is credited the up-rounded value of those shares, while the
/// pool total shrinks only by their down-rounded value: the symmetric
/// anti-dilution rounding. The freed balance unlocks a fixed number of
/// periods later.
pub open spec fn unstake_step(m: PoolModel, caller: Seq<char>, amount: int, period: int) -> Result<
    (PoolModel, int, int),
    PoolError,
> {
    if amount <= 0 {
        Err(PoolError::ZeroAmount)
    } else if m.total_staked_balance <= 0 {
        Err(PoolError::NothingStaked)
    } else {
        let num_shares = shares_from_amount_up(
            amount,
            m.total_stake_shares,
            m.total_staked_balance,
        );
        let acct = account_or_fresh(m.accounts, caller);
        if acct.stake_shares < num_shares {
            Err(PoolError::InsufficientShares)
        } else if acct.stake_points <= 0 {
            Err(PoolError::InvariantViolation)
        } else {
            let receive = amount_from_shares_up(
                num_shares,
                m.total_stake_shares,
                m.total_staked_balance,
            );
            let unstake_amount = amount_from_shares_down(
                num_shares,
                m.total_stake_shares,
                m.total_staked_balance,
            );
            let acct2 = AccountModel {
                unstaked_balance: acct.unstaked_balance + receive,
                stake_shares: acct.stake_shares - num_shares,
                stake_points: acct.stake_points - 1,
                unstaked_available_epoch_height: period + NUM_EPOCHS_TO_UNLOCK,
                ..acct
            };
            let m2 = PoolModel {
                accounts: store_account(m.accounts, acct2),
                total_staked_balance: m.total_staked_balance - unstake_amount,
                total_stake_shares: m.total_stake_shares - num_shares,
                ..m
            };
            Ok((m2, receive, num_shares))
        }
    }
}

/// Crediting a deposit to the withdrawable balance; the observed-total
/// snapshot grows with it so the next ping does not count it as reward.
pub open spec fn deposit_step(m: PoolModel, caller: Seq<char>, amount: int) -> PoolModel {
    let acct = account_or_fresh(m.accounts, caller);
    let acct2 = AccountModel { unstaked_balance: acct.unstaked_balance + amount, ..acct };
    PoolModel {
        accounts: store_account(m.accounts, acct2),
        last_total_balance: m.last_total_balance + amount,
        ..m
    }
}

/// Withdrawing the whole unlocked balance. The paid amount leaves the
/// observed-total snapshot: an explicit withdrawal the engine performed is
/// the one legitimate way the external total may shrink.
pub open spec fn withdraw_all_step(m: PoolModel, caller: Seq<char>, period: int) -> Result<
    (PoolModel, int),
    PoolError,
> {
    let acct = account_or_fresh(m.accounts, caller);
    if acct.unstaked_available_epoch_height > period {
        Err(PoolError::WithdrawalLocked)
    } else if acct.unstaked_balance <= 0 {
        Err(PoolError::NothingToWithdraw)
    } else {
        let acct2 = AccountModel { unstaked_balance: 0, ..acct };
        let m2 = PoolModel {
            accounts: store_account(m.accounts, acct2),
            last_total_balance: m.last_total_balance - acct.unstaked_balance,
            ..m
        };
        Ok((m2, acct.unstaked_balance))
    }
}

/// Minting tickets for `amount` of principal: one slot per ticket unit,
/// scaled by `multiplier`. Amounts below one ticket unit mint nothing and
/// change nothing.
pub open spec fn add_tickets_step(
    m: PoolModel,
    caller: Seq<char>,
    amount: int,
    multiplier: int,
) -> Result<PoolModel, PoolError> {
    if amount <= 0 {
        Err(PoolError::ZeroAmount)
    } else {
        let tickets = amount / (TICKET_UNIT_PRICE as int) * multiplier;
        let acct = account_or_fresh(m.accounts, caller);
        let acct2 = AccountModel { tickets_amount: acct.tickets_amount + tickets, ..acct };
        Ok(
            PoolModel {
                accounts: store_account(m.accounts, acct2),
                tickets_random_slots: m.tickets_random_slots + Seq::new(
                    tickets as nat,
                    |i: int| caller,
                ),
                tickets_count: m.tickets_count + tickets,
                ..m
            },
        )
    }
}

/// Burning tickets for `amount` of principal at the account's current
/// multiplier, which is consumed and reset to one. Burning more tickets
/// than the account owns is an unrecoverable accounting violation.
pub open spec fn remove_tickets_step(m: PoolModel, caller: Seq<char>, amount: int) -> Result<
    PoolModel,
    PoolError,
> {
    if amount <= 0 {
        Err(PoolError::ZeroAmount)
    } else {
        let acct = account_or_fresh(m.accounts, caller);
        let tickets = amount / (TICKET_UNIT_PRICE as int) * acct.tickets_multiplier;
        if acct.tickets_amount < tickets {
            Err(PoolError::InvariantViolation)
        } else {
            let acct2 = AccountModel {
                tickets_amount: acct.tickets_amount - tickets,
                tickets_multiplier: 1,
                ..acct
            };
            Ok(
                PoolModel {
                    accounts: store_account(m.accounts, acct2),
                    tickets_random_slots: remove_owned_from(
                        m.tickets_random_slots,
                        caller,
                        tickets,
                        0,
                    ),
                    tickets_count: m.tickets_count - tickets,
                    ..m
                },
            )
        }
    }
}

/// Everything a composite operation reports back to its caller: the charge
/// or credit it computed, the payout a due drawing produced, and the restake
/// action the caller must issue.
pub struct OpEffect {
    pub charge: int,
    pub receive: int,
    pub num_shares: int,
    pub payout: Option<(Seq<char>, int)>,
    pub restake: Option<int>,
}

/// The full `stake` entry point: ping, buy shares with the account's
/// multiplier worth of tickets, then the restake decision. Any rejection
/// leaves the pool exactly as it was.
pub open spec fn stake_flow(
    m: PoolModel,
    caller: Seq<char>,
    amount: int,
    period: int,
    observed: int,
    entropy: int,
) -> Result<(PoolModel, OpEffect), PoolError> {
    match ping_step(m, period, observed, entropy) {
        Err(e) => Err(e),
        Ok((m1, ping_eff)) => match stake_step(m1, caller, amount) {
            Err(e) => Err(e),
            Ok((m2, charge, num_shares)) => {
                let multiplier = account_or_fresh(m1.accounts, caller).tickets_multiplier;
                match add_tickets_step(m2, caller, amount, multiplier) {
                    Err(e) => Err(e),
                    Ok(m3) => {
                        let (m4, restake) = restake_step(m3);
                        Ok(
                            (
                                m4,
                                OpEffect {
                                    charge: charge,
                                    receive: 0,
                                    num_shares: num_shares,
                                    payout: ping_eff.payout,
                                    restake: restake,
                                },
                            ),
                        )
                    },
                }
            },
        },
    }
}

/// The unstake path once the ping has settled: sell shares, burn the
/// matching tickets at the account's multiplier, then the restake decision.
pub open spec fn unstake_after_ping(
    m1: PoolModel,
    ping_eff: PingEffect,
    caller: Seq<char>,
    amount: int,
    period: int,
) -> Result<(PoolModel, OpEffect), PoolError> {
    match unstake_step(m1, caller, amount, period) {
        Err(e) => Err(e),
        Ok((m2, receive, num_shares)) => match remove_tickets_step(m2, caller, amount) {
            Err(e) => Err(e),
            Ok(m3) => {
                let (m4, restake) = restake_step(m3);
                Ok(
                    (
                        m4,
                        OpEffect {
                            charge: 0,
                            receive: receive,
                            num_shares: num_shares,
                            payout: ping_eff.payout,
                            restake: restake,
                        },
                    ),
                )
            },
        },
    }
}

/// The full `unstake` entry point: ping, sell shares, burn the matching
/// tickets at the account's multiplier, then the restake decision.
pub open spec fn unstake_flow(
    m: PoolModel,
    caller: Seq<char>,
    amount: int,
    period: int,
    observed: int,
    entropy: int,
) -> Result<(PoolModel, OpEffect), PoolError> {
    match ping_step(m, period, observed, entropy) {
        Err(e) => Err(e),
        Ok((m1, ping_eff)) => unstake_after_ping(m1, ping_eff, caller, amount, period),
    }
}

/// The full `unstake_all` entry point: ping, then unstake the whole current
/// value of the caller's shares.
pub open spec fn unstake_all_flow(
    m: PoolModel,
    caller: Seq<char>,
    period: int,
    observed: int,
    entropy: int,
) -> Result<(PoolModel, OpEffect), PoolError> {
    match ping_step(m, period, observed, entropy) {
        Err(e) => Err(e),
        Ok((m1, ping_eff)) => {
            let full = derived_staked(m1, caller);
            if full <= 0 {
                Err(PoolError::NothingStaked)
            } else {
                unstake_after_ping(m1, ping_eff, caller, full, period)
            }
        },
    }
}

/// The full `deposit` entry point: ping, credit the attached amount, and
/// restake only if the period advanced.
pub open spec fn deposit_flow(
    m: PoolModel,
    caller: Seq<char>,
    amount: int,
    period: int,
    observed: int,
    entropy: int,
) -> Result<(PoolModel, OpEffect), PoolError> {
    match ping_step(m, period, observed, entropy) {
        Err(e) => Err(e),
        Ok((m1, ping_eff)) => {
            let m2 = deposit_step(m1, caller, amount);
            if ping_eff.advanced {
                let (m3, restake) = restake_step(m2);
                Ok(
                    (
                        m3,
                        OpEffect {
                            charge: 0,
                            receive: 0,
                            num_shares: 0,
                            payout: ping_eff.payout,
                            restake: restake,
                        },
                    ),
                )
            } else {
                Ok(
                    (
                        m2,
                        OpEffect {
                            charge: 0,
                            receive: 0,
                            num_shares: 0,
                            payout: ping_eff.payout,
                            restake: None,
                        },
                    ),
                )
            }
        },
    }
}

/// The full `deposit_and_stake` entry point: the deposit settles first,
/// then the stake runs in the same period (its own ping is a no-op). Any
/// rejection, of either half, leaves the pool exactly as it was.
pub open spec fn deposit_and_stake_flow(
    m: PoolModel,
    caller: Seq<char>,
    amount: int,
    period: int,
    observed: int,
    entropy: int,
) -> Result<(PoolModel, OpEffect), PoolError> {
    match deposit_flow(m, caller, amount, period, observed, entropy) {
        Err(e) => Err(e),
        Ok((m1, eff1)) => match stake_flow(m1, caller, amount, period, observed, entropy) {
            Err(e) => Err(e),
            Ok((m2, eff2)) => Ok(
                (
                    m2,
                    OpEffect {
                        charge: eff2.charge,
                        receive: 0,
                        num_shares: eff2.num_shares,
                        payout: eff1.payout,
                        restake: eff2.restake,
                    },
                ),
            ),
        },
    }
}

/// The standalone `ping` entry point: ingest rewards, and restake only if
/// the period advanced.
pub open spec fn ping_flow(m: PoolModel, period: int, observed: int, entropy: int) -> Result<
    (PoolModel, OpEffect),
    PoolError,
> {
    match ping_step(m, period, observed, entropy) {
        Err(e) => Err(e),
        Ok((m1, ping_eff)) => {
            if ping_eff.advanced {
                let (m2, restake) = restake_step(m1);
                Ok(
                    (
                        m2,
                        OpEffect {
                            charge: 0,
                            receive: 0,
                            num_shares: 0,
                            payout: ping_eff.payout,
                            restake: restake,
                        },
                    ),
                )
            } else {
                Ok(
                    (
                        m1,
                        OpEffect {
                            charge: 0,
                            receive: 0,
                            num_shares: 0,
                            payout: ping_eff.payout,
                            restake: None,
                        },
                    ),
                )
            }
        },
    }
}

/// Confirmation that the caller paid a reward token for the ticket bonus: the
/// account's multiplier becomes two, its whole currently staked value is
/// matched with one extra set of tickets, and the token joins the held
/// reserve. A failed transfer changes nothing.
pub open spec fn nft_callback_step(
    m: PoolModel,
    caller: Seq<char>,
    token_id: Seq<char>,
    transfer_succeeded: bool,
) -> Result<(PoolModel, bool), PoolError> {
    if !transfer_succeeded {
        Ok((m, false))
    } else {
        let staked = derived_staked(m, caller);
        let acct = account_or_fresh(m.accounts, caller);
        let acct2 = AccountModel { tickets_multiplier: 2, ..acct };
        let m1 = PoolModel { accounts: store_account(m.accounts, acct2), ..m };
        match add_tickets_step(m1, caller, staked, 1) {
            Err(e) => Err(e),
            Ok(m2) => Ok((PoolModel { nft_hold: m2.nft_hold.push(token_id), ..m2 }, true)),
        }
    }
}

/// Claiming a reward token: ten stake points buy the most recently held
/// token and the counter starts over.
pub open spec fn claim_reward_step(m: PoolModel, caller: Seq<char>) -> Result<
    (PoolModel, Seq<char>),
    PoolError,
> {
    let acct = account_or_fresh(m.accounts, caller);
    if acct.stake_points < REWARD_CLAIM_STAKE_POINTS {
        Err(PoolError::InsufficientStakePoints)
    } else if m.nft_hold.len() == 0 {
        Err(PoolError::NoRewardAvailable)
    } else {
        let acct2 = AccountModel { stake_points: 0, ..acct };
        let m2 = PoolModel {
            accounts: store_account(m.accounts, acct2),
            nft_hold: m.nft_hold.drop_last(),
            ..m
        };
        Ok((m2, m.nft_hold.last()))
    }
}

/// The callback of the two-phase stake action. Only the engine itself may
/// deliver it. A failed action with value still locked is answered with a
/// compensating zero-amount stake action; everything else settles the
/// machine back to idle.
pub open spec fn on_stake_action_step(
    m: PoolModel,
    caller: Seq<char>,
    engine_id: Seq<char>,
    action_succeeded: bool,
    locked_balance: int,
) -> Result<(PoolModel, Option<int>), PoolError> {
    if caller != engine_id {
        Err(PoolError::CallbackUnauthorized)
    } else if m.is_restake_paused {
        Ok((PoolModel { restake_state: RestakeModel::Idle, ..m }, None))
    } else if !action_succeeded && locked_balance > 0 {
        Ok((PoolModel { restake_state: RestakeModel::Pending { amount: 0 }, ..m }, Some(0)))
    } else {
        Ok((PoolModel { restake_state: RestakeModel::Idle, ..m }, None))
    }
}

} // verus!
