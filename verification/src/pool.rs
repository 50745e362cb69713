//! The executable staking pool.
//!
//! The pool owns every record and the ticket slot array; the host
//! environment supplies plain values (the current period, the externally
//! observed total, the caller identity, the callback verdict) and performs
//! the actions each operation returns (a transfer, a restake). Every
//! operation is specified against the transition functions of [`crate::model`].

use crate::errors::PoolError;
use crate::model::{
    account_index, account_or_fresh, derived_account, derived_staked, drawing_due, fresh_account,
    has_account, wf, AccountModel, OpEffect, PoolModel, RestakeModel, PRIZE_EVENT_INTERVAL,
    STAKE_SHARE_PRICE_GUARANTEE_FUND,
};
use crate::model_lemmas::{lemma_account_index_agrees, lemma_sum_shares_ge_elem};
use crate::share_math::{
    amount_from_shares_down, amount_from_shares_up, lemma_muldiv_le, mul_div_ceil, mul_div_floor,
    shares_from_amount_down, shares_from_amount_up,
};
use rand::Rng;
use rand::RngCore;
use rand::SeedableRng;
use vstd::prelude::*;

verus! {

/// One depositor record, created lazily on first interaction. The
/// `staked_balance` and `can_withdraw` fields are derived from the pool
/// totals on every read through `get_account`; their stored values are
/// never authoritative.
pub struct StakingPoolAccount {
    pub account_id: String,
    /// The unstaked balance that can be withdrawn or staked.
    pub unstaked_balance: u128,
    /// The balance staked at the current share price; derived on read.
    pub staked_balance: u128,
    /// The amount of shares.
    pub stake_shares: u128,
    /// Updated when stake/unstake actions happen; used for reward claims.
    pub stake_points: u64,
    /// The amount of tickets.
    pub tickets_amount: u64,
    /// Bonus multiplier, consumed by the next ticket removal.
    pub tickets_multiplier: u64,
    /// Whether the unstaked balance is available for withdrawal; derived on
    /// read.
    pub can_withdraw: bool,
    /// Period at which the unstaked balance unlocks.
    pub unstaked_available_epoch_height: u64,
}

impl View for StakingPoolAccount {
    type V = AccountModel;

    open spec fn view(&self) -> AccountModel {
        AccountModel {
            account_id: self.account_id@,
            unstaked_balance: self.unstaked_balance as int,
            staked_balance: self.staked_balance as int,
            stake_shares: self.stake_shares as int,
            stake_points: self.stake_points as int,
            tickets_amount: self.tickets_amount as int,
            tickets_multiplier: self.tickets_multiplier as int,
            can_withdraw: self.can_withdraw,
            unstaked_available_epoch_height: self.unstaked_available_epoch_height as int,
        }
    }
}

impl StakingPoolAccount {
    /// A fresh record for this identifier: everything zero, multiplier one.
    pub fn new(account_id: &str) -> (r: Self)
        ensures
            r@ == fresh_account(account_id@),
    {
        let r = StakingPoolAccount {
            account_id: account_id.to_string(),
            unstaked_balance: 0,
            staked_balance: 0,
            stake_shares: 0,
            stake_points: 0,
            tickets_multiplier: 1,
            tickets_amount: 0,
            can_withdraw: false,
            unstaked_available_epoch_height: 0,
        };
        proof {
            assert(r@ =~= fresh_account(account_id@));
        }
        r
    }

    /// A field-for-field copy of this record.
    pub fn duplicate(&self) -> (r: Self)
        ensures
            r@ == self@,
    {
        let r = StakingPoolAccount {
            account_id: self.account_id.clone(),
            unstaked_balance: self.unstaked_balance,
            staked_balance: self.staked_balance,
            stake_shares: self.stake_shares,
            stake_points: self.stake_points,
            tickets_multiplier: self.tickets_multiplier,
            tickets_amount: self.tickets_amount,
            can_withdraw: self.can_withdraw,
            unstaked_available_epoch_height: self.unstaked_available_epoch_height,
        };
        proof {
            assert(r@ =~= self@);
        }
        r
    }
}

/// The two-phase restake action: issued and awaiting its callback, or
/// settled.
pub enum RestakeState {
    Idle,
    /// A stake action for this amount is in flight.
    Pending { amount: u128 },
}

impl View for RestakeState {
    type V = RestakeModel;

    open spec fn view(&self) -> RestakeModel {
        match self {
            RestakeState::Idle => RestakeModel::Idle,
            RestakeState::Pending { amount } => RestakeModel::Pending { amount: *amount as int },
        }
    }
}

/// A lottery payout the caller must perform: transfer `amount` to `winner`.
pub struct PrizePayout {
    pub winner: String,
    pub amount: u128,
}

impl View for PrizePayout {
    type V = (Seq<char>, int);

    open spec fn view(&self) -> (Seq<char>, int) {
        (self.winner@, self.amount as int)
    }
}

/// Everything a pool operation reports back: the charge or credit it
/// computed, the share movement, the payout a due drawing produced, and the
/// restake action to issue.
pub struct PoolOutcome {
    pub charge: u128,
    pub receive: u128,
    pub num_shares: u128,
    pub payout: Option<PrizePayout>,
    pub restake: Option<u128>,
}

impl View for PoolOutcome {
    type V = OpEffect;

    open spec fn view(&self) -> OpEffect {
        OpEffect {
            charge: self.charge as int,
            receive: self.receive as int,
            num_shares: self.num_shares as int,
            payout: match self.payout {
                Some(p) => Some(p@),
                None => None,
            },
            restake: match self.restake {
                Some(a) => Some(a as int),
                None => None,
            },
        }
    }
}

/// Relies on `rand::thread_rng` and `rand_chacha::ChaCha8Rng`: 32 bytes of
/// thread-local entropy seed a ChaCha8 stream whose first 64-bit word is
/// returned. Nothing is promised of the value.
#[verifier::external_body]
fn os_entropy() -> u64 {
    let mut seed: [u8; 32] = [0u8; 32];
    rand::thread_rng().fill(&mut seed);
    let mut rng = rand_chacha::ChaCha8Rng::from_seed(seed);
    rng.next_u64()
}

/// The pool: share-price accounting engine plus the ticket lottery.
pub struct StakingPool {
    pub owner_id: String,
    pub accounts: Vec<StakingPoolAccount>,
    pub tickets_count: u64,
    pub tickets_random_slots: Vec<String>,
    pub next_prize_event_epoch_height: u64,
    pub total_reward: u128,
    pub total_staked_balance: u128,
    pub last_total_balance: u128,
    pub total_stake_shares: u128,
    pub last_epoch_height: u64,
    pub is_restake_paused: bool,
    pub restake_state: RestakeState,
    pub nft_hold: Vec<String>,
}

impl View for StakingPool {
    type V = PoolModel;

    open spec fn view(&self) -> PoolModel {
        PoolModel {
            owner_id: self.owner_id@,
            accounts: self.accounts@.map_values(|a: StakingPoolAccount| a@),
            tickets_count: self.tickets_count as int,
            tickets_random_slots: self.tickets_random_slots@.map_values(|s: String| s@),
            next_prize_event_epoch_height: self.next_prize_event_epoch_height as int,
            total_reward: self.total_reward as int,
            total_staked_balance: self.total_staked_balance as int,
            last_total_balance: self.last_total_balance as int,
            total_stake_shares: self.total_stake_shares as int,
            last_epoch_height: self.last_epoch_height as int,
            is_restake_paused: self.is_restake_paused,
            restake_state: self.restake_state@,
            nft_hold: self.nft_hold@.map_values(|s: String| s@),
        }
    }
}

impl StakingPool {
    /// Open a fresh pool. The whole starting balance except the guarantee
    /// fund backs the initial shares at a price of exactly one, owned by
    /// nobody; the observed-total snapshot starts at the starting balance.
    /// The first drawing becomes eligible one full interval later.
    pub fn new(owner_id: String, account_balance: u128, current_period: u64) -> (r: Self)
        requires
            account_balance > STAKE_SHARE_PRICE_GUARANTEE_FUND,
            current_period + PRIZE_EVENT_INTERVAL <= u64::MAX,
        ensures
            wf(r@),
            r@.owner_id == owner_id@,
            r@.accounts == Seq::<AccountModel>::empty(),
            r@.tickets_count == 0,
            r@.tickets_random_slots == Seq::<Seq<char>>::empty(),
            r@.next_prize_event_epoch_height == current_period + PRIZE_EVENT_INTERVAL,
            r@.total_reward == 0,
            r@.total_staked_balance == account_balance - STAKE_SHARE_PRICE_GUARANTEE_FUND,
            r@.last_total_balance == account_balance,
            r@.total_stake_shares == account_balance - STAKE_SHARE_PRICE_GUARANTEE_FUND,
            r@.last_epoch_height == current_period,
            !r@.is_restake_paused,
            r@.restake_state == RestakeModel::Idle,
            r@.nft_hold == Seq::<Seq<char>>::empty(),
    {
        let total_staked_balance = account_balance - STAKE_SHARE_PRICE_GUARANTEE_FUND;
        let r = StakingPool {
            owner_id: owner_id,
            accounts: Vec::new(),
            tickets_random_slots: Vec::new(),
            tickets_count: 0,
            next_prize_event_epoch_height: current_period + PRIZE_EVENT_INTERVAL,
            total_reward: 0,
            total_staked_balance: total_staked_balance,
            last_total_balance: account_balance,
            total_stake_shares: total_staked_balance,
            last_epoch_height: current_period,
            is_restake_paused: false,
            restake_state: RestakeState::Idle,
            nft_hold: Vec::new(),
        };
        proof {
            assert(r@.accounts =~= Seq::<AccountModel>::empty());
            assert(r@.tickets_random_slots =~= Seq::<Seq<char>>::empty());
            assert(r@.nft_hold =~= Seq::<Seq<char>>::empty());
        }
        r
    }

    /// Index of the caller's record, if one exists.
    pub(crate) fn find_account(&self, account_id: &String) -> (r: Option<usize>)
        ensures
            match r {
                Some(i) => i < self.accounts@.len() && self.accounts@[i as int]@.account_id
                    == account_id@,
                None => !has_account(self@.accounts, account_id@),
            },
    {
        let mut i: usize = 0;
        while i < self.accounts.len()
            invariant
                i <= self.accounts@.len(),
                forall|j: int| 0 <= j < i ==> (#[trigger] self.accounts@[j])@.account_id
                    != account_id@,
            decreases self.accounts@.len() - i,
        {
            if self.accounts[i].account_id.eq(account_id) {
                return Some(i);
            }
            i = i + 1;
        }
        proof {
            assert forall|k: int| 0 <= k < self@.accounts.len() implies (
            #[trigger] self@.accounts[k]).account_id != account_id@ by {
                assert(self@.accounts[k] == self.accounts@[k]@);
            }
        }
        None
    }

    /// Shares bought by staking `amount` at the current price, rounded
    /// down. Rejected while the pool backs no value.
    pub fn num_shares_from_staked_amount_rounded_down(&self, amount: u128) -> (r: Result<
        u128,
        PoolError,
    >)
        requires
            self@.total_staked_balance > 0 ==> shares_from_amount_down(
                amount as int,
                self@.total_stake_shares,
                self@.total_staked_balance,
            ) <= u128::MAX,
        ensures
            match r {
                Ok(n) => self@.total_staked_balance > 0 && n == shares_from_amount_down(
                    amount as int,
                    self@.total_stake_shares,
                    self@.total_staked_balance,
                ),
                Err(e) => self@.total_staked_balance == 0 && e == PoolError::DivisionByZero,
            },
    {
        if self.total_staked_balance == 0 {
            return Err(PoolError::DivisionByZero);
        }
        Ok(mul_div_floor(self.total_stake_shares, amount, self.total_staked_balance))
    }

    /// Shares charged for unstaking `amount` at the current price, rounded
    /// up. Rejected while the pool backs no value.
    pub fn num_shares_from_staked_amount_rounded_up(&self, amount: u128) -> (r: Result<
        u128,
        PoolError,
    >)
        requires
            self@.total_staked_balance > 0 ==> shares_from_amount_up(
                amount as int,
                self@.total_stake_shares,
                self@.total_staked_balance,
            ) <= u128::MAX,
        ensures
            match r {
                Ok(n) => self@.total_staked_balance > 0 && n == shares_from_amount_up(
                    amount as int,
                    self@.total_stake_shares,
                    self@.total_staked_balance,
                ),
                Err(e) => self@.total_staked_balance == 0 && e == PoolError::DivisionByZero,
            },
    {
        if self.total_staked_balance == 0 {
            return Err(PoolError::DivisionByZero);
        }
        proof {
            crate::share_math::lemma_ceil_structure(
                self@.total_stake_shares * amount,
                self@.total_staked_balance,
            );
        }
        Ok(mul_div_ceil(self.total_stake_shares, amount, self.total_staked_balance))
    }

    /// Value of `num_shares` at the current price, rounded down. Rejected
    /// while no shares are outstanding.
    pub fn staked_amount_from_num_shares_rounded_down(&self, num_shares: u128) -> (r: Result<
        u128,
        PoolError,
    >)
        requires
            self@.total_stake_shares > 0 ==> amount_from_shares_down(
                num_shares as int,
                self@.total_stake_shares,
                self@.total_staked_balance,
            ) <= u128::MAX,
        ensures
            match r {
                Ok(a) => self@.total_stake_shares > 0 && a == amount_from_shares_down(
                    num_shares as int,
                    self@.total_stake_shares,
                    self@.total_staked_balance,
                ),
                Err(e) => self@.total_stake_shares == 0 && e == PoolError::DivisionByZero,
            },
    {
        if self.total_stake_shares == 0 {
            return Err(PoolError::DivisionByZero);
        }
        Ok(mul_div_floor(self.total_staked_balance, num_shares, self.total_stake_shares))
    }

    /// Value of `num_shares` at the current price, rounded up. Rejected
    /// while no shares are outstanding.
    pub fn staked_amount_from_num_shares_rounded_up(&self, num_shares: u128) -> (r: Result<
        u128,
        PoolError,
    >)
        requires
            self@.total_stake_shares > 0 ==> amount_from_shares_up(
                num_shares as int,
                self@.total_stake_shares,
                self@.total_staked_balance,
            ) <= u128::MAX,
        ensures
            match r {
                Ok(a) => self@.total_stake_shares > 0 && a == amount_from_shares_up(
                    num_shares as int,
                    self@.total_stake_shares,
                    self@.total_staked_balance,
                ),
                Err(e) => self@.total_stake_shares == 0 && e == PoolError::DivisionByZero,
            },
    {
        if self.total_stake_shares == 0 {
            return Err(PoolError::DivisionByZero);
        }
        proof {
            crate::share_math::lemma_ceil_structure(
                self@.total_staked_balance * num_shares,
                self@.total_stake_shares,
            );
        }
        Ok(mul_div_ceil(self.total_staked_balance, num_shares, self.total_stake_shares))
    }

    /// The caller's record with its staked balance and withdrawability
    /// derived from the pool totals; a fresh record for a caller never seen.
    pub fn get_account(&self, account_id: &String, current_period: u64) -> (r: StakingPoolAccount)
        requires
            wf(self@),
        ensures
            r@ == derived_account(self@, account_id@, current_period as int),
    {
        let mut account = match self.find_account(account_id) {
            Some(i) => {
                proof {
                    lemma_account_index_agrees(self@.accounts, i as int);
                }
                self.accounts[i].duplicate()
            },
            None => StakingPoolAccount::new(account_id.as_str()),
        };
        account.staked_balance = if self.total_stake_shares == 0 {
            0
        } else {
            proof {
                if account@.stake_shares > 0 {
                    let i = account_index(self@.accounts, account_id@);
                    lemma_sum_shares_ge_elem(self@.accounts, i);
                }
                lemma_muldiv_le(
                    account@.stake_shares,
                    self@.total_staked_balance,
                    self@.total_stake_shares,
                );
                assert(account@.stake_shares * self@.total_staked_balance
                    == self@.total_staked_balance * account@.stake_shares) by (nonlinear_arith);
            }
            mul_div_floor(self.total_staked_balance, account.stake_shares, self.total_stake_shares)
        };
        account.can_withdraw = account.unstaked_available_epoch_height <= current_period;
        proof {
            assert(account@ =~= derived_account(self@, account_id@, current_period as int));
        }
        account
    }

    /// The unstaked balance of the given account.
    pub fn get_account_unstaked_balance(&self, account_id: &String, current_period: u64) -> (r:
        u128)
        requires
            wf(self@),
        ensures
            r == derived_account(self@, account_id@, current_period as int).unstaked_balance,
    {
        self.get_account(account_id, current_period).unstaked_balance
    }

    /// The staked balance of the given account, derived from its shares and
    /// the current pool totals.
    pub fn get_account_staked_balance(&self, account_id: &String, current_period: u64) -> (r: u128)
        requires
            wf(self@),
        ensures
            r == derived_staked(self@, account_id@),
    {
        self.get_account(account_id, current_period).staked_balance
    }

    /// The current number of tickets on the account.
    pub fn get_account_tickets_amount(&self, account_id: &String, current_period: u64) -> (r: u64)
        requires
            wf(self@),
        ensures
            r == account_or_fresh(self@.accounts, account_id@).tickets_amount,
    {
        self.get_account(account_id, current_period).tickets_amount
    }

    /// The total balance of the given account: staked plus unstaked.
    pub fn get_account_total_balance(&self, account_id: &String, current_period: u64) -> (r: u128)
        requires
            wf(self@),
            account_or_fresh(self@.accounts, account_id@).unstaked_balance + derived_staked(
                self@,
                account_id@,
            ) <= u128::MAX,
        ensures
            r == account_or_fresh(self@.accounts, account_id@).unstaked_balance + derived_staked(
                self@,
                account_id@,
            ),
    {
        let account = self.get_account(account_id, current_period);
        account.unstaked_balance + account.staked_balance
    }

    /// Whether the given account can withdraw its unstaked balance in the
    /// current period.
    pub fn is_account_unstaked_balance_available(
        &self,
        account_id: &String,
        current_period: u64,
    ) -> (r: bool)
        requires
            wf(self@),
        ensures
            r == (account_or_fresh(self@.accounts, account_id@).unstaked_available_epoch_height
                <= current_period),
    {
        self.get_account(account_id, current_period).can_withdraw
    }

    /// A number in `[min_inc, max_exc)`, reduced from environment-supplied
    /// entropy. Nothing beyond the range is promised of the value.
    pub fn random_u64(&self, min_inc: u64, max_exc: u64) -> (r: u64)
        requires
            min_inc < max_exc,
        ensures
            min_inc <= r < max_exc,
    {
        os_entropy() % (max_exc - min_inc) + min_inc
    }

    /// The owner of a uniformly drawn live ticket slot. The drawing must be
    /// due; with no live slots it is skipped, to be retried at the next
    /// eligible period.
    pub fn get_prize_winner(&self, current_period: u64) -> (r: Result<String, PoolError>)
        requires
            wf(self@),
        ensures
            match r {
                Ok(w) => drawing_due(self@, current_period as int) && self@.tickets_count > 0
                    && exists|i: int|
                    0 <= i < self@.tickets_random_slots.len() && w@
                        == self@.tickets_random_slots[i],
                Err(e) => if !drawing_due(self@, current_period as int) {
                    e == PoolError::DrawingNotDue
                } else {
                    self@.tickets_count == 0 && e == PoolError::EmptyPool
                },
            },
    {
        if self.next_prize_event_epoch_height > current_period {
            return Err(PoolError::DrawingNotDue);
        }
        if self.tickets_count == 0 {
            return Err(PoolError::EmptyPool);
        }
        let ticket_id = self.random_u64(0, self.tickets_count);
        let live_slots = self.tickets_random_slots.len();
        proof {
            assert(ticket_id < live_slots);
        }
        let winner = self.tickets_random_slots[ticket_id as usize].clone();
        proof {
            assert(winner@ == self@.tickets_random_slots[ticket_id as int]);
        }
        Ok(winner)
    }

    /// Settle a due drawing: the whole reward pot becomes a payout to the
    /// given winner and the pot starts over at zero.
    pub fn transfer_prize_to_winner(&mut self, winner: String, current_period: u64) -> (r: Result<
        PrizePayout,
        PoolError,
    >)
        requires
            wf(old(self)@),
        ensures
            wf(final(self)@),
            match r {
                Ok(pp) => drawing_due(old(self)@, current_period as int) && final(self)@
                    == (PoolModel { total_reward: 0, ..old(self)@ }) && pp@.0 == winner@ && pp@.1
                    == old(self)@.total_reward,
                Err(e) => e == PoolError::DrawingNotDue && !drawing_due(
                    old(self)@,
                    current_period as int,
                ) && *final(self) == *old(self),
            },
    {
        if self.next_prize_event_epoch_height > current_period {
            return Err(PoolError::DrawingNotDue);
        }
        let prize = self.total_reward;
        self.total_reward = 0;
        proof {
            assert(self@ =~= (PoolModel { total_reward: 0, ..old(self)@ }));
        }
        Ok(PrizePayout { winner: winner, amount: prize })
    }

    /// Exposed to support simulation testing; takes no effect on the pool.
    #[allow(unused_variables)]
    pub fn update_account(&mut self, account: StakingPoolAccount)
        ensures
            *final(self) == *old(self),
    {
    }
}

} // verus!
