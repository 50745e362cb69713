//! The externally triggered mutations: ping, deposit, stake, unstake and
//! the withdrawal and callback paths. Every entry point first settles the
//! reward ingestion, validates everything it is about to do, and only then
//! mutates: a rejected call leaves the pool untouched.

use crate::errors::PoolError;
use crate::model::{
    account_or_fresh, add_tickets_step, count_owned, deposit_safe, deposit_step, derived_staked,
    fresh_account, has_account, ping_advances, ping_flow, ping_safe, ping_step, post_ping_value,
    remove_owned_from, remove_tickets_step, restake_step, stake_flow, stake_safe, stake_step,
    store_account, unstake_flow, unstake_safe, unstake_step, wf, AccountModel, PingEffect,
    PoolModel, RestakeModel, NUM_EPOCHS_TO_UNLOCK, PRIZE_EVENT_INTERVAL, TICKET_UNIT_PRICE,
};
use crate::model_lemmas::{
    lemma_account_index_agrees, lemma_count_owned_append_repeat, lemma_count_owned_bounds,
    lemma_count_owned_zero, lemma_push_new_id, lemma_sum_shares_ge_elem, lemma_sum_shares_push,
    lemma_sum_shares_update, lemma_update_same_id, lemma_wf_positive,
};
use crate::pool::{PoolOutcome, PrizePayout, RestakeState, StakingPool, StakingPoolAccount};
use crate::share_math::{
    lemma_muldiv_le, lemma_stake_conversion_bounds, lemma_unstake_conversion_bounds, mul_div_ceil,
    mul_div_floor,
};
use vstd::prelude::*;

verus! {

/// Ghost image of a payout option.
pub open spec fn payout_view(p: Option<PrizePayout>) -> Option<(Seq<char>, int)> {
    match p {
        Some(x) => Some(x@),
        None => None,
    }
}

/// Ghost image of a restake action option.
pub open spec fn restake_view(r: Option<u128>) -> Option<int> {
    match r {
        Some(a) => Some(a as int),
        None => None,
    }
}

impl StakingPool {
    /// Commit the reward ingestion and a due drawing. The caller has
    /// already ruled out the observed-total shrink.
    fn apply_ping(&mut self, current_period: u64, observed_total: u128, entropy: u64) -> (r: (
        bool,
        Option<PrizePayout>,
    ))
        requires
            wf(old(self)@),
            ping_safe(old(self)@, current_period as int, observed_total as int),
            ping_advances(old(self)@, current_period as int) ==> observed_total
                >= old(self)@.last_total_balance,
        ensures
            wf(final(self)@),
            ping_step(
                old(self)@,
                current_period as int,
                observed_total as int,
                entropy as int,
            ) == Ok::<(PoolModel, PingEffect), PoolError>(
                (final(self)@, PingEffect { advanced: r.0, payout: payout_view(r.1) }),
            ),
            final(self)@.accounts == old(self)@.accounts,
            final(self)@.total_stake_shares == old(self)@.total_stake_shares,
            final(self)@.total_staked_balance >= old(self)@.total_staked_balance,
            final(self)@.total_staked_balance == post_ping_value(
                old(self)@,
                current_period as int,
                observed_total as int,
            ),
            final(self)@.tickets_random_slots == old(self)@.tickets_random_slots,
            final(self)@.tickets_count == old(self)@.tickets_count,
            final(self)@.restake_state == old(self)@.restake_state,
            final(self)@.is_restake_paused == old(self)@.is_restake_paused,
    {
        proof {
            lemma_wf_positive(old(self)@);
        }
        if self.last_epoch_height == current_period {
            return (false, None);
        }
        self.last_epoch_height = current_period;
        let delta = observed_total - self.last_total_balance;
        self.total_reward = self.total_reward + delta;
        self.total_staked_balance = self.total_staked_balance + delta;
        let mut payout: Option<PrizePayout> = None;
        if self.next_prize_event_epoch_height <= current_period && self.tickets_count > 0 {
            let idx = entropy % self.tickets_count;
            let live_slots = self.tickets_random_slots.len();
            proof {
                assert(idx < live_slots);
            }
            let winner = self.tickets_random_slots[idx as usize].clone();
            let prize = self.total_reward;
            self.total_reward = 0;
            self.next_prize_event_epoch_height = current_period + PRIZE_EVENT_INTERVAL;
            payout = Some(PrizePayout { winner: winner, amount: prize });
        }
        self.last_total_balance = observed_total;
        proof {
            let step = ping_step(
                old(self)@,
                current_period as int,
                observed_total as int,
                entropy as int,
            );
            assert(step is Ok);
            assert(self@ =~= step->Ok_0.0);
            assert(payout_view(payout) == step->Ok_0.1.payout);
        }
        (true, payout)
    }

    /// Commit the restake decision.
    fn apply_restake(&mut self) -> (r: Option<u128>)
        requires
            wf(old(self)@),
        ensures
            wf(final(self)@),
            restake_step(old(self)@) == (final(self)@, restake_view(r)),
    {
        if self.is_restake_paused {
            self.restake_state = RestakeState::Idle;
            proof {
                assert(self@ =~= restake_step(old(self)@).0);
            }
            None
        } else {
            self.restake_state = RestakeState::Pending { amount: self.total_staked_balance };
            proof {
                assert(self@ =~= restake_step(old(self)@).0);
            }
            Some(self.total_staked_balance)
        }
    }

    /// Commit a validated share purchase for the record at `idx`: charge
    /// the down-rounded value, mint the shares, credit the pool with the
    /// up-rounded value.
    fn apply_stake(&mut self, idx: usize, amount: u128) -> (r: (u128, u128))
        requires
            wf(old(self)@),
            idx < old(self)@.accounts.len(),
            stake_step(
                old(self)@,
                old(self)@.accounts[idx as int].account_id,
                amount as int,
            ) is Ok,
            old(self)@.total_staked_balance + amount <= u128::MAX,
            old(self)@.accounts[idx as int].stake_points + 1 <= u64::MAX,
        ensures
            wf(final(self)@),
            stake_step(old(self)@, old(self)@.accounts[idx as int].account_id, amount as int)
                == Ok::<(PoolModel, int, int), PoolError>((final(self)@, r.0 as int, r.1 as int)),
    {
        let ghost m = old(self)@;
        let ghost caller = old(self)@.accounts[idx as int].account_id;
        proof {
            lemma_wf_positive(m);
            lemma_account_index_agrees(m.accounts, idx as int);
            lemma_stake_conversion_bounds(
                amount as int,
                m.total_stake_shares,
                m.total_staked_balance,
            );
            assert forall|k: int| 0 <= k < m.accounts.len() implies (
            #[trigger] m.accounts[k]).stake_shares >= 0 by {
                assert(crate::model::account_wf(m.accounts[k]));
            }
            lemma_sum_shares_ge_elem(m.accounts, idx as int);
        }
        let num_shares = mul_div_floor(self.total_stake_shares, amount, self.total_staked_balance);
        let charge = mul_div_floor(self.total_staked_balance, num_shares, self.total_stake_shares);
        let stake_amount = mul_div_ceil(
            self.total_staked_balance,
            num_shares,
            self.total_stake_shares,
        );
        let account = &mut self.accounts[idx];
        account.unstaked_balance = account.unstaked_balance - charge;
        account.stake_shares = account.stake_shares + num_shares;
        account.stake_points = account.stake_points + 1;
        self.total_staked_balance = self.total_staked_balance + stake_amount;
        self.total_stake_shares = self.total_stake_shares + num_shares;
        proof {
            let step = stake_step(m, caller, amount as int);
            let acct2 = AccountModel {
                unstaked_balance: m.accounts[idx as int].unstaked_balance - charge,
                stake_shares: m.accounts[idx as int].stake_shares + num_shares,
                stake_points: m.accounts[idx as int].stake_points + 1,
                ..m.accounts[idx as int]
            };
            assert(self.accounts@.map_values(|a: StakingPoolAccount| a@) =~= m.accounts.update(
                idx as int,
                acct2,
            ));
            lemma_update_same_id(m.accounts, idx as int, acct2);
            assert(self@ =~= step->Ok_0.0);
            // Well-formedness of the new pool.
            lemma_sum_shares_update(m.accounts, idx as int, acct2);
            assert forall|j: int|
                0 <= j < self@.tickets_random_slots.len() implies has_account(
                self@.accounts,
                #[trigger] self@.tickets_random_slots[j],
            ) by {
                assert(has_account(m.accounts, m.tickets_random_slots[j]));
            }
            assert forall|i: int|
                0 <= i < self@.accounts.len() implies count_owned(
                self@.tickets_random_slots,
                (#[trigger] self@.accounts[i]).account_id,
            ) == self@.accounts[i].tickets_amount by {
                assert(self@.accounts[i].account_id == m.accounts[i].account_id);
                assert(self@.accounts[i].tickets_amount == m.accounts[i].tickets_amount);
                assert(count_owned(m.tickets_random_slots, m.accounts[i].account_id)
                    == m.accounts[i].tickets_amount);
            }
        }
        (charge, num_shares)
    }

    /// Commit minting tickets for `amount` of principal to the record at
    /// `idx`: one slot per ticket unit, scaled by `multiplier`.
    #[verifier::loop_isolation(false)]
    fn apply_add_tickets(&mut self, idx: usize, amount: u128, multiplier: u64)
        requires
            wf(old(self)@),
            idx < old(self)@.accounts.len(),
            amount > 0,
            multiplier >= 1,
            ({
                let t = (amount as int) / (TICKET_UNIT_PRICE as int) * multiplier;
                &&& t <= u64::MAX
                &&& old(self)@.tickets_count + t <= u64::MAX
                &&& old(self)@.accounts[idx as int].tickets_amount + t <= u64::MAX
            }),
        ensures
            wf(final(self)@),
            add_tickets_step(
                old(self)@,
                old(self)@.accounts[idx as int].account_id,
                amount as int,
                multiplier as int,
            ) == Ok::<PoolModel, PoolError>(final(self)@),
    {
        let ghost m = old(self)@;
        let ghost caller = old(self)@.accounts[idx as int].account_id;
        let ghost t = (amount as int) / (TICKET_UNIT_PRICE as int) * multiplier;
        proof {
            lemma_account_index_agrees(m.accounts, idx as int);
            assert((amount as int) / (TICKET_UNIT_PRICE as int) * 1 <= t) by (nonlinear_arith)
                requires
                    1 <= multiplier,
                    0 <= (amount as int) / (TICKET_UNIT_PRICE as int),
                    t == (amount as int) / (TICKET_UNIT_PRICE as int) * multiplier,
            ;
        }
        let tickets_base = amount / TICKET_UNIT_PRICE;
        let tickets_num: u64 = (tickets_base as u64) * multiplier;
        let account = &mut self.accounts[idx];
        account.tickets_amount = account.tickets_amount + tickets_num;
        let owner = self.accounts[idx].account_id.clone();
        let ghost acct2 = AccountModel {
            tickets_amount: m.accounts[idx as int].tickets_amount + t,
            ..m.accounts[idx as int]
        };
        let ghost mid = self@;
        proof {
            assert(mid.accounts =~= m.accounts.update(idx as int, acct2));
        }
        let mut j: u64 = 0;
        while j < tickets_num
            invariant
                j <= tickets_num,
                self@ == (PoolModel {
                    tickets_random_slots: mid.tickets_random_slots + Seq::new(
                        j as nat,
                        |k: int| caller,
                    ),
                    ..mid
                }),
            decreases tickets_num - j,
        {
            let ghost before = self@.tickets_random_slots;
            self.tickets_random_slots.push(owner.clone());
            j = j + 1;
            proof {
                assert(owner@ == caller);
                assert(self@.tickets_random_slots =~= before.push(caller));
                assert(before.push(caller) =~= mid.tickets_random_slots + Seq::new(
                    j as nat,
                    |k: int| caller,
                ));
                assert(self@ =~= (PoolModel {
                    tickets_random_slots: mid.tickets_random_slots + Seq::new(
                        j as nat,
                        |k: int| caller,
                    ),
                    ..mid
                }));
            }
        }
        self.tickets_count = self.tickets_count + tickets_num;
        proof {
            let step = add_tickets_step(m, caller, amount as int, multiplier as int);
            assert(step is Ok);
            assert(self@ =~= step->Ok_0);
            // Well-formedness: identifiers, share sums and counts.
            lemma_update_same_id(m.accounts, idx as int, acct2);
            lemma_sum_shares_update(m.accounts, idx as int, acct2);
            assert forall|jj: int|
                0 <= jj < self@.tickets_random_slots.len() implies has_account(
                self@.accounts,
                #[trigger] self@.tickets_random_slots[jj],
            ) by {
                if jj < m.tickets_random_slots.len() {
                    assert(self@.tickets_random_slots[jj] == m.tickets_random_slots[jj]);
                    assert(has_account(m.accounts, m.tickets_random_slots[jj]));
                } else {
                    assert(self@.tickets_random_slots[jj] == caller);
                    assert(self@.accounts[idx as int].account_id == caller);
                }
            }
            assert forall|i: int|
                0 <= i < self@.accounts.len() implies count_owned(
                self@.tickets_random_slots,
                (#[trigger] self@.accounts[i]).account_id,
            ) == self@.accounts[i].tickets_amount by {
                lemma_count_owned_append_repeat(
                    m.tickets_random_slots,
                    caller,
                    t,
                    self@.accounts[i].account_id,
                );
                assert(count_owned(m.tickets_random_slots, m.accounts[i].account_id)
                    == m.accounts[i].tickets_amount);
                if i != idx as int {
                    assert(m.accounts[i].account_id != caller);
                }
            }
        }
    }

    /// Commit a validated share sale for the record at `idx`: burn the
    /// up-rounded share count, credit the up-rounded value to the unstaked
    /// balance, remove only the down-rounded value from the pool.
    fn apply_unstake(&mut self, idx: usize, amount: u128, current_period: u64) -> (r: (u128, u128))
        requires
            wf(old(self)@),
            idx < old(self)@.accounts.len(),
            unstake_step(
                old(self)@,
                old(self)@.accounts[idx as int].account_id,
                amount as int,
                current_period as int,
            ) is Ok,
            old(self)@.accounts[idx as int].unstaked_balance + old(self)@.total_staked_balance
                <= u128::MAX,
            current_period + NUM_EPOCHS_TO_UNLOCK <= u64::MAX,
        ensures
            wf(final(self)@),
            unstake_step(
                old(self)@,
                old(self)@.accounts[idx as int].account_id,
                amount as int,
                current_period as int,
            ) == Ok::<(PoolModel, int, int), PoolError>((final(self)@, r.0 as int, r.1 as int)),
    {
        let ghost m = old(self)@;
        let ghost caller = old(self)@.accounts[idx as int].account_id;
        proof {
            lemma_wf_positive(m);
            lemma_account_index_agrees(m.accounts, idx as int);
            lemma_unstake_conversion_bounds(
                amount as int,
                m.total_stake_shares,
                m.total_staked_balance,
            );
            crate::share_math::lemma_muldiv_ceil_le(
                m.total_stake_shares,
                amount as int,
                m.total_staked_balance,
            );
            assert forall|k: int| 0 <= k < m.accounts.len() implies (
            #[trigger] m.accounts[k]).stake_shares >= 0 by {
                assert(crate::model::account_wf(m.accounts[k]));
            }
            lemma_sum_shares_ge_elem(m.accounts, idx as int);
        }
        let num_shares = mul_div_ceil(self.total_stake_shares, amount, self.total_staked_balance);
        let receive = mul_div_ceil(self.total_staked_balance, num_shares, self.total_stake_shares);
        let unstake_amount = mul_div_floor(
            self.total_staked_balance,
            num_shares,
            self.total_stake_shares,
        );
        let account = &mut self.accounts[idx];
        account.stake_shares = account.stake_shares - num_shares;
        account.unstaked_balance = account.unstaked_balance + receive;
        account.stake_points = account.stake_points - 1;
        account.unstaked_available_epoch_height = current_period + NUM_EPOCHS_TO_UNLOCK;
        self.total_staked_balance = self.total_staked_balance - unstake_amount;
        self.total_stake_shares = self.total_stake_shares - num_shares;
        proof {
            let step = unstake_step(m, caller, amount as int, current_period as int);
            let acct2 = AccountModel {
                unstaked_balance: m.accounts[idx as int].unstaked_balance + receive,
                stake_shares: m.accounts[idx as int].stake_shares - num_shares,
                stake_points: m.accounts[idx as int].stake_points - 1,
                unstaked_available_epoch_height: current_period + NUM_EPOCHS_TO_UNLOCK,
                ..m.accounts[idx as int]
            };
            assert(self.accounts@.map_values(|a: StakingPoolAccount| a@) =~= m.accounts.update(
                idx as int,
                acct2,
            ));
            lemma_update_same_id(m.accounts, idx as int, acct2);
            assert(self@ =~= step->Ok_0.0);
            // Well-formedness of the new pool.
            lemma_sum_shares_update(m.accounts, idx as int, acct2);
            assert forall|j: int|
                0 <= j < self@.tickets_random_slots.len() implies has_account(
                self@.accounts,
                #[trigger] self@.tickets_random_slots[j],
            ) by {
                assert(has_account(m.accounts, m.tickets_random_slots[j]));
            }
            assert forall|i: int|
                0 <= i < self@.accounts.len() implies count_owned(
                self@.tickets_random_slots,
                (#[trigger] self@.accounts[i]).account_id,
            ) == self@.accounts[i].tickets_amount by {
                assert(self@.accounts[i].account_id == m.accounts[i].account_id);
                assert(self@.accounts[i].tickets_amount == m.accounts[i].tickets_amount);
                assert(count_owned(m.tickets_random_slots, m.accounts[i].account_id)
                    == m.accounts[i].tickets_amount);
            }
        }
        (receive, num_shares)
    }

    /// Commit burning tickets for `amount` of principal from the record at
    /// `idx`, consuming its multiplier. The live slot range is scanned in
    /// full and matching slots leave by swap-removal with the last slot.
    #[verifier::loop_isolation(false)]
    fn apply_remove_tickets(&mut self, idx: usize, amount: u128)
        requires
            wf(old(self)@),
            idx < old(self)@.accounts.len(),
            amount > 0,
            remove_tickets_step(
                old(self)@,
                old(self)@.accounts[idx as int].account_id,
                amount as int,
            ) is Ok,
            (amount as int) / (TICKET_UNIT_PRICE as int) * old(
                self,
            )@.accounts[idx as int].tickets_multiplier <= u64::MAX,
        ensures
            wf(final(self)@),
            remove_tickets_step(
                old(self)@,
                old(self)@.accounts[idx as int].account_id,
                amount as int,
            ) == Ok::<PoolModel, PoolError>(final(self)@),
    {
        let ghost m = old(self)@;
        let ghost caller = old(self)@.accounts[idx as int].account_id;
        let ghost t = (amount as int) / (TICKET_UNIT_PRICE as int) * old(
            self,
        )@.accounts[idx as int].tickets_multiplier;
        proof {
            lemma_account_index_agrees(m.accounts, idx as int);
            let mult = m.accounts[idx as int].tickets_multiplier;
            assert((amount as int) / (TICKET_UNIT_PRICE as int) * 1 <= t) by (nonlinear_arith)
                requires
                    1 <= mult,
                    0 <= (amount as int) / (TICKET_UNIT_PRICE as int),
                    t == (amount as int) / (TICKET_UNIT_PRICE as int) * mult,
            ;
        }
        let tickets_base = amount / TICKET_UNIT_PRICE;
        let tickets_num: u64 = (tickets_base as u64) * self.accounts[idx].tickets_multiplier;
        let account = &mut self.accounts[idx];
        account.tickets_amount = account.tickets_amount - tickets_num;
        account.tickets_multiplier = 1;
        let owner = self.accounts[idx].account_id.clone();
        let ghost acct2 = AccountModel {
            tickets_amount: m.accounts[idx as int].tickets_amount - t,
            tickets_multiplier: 1,
            ..m.accounts[idx as int]
        };
        let ghost mid = self@;
        proof {
            assert(mid.accounts =~= m.accounts.update(idx as int, acct2));
            assert(count_owned(m.tickets_random_slots, caller)
                == m.accounts[idx as int].tickets_amount);
        }
        let mut i: usize = 0;
        let mut to_remove: u64 = tickets_num;
        while i < self.tickets_random_slots.len() && to_remove > 0
            invariant
                self@ == (PoolModel { tickets_random_slots: self@.tickets_random_slots, ..mid }),
                i <= self@.tickets_random_slots.len(),
                to_remove > 0 ==> forall|jj: int|
                    0 <= jj < i ==> self@.tickets_random_slots[jj] != caller,
                to_remove as int <= count_owned(self@.tickets_random_slots, caller),
                remove_owned_from(
                    self@.tickets_random_slots,
                    caller,
                    to_remove as int,
                    i as int,
                ) == remove_owned_from(mid.tickets_random_slots, caller, t, 0),
            decreases self@.tickets_random_slots.len() - i,
        {
            let ghost before = self@.tickets_random_slots;
            if self.tickets_random_slots[i].eq(&owner) {
                proof {
                    crate::model_lemmas::lemma_count_owned_swap_remove(before, i as int, caller);
                }
                self.tickets_random_slots.swap_remove(i);
                to_remove = to_remove - 1;
                proof {
                    assert(self@.tickets_random_slots =~= crate::model::swap_remove_seq(
                        before,
                        i as int,
                    ));
                }
            } else {
                i = i + 1;
            }
        }
        proof {
            lemma_count_owned_bounds(m.tickets_random_slots, caller);
        }
        self.tickets_count = self.tickets_count - tickets_num;
        proof {
            assert(self@.tickets_random_slots == remove_owned_from(
                mid.tickets_random_slots,
                caller,
                t,
                0,
            ));
            crate::model_lemmas::lemma_remove_owned_from_props(
                mid.tickets_random_slots,
                caller,
                t,
                0,
            );
            let step = remove_tickets_step(m, caller, amount as int);
            assert(step is Ok);
            assert(self@ =~= step->Ok_0);
            // Well-formedness: identifiers, share sums and counts.
            lemma_update_same_id(m.accounts, idx as int, acct2);
            lemma_sum_shares_update(m.accounts, idx as int, acct2);
            assert forall|j: int|
                0 <= j < self@.tickets_random_slots.len() implies has_account(
                self@.accounts,
                #[trigger] self@.tickets_random_slots[j],
            ) by {
                assert(m.tickets_random_slots.contains(self@.tickets_random_slots[j]));
                let j0 = choose|j0: int|
                    0 <= j0 < m.tickets_random_slots.len() && m.tickets_random_slots[j0]
                        == self@.tickets_random_slots[j];
                assert(has_account(m.accounts, m.tickets_random_slots[j0]));
            }
            assert forall|i2: int|
                0 <= i2 < self@.accounts.len() implies count_owned(
                self@.tickets_random_slots,
                (#[trigger] self@.accounts[i2]).account_id,
            ) == self@.accounts[i2].tickets_amount by {
                assert(count_owned(m.tickets_random_slots, m.accounts[i2].account_id)
                    == m.accounts[i2].tickets_amount);
                if i2 != idx as int {
                    assert(m.accounts[i2].account_id != caller);
                }
            }
        }
    }

    /// Sell shares worth `amount` back to the pool, burning the matching
    /// tickets at the account's multiplier, after the once-per-period
    /// reward ingestion. The freed balance unlocks a fixed number of
    /// periods later. A rejected unstake leaves the pool untouched.
    pub fn unstake(
        &mut self,
        account_id: &String,
        amount: u128,
        current_period: u64,
        observed_total: u128,
        entropy: u64,
    ) -> (r: Result<PoolOutcome, PoolError>)
        requires
            wf(old(self)@),
            unstake_safe(
                old(self)@,
                account_id@,
                amount as int,
                current_period as int,
                observed_total as int,
            ),
        ensures
            wf(final(self)@),
            // The share price never decreases.
            final(self)@.total_staked_balance * old(self)@.total_stake_shares >= old(
                self,
            )@.total_staked_balance * final(self)@.total_stake_shares,
            match r {
                Ok(out) => unstake_flow(
                    old(self)@,
                    account_id@,
                    amount as int,
                    current_period as int,
                    observed_total as int,
                    entropy as int,
                ) == Ok::<(PoolModel, crate::model::OpEffect), PoolError>((final(self)@, out@)),
                Err(err) => *final(self) == *old(self) && unstake_flow(
                    old(self)@,
                    account_id@,
                    amount as int,
                    current_period as int,
                    observed_total as int,
                    entropy as int,
                ) == Err::<(PoolModel, crate::model::OpEffect), PoolError>(err),
            },
    {
        proof {
            lemma_wf_positive(old(self)@);
        }
        if self.last_epoch_height != current_period && observed_total < self.last_total_balance {
            return Err(PoolError::InvariantViolation);
        }
        let v1: u128 = if self.last_epoch_height != current_period {
            self.total_staked_balance + (observed_total - self.last_total_balance)
        } else {
            self.total_staked_balance
        };
        if amount == 0 {
            return Err(PoolError::ZeroAmount);
        }
        proof {
            lemma_unstake_conversion_bounds(amount as int, self@.total_stake_shares, v1 as int);
            crate::share_math::lemma_muldiv_ceil_le(
                self@.total_stake_shares,
                amount as int,
                v1 as int,
            );
        }
        let num_shares = mul_div_ceil(self.total_stake_shares, amount, v1);
        let idx: usize = match self.find_account(account_id) {
            Some(i) => i,
            None => {
                return Err(PoolError::InsufficientShares);
            },
        };
        proof {
            lemma_account_index_agrees(self@.accounts, idx as int);
        }
        if self.accounts[idx].stake_shares < num_shares {
            return Err(PoolError::InsufficientShares);
        }
        if self.accounts[idx].stake_points == 0 {
            return Err(PoolError::InvariantViolation);
        }
        let tickets_base = amount / TICKET_UNIT_PRICE;
        proof {
            let mult = self@.accounts[idx as int].tickets_multiplier;
            assert((amount as int) / (TICKET_UNIT_PRICE as int) * 1 <= (amount as int) / (
            TICKET_UNIT_PRICE as int) * mult) by (nonlinear_arith)
                requires
                    1 <= mult,
                    0 <= (amount as int) / (TICKET_UNIT_PRICE as int),
            ;
        }
        let tickets_num: u64 = (tickets_base as u64) * self.accounts[idx].tickets_multiplier;
        if self.accounts[idx].tickets_amount < tickets_num {
            proof {
                // The rejection the model's ticket burn produces: the share
                // sale would go through, the burn would not.
                let mp = ping_step(
                    old(self)@,
                    current_period as int,
                    observed_total as int,
                    entropy as int,
                )->Ok_0.0;
                let stepu = unstake_step(mp, account_id@, amount as int, current_period as int);
                assert(stepu is Ok);
                lemma_update_same_id(
                    mp.accounts,
                    idx as int,
                    stepu->Ok_0.0.accounts[idx as int],
                );
            }
            return Err(PoolError::InvariantViolation);
        }
        let ghost m0 = old(self)@;
        let (advanced, payout) = self.apply_ping(current_period, observed_total, entropy);
        let ghost m1 = self@;
        let (receive, num_shares2) = self.apply_unstake(idx, amount, current_period);
        let ghost m2 = self@;
        self.apply_remove_tickets(idx, amount);
        let restake = self.apply_restake();
        proof {
            // The price never decreases across the composition: the ping
            // only raises value, and the pool gives up no more value than
            // the burned shares were worth.
            crate::share_math::lemma_floor_times_le(
                m1.total_staked_balance * (num_shares2 as int),
                m1.total_stake_shares,
            );
            let v0 = m0.total_staked_balance;
            let s0 = m0.total_stake_shares;
            let v1g = m1.total_staked_balance;
            let v2 = m2.total_staked_balance;
            let s2 = m2.total_stake_shares;
            assert(v2 * s0 >= v0 * s2) by (nonlinear_arith)
                requires
                    s2 == s0 - num_shares2,
                    v2 == v1g - crate::share_math::amount_from_shares_down(
                        num_shares2 as int,
                        s0,
                        v1g,
                    ),
                    s0 * crate::share_math::amount_from_shares_down(num_shares2 as int, s0, v1g)
                        <= v1g * (num_shares2 as int),
                    v1g >= v0,
                    v0 >= 0,
                    s0 >= 0,
                    s2 >= 0,
                    num_shares2 >= 0,
            ;
        }
        Ok(
            PoolOutcome {
                charge: 0,
                receive: receive,
                num_shares: num_shares2,
                payout: payout,
                restake: restake,
            },
        )
    }

    /// Buy shares for `amount` of the caller's unstaked balance, minting
    /// tickets at the account's multiplier, after the once-per-period
    /// reward ingestion. A rejected stake leaves the pool untouched; in
    /// particular an amount below one share's worth of value buys nothing.
    pub fn stake(
        &mut self,
        account_id: &String,
        amount: u128,
        current_period: u64,
        observed_total: u128,
        entropy: u64,
    ) -> (r: Result<PoolOutcome, PoolError>)
        requires
            wf(old(self)@),
            stake_safe(
                old(self)@,
                account_id@,
                amount as int,
                current_period as int,
                observed_total as int,
            ),
        ensures
            wf(final(self)@),
            // The share price never decreases.
            final(self)@.total_staked_balance * old(self)@.total_stake_shares >= old(
                self,
            )@.total_staked_balance * final(self)@.total_stake_shares,
            match r {
                Ok(out) => stake_flow(
                    old(self)@,
                    account_id@,
                    amount as int,
                    current_period as int,
                    observed_total as int,
                    entropy as int,
                ) == Ok::<(PoolModel, crate::model::OpEffect), PoolError>((final(self)@, out@)),
                Err(err) => *final(self) == *old(self) && stake_flow(
                    old(self)@,
                    account_id@,
                    amount as int,
                    current_period as int,
                    observed_total as int,
                    entropy as int,
                ) == Err::<(PoolModel, crate::model::OpEffect), PoolError>(err),
            },
    {
        proof {
            lemma_wf_positive(old(self)@);
        }
        if self.last_epoch_height != current_period && observed_total < self.last_total_balance {
            return Err(PoolError::InvariantViolation);
        }
        let v1: u128 = if self.last_epoch_height != current_period {
            self.total_staked_balance + (observed_total - self.last_total_balance)
        } else {
            self.total_staked_balance
        };
        proof {
            lemma_stake_conversion_bounds(amount as int, self@.total_stake_shares, v1 as int);
        }
        if amount == 0 {
            return Err(PoolError::ZeroAmount);
        }
        let num_shares = mul_div_floor(self.total_stake_shares, amount, v1);
        if num_shares == 0 {
            return Err(PoolError::BelowShareGranularity);
        }
        let charge = mul_div_floor(v1, num_shares, self.total_stake_shares);
        let idx: usize = match self.find_account(account_id) {
            Some(i) => i,
            None => {
                return Err(PoolError::InsufficientBalance);
            },
        };
        proof {
            lemma_account_index_agrees(self@.accounts, idx as int);
        }
        if self.accounts[idx].unstaked_balance < charge {
            return Err(PoolError::InsufficientBalance);
        }
        let multiplier = self.accounts[idx].tickets_multiplier;
        let ghost m0 = old(self)@;
        let (advanced, payout) = self.apply_ping(current_period, observed_total, entropy);
        let ghost m1 = self@;
        let (charge2, num_shares2) = self.apply_stake(idx, amount);
        let ghost m2 = self@;
        self.apply_add_tickets(idx, amount, multiplier);
        let restake = self.apply_restake();
        proof {
            // The price never decreases across the composition: the ping
            // only raises value, and the staked credit covers the minted
            // shares.
            crate::share_math::lemma_ceil_times_ge(
                m1.total_staked_balance * (num_shares2 as int),
                m1.total_stake_shares,
            );
            let v0 = m0.total_staked_balance;
            let s0 = m0.total_stake_shares;
            let v1g = m1.total_staked_balance;
            let v2 = m2.total_staked_balance;
            let s2 = m2.total_stake_shares;
            assert(v2 * s0 >= v0 * s2) by (nonlinear_arith)
                requires
                    s2 == s0 + num_shares2,
                    v2 == v1g + crate::share_math::amount_from_shares_up(
                        num_shares2 as int,
                        s0,
                        v1g,
                    ),
                    s0 * crate::share_math::amount_from_shares_up(num_shares2 as int, s0, v1g)
                        >= v1g * (num_shares2 as int),
                    v1g >= v0,
                    v0 >= 0,
                    s0 >= 0,
                    num_shares2 >= 0,
            ;
        }
        Ok(
            PoolOutcome {
                charge: charge2,
                receive: 0,
                num_shares: num_shares2,
                payout: payout,
                restake: restake,
            },
        )
    }

    /// Commit crediting a deposit, creating the record on first contact.
    /// Returns the index of the caller's record.
    fn apply_deposit(&mut self, account_id: &String, amount: u128) -> (idx: usize)
        requires
            wf(old(self)@),
            account_or_fresh(old(self)@.accounts, account_id@).unstaked_balance + amount
                <= u128::MAX,
            old(self)@.last_total_balance + amount <= u128::MAX,
        ensures
            wf(final(self)@),
            final(self)@ == deposit_step(old(self)@, account_id@, amount as int),
            idx < final(self)@.accounts.len(),
            final(self)@.accounts[idx as int].account_id == account_id@,
    {
        let ghost m = old(self)@;
        let found = self.find_account(account_id);
        let idx: usize;
        match found {
            Some(i) => {
                proof {
                    lemma_account_index_agrees(m.accounts, i as int);
                }
                let account = &mut self.accounts[i];
                account.unstaked_balance = account.unstaked_balance + amount;
                idx = i;
                proof {
                    let acct2 = AccountModel {
                        unstaked_balance: m.accounts[i as int].unstaked_balance + amount,
                        ..m.accounts[i as int]
                    };
                    assert(self.accounts@.map_values(|a: StakingPoolAccount| a@)
                        =~= m.accounts.update(i as int, acct2));
                    lemma_update_same_id(m.accounts, i as int, acct2);
                    lemma_sum_shares_update(m.accounts, i as int, acct2);
                }
            },
            None => {
                let mut fresh = StakingPoolAccount::new(account_id.as_str());
                fresh.unstaked_balance = amount;
                idx = self.accounts.len();
                self.accounts.push(fresh);
                proof {
                    let acct2 = AccountModel {
                        unstaked_balance: amount as int,
                        ..fresh_account(account_id@)
                    };
                    assert(self.accounts@.map_values(|a: StakingPoolAccount| a@)
                        =~= m.accounts.push(acct2));
                    lemma_push_new_id(m.accounts, acct2);
                    lemma_sum_shares_push(m.accounts, acct2);
                    lemma_count_owned_zero(m.tickets_random_slots, account_id@);
                    assert forall|j: int|
                        0 <= j < m.tickets_random_slots.len() implies m.tickets_random_slots[j]
                        != account_id@ by {
                        assert(has_account(m.accounts, m.tickets_random_slots[j]));
                    }
                }
            },
        }
        self.last_total_balance = self.last_total_balance + amount;
        proof {
            assert(self@ =~= deposit_step(m, account_id@, amount as int));
            assert forall|j: int|
                0 <= j < self@.tickets_random_slots.len() implies has_account(
                self@.accounts,
                #[trigger] self@.tickets_random_slots[j],
            ) by {
                assert(has_account(m.accounts, m.tickets_random_slots[j]));
            }
            assert forall|i2: int|
                0 <= i2 < self@.accounts.len() implies count_owned(
                self@.tickets_random_slots,
                (#[trigger] self@.accounts[i2]).account_id,
            ) == self@.accounts[i2].tickets_amount by {
                if i2 < m.accounts.len() {
                    assert(count_owned(m.tickets_random_slots, m.accounts[i2].account_id)
                        == m.accounts[i2].tickets_amount);
                }
            }
        }
        idx
    }

    /// Credit an attached deposit to the caller's withdrawable balance,
    /// after the once-per-period reward ingestion. The observed-total
    /// snapshot grows with the deposit so the next ping does not mistake it
    /// for reward.
    pub fn deposit(
        &mut self,
        account_id: &String,
        amount: u128,
        current_period: u64,
        observed_total: u128,
        entropy: u64,
    ) -> (r: Result<PoolOutcome, PoolError>)
        requires
            wf(old(self)@),
            deposit_safe(
                old(self)@,
                account_id@,
                amount as int,
                current_period as int,
                observed_total as int,
            ),
        ensures
            wf(final(self)@),
            // The share price never decreases.
            final(self)@.total_staked_balance * old(self)@.total_stake_shares >= old(
                self,
            )@.total_staked_balance * final(self)@.total_stake_shares,
            match r {
                Ok(out) => crate::model::deposit_flow(
                    old(self)@,
                    account_id@,
                    amount as int,
                    current_period as int,
                    observed_total as int,
                    entropy as int,
                ) == Ok::<(PoolModel, crate::model::OpEffect), PoolError>((final(self)@, out@)),
                Err(err) => *final(self) == *old(self) && crate::model::deposit_flow(
                    old(self)@,
                    account_id@,
                    amount as int,
                    current_period as int,
                    observed_total as int,
                    entropy as int,
                ) == Err::<(PoolModel, crate::model::OpEffect), PoolError>(err),
            },
    {
        if self.last_epoch_height != current_period && observed_total < self.last_total_balance {
            return Err(PoolError::InvariantViolation);
        }
        let (advanced, payout) = self.apply_ping(current_period, observed_total, entropy);
        self.apply_deposit(account_id, amount);
        let restake: Option<u128> = if advanced {
            self.apply_restake()
        } else {
            None
        };
        proof {
            let v0 = old(self)@.total_staked_balance;
            let s0 = old(self)@.total_stake_shares;
            let v2 = self@.total_staked_balance;
            assert(v2 * s0 >= v0 * s0) by (nonlinear_arith)
                requires
                    v2 >= v0,
                    v0 >= 0,
                    s0 >= 0,
            ;
        }
        Ok(
            PoolOutcome {
                charge: 0,
                receive: 0,
                num_shares: 0,
                payout: payout,
                restake: restake,
            },
        )
    }

    /// Pay out the caller's whole unlocked unstaked balance. The returned
    /// amount is what the caller must transfer; the observed-total snapshot
    /// shrinks by it, the one legitimate way the external total may fall.
    pub fn withdraw_all(&mut self, account_id: &String, current_period: u64) -> (r: Result<
        u128,
        PoolError,
    >)
        requires
            wf(old(self)@),
            account_or_fresh(old(self)@.accounts, account_id@).unstaked_balance <= old(
                self,
            )@.last_total_balance,
        ensures
            wf(final(self)@),
            match r {
                Ok(amt) => crate::model::withdraw_all_step(
                    old(self)@,
                    account_id@,
                    current_period as int,
                ) == Ok::<(PoolModel, int), PoolError>((final(self)@, amt as int)),
                Err(err) => *final(self) == *old(self) && crate::model::withdraw_all_step(
                    old(self)@,
                    account_id@,
                    current_period as int,
                ) == Err::<(PoolModel, int), PoolError>(err),
            },
    {
        let ghost m = old(self)@;
        let idx: usize = match self.find_account(account_id) {
            Some(i) => i,
            None => {
                return Err(PoolError::NothingToWithdraw);
            },
        };
        proof {
            lemma_account_index_agrees(m.accounts, idx as int);
        }
        if self.accounts[idx].unstaked_available_epoch_height > current_period {
            return Err(PoolError::WithdrawalLocked);
        }
        if self.accounts[idx].unstaked_balance == 0 {
            return Err(PoolError::NothingToWithdraw);
        }
        let amt = self.accounts[idx].unstaked_balance;
        let account = &mut self.accounts[idx];
        account.unstaked_balance = 0;
        self.last_total_balance = self.last_total_balance - amt;
        proof {
            let acct2 = AccountModel { unstaked_balance: 0, ..m.accounts[idx as int] };
            assert(self.accounts@.map_values(|a: StakingPoolAccount| a@) =~= m.accounts.update(
                idx as int,
                acct2,
            ));
            lemma_update_same_id(m.accounts, idx as int, acct2);
            lemma_sum_shares_update(m.accounts, idx as int, acct2);
            assert(self@ =~= crate::model::withdraw_all_step(
                m,
                account_id@,
                current_period as int,
            )->Ok_0.0);
            assert forall|j: int|
                0 <= j < self@.tickets_random_slots.len() implies has_account(
                self@.accounts,
                #[trigger] self@.tickets_random_slots[j],
            ) by {
                assert(has_account(m.accounts, m.tickets_random_slots[j]));
            }
            assert forall|i2: int|
                0 <= i2 < self@.accounts.len() implies count_owned(
                self@.tickets_random_slots,
                (#[trigger] self@.accounts[i2]).account_id,
            ) == self@.accounts[i2].tickets_amount by {
                assert(count_owned(m.tickets_random_slots, m.accounts[i2].account_id)
                    == m.accounts[i2].tickets_amount);
            }
        }
        Ok(amt)
    }

    /// Deposit and immediately stake the whole attached amount: the
    /// deposit settles first, then the stake runs within the same period.
    /// Any rejection, of either half, leaves the pool untouched.
    #[verifier::rlimit(60)]
    pub fn deposit_and_stake(
        &mut self,
        account_id: &String,
        amount: u128,
        current_period: u64,
        observed_total: u128,
        entropy: u64,
    ) -> (r: Result<PoolOutcome, PoolError>)
        requires
            wf(old(self)@),
            deposit_safe(
                old(self)@,
                account_id@,
                amount as int,
                current_period as int,
                observed_total as int,
            ),
            stake_safe(
                old(self)@,
                account_id@,
                amount as int,
                current_period as int,
                observed_total as int,
            ),
        ensures
            wf(final(self)@),
            // The share price never decreases.
            final(self)@.total_staked_balance * old(self)@.total_stake_shares >= old(
                self,
            )@.total_staked_balance * final(self)@.total_stake_shares,
            match r {
                Ok(out) => crate::model::deposit_and_stake_flow(
                    old(self)@,
                    account_id@,
                    amount as int,
                    current_period as int,
                    observed_total as int,
                    entropy as int,
                ) == Ok::<(PoolModel, crate::model::OpEffect), PoolError>((final(self)@, out@)),
                Err(err) => *final(self) == *old(self) && crate::model::deposit_and_stake_flow(
                    old(self)@,
                    account_id@,
                    amount as int,
                    current_period as int,
                    observed_total as int,
                    entropy as int,
                ) == Err::<(PoolModel, crate::model::OpEffect), PoolError>(err),
            },
    {
        proof {
            lemma_wf_positive(old(self)@);
        }
        if self.last_epoch_height != current_period && observed_total < self.last_total_balance {
            return Err(PoolError::InvariantViolation);
        }
        let v1: u128 = if self.last_epoch_height != current_period {
            self.total_staked_balance + (observed_total - self.last_total_balance)
        } else {
            self.total_staked_balance
        };
        proof {
            lemma_stake_conversion_bounds(amount as int, self@.total_stake_shares, v1 as int);
        }
        if amount == 0 {
            return Err(PoolError::ZeroAmount);
        }
        let num_shares = mul_div_floor(self.total_stake_shares, amount, v1);
        if num_shares == 0 {
            return Err(PoolError::BelowShareGranularity);
        }
        let ghost m0 = old(self)@;
        let (advanced, payout) = self.apply_ping(current_period, observed_total, entropy);
        let idx = self.apply_deposit(account_id, amount);
        if advanced {
            let ghost pre = self@;
            let first_restake = self.apply_restake();
            proof {
                assert(restake_step(pre).0 == self@);
            }
        }
        let ghost m1 = self@;
        let (charge2, num_shares2) = self.apply_stake(idx, amount);
        let ghost m2 = self@;
        let multiplier = self.accounts[idx].tickets_multiplier;
        proof {
            assert(crate::model::account_wf(self@.accounts[idx as int]));
        }
        self.apply_add_tickets(idx, amount, multiplier);
        let restake = self.apply_restake();
        proof {
            crate::share_math::lemma_ceil_times_ge(
                m1.total_staked_balance * (num_shares2 as int),
                m1.total_stake_shares,
            );
            let v0 = m0.total_staked_balance;
            let s0 = m0.total_stake_shares;
            let v1g = m1.total_staked_balance;
            let v2 = m2.total_staked_balance;
            let s2 = m2.total_stake_shares;
            assert(v2 * s0 >= v0 * s2) by (nonlinear_arith)
                requires
                    s2 == s0 + num_shares2,
                    v2 == v1g + crate::share_math::amount_from_shares_up(
                        num_shares2 as int,
                        s0,
                        v1g,
                    ),
                    s0 * crate::share_math::amount_from_shares_up(num_shares2 as int, s0, v1g)
                        >= v1g * (num_shares2 as int),
                    v1g >= v0,
                    v0 >= 0,
                    s0 >= 0,
                    num_shares2 >= 0,
            ;
        }
        Ok(
            PoolOutcome {
                charge: charge2,
                receive: 0,
                num_shares: num_shares2,
                payout: payout,
                restake: restake,
            },
        )
    }

    /// Unstake the whole current value of the caller's shares, after the
    /// once-per-period reward ingestion. Dust below one share's value may
    /// remain.
    pub fn unstake_all(
        &mut self,
        account_id: &String,
        current_period: u64,
        observed_total: u128,
        entropy: u64,
    ) -> (r: Result<PoolOutcome, PoolError>)
        requires
            wf(old(self)@),
            crate::model::unstake_all_safe(
                old(self)@,
                account_id@,
                current_period as int,
                observed_total as int,
            ),
        ensures
            wf(final(self)@),
            // The share price never decreases.
            final(self)@.total_staked_balance * old(self)@.total_stake_shares >= old(
                self,
            )@.total_staked_balance * final(self)@.total_stake_shares,
            match r {
                Ok(out) => crate::model::unstake_all_flow(
                    old(self)@,
                    account_id@,
                    current_period as int,
                    observed_total as int,
                    entropy as int,
                ) == Ok::<(PoolModel, crate::model::OpEffect), PoolError>((final(self)@, out@)),
                Err(err) => *final(self) == *old(self) && crate::model::unstake_all_flow(
                    old(self)@,
                    account_id@,
                    current_period as int,
                    observed_total as int,
                    entropy as int,
                ) == Err::<(PoolModel, crate::model::OpEffect), PoolError>(err),
            },
    {
        proof {
            lemma_wf_positive(old(self)@);
        }
        if self.last_epoch_height != current_period && observed_total < self.last_total_balance {
            return Err(PoolError::InvariantViolation);
        }
        let v1: u128 = if self.last_epoch_height != current_period {
            self.total_staked_balance + (observed_total - self.last_total_balance)
        } else {
            self.total_staked_balance
        };
        let idx: usize = match self.find_account(account_id) {
            Some(i) => i,
            None => {
                proof {
                    let mstep = ping_step(
                        old(self)@,
                        current_period as int,
                        observed_total as int,
                        entropy as int,
                    );
                    assert(mstep is Ok);
                    let m1g = mstep->Ok_0.0;
                    assert(m1g.accounts == old(self)@.accounts);
                    assert(!has_account(m1g.accounts, account_id@));
                    assert(m1g.total_stake_shares == old(self)@.total_stake_shares);
                    vstd::arithmetic::div_mod::lemma_div_of0(m1g.total_stake_shares);
                    assert(account_or_fresh(m1g.accounts, account_id@).stake_shares == 0);
                    assert(derived_staked(m1g, account_id@) == 0);
                }
                return Err(PoolError::NothingStaked);
            },
        };
        proof {
            lemma_account_index_agrees(self@.accounts, idx as int);
            assert forall|k: int| 0 <= k < self@.accounts.len() implies (
            #[trigger] self@.accounts[k]).stake_shares >= 0 by {
                assert(crate::model::account_wf(self@.accounts[k]));
            }
            lemma_sum_shares_ge_elem(self@.accounts, idx as int);
            lemma_muldiv_le(self@.accounts[idx as int].stake_shares, v1 as int,
                self@.total_stake_shares);
            let sh = self@.accounts[idx as int].stake_shares;
            assert(sh * (v1 as int) == (v1 as int) * sh) by (nonlinear_arith);
        }
        let full = mul_div_floor(v1, self.accounts[idx].stake_shares, self.total_stake_shares);
        if full == 0 {
            return Err(PoolError::NothingStaked);
        }
        proof {
            lemma_unstake_conversion_bounds(full as int, self@.total_stake_shares, v1 as int);
            crate::share_math::lemma_muldiv_ceil_le(
                self@.total_stake_shares,
                full as int,
                v1 as int,
            );
        }
        let num_shares = mul_div_ceil(self.total_stake_shares, full, v1);
        if self.accounts[idx].stake_shares < num_shares {
            return Err(PoolError::InsufficientShares);
        }
        if self.accounts[idx].stake_points == 0 {
            return Err(PoolError::InvariantViolation);
        }
        let tickets_base = full / TICKET_UNIT_PRICE;
        proof {
            let mult = self@.accounts[idx as int].tickets_multiplier;
            assert((full as int) / (TICKET_UNIT_PRICE as int) * 1 <= (full as int) / (
            TICKET_UNIT_PRICE as int) * mult) by (nonlinear_arith)
                requires
                    1 <= mult,
                    0 <= (full as int) / (TICKET_UNIT_PRICE as int),
            ;
        }
        let tickets_num: u64 = (tickets_base as u64) * self.accounts[idx].tickets_multiplier;
        if self.accounts[idx].tickets_amount < tickets_num {
            proof {
                let mp = ping_step(
                    old(self)@,
                    current_period as int,
                    observed_total as int,
                    entropy as int,
                )->Ok_0.0;
                let stepu = unstake_step(mp, account_id@, full as int, current_period as int);
                assert(stepu is Ok);
                lemma_update_same_id(
                    mp.accounts,
                    idx as int,
                    stepu->Ok_0.0.accounts[idx as int],
                );
            }
            return Err(PoolError::InvariantViolation);
        }
        let ghost m0 = old(self)@;
        let (advanced, payout) = self.apply_ping(current_period, observed_total, entropy);
        let ghost m1 = self@;
        let (receive, num_shares2) = self.apply_unstake(idx, full, current_period);
        let ghost m2 = self@;
        self.apply_remove_tickets(idx, full);
        let restake = self.apply_restake();
        proof {
            crate::share_math::lemma_floor_times_le(
                m1.total_staked_balance * (num_shares2 as int),
                m1.total_stake_shares,
            );
            let v0 = m0.total_staked_balance;
            let s0 = m0.total_stake_shares;
            let v1g = m1.total_staked_balance;
            let v2 = m2.total_staked_balance;
            let s2 = m2.total_stake_shares;
            assert(v2 * s0 >= v0 * s2) by (nonlinear_arith)
                requires
                    s2 == s0 - num_shares2,
                    v2 == v1g - crate::share_math::amount_from_shares_down(
                        num_shares2 as int,
                        s0,
                        v1g,
                    ),
                    s0 * crate::share_math::amount_from_shares_down(num_shares2 as int, s0, v1g)
                        <= v1g * (num_shares2 as int),
                    v1g >= v0,
                    v0 >= 0,
                    s0 >= 0,
                    s2 >= 0,
                    num_shares2 >= 0,
            ;
        }
        Ok(
            PoolOutcome {
                charge: 0,
                receive: receive,
                num_shares: num_shares2,
                payout: payout,
                restake: restake,
            },
        )
    }

    /// The restake decision: unless suspended, the whole staked balance
    /// should be re-staked with the validator; the returned amount is the
    /// stake action the caller must issue, and the state machine moves to
    /// pending until its callback arrives.
    pub fn internal_restake(&mut self) -> (r: Option<u128>)
        requires
            wf(old(self)@),
        ensures
            wf(final(self)@),
            restake_step(old(self)@) == (final(self)@, restake_view(r)),
    {
        self.apply_restake()
    }

    /// The callback of the two-phase stake action, gated to the engine's
    /// own identity. A failed action with value still locked is answered
    /// with a compensating zero-amount stake action; everything else
    /// settles the state machine back to idle.
    pub fn on_stake_action(
        &mut self,
        caller_id: &String,
        engine_id: &String,
        stake_action_succeeded: bool,
        locked_balance: u128,
    ) -> (r: Result<Option<u128>, PoolError>)
        requires
            wf(old(self)@),
        ensures
            wf(final(self)@),
            match r {
                Ok(action) => crate::model::on_stake_action_step(
                    old(self)@,
                    caller_id@,
                    engine_id@,
                    stake_action_succeeded,
                    locked_balance as int,
                ) == Ok::<(PoolModel, Option<int>), PoolError>(
                    (final(self)@, restake_view(action)),
                ),
                Err(err) => *final(self) == *old(self) && crate::model::on_stake_action_step(
                    old(self)@,
                    caller_id@,
                    engine_id@,
                    stake_action_succeeded,
                    locked_balance as int,
                ) == Err::<(PoolModel, Option<int>), PoolError>(err),
            },
    {
        if !caller_id.eq(engine_id) {
            return Err(PoolError::CallbackUnauthorized);
        }
        if self.is_restake_paused {
            self.restake_state = RestakeState::Idle;
            proof {
                assert(self@ =~= (PoolModel { restake_state: RestakeModel::Idle, ..old(self)@ }));
            }
            return Ok(None);
        }
        if !stake_action_succeeded && locked_balance > 0 {
            self.restake_state = RestakeState::Pending { amount: 0 };
            proof {
                assert(self@ =~= (PoolModel {
                    restake_state: RestakeModel::Pending { amount: 0 },
                    ..old(self)@
                }));
            }
            return Ok(Some(0));
        }
        self.restake_state = RestakeState::Idle;
        proof {
            assert(self@ =~= (PoolModel { restake_state: RestakeModel::Idle, ..old(self)@ }));
        }
        Ok(None)
    }

    /// Confirmation of the reward-token transfer that buys the ticket
    /// bonus: on success the caller's multiplier becomes two, its whole
    /// currently staked value is matched with one extra set of tickets,
    /// and the token joins the held reserve. A failed transfer changes
    /// nothing; so does a rejected bonus.
    pub fn nft_transfer_callback(
        &mut self,
        account_id: &String,
        token_id: String,
        transfer_succeeded: bool,
    ) -> (r: Result<bool, PoolError>)
        requires
            wf(old(self)@),
            ({
                let t = derived_staked(old(self)@, account_id@) / (TICKET_UNIT_PRICE as int);
                &&& t <= u64::MAX
                &&& old(self)@.tickets_count + t <= u64::MAX
                &&& account_or_fresh(old(self)@.accounts, account_id@).tickets_amount + t
                    <= u64::MAX
            }),
        ensures
            wf(final(self)@),
            match r {
                Ok(granted) => crate::model::nft_callback_step(
                    old(self)@,
                    account_id@,
                    token_id@,
                    transfer_succeeded,
                ) == Ok::<(PoolModel, bool), PoolError>((final(self)@, granted)),
                Err(err) => *final(self) == *old(self) && crate::model::nft_callback_step(
                    old(self)@,
                    account_id@,
                    token_id@,
                    transfer_succeeded,
                ) == Err::<(PoolModel, bool), PoolError>(err),
            },
    {
        if !transfer_succeeded {
            return Ok(false);
        }
        proof {
            lemma_wf_positive(old(self)@);
        }
        let idx: usize = match self.find_account(account_id) {
            Some(i) => i,
            None => {
                proof {
                    vstd::arithmetic::div_mod::lemma_div_of0(self@.total_stake_shares);
                }
                return Err(PoolError::ZeroAmount);
            },
        };
        proof {
            lemma_account_index_agrees(self@.accounts, idx as int);
            assert forall|k: int| 0 <= k < self@.accounts.len() implies (
            #[trigger] self@.accounts[k]).stake_shares >= 0 by {
                assert(crate::model::account_wf(self@.accounts[k]));
            }
            lemma_sum_shares_ge_elem(self@.accounts, idx as int);
            lemma_muldiv_le(
                self@.accounts[idx as int].stake_shares,
                self@.total_staked_balance,
                self@.total_stake_shares,
            );
            let sh = self@.accounts[idx as int].stake_shares;
            assert(sh * self@.total_staked_balance == self@.total_staked_balance * sh)
                by (nonlinear_arith);
        }
        let staked_amount = mul_div_floor(
            self.total_staked_balance,
            self.accounts[idx].stake_shares,
            self.total_stake_shares,
        );
        if staked_amount == 0 {
            return Err(PoolError::ZeroAmount);
        }
        let ghost m = old(self)@;
        let account = &mut self.accounts[idx];
        account.tickets_multiplier = 2;
        proof {
            let acct2 = AccountModel { tickets_multiplier: 2, ..m.accounts[idx as int] };
            assert(self.accounts@.map_values(|a: StakingPoolAccount| a@) =~= m.accounts.update(
                idx as int,
                acct2,
            ));
            lemma_update_same_id(m.accounts, idx as int, acct2);
            lemma_sum_shares_update(m.accounts, idx as int, acct2);
            assert forall|j: int|
                0 <= j < self@.tickets_random_slots.len() implies has_account(
                self@.accounts,
                #[trigger] self@.tickets_random_slots[j],
            ) by {
                assert(has_account(m.accounts, m.tickets_random_slots[j]));
            }
            assert forall|i2: int|
                0 <= i2 < self@.accounts.len() implies count_owned(
                self@.tickets_random_slots,
                (#[trigger] self@.accounts[i2]).account_id,
            ) == self@.accounts[i2].tickets_amount by {
                assert(count_owned(m.tickets_random_slots, m.accounts[i2].account_id)
                    == m.accounts[i2].tickets_amount);
            }
            assert(self@ =~= (PoolModel {
                accounts: store_account(m.accounts, acct2),
                ..m
            }));
        }
        self.apply_add_tickets(idx, staked_amount, 1);
        self.nft_hold.push(token_id);
        proof {
            let step = crate::model::nft_callback_step(m, account_id@, token_id@, true);
            assert(step is Ok);
            assert(self@.nft_hold =~= step->Ok_0.0.nft_hold);
            assert(self@ =~= step->Ok_0.0);
        }
        Ok(true)
    }

    /// Hand out a held reward token for ten accumulated stake points; the
    /// caller must transfer the returned token and the counter starts over.
    pub fn claim_reward_nft(&mut self, account_id: &String) -> (r: Result<String, PoolError>)
        requires
            wf(old(self)@),
        ensures
            wf(final(self)@),
            match r {
                Ok(token) => crate::model::claim_reward_step(old(self)@, account_id@)
                    == Ok::<(PoolModel, Seq<char>), PoolError>((final(self)@, token@)),
                Err(err) => *final(self) == *old(self) && crate::model::claim_reward_step(
                    old(self)@,
                    account_id@,
                ) == Err::<(PoolModel, Seq<char>), PoolError>(err),
            },
    {
        let ghost m = old(self)@;
        let idx: usize = match self.find_account(account_id) {
            Some(i) => i,
            None => {
                return Err(PoolError::InsufficientStakePoints);
            },
        };
        proof {
            lemma_account_index_agrees(m.accounts, idx as int);
        }
        if self.accounts[idx].stake_points < crate::model::REWARD_CLAIM_STAKE_POINTS {
            return Err(PoolError::InsufficientStakePoints);
        }
        if self.nft_hold.len() == 0 {
            return Err(PoolError::NoRewardAvailable);
        }
        let token: String = match self.nft_hold.pop() {
            Some(t) => t,
            None => {
                proof {
                    assert(false);
                }
                return Err(PoolError::NoRewardAvailable);
            },
        };
        let account = &mut self.accounts[idx];
        account.stake_points = 0;
        proof {
            let acct2 = AccountModel { stake_points: 0, ..m.accounts[idx as int] };
            assert(self.accounts@.map_values(|a: StakingPoolAccount| a@) =~= m.accounts.update(
                idx as int,
                acct2,
            ));
            lemma_update_same_id(m.accounts, idx as int, acct2);
            lemma_sum_shares_update(m.accounts, idx as int, acct2);
            assert(self@.nft_hold =~= m.nft_hold.drop_last());
            assert(self@ =~= crate::model::claim_reward_step(m, account_id@)->Ok_0.0);
            assert forall|j: int|
                0 <= j < self@.tickets_random_slots.len() implies has_account(
                self@.accounts,
                #[trigger] self@.tickets_random_slots[j],
            ) by {
                assert(has_account(m.accounts, m.tickets_random_slots[j]));
            }
            assert forall|i2: int|
                0 <= i2 < self@.accounts.len() implies count_owned(
                self@.tickets_random_slots,
                (#[trigger] self@.accounts[i2]).account_id,
            ) == self@.accounts[i2].tickets_amount by {
                assert(count_owned(m.tickets_random_slots, m.accounts[i2].account_id)
                    == m.accounts[i2].tickets_amount);
            }
        }
        Ok(token)
    }

    /// Distribute rewards once per period, run a due drawing, and decide
    /// the restake that follows a period advance. Idempotent within one
    /// period: the second call changes nothing.
    pub fn ping(&mut self, current_period: u64, observed_total: u128, entropy: u64) -> (r: Result<
        PoolOutcome,
        PoolError,
    >)
        requires
            wf(old(self)@),
            ping_safe(old(self)@, current_period as int, observed_total as int),
        ensures
            wf(final(self)@),
            // The share price never decreases.
            final(self)@.total_staked_balance * old(self)@.total_stake_shares >= old(
                self,
            )@.total_staked_balance * final(self)@.total_stake_shares,
            match r {
                Ok(out) => ping_flow(
                    old(self)@,
                    current_period as int,
                    observed_total as int,
                    entropy as int,
                ) == Ok::<(PoolModel, crate::model::OpEffect), PoolError>((final(self)@, out@)),
                Err(err) => *final(self) == *old(self) && ping_flow(
                    old(self)@,
                    current_period as int,
                    observed_total as int,
                    entropy as int,
                ) == Err::<(PoolModel, crate::model::OpEffect), PoolError>(err),
            },
    {
        if self.last_epoch_height != current_period && observed_total < self.last_total_balance {
            return Err(PoolError::InvariantViolation);
        }
        let (advanced, payout) = self.apply_ping(current_period, observed_total, entropy);
        let restake: Option<u128> = if advanced {
            self.apply_restake()
        } else {
            None
        };
        proof {
            let v1 = old(self)@.total_staked_balance;
            let s1 = old(self)@.total_stake_shares;
            let v2 = self@.total_staked_balance;
            let s2 = self@.total_stake_shares;
            assert(v2 * s1 >= v1 * s2) by (nonlinear_arith)
                requires
                    v2 >= v1,
                    s2 == s1,
                    v1 >= 0,
                    s1 >= 0,
            ;
        }
        Ok(
            PoolOutcome {
                charge: 0,
                receive: 0,
                num_shares: 0,
                payout: payout,
                restake: restake,
            },
        )
    }
}

} // verus!
