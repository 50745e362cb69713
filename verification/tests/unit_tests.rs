//! Exact-value checks of the share arithmetic, the error taxonomy, and the
//! smaller guarantees: ping idempotence, the stake/unstake round trip, the
//! granularity boundary, and the ticket multiplier life cycle.

use cherry_pool::{PoolError, StakingPool};

const FUND: u128 = 1_000_000_000_000;
const ENTROPY: u64 = 7;

fn ntoy(near: u128) -> u128 {
    near * 10u128.pow(24)
}

fn bob() -> String {
    "bob".to_string()
}

fn staking() -> String {
    "staking".to_string()
}

/// A pool whose share price is exactly one: 100 value units backing 100
/// shares, none of them owned by any record.
fn unit_pool() -> StakingPool {
    StakingPool::new("owner".to_string(), FUND + 100, 0)
}

/// A pool whose share price is exactly two: a reward delta of 100 observed
/// at the next period doubles the value behind the same 100 shares.
fn skewed_pool() -> StakingPool {
    let mut pool = unit_pool();
    let observed = pool.last_total_balance + 100;
    pool.ping(1, observed, ENTROPY).unwrap();
    assert_eq!(pool.total_staked_balance, 200);
    assert_eq!(pool.total_stake_shares, 100);
    pool
}

#[test]
fn conversions_round_in_the_pools_favor() {
    let mut pool = unit_pool();
    let observed = pool.last_total_balance + 150;
    pool.ping(1, observed, ENTROPY).unwrap();
    // 100 shares backed by 250 value units.
    assert_eq!(pool.num_shares_from_staked_amount_rounded_down(30), Ok(12));
    assert_eq!(pool.num_shares_from_staked_amount_rounded_up(30), Ok(12));
    assert_eq!(pool.num_shares_from_staked_amount_rounded_down(31), Ok(12));
    assert_eq!(pool.num_shares_from_staked_amount_rounded_up(31), Ok(13));
    assert_eq!(pool.staked_amount_from_num_shares_rounded_down(33), Ok(82));
    assert_eq!(pool.staked_amount_from_num_shares_rounded_up(33), Ok(83));
    assert_eq!(pool.staked_amount_from_num_shares_rounded_down(40), Ok(100));
    assert_eq!(pool.staked_amount_from_num_shares_rounded_up(40), Ok(100));
}

#[test]
fn conversions_reject_an_empty_pool() {
    let mut pool = unit_pool();
    pool.total_staked_balance = 0;
    pool.total_stake_shares = 0;
    assert_eq!(
        pool.num_shares_from_staked_amount_rounded_down(5),
        Err(PoolError::DivisionByZero)
    );
    assert_eq!(
        pool.num_shares_from_staked_amount_rounded_up(5),
        Err(PoolError::DivisionByZero)
    );
    assert_eq!(
        pool.staked_amount_from_num_shares_rounded_down(5),
        Err(PoolError::DivisionByZero)
    );
    assert_eq!(
        pool.staked_amount_from_num_shares_rounded_up(5),
        Err(PoolError::DivisionByZero)
    );
}

#[test]
fn wide_conversions_are_exact() {
    // The conversion survives products far beyond 128 bits: with all 2^127
    // shares backed by value 2^127 + 1, converting 2^126 shares down costs
    // floor((2^127 + 1) * 2^126 / 2^127) = 2^126 value units.
    let mut pool = unit_pool();
    pool.total_stake_shares = 1u128 << 127;
    pool.total_staked_balance = (1u128 << 127) + 1;
    assert_eq!(
        pool.staked_amount_from_num_shares_rounded_down(1u128 << 126),
        Ok(1u128 << 126)
    );
    assert_eq!(
        pool.staked_amount_from_num_shares_rounded_up(1u128 << 126),
        Ok((1u128 << 126) + 1)
    );
}

#[test]
fn ping_rejects_a_shrunken_total() {
    let mut pool = unit_pool();
    let last = pool.last_total_balance;
    assert_eq!(
        pool.ping(1, last - 1, ENTROPY).err(),
        Some(PoolError::InvariantViolation)
    );
    // Nothing moved.
    assert_eq!(pool.last_total_balance, last);
    assert_eq!(pool.last_epoch_height, 0);
}

#[test]
fn ping_is_idempotent_within_a_period() {
    let mut pool = unit_pool();
    let observed = pool.last_total_balance + 40;
    let first = pool.ping(3, observed, ENTROPY).unwrap();
    assert!(first.restake.is_some());
    assert_eq!(pool.total_staked_balance, 140);
    assert_eq!(pool.total_reward, 40);
    assert_eq!(pool.last_epoch_height, 3);
    let snapshot = (
        pool.total_staked_balance,
        pool.total_stake_shares,
        pool.total_reward,
        pool.last_total_balance,
        pool.last_epoch_height,
        pool.next_prize_event_epoch_height,
        pool.tickets_count,
    );
    // A second ping in the same period is a no-op, whatever it observes.
    let second = pool.ping(3, observed + 999, 99).unwrap();
    assert!(second.restake.is_none());
    assert!(second.payout.is_none());
    let after = (
        pool.total_staked_balance,
        pool.total_stake_shares,
        pool.total_reward,
        pool.last_total_balance,
        pool.last_epoch_height,
        pool.next_prize_event_epoch_height,
        pool.tickets_count,
    );
    assert_eq!(snapshot, after);
}

#[test]
fn stake_rejects_zero_and_uncovered_amounts() {
    let mut pool = unit_pool();
    let observed = pool.last_total_balance;
    assert_eq!(
        pool.stake(&bob(), 0, 0, observed, ENTROPY).err(),
        Some(PoolError::ZeroAmount)
    );
    pool.deposit(&bob(), 50, 0, observed, ENTROPY).unwrap();
    assert_eq!(
        pool.stake(&bob(), 80, 0, pool.last_total_balance, ENTROPY).err(),
        Some(PoolError::InsufficientBalance)
    );
    // A caller the pool has never seen cannot stake either.
    assert_eq!(
        pool.stake(&"carol".to_string(), 10, 0, pool.last_total_balance, ENTROPY)
            .err(),
        Some(PoolError::InsufficientBalance)
    );
}

#[test]
fn staking_below_share_granularity_changes_nothing() {
    let mut pool = skewed_pool();
    let observed = pool.last_total_balance;
    pool.deposit(&bob(), 10, 1, observed, ENTROPY).unwrap();
    let unstaked_before = pool.get_account_unstaked_balance(&bob(), 1);
    let value_before = pool.total_staked_balance;
    let shares_before = pool.total_stake_shares;
    // One value unit buys less than one share at a price of two.
    assert_eq!(
        pool.stake(&bob(), 1, 1, pool.last_total_balance, ENTROPY).err(),
        Some(PoolError::BelowShareGranularity)
    );
    assert_eq!(pool.get_account_unstaked_balance(&bob(), 1), unstaked_before);
    assert_eq!(pool.total_staked_balance, value_before);
    assert_eq!(pool.total_stake_shares, shares_before);
    assert_eq!(pool.get_account_tickets_amount(&bob(), 1), 0);
}

#[test]
fn stake_charges_at_most_the_amount() {
    let mut pool = skewed_pool();
    let observed = pool.last_total_balance;
    pool.deposit(&bob(), 101, 1, observed, ENTROPY).unwrap();
    let outcome = pool
        .stake(&bob(), 75, 1, pool.last_total_balance, ENTROPY)
        .unwrap();
    // At a price of two, 75 value units buy 37 whole shares, charged at
    // their down-rounded value.
    assert_eq!(outcome.num_shares, 37);
    assert_eq!(outcome.charge, 74);
    assert_eq!(pool.get_account_unstaked_balance(&bob(), 1), 101 - 74);
    assert_eq!(pool.total_stake_shares, 137);
    // The pool was credited the up-rounded value of the same shares.
    assert_eq!(pool.total_staked_balance, 200 + 74);
}

#[test]
fn stake_then_unstake_full_value_returns_at_most_the_stake() {
    let mut pool = skewed_pool();
    let observed = pool.last_total_balance;
    pool.deposit(&bob(), 101, 1, observed, ENTROPY).unwrap();
    let staked_amount: u128 = 75;
    pool.stake(&bob(), staked_amount, 1, pool.last_total_balance, ENTROPY)
        .unwrap();
    let full_value = pool.get_account_staked_balance(&bob(), 1);
    assert!(full_value > 0);
    let outcome = pool
        .unstake(&bob(), full_value, 1, pool.last_total_balance, ENTROPY)
        .unwrap();
    assert!(outcome.receive <= staked_amount);
}

#[test]
fn unstake_rejects_what_the_caller_does_not_hold() {
    let mut pool = unit_pool();
    let observed = pool.last_total_balance;
    assert_eq!(
        pool.unstake(&bob(), 10, 0, observed, ENTROPY).err(),
        Some(PoolError::InsufficientShares)
    );
    assert_eq!(
        pool.unstake(&bob(), 0, 0, observed, ENTROPY).err(),
        Some(PoolError::ZeroAmount)
    );
}

#[test]
fn withdrawal_respects_the_unlock_period() {
    let mut pool = unit_pool();
    let observed = pool.last_total_balance;
    assert_eq!(
        pool.withdraw_all(&bob(), 0),
        Err(PoolError::NothingToWithdraw)
    );
    pool.deposit(&bob(), 100, 0, observed, ENTROPY).unwrap();
    pool.stake(&bob(), 100, 0, pool.last_total_balance, ENTROPY)
        .unwrap();
    pool.unstake(&bob(), 40, 0, pool.last_total_balance, ENTROPY)
        .unwrap();
    // The freed balance stays locked for four periods.
    assert_eq!(pool.withdraw_all(&bob(), 3), Err(PoolError::WithdrawalLocked));
    let last_before = pool.last_total_balance;
    let amount = pool.withdraw_all(&bob(), 4).unwrap();
    assert_eq!(amount, 40);
    assert_eq!(pool.get_account_unstaked_balance(&bob(), 4), 0);
    // The snapshot shrinks by the withdrawal, so the next ping sees no
    // phantom loss.
    assert_eq!(pool.last_total_balance, last_before - amount);
}

#[test]
fn unstake_all_empties_the_stake_at_unit_price() {
    let mut pool = unit_pool();
    let observed = pool.last_total_balance;
    pool.deposit(&bob(), 100, 0, observed, ENTROPY).unwrap();
    pool.stake(&bob(), 100, 0, pool.last_total_balance, ENTROPY)
        .unwrap();
    assert_eq!(pool.get_account_staked_balance(&bob(), 0), 100);
    let outcome = pool
        .unstake_all(&bob(), 0, pool.last_total_balance, ENTROPY)
        .unwrap();
    assert_eq!(outcome.receive, 100);
    assert_eq!(pool.get_account_staked_balance(&bob(), 0), 0);
    assert_eq!(pool.get_account_unstaked_balance(&bob(), 0), 100);
    // With nothing staked, another unstake-all is rejected.
    assert_eq!(
        pool.unstake_all(&bob(), 0, pool.last_total_balance, ENTROPY).err(),
        Some(PoolError::NothingStaked)
    );
}

#[test]
fn deposit_and_stake_composes_both_halves() {
    let mut pool = unit_pool();
    let observed = pool.last_total_balance;
    let outcome = pool
        .deposit_and_stake(&bob(), 60, 0, observed, ENTROPY)
        .unwrap();
    assert_eq!(outcome.num_shares, 60);
    assert_eq!(pool.get_account_staked_balance(&bob(), 0), 60);
    assert_eq!(pool.get_account_unstaked_balance(&bob(), 0), 0);
}

#[test]
fn drawing_is_gated_and_needs_tickets() {
    let pool = unit_pool();
    assert_eq!(pool.get_prize_winner(13), Err(PoolError::DrawingNotDue));
    assert_eq!(pool.get_prize_winner(14), Err(PoolError::EmptyPool));
    let mut pool = unit_pool();
    assert_eq!(
        pool.transfer_prize_to_winner(bob(), 13).err(),
        Some(PoolError::DrawingNotDue)
    );
}

#[test]
fn callback_is_gated_to_the_engine() {
    let mut pool = unit_pool();
    assert_eq!(
        pool.on_stake_action(&bob(), &staking(), true, 0),
        Err(PoolError::CallbackUnauthorized)
    );
    assert_eq!(pool.on_stake_action(&staking(), &staking(), true, 5), Ok(None));
    assert_eq!(
        pool.on_stake_action(&staking(), &staking(), false, 5),
        Ok(Some(0))
    );
    assert_eq!(pool.on_stake_action(&staking(), &staking(), false, 0), Ok(None));
}

#[test]
fn ticket_multiplier_is_single_use() {
    let mut pool = StakingPool::new("owner".to_string(), FUND + ntoy(30), 0);
    let observed = pool.last_total_balance;
    pool.deposit(&bob(), ntoy(100), 0, observed, ENTROPY).unwrap();
    pool.stake(&bob(), ntoy(100), 0, pool.last_total_balance, ENTROPY)
        .unwrap();
    // Staking 100 units at a ticket unit price of 10 mints 10 tickets.
    assert_eq!(pool.get_account_tickets_amount(&bob(), 0), 10);
    // The reward-token bonus doubles the current holding and arms the
    // multiplier.
    let granted = pool
        .nft_transfer_callback(&bob(), "token-red".to_string(), true)
        .unwrap();
    assert!(granted);
    assert_eq!(pool.get_account_tickets_amount(&bob(), 0), 20);
    assert_eq!(pool.get_account(&bob(), 0).tickets_multiplier, 2);
    // Unstaking 50 units burns tickets at the armed multiplier, which is
    // consumed by the event.
    pool.unstake(&bob(), ntoy(50), 0, pool.last_total_balance, ENTROPY)
        .unwrap();
    assert_eq!(pool.get_account_tickets_amount(&bob(), 0), 10);
    assert_eq!(pool.get_account(&bob(), 0).tickets_multiplier, 1);
    assert_eq!(pool.tickets_count, 10);
}

#[test]
fn failed_token_transfer_grants_nothing() {
    let mut pool = unit_pool();
    let granted = pool
        .nft_transfer_callback(&bob(), "token-red".to_string(), false)
        .unwrap();
    assert!(!granted);
    assert_eq!(pool.get_account_tickets_amount(&bob(), 0), 0);
}

#[test]
fn reward_claim_needs_points_and_a_held_token() {
    let mut pool = unit_pool();
    let observed = pool.last_total_balance;
    assert_eq!(
        pool.claim_reward_nft(&bob()),
        Err(PoolError::InsufficientStakePoints)
    );
    pool.deposit(&bob(), 100, 0, observed, ENTROPY).unwrap();
    let mut staked: u32 = 0;
    while staked < 10 {
        pool.stake(&bob(), 10, 0, pool.last_total_balance, ENTROPY)
            .unwrap();
        staked += 1;
    }
    assert_eq!(pool.get_account(&bob(), 0).stake_points, 10);
    assert_eq!(pool.claim_reward_nft(&bob()), Err(PoolError::NoRewardAvailable));
    // A confirmed token transfer leaves a token to hand out.
    pool.nft_transfer_callback(&bob(), "token-red".to_string(), true)
        .unwrap();
    assert_eq!(pool.claim_reward_nft(&bob()), Ok("token-red".to_string()));
    assert_eq!(pool.get_account(&bob(), 0).stake_points, 0);
}

#[test]
fn random_draw_stays_in_range() {
    let pool = unit_pool();
    let mut round: u32 = 0;
    while round < 32 {
        let r = pool.random_u64(5, 10);
        assert!(5 <= r && r < 10);
        assert_eq!(pool.random_u64(3, 4), 3);
        round += 1;
    }
}

#[test]
fn update_account_is_inert() {
    let mut pool = unit_pool();
    let observed = pool.last_total_balance;
    pool.deposit(&bob(), 50, 0, observed, ENTROPY).unwrap();
    let mut account = pool.get_account(&bob(), 0);
    account.unstaked_balance = 999;
    pool.update_account(account);
    assert_eq!(pool.get_account_unstaked_balance(&bob(), 0), 50);
}
