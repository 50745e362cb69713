//! The global guarantees of the accounting engine, stated and proved over
//! the model transitions: the share price never decreases across any
//! sequence of share operations, rounding never favors the depositor, a
//! ping is idempotent within its period, and a drawing among the slots of a
//! single holder can only select that holder.

use crate::errors::PoolError;
use crate::model::{
    account_index, account_or_fresh, count_owned, distinct_ids, has_account, ping_step,
    stake_step, sum_shares, unstake_step, wf, AccountModel, PingEffect, PoolModel,
};
use crate::model_lemmas::{
    lemma_account_index_agrees, lemma_count_owned_full, lemma_sum_shares_ge_elem,
    lemma_sum_shares_nonneg, lemma_sum_shares_update, lemma_update_same_id,
};
use crate::share_math::{
    amount_from_shares_down, amount_from_shares_up, lemma_ceil_structure, lemma_ceil_times_ge,
    lemma_floor_times_le, lemma_stake_conversion_bounds, lemma_unstake_conversion_bounds,
    shares_from_amount_down, shares_from_amount_up,
};
use vstd::arithmetic::div_mod::{
    lemma_div_is_ordered, lemma_div_multiples_vanish, lemma_mod_multiples_basic,
};
use vstd::prelude::*;

verus! {

/// One share operation, as a value: what a depositor may do to the share
/// accounting.
pub enum PoolOp {
    Stake { caller: Seq<char>, amount: int },
    Unstake { caller: Seq<char>, amount: int, period: int },
}

/// The share-accounting soundness that the price guarantee rests on; the
/// share-relevant part of [`wf`], free of machine ranges so it closes
/// under arbitrarily long operation sequences.
pub open spec fn accounting_ok(m: PoolModel) -> bool {
    &&& m.total_stake_shares <= m.total_staked_balance
    &&& sum_shares(m.accounts) < m.total_stake_shares
    &&& distinct_ids(m.accounts)
    &&& forall|i: int|
        0 <= i < m.accounts.len() ==> (#[trigger] m.accounts[i]).stake_shares >= 0
            && m.accounts[i].unstaked_balance >= 0 && m.accounts[i].stake_points >= 0
}

/// A well-formed pool is accounting-sound.
pub proof fn lemma_wf_accounting_ok(m: PoolModel)
    requires
        wf(m),
    ensures
        accounting_ok(m),
{
    assert forall|i: int|
        0 <= i < m.accounts.len() implies (#[trigger] m.accounts[i]).stake_shares >= 0
            && m.accounts[i].unstaked_balance >= 0 && m.accounts[i].stake_points >= 0 by {
        assert(crate::model::account_wf(m.accounts[i]));
    }
}

/// The state after one share operation; a rejected operation changes
/// nothing.
pub open spec fn apply_op(m: PoolModel, op: PoolOp) -> PoolModel {
    match op {
        PoolOp::Stake { caller, amount } => match stake_step(m, caller, amount) {
            Ok((m2, charge, num_shares)) => m2,
            Err(e) => m,
        },
        PoolOp::Unstake { caller, amount, period } => match unstake_step(
            m,
            caller,
            amount,
            period,
        ) {
            Ok((m2, receive, num_shares)) => m2,
            Err(e) => m,
        },
    }
}

/// The state after a whole sequence of share operations.
pub open spec fn apply_ops(m: PoolModel, ops: Seq<PoolOp>) -> PoolModel
    decreases ops.len(),
{
    if ops.len() == 0 {
        m
    } else {
        apply_ops(apply_op(m, ops[0]), ops.subrange(1, ops.len() as int))
    }
}

/// One accepted stake keeps the accounting sound and cannot lower the
/// share price.
proof fn lemma_stake_op_sound(m: PoolModel, caller: Seq<char>, amount: int)
    requires
        accounting_ok(m),
    ensures
        accounting_ok(apply_op(m, PoolOp::Stake { caller, amount })),
        apply_op(m, PoolOp::Stake { caller, amount }).total_staked_balance * m.total_stake_shares
            >= m.total_staked_balance * apply_op(
            m,
            PoolOp::Stake { caller, amount },
        ).total_stake_shares,
{
    lemma_sum_shares_nonneg(m.accounts);
    let step = stake_step(m, caller, amount);
    if step is Ok {
        let v = m.total_staked_balance;
        let s = m.total_stake_shares;
        let n = shares_from_amount_down(amount, s, v);
        let up = amount_from_shares_up(n, s, v);
        lemma_stake_conversion_bounds(amount, s, v);
        let acct = account_or_fresh(m.accounts, caller);
        let acct2 = AccountModel {
            unstaked_balance: acct.unstaked_balance - amount_from_shares_down(n, s, v),
            stake_shares: acct.stake_shares + n,
            stake_points: acct.stake_points + 1,
            ..acct
        };
        // The record exists: a fresh record could not cover the charge.
        assert(has_account(m.accounts, caller));
        let i = account_index(m.accounts, caller);
        lemma_update_same_id(m.accounts, i, acct2);
        lemma_sum_shares_update(m.accounts, i, acct2);
        // The price cannot fall: the pool is credited at least the value
        // of the minted shares.
        lemma_ceil_times_ge(v * n, s);
        let m2 = step->Ok_0.0;
        assert(m2.total_staked_balance * s >= v * m2.total_stake_shares) by (nonlinear_arith)
            requires
                m2.total_stake_shares == s + n,
                m2.total_staked_balance == v + up,
                s * up >= v * n,
                v >= 0,
                s >= 0,
                n >= 0,
        ;
    }
}

/// One accepted unstake keeps the accounting sound and cannot lower the
/// share price.
proof fn lemma_unstake_op_sound(m: PoolModel, caller: Seq<char>, amount: int, period: int)
    requires
        accounting_ok(m),
    ensures
        accounting_ok(apply_op(m, PoolOp::Unstake { caller, amount, period })),
        apply_op(
            m,
            PoolOp::Unstake { caller, amount, period },
        ).total_staked_balance * m.total_stake_shares >= m.total_staked_balance * apply_op(
            m,
            PoolOp::Unstake { caller, amount, period },
        ).total_stake_shares,
{
    lemma_sum_shares_nonneg(m.accounts);
    let step = unstake_step(m, caller, amount, period);
    if step is Ok {
        let v = m.total_staked_balance;
        let s = m.total_stake_shares;
        let n = shares_from_amount_up(amount, s, v);
        let down = amount_from_shares_down(n, s, v);
        let acct = account_or_fresh(m.accounts, caller);
        assert(has_account(m.accounts, caller));
        let i = account_index(m.accounts, caller);
        lemma_account_index_agrees(m.accounts, i);
        lemma_sum_shares_ge_elem(m.accounts, i);
        lemma_unstake_conversion_bounds(amount, s, v);
        let acct2 = AccountModel {
            unstaked_balance: acct.unstaked_balance + amount_from_shares_up(n, s, v),
            stake_shares: acct.stake_shares - n,
            stake_points: acct.stake_points - 1,
            unstaked_available_epoch_height: period + crate::model::NUM_EPOCHS_TO_UNLOCK,
            ..acct
        };
        lemma_update_same_id(m.accounts, i, acct2);
        lemma_sum_shares_update(m.accounts, i, acct2);
        // The price cannot fall: the pool gives up no more value than the
        // burned shares were worth.
        lemma_floor_times_le(v * n, s);
        let m2 = step->Ok_0.0;
        assert(m2.total_staked_balance * s >= v * m2.total_stake_shares) by (nonlinear_arith)
            requires
                m2.total_stake_shares == s - n,
                m2.total_staked_balance == v - down,
                s * down <= v * n,
                v >= 0,
                s >= 0,
                m2.total_stake_shares >= 0,
                n >= 0,
        ;
    }
}

/// Relative prices compose: if the price did not fall from `(v0, s0)` to
/// `(v1, s1)` nor from there to `(v2, s2)`, it did not fall overall.
pub proof fn lemma_price_transitive(v0: int, s0: int, v1: int, s1: int, v2: int, s2: int)
    requires
        v1 * s0 >= v0 * s1,
        v2 * s1 >= v1 * s2,
        s1 > 0,
        s0 >= 0,
        s2 >= 0,
        v0 >= 0,
        v1 >= 0,
        v2 >= 0,
    ensures
        v2 * s0 >= v0 * s2,
{
    assert((v2 * s1) * s0 >= (v1 * s2) * s0) by (nonlinear_arith)
        requires
            v2 * s1 >= v1 * s2,
            s0 >= 0,
    ;
    assert((v1 * s0) * s2 >= (v0 * s1) * s2) by (nonlinear_arith)
        requires
            v1 * s0 >= v0 * s1,
            s2 >= 0,
    ;
    assert((v2 * s1) * s0 == s1 * (v2 * s0) && (v1 * s2) * s0 == (v1 * s0) * s2 && (v0 * s1) * s2
        == s1 * (v0 * s2)) by (nonlinear_arith);
    assert(v2 * s0 >= v0 * s2) by (nonlinear_arith)
        requires
            s1 * (v2 * s0) >= s1 * (v0 * s2),
            s1 > 0,
    ;
}

/// The share price `total_staked_balance / total_stake_shares` is
/// non-decreasing across every sequence of stake and unstake operations,
/// accepted or rejected, and the accounting stays sound throughout.
pub proof fn lemma_share_price_nondecreasing(m: PoolModel, ops: Seq<PoolOp>)
    requires
        accounting_ok(m),
    ensures
        accounting_ok(apply_ops(m, ops)),
        apply_ops(m, ops).total_staked_balance * m.total_stake_shares >= m.total_staked_balance
            * apply_ops(m, ops).total_stake_shares,
    decreases ops.len(),
{
    lemma_sum_shares_nonneg(m.accounts);
    if ops.len() > 0 {
        let m1 = apply_op(m, ops[0]);
        match ops[0] {
            PoolOp::Stake { caller, amount } => {
                lemma_stake_op_sound(m, caller, amount);
            },
            PoolOp::Unstake { caller, amount, period } => {
                lemma_unstake_op_sound(m, caller, amount, period);
            },
        }
        lemma_sum_shares_nonneg(m1.accounts);
        let rest = ops.subrange(1, ops.len() as int);
        lemma_share_price_nondecreasing(m1, rest);
        let m2 = apply_ops(m1, rest);
        assert(apply_ops(m, ops) == m2);
        lemma_sum_shares_nonneg(m2.accounts);
        lemma_price_transitive(
            m.total_staked_balance,
            m.total_stake_shares,
            m1.total_staked_balance,
            m1.total_stake_shares,
            m2.total_staked_balance,
            m2.total_stake_shares,
        );
    }
}

/// Rounding only ever favors the pool: staking `amount` and then
/// immediately unstaking the full current value of the minted shares is
/// accepted and credits back at most `amount`.
pub proof fn lemma_stake_unstake_roundtrip(
    m: PoolModel,
    caller: Seq<char>,
    amount: int,
    period: int,
)
    requires
        accounting_ok(m),
        stake_step(m, caller, amount) is Ok,
    ensures
        ({
            let m1 = stake_step(m, caller, amount)->Ok_0.0;
            let minted = stake_step(m, caller, amount)->Ok_0.2;
            let full = amount_from_shares_down(
                minted,
                m1.total_stake_shares,
                m1.total_staked_balance,
            );
            &&& unstake_step(m1, caller, full, period) is Ok
            &&& unstake_step(m1, caller, full, period)->Ok_0.1 <= amount
        }),
{
    lemma_sum_shares_nonneg(m.accounts);
    let v = m.total_staked_balance;
    let s = m.total_stake_shares;
    let n = shares_from_amount_down(amount, s, v);
    lemma_stake_conversion_bounds(amount, s, v);
    let acct = account_or_fresh(m.accounts, caller);
    assert(has_account(m.accounts, caller));
    let i = account_index(m.accounts, caller);
    lemma_account_index_agrees(m.accounts, i);
    let m1 = stake_step(m, caller, amount)->Ok_0.0;
    let acct2 = m1.accounts[i];
    lemma_update_same_id(m.accounts, i, acct2);
    let v1 = m1.total_staked_balance;
    let s1 = m1.total_stake_shares;
    let up = amount_from_shares_up(n, s, v);
    // The new totals still have value covering shares.
    lemma_stake_op_sound(m, caller, amount);
    assert(accounting_ok(m1));
    let full = amount_from_shares_down(n, s1, v1);
    // The full value of the minted shares is positive: value covers shares.
    crate::share_math::lemma_muldiv_ge(v1, n, s1);
    assert(full >= n >= 1);
    // Selling that value back costs at most the minted shares.
    let burn = shares_from_amount_up(full, s1, v1);
    lemma_floor_times_le(v1 * n, s1);
    assert(s1 * full <= v1 * n);
    lemma_div_is_ordered(s1 * full + v1 - 1, v1 * n + v1 - 1, v1);
    lemma_ceil_structure(v1 * n, v1);
    lemma_div_multiples_vanish(n, v1);
    assert(v1 * n == n * v1) by (nonlinear_arith);
    lemma_mod_multiples_basic(n, v1);
    assert(burn <= n);
    // So the unstake is accepted: the record holds the minted shares.
    assert(acct2.stake_shares >= n);
    assert(acct2.stake_points >= 1);
    lemma_unstake_conversion_bounds(full, s1, v1);
    // And the credited value cannot exceed the staked amount:
    // v1 * burn <= v1 * n <= s * amount + n * amount == s1 * amount.
    lemma_floor_times_le(s * amount, v);
    assert(v * n <= s * amount);
    assert(up * n <= amount * n) by (nonlinear_arith)
        requires
            up <= amount,
            n >= 0,
    ;
    assert(v1 * n <= s1 * amount) by (nonlinear_arith)
        requires
            v1 == v + up,
            s1 == s + n,
            v * n <= s * amount,
            up * n <= amount * n,
    ;
    assert(v1 * burn <= v1 * n) by (nonlinear_arith)
        requires
            burn <= n,
            v1 >= 0,
    ;
    let receive = amount_from_shares_up(burn, s1, v1);
    lemma_div_is_ordered(v1 * burn + s1 - 1, s1 * amount + s1 - 1, s1);
    lemma_ceil_structure(s1 * amount, s1);
    lemma_div_multiples_vanish(amount, s1);
    assert(s1 * amount == amount * s1) by (nonlinear_arith);
    lemma_mod_multiples_basic(amount, s1);
    assert(receive <= amount);
}

/// A ping is idempotent within one accounting period: after a ping has
/// settled a period, any further ping in that period, whatever it observes
/// or draws, returns without changing anything.
pub proof fn lemma_ping_idempotent(
    m: PoolModel,
    period: int,
    observed: int,
    entropy: int,
    observed2: int,
    entropy2: int,
)
    requires
        ping_step(m, period, observed, entropy) is Ok,
    ensures
        ({
            let m1 = ping_step(m, period, observed, entropy)->Ok_0.0;
            ping_step(m1, period, observed2, entropy2) == Ok::<
                (PoolModel, PingEffect),
                PoolError,
            >((m1, PingEffect { advanced: false, payout: None }))
        }),
{
}

/// A drawing among the slots of a single ticket holder can only select
/// that holder: whoever owns every live slot owns the drawn one.
pub proof fn lemma_single_holder_wins(m: PoolModel, id: Seq<char>, slot: int)
    requires
        count_owned(m.tickets_random_slots, id) == m.tickets_random_slots.len(),
        0 <= slot < m.tickets_random_slots.len(),
    ensures
        m.tickets_random_slots[slot] == id,
{
    lemma_count_owned_full(m.tickets_random_slots, id);
}

} // verus!
