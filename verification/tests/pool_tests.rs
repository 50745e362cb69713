//! The pool driven through an emulated host: liquid and locked balances,
//! the epoch clock, and the stake-action round trips live out here, and the
//! engine only ever sees plain values.

use cherry_pool::StakingPool;

const ENTROPY: u64 = 7;

fn ntoy(near: u128) -> u128 {
    near * 10u128.pow(24)
}

/// Rounds a yocto amount to whole tokens, half up.
fn yton(yocto: u128) -> u128 {
    (yocto + 5 * 10u128.pow(23)) / 10u128.pow(24)
}

fn assert_eq_in_near(a: u128, b: u128) {
    assert_eq!(yton(a), yton(b));
}

fn owner() -> String {
    "owner".to_string()
}

fn bob() -> String {
    "bob".to_string()
}

fn staking() -> String {
    "staking".to_string()
}

/// The full 256-bit product of two `u128` values, as (high, low) halves.
fn wide_mul(a: u128, b: u128) -> (u128, u128) {
    let low_mask: u128 = 0xffff_ffff_ffff_ffff;
    let (a_hi, a_lo) = (a >> 64, a & low_mask);
    let (b_hi, b_lo) = (b >> 64, b & low_mask);
    let ll = a_lo * b_lo;
    let lh = a_lo * b_hi;
    let hl = a_hi * b_lo;
    let hh = a_hi * b_hi;
    let mid = (ll >> 64) + (lh & low_mask) + (hl & low_mask);
    let lo = (ll & low_mask) | ((mid & low_mask) << 64);
    let hi = hh + (lh >> 64) + (hl >> 64) + (mid >> 64);
    (hi, lo)
}

fn wide_ge(a: (u128, u128), b: (u128, u128)) -> bool {
    a.0 > b.0 || (a.0 == b.0 && a.1 >= b.1)
}

struct Emulator {
    contract: StakingPool,
    epoch_height: u64,
    amount: u128,
    locked_amount: u128,
    #[allow(dead_code)]
    stake_public_key: String,
    last_total_staked_balance: u128,
    last_total_stake_shares: u128,
}

impl Emulator {
    fn new(owner_id: String, stake_public_key: String) -> Self {
        let contract = StakingPool::new(owner_id, ntoy(30), 0);
        let last_total_staked_balance = contract.total_staked_balance;
        let last_total_stake_shares = contract.total_stake_shares;
        Emulator {
            contract,
            epoch_height: 0,
            amount: ntoy(30),
            locked_amount: 0,
            stake_public_key,
            last_total_staked_balance,
            last_total_stake_shares,
        }
    }

    fn verify_stake_price_increase_guarantee(&mut self) {
        let total_staked_balance = self.contract.total_staked_balance;
        let total_stake_shares = self.contract.total_stake_shares;
        assert!(
            wide_ge(
                wide_mul(total_staked_balance, self.last_total_stake_shares),
                wide_mul(self.last_total_staked_balance, total_stake_shares)
            ),
            "Price increase guarantee was violated."
        );
        self.last_total_staked_balance = total_staked_balance;
        self.last_total_stake_shares = total_stake_shares;
    }

    /// The externally observed total the engine would compute: locked plus
    /// liquid balance, with any attached deposit already excluded.
    fn observed_total(&self) -> u128 {
        self.locked_amount + self.amount
    }

    fn deposit(&mut self, caller: &String, amount: u128) {
        self.verify_stake_price_increase_guarantee();
        let observed = self.observed_total();
        self.contract
            .deposit(caller, amount, self.epoch_height, observed, ENTROPY)
            .unwrap();
        self.amount += amount;
    }

    fn stake(&mut self, caller: &String, amount: u128) {
        self.verify_stake_price_increase_guarantee();
        let observed = self.observed_total();
        self.contract
            .stake(caller, amount, self.epoch_height, observed, ENTROPY)
            .unwrap();
    }

    fn unstake(&mut self, caller: &String, amount: u128) {
        self.verify_stake_price_increase_guarantee();
        let observed = self.observed_total();
        self.contract
            .unstake(caller, amount, self.epoch_height, observed, ENTROPY)
            .unwrap();
    }

    fn ping(&mut self, _caller: &String) {
        self.verify_stake_price_increase_guarantee();
        let observed = self.observed_total();
        self.contract
            .ping(self.epoch_height, observed, ENTROPY)
            .unwrap();
    }

    fn simulate_stake_call(&mut self) {
        let total_stake = self.contract.total_staked_balance;
        // Stake action.
        self.amount = self.amount + self.locked_amount - total_stake;
        self.locked_amount = total_stake;
        self.verify_stake_price_increase_guarantee();
    }

    fn skip_epochs(&mut self, num: u64) {
        self.epoch_height += num;
        self.locked_amount = (self.locked_amount * (100 + u128::from(num))) / 100;
    }
}

#[test]
fn test_restake_fail() {
    let mut emulator = Emulator::new(
        owner(),
        "KuTCtARNzxZQ3YvXDeLjx83FDqxv2SdQTSbiq876zR7".to_string(),
    );
    let action = emulator.contract.internal_restake();
    assert_eq!(action, Some(emulator.contract.total_staked_balance));
    emulator.simulate_stake_call();
    // The stake action fails while value is still locked: the engine must
    // answer with a compensating zero-amount stake action.
    let compensation = emulator
        .contract
        .on_stake_action(&staking(), &staking(), false, emulator.locked_amount)
        .unwrap();
    assert_eq!(compensation, Some(0));
}

#[test]
fn test_stake_unstake() {
    let mut emulator = Emulator::new(
        owner(),
        "KuTCtARNzxZQ3YvXDeLjx83FDqxv2SdQTSbiq876zR7".to_string(),
    );
    let deposit_amount = ntoy(10_000);
    emulator.deposit(&bob(), deposit_amount);
    emulator.stake(&bob(), deposit_amount);
    emulator.simulate_stake_call();
    assert_eq!(
        emulator
            .contract
            .get_account_staked_balance(&bob(), emulator.epoch_height),
        deposit_amount
    );
    let locked_amount = emulator.locked_amount;
    // 10 epochs later, unstake half of the money.
    emulator.skip_epochs(10);
    // Overriding rewards.
    emulator.locked_amount = locked_amount + ntoy(10);
    emulator.ping(&bob());
    println!("Total Stake shares: {}", emulator.contract.total_stake_shares);
    println!("Total Stake Balance: {}", emulator.contract.total_staked_balance);
    assert_eq_in_near(
        emulator
            .contract
            .get_account_staked_balance(&bob(), emulator.epoch_height),
        deposit_amount + ntoy(10),
    );
    emulator.unstake(&bob(), deposit_amount / 2);
    emulator.simulate_stake_call();
    assert_eq_in_near(
        emulator
            .contract
            .get_account_staked_balance(&bob(), emulator.epoch_height),
        deposit_amount / 2 + ntoy(10),
    );
    assert_eq_in_near(
        emulator
            .contract
            .get_account_unstaked_balance(&bob(), emulator.epoch_height),
        deposit_amount / 2,
    );
    let acc = emulator.contract.get_account(&bob(), emulator.epoch_height);
    assert_eq!(acc.account_id, bob());
    assert_eq_in_near(acc.unstaked_balance, deposit_amount / 2);
    assert_eq_in_near(acc.staked_balance, deposit_amount / 2 + ntoy(10));
    assert!(!acc.can_withdraw);
    assert!(!emulator
        .contract
        .is_account_unstaked_balance_available(&bob(), emulator.epoch_height));
    emulator.skip_epochs(4);
    assert!(emulator
        .contract
        .is_account_unstaked_balance_available(&bob(), emulator.epoch_height));
}

#[test]
fn test_add_remove_tickets() {
    let mut emulator = Emulator::new(
        owner(),
        "KuTCtARNzxZQ3YvXDeLjx83FDqxv2SdQTSbiq876zR7".to_string(),
    );
    let deposit_amount = ntoy(1_000);
    emulator.deposit(&bob(), deposit_amount);
    emulator.stake(&bob(), deposit_amount);
    emulator.simulate_stake_call();
    assert_eq!(
        emulator
            .contract
            .get_account_tickets_amount(&bob(), emulator.epoch_height),
        1_00
    );
    emulator.skip_epochs(4);
    emulator.unstake(&bob(), deposit_amount / 2);
    emulator.simulate_stake_call();
    assert_eq!(
        emulator
            .contract
            .get_account_tickets_amount(&bob(), emulator.epoch_height),
        50
    );
}

#[test]
fn test_winner_announcement() {
    let mut emulator = Emulator::new(
        owner(),
        "KuTCtARNzxZQ3YvXDeLjx83FDqxv2SdQTSbiq876zR7".to_string(),
    );
    let deposit_amount = ntoy(1_00);
    emulator.deposit(&bob(), deposit_amount);
    emulator.stake(&bob(), deposit_amount);
    emulator.simulate_stake_call();
    assert_eq!(
        emulator
            .contract
            .get_account_tickets_amount(&bob(), emulator.epoch_height),
        10
    );
    emulator.skip_epochs(14);
    let winner = emulator
        .contract
        .get_prize_winner(emulator.epoch_height)
        .unwrap();
    assert_eq!(winner, bob());
    let contract_balance = emulator.amount;
    let reward = emulator.contract.total_reward;
    let payout = emulator
        .contract
        .transfer_prize_to_winner(winner, emulator.epoch_height)
        .unwrap();
    assert_eq!(payout.amount, reward);
    assert_eq!(emulator.contract.total_reward, 0);
    // The host performs the transfer.
    emulator.amount -= payout.amount;
    println!("{}", emulator.contract.total_staked_balance);
    assert_eq!(emulator.amount, contract_balance - reward);
}

#[test]
fn half_unstake_follows_the_documented_rounding() {
    // Staking 10,000 units at a price of one, earning 10 units of reward,
    // and unstaking half: the burned shares are the up-rounded
    // ceil(5,000 * 10,000 / 10,010) worth, the derived balances land on
    // 5,000 unstaked and 5,010 staked within share granularity, and the
    // tickets drop from 1,000 to 500.
    let mut emulator = Emulator::new(
        owner(),
        "KuTCtARNzxZQ3YvXDeLjx83FDqxv2SdQTSbiq876zR7".to_string(),
    );
    let deposit_amount = ntoy(10_000);
    emulator.deposit(&bob(), deposit_amount);
    emulator.stake(&bob(), deposit_amount);
    emulator.simulate_stake_call();
    assert_eq!(
        emulator
            .contract
            .get_account_tickets_amount(&bob(), emulator.epoch_height),
        1_000
    );
    let locked_amount = emulator.locked_amount;
    emulator.skip_epochs(10);
    emulator.locked_amount = locked_amount + ntoy(10);
    emulator.ping(&bob());
    let observed = emulator.observed_total();
    let outcome = emulator
        .contract
        .unstake(&bob(), deposit_amount / 2, emulator.epoch_height, observed, ENTROPY)
        .unwrap();
    emulator.simulate_stake_call();
    // ceil(5,000 * 10,000 / 10,010) = 4,996 whole shares at unit scale;
    // at yocto granularity the burn rounds to 4,995 whole-token shares.
    assert_eq!(yton(outcome.num_shares), 4_995);
    assert_eq_in_near(outcome.receive, ntoy(5_000));
    assert_eq_in_near(
        emulator
            .contract
            .get_account_unstaked_balance(&bob(), emulator.epoch_height),
        ntoy(5_000),
    );
    assert_eq_in_near(
        emulator
            .contract
            .get_account_staked_balance(&bob(), emulator.epoch_height),
        ntoy(5_010),
    );
    assert_eq!(
        emulator
            .contract
            .get_account_tickets_amount(&bob(), emulator.epoch_height),
        500
    );
}

#[test]
fn test_lottery_pays_accumulated_reward() {
    // 14 periods pass with exactly one ticket holder: the drawing run by
    // ping must pay that holder the whole pot and zero it.
    let mut emulator = Emulator::new(
        owner(),
        "KuTCtARNzxZQ3YvXDeLjx83FDqxv2SdQTSbiq876zR7".to_string(),
    );
    let deposit_amount = ntoy(100);
    emulator.deposit(&bob(), deposit_amount);
    emulator.stake(&bob(), deposit_amount);
    emulator.simulate_stake_call();
    emulator.skip_epochs(14);
    let observed = emulator.observed_total();
    let outcome = emulator
        .contract
        .ping(emulator.epoch_height, observed, ENTROPY)
        .unwrap();
    let payout = outcome.payout.expect("a due drawing with tickets must pay");
    assert_eq!(payout.winner, bob());
    assert!(payout.amount > 0);
    assert_eq!(emulator.contract.total_reward, 0);
    // The next drawing is scheduled a full interval later.
    assert_eq!(
        emulator.contract.next_prize_event_epoch_height,
        emulator.epoch_height + 14
    );
}
