use liquid_staking::liquid_staking::{
    LiquidStakingContract, DEFAULT_MIN_STAKE, DEFAULT_STAKING_APY_BP, PERIOD_MILLIS, TX_FEE,
};
use liquid_staking::types::{StakingError, SCALE};

const OWNER: u64 = 1;
const ALICE: u64 = 2;
const BOB: u64 = 3;

#[test]
fn init_defaults() {
    let c = LiquidStakingContract::init(OWNER);
    assert_eq!(c.get_total_staked(), 0);
    assert_eq!(c.get_vcspr_supply(), 0);
    assert_eq!(c.get_exchange_rate(), SCALE);
    assert_eq!(c.calculate_apy(), DEFAULT_STAKING_APY_BP);
    let m = c.get_burn_metrics();
    assert_eq!(m.total_fees_burned, 0);
    assert_eq!(m.transactions_count, 0);
    assert_eq!(m.last_burn_timestamp, 0);
    assert!(c.get_user_position(ALICE).is_none());
}

#[test]
fn first_deposit_mints_one_to_one() {
    let mut c = LiquidStakingContract::init(OWNER);
    let minted = c.stake_cspr(ALICE, 1_000_000_000_000, 50).unwrap();
    assert_eq!(minted, 1_000_000_000_000);
    assert_eq!(c.get_total_staked(), 1_000_000_000_000);
    assert_eq!(c.get_vcspr_supply(), 1_000_000_000_000);
    assert_eq!(c.get_exchange_rate(), SCALE);
    assert_eq!(c.get_vcspr_balance(ALICE), 1_000_000_000_000);
    let p = c.get_user_position(ALICE).unwrap();
    assert_eq!(p.user, ALICE);
    assert_eq!(p.cspr_amount, 1_000_000_000_000);
    assert_eq!(p.vcspr_amount, 1_000_000_000_000);
    assert_eq!(p.timestamp, 50);
    assert_eq!(p.rewards_earned, 0);
}

#[test]
fn accrual_scenario_rate_and_full_exit() {
    // Deposit 1000 units, accrue 10% yield, withdraw all shares: the rate
    // moves from 1.0 to 1.1 scale and the exit returns 1100 units, leaving
    // an empty pool. One "unit" here is 10^9 so the deposit clears the
    // configured minimum.
    let mut c = LiquidStakingContract::init(OWNER);
    let minted = c.stake_cspr(ALICE, 1_000_000_000_000, 10).unwrap();
    assert_eq!(minted, 1_000_000_000_000);
    assert_eq!(c.get_exchange_rate(), SCALE);
    c.accrue_yield(OWNER, 100_000_000_000).unwrap();
    assert_eq!(c.get_total_staked(), 1_100_000_000_000);
    assert_eq!(c.get_vcspr_supply(), 1_000_000_000_000);
    assert_eq!(c.get_exchange_rate(), 1_100_000_000_000_000_000);
    let ret = c.unstake_cspr(ALICE, 1_000_000_000_000, 20).unwrap();
    assert_eq!(ret, 1_100_000_000_000);
    assert_eq!(c.get_total_staked(), 0);
    assert_eq!(c.get_vcspr_supply(), 0);
    assert_eq!(c.get_exchange_rate(), SCALE);
    assert_eq!(c.get_vcspr_balance(ALICE), 0);
}

#[test]
fn deposit_below_minimum_rejected_state_unchanged() {
    let mut c = LiquidStakingContract::init(OWNER);
    c.stake_cspr(ALICE, DEFAULT_MIN_STAKE, 5).unwrap();
    let staked = c.get_total_staked();
    let supply = c.get_vcspr_supply();
    let rate = c.get_exchange_rate();
    let metrics = c.get_burn_metrics();
    let pos = c.get_user_position(ALICE).unwrap();
    let r = c.stake_cspr(ALICE, DEFAULT_MIN_STAKE - 1, 9);
    assert_eq!(r, Err(StakingError::InsufficientAmount));
    assert_eq!(c.get_total_staked(), staked);
    assert_eq!(c.get_vcspr_supply(), supply);
    assert_eq!(c.get_exchange_rate(), rate);
    assert_eq!(c.get_burn_metrics(), metrics);
    assert_eq!(c.get_user_position(ALICE).unwrap(), pos);
}

#[test]
fn withdraw_more_than_held_rejected() {
    let mut c = LiquidStakingContract::init(OWNER);
    c.stake_cspr(ALICE, 1_000_000_000_000, 5).unwrap();
    let r = c.unstake_cspr(ALICE, 1_000_000_000_001, 6);
    assert_eq!(r, Err(StakingError::InsufficientShares));
    assert_eq!(c.get_vcspr_balance(ALICE), 1_000_000_000_000);
    let r2 = c.unstake_cspr(BOB, 1, 7);
    assert_eq!(r2, Err(StakingError::InsufficientShares));
}

#[test]
fn conservation_across_deposits_and_withdrawals() {
    let mut c = LiquidStakingContract::init(OWNER);
    c.stake_cspr(ALICE, 1_000_000_000_000, 1).unwrap();
    c.stake_cspr(BOB, 2_000_000_000_000, 2).unwrap();
    assert_eq!(
        c.get_vcspr_balance(ALICE) + c.get_vcspr_balance(BOB),
        c.get_vcspr_supply()
    );
    c.unstake_cspr(BOB, 500_000_000_000, 3).unwrap();
    assert_eq!(
        c.get_vcspr_balance(ALICE) + c.get_vcspr_balance(BOB),
        c.get_vcspr_supply()
    );
    c.stake_cspr(ALICE, 400_000_000_000, 4).unwrap();
    assert_eq!(
        c.get_vcspr_balance(ALICE) + c.get_vcspr_balance(BOB),
        c.get_vcspr_supply()
    );
    // Everything withdrawn with no accrual comes back exactly: the pool
    // never pays out more than it holds.
    let ret_a = c.unstake_cspr(ALICE, c.get_vcspr_balance(ALICE), 5).unwrap();
    let ret_b = c.unstake_cspr(BOB, c.get_vcspr_balance(BOB), 6).unwrap();
    assert_eq!(ret_a, 1_400_000_000_000);
    assert_eq!(ret_b, 1_500_000_000_000);
    assert_eq!(c.get_total_staked(), 0);
    assert_eq!(c.get_vcspr_supply(), 0);
}

#[test]
fn round_trip_after_accrual_loses_only_dust() {
    let mut c = LiquidStakingContract::init(OWNER);
    c.stake_cspr(ALICE, 1_000_000_000_000, 1).unwrap();
    c.accrue_yield(OWNER, 500_000_000_000).unwrap();
    assert_eq!(c.get_exchange_rate(), 1_500_000_000_000_000_000);
    let minted = c.stake_cspr(BOB, 1_000_000_000_000, 2).unwrap();
    assert_eq!(minted, 666_666_666_666);
    assert_eq!(c.get_exchange_rate(), 1_500_000_000_000_600_000);
    let ret = c.unstake_cspr(BOB, minted, 3).unwrap();
    // Floor rounding on both conversions: the round trip returns no more
    // than was deposited and the dust stays in the pool.
    assert_eq!(ret, 999_999_999_999);
    assert!(ret <= 1_000_000_000_000);
    assert_eq!(c.get_total_staked(), 1_500_000_000_001);
    assert_eq!(c.get_vcspr_supply(), 1_000_000_000_000);
}

#[test]
fn accrual_with_no_shares_is_noop() {
    let mut c = LiquidStakingContract::init(OWNER);
    c.accrue_yield(OWNER, 1_000_000_000_000).unwrap();
    assert_eq!(c.get_total_staked(), 0);
    assert_eq!(c.get_exchange_rate(), SCALE);
}

#[test]
fn accrual_requires_owner() {
    let mut c = LiquidStakingContract::init(OWNER);
    c.stake_cspr(ALICE, 1_000_000_000_000, 1).unwrap();
    assert_eq!(
        c.accrue_yield(ALICE, 10),
        Err(StakingError::Unauthorized)
    );
    assert_eq!(c.get_total_staked(), 1_000_000_000_000);
}

#[test]
fn rewards_update_applies_daily_rate_once_per_period() {
    let mut c = LiquidStakingContract::init(OWNER);
    c.stake_cspr(ALICE, 1_000_000_000_000, 1).unwrap();
    let now = 2 * PERIOD_MILLIS;
    // 1200 basis points over 365 periods truncates to 3 basis points per
    // period: 10^12 * 3 / 10000.
    let y = c.update_rewards(OWNER, now).unwrap();
    assert_eq!(y, 300_000_000);
    assert_eq!(c.get_total_staked(), 1_000_300_000_000);
    assert_eq!(c.get_exchange_rate(), 1_000_300_000_000_000_000);
    // A second update inside the same period never double-counts.
    assert_eq!(c.update_rewards(OWNER, now), Err(StakingError::TooSoon));
    assert_eq!(
        c.update_rewards(OWNER, now + PERIOD_MILLIS - 1),
        Err(StakingError::TooSoon)
    );
    let y2 = c.update_rewards(OWNER, now + PERIOD_MILLIS).unwrap();
    assert_eq!(y2, 300_090_000);
    assert_eq!(
        c.update_rewards(ALICE, now + 3 * PERIOD_MILLIS),
        Err(StakingError::Unauthorized)
    );
}

#[test]
fn rewards_update_on_empty_pool_is_noop() {
    let mut c = LiquidStakingContract::init(OWNER);
    let y = c.update_rewards(OWNER, 5 * PERIOD_MILLIS).unwrap();
    assert_eq!(y, 0);
    assert_eq!(c.get_total_staked(), 0);
}

#[test]
fn pause_gates_deposits_and_withdrawals() {
    let mut c = LiquidStakingContract::init(OWNER);
    c.stake_cspr(ALICE, 1_000_000_000_000, 1).unwrap();
    assert_eq!(c.pause(ALICE), Err(StakingError::Unauthorized));
    c.pause(OWNER).unwrap();
    assert_eq!(
        c.stake_cspr(ALICE, 1_000_000_000_000, 2),
        Err(StakingError::Paused)
    );
    assert_eq!(
        c.unstake_cspr(ALICE, 1, 3),
        Err(StakingError::Paused)
    );
    assert_eq!(c.unpause(ALICE), Err(StakingError::Unauthorized));
    c.unpause(OWNER).unwrap();
    assert!(c.stake_cspr(ALICE, 1_000_000_000_000, 4).is_ok());
}

#[test]
fn oversized_deposit_overflows() {
    let mut c = LiquidStakingContract::init(OWNER);
    assert_eq!(
        c.stake_cspr(ALICE, u128::MAX, 1),
        Err(StakingError::ArithmeticOverflow)
    );
    assert_eq!(c.get_total_staked(), 0);
}

#[test]
fn burn_metrics_count_every_transaction() {
    let mut c = LiquidStakingContract::init(OWNER);
    c.stake_cspr(ALICE, 1_000_000_000_000, 10).unwrap();
    c.stake_cspr(BOB, 1_000_000_000_000, 20).unwrap();
    c.unstake_cspr(ALICE, 5, 30).unwrap();
    let m = c.get_burn_metrics();
    assert_eq!(m.transactions_count, 3);
    assert_eq!(m.total_fees_burned, 3 * TX_FEE);
    assert_eq!(m.last_burn_timestamp, 30);
}

#[test]
fn withdrawal_updates_position_and_keeps_timestamp() {
    let mut c = LiquidStakingContract::init(OWNER);
    c.stake_cspr(ALICE, 1_000_000_000_000, 10).unwrap();
    c.unstake_cspr(ALICE, 400_000_000_000, 99).unwrap();
    let p = c.get_user_position(ALICE).unwrap();
    assert_eq!(p.vcspr_amount, 600_000_000_000);
    assert_eq!(p.cspr_amount, 600_000_000_000);
    assert_eq!(p.timestamp, 10);
    // A drained position stays addressable as a logically empty record.
    c.unstake_cspr(ALICE, 600_000_000_000, 100).unwrap();
    let p2 = c.get_user_position(ALICE).unwrap();
    assert_eq!(p2.vcspr_amount, 0);
    assert_eq!(p2.cspr_amount, 0);
}

#[test]
fn full_exit_can_leave_dust_that_the_next_depositor_captures() {
    // Floor rounding can strand one unit in a pool whose last holder exits,
    // leaving base value with no shares outstanding. The next depositor
    // mints at the 1:1 empty-pool rate and so acquires a claim on the
    // stranded unit as well: the round-trip bound deliberately excludes
    // this shareless-but-funded state.
    let mut c = LiquidStakingContract::init(OWNER);
    c.stake_cspr(ALICE, 300_000_000_000, 1).unwrap();
    c.accrue_yield(OWNER, 100_000_000_000).unwrap();
    assert_eq!(c.get_exchange_rate(), 1_333_333_333_333_333_333);
    let ret = c.unstake_cspr(ALICE, 300_000_000_000, 2).unwrap();
    assert_eq!(ret, 399_999_999_999);
    assert_eq!(c.get_total_staked(), 1);
    assert_eq!(c.get_vcspr_supply(), 0);
    let minted = c.stake_cspr(BOB, 100_000_000_000, 3).unwrap();
    assert_eq!(minted, 100_000_000_000);
    let ret2 = c.unstake_cspr(BOB, minted, 4).unwrap();
    assert_eq!(ret2, 100_000_000_001);
    assert_eq!(c.get_total_staked(), 0);
}
