use liquid_staking::types::StakingError;
use liquid_staking::yield_aggregator::YieldAggregatorContract;

const OWNER: u64 = 1;
const ALICE: u64 = 2;
const BOB: u64 = 3;

#[test]
fn register_and_read_back() {
    let mut a = YieldAggregatorContract::init(OWNER);
    a.register_strategy(OWNER, 7, String::from("alpha"), 800, true).unwrap();
    let st = a.get_strategy(7).unwrap();
    assert_eq!(st.id, 7);
    assert_eq!(st.name, "alpha");
    assert_eq!(st.apy, 800);
    assert_eq!(st.total_deposited, 0);
    assert!(st.is_active);
    assert!(a.get_strategy(8).is_none());
}

#[test]
fn duplicate_id_rejected() {
    let mut a = YieldAggregatorContract::init(OWNER);
    a.register_strategy(OWNER, 7, String::from("alpha"), 800, true).unwrap();
    let r = a.register_strategy(OWNER, 7, String::from("beta"), 900, true);
    assert_eq!(r, Err(StakingError::DuplicateId));
    assert_eq!(a.get_strategy(7).unwrap().name, "alpha");
}

#[test]
fn registration_requires_owner() {
    let mut a = YieldAggregatorContract::init(OWNER);
    let r = a.register_strategy(ALICE, 7, String::from("alpha"), 800, true);
    assert_eq!(r, Err(StakingError::Unauthorized));
    assert_eq!(a.set_active(ALICE, 7, false), Err(StakingError::Unauthorized));
}

#[test]
fn unknown_strategy_rejected() {
    let mut a = YieldAggregatorContract::init(OWNER);
    assert_eq!(
        a.deposit_to(ALICE, 9, 1_000_000_000_000),
        Err(StakingError::UnknownStrategy)
    );
    assert_eq!(
        a.withdraw_from(ALICE, 9, 1),
        Err(StakingError::UnknownStrategy)
    );
    assert_eq!(a.set_active(OWNER, 9, true), Err(StakingError::UnknownStrategy));
}

#[test]
fn inactive_strategy_blocks_deposits_never_withdrawals() {
    let mut a = YieldAggregatorContract::init(OWNER);
    a.register_strategy(OWNER, 7, String::from("alpha"), 800, true).unwrap();
    let minted = a.deposit_to(ALICE, 7, 1_000_000_000_000).unwrap();
    assert_eq!(minted, 1_000_000_000_000);
    a.set_active(OWNER, 7, false).unwrap();
    // Deactivation blocks every new deposit...
    assert_eq!(
        a.deposit_to(ALICE, 7, 1_000_000_000_000),
        Err(StakingError::StrategyInactive)
    );
    assert_eq!(
        a.deposit_to(BOB, 7, 1_000_000_000_000),
        Err(StakingError::StrategyInactive)
    );
    // ...but holders can always exit.
    let ret = a.withdraw_from(ALICE, 7, 400_000_000_000).unwrap();
    assert_eq!(ret, 400_000_000_000);
    assert_eq!(a.get_strategy(7).unwrap().total_deposited, 600_000_000_000);
}

#[test]
fn strategy_registered_inactive_rejects_first_deposit() {
    let mut a = YieldAggregatorContract::init(OWNER);
    a.register_strategy(OWNER, 4, String::from("idle"), 100, false).unwrap();
    assert_eq!(
        a.deposit_to(ALICE, 4, 1_000_000_000_000),
        Err(StakingError::StrategyInactive)
    );
}

#[test]
fn strategies_track_independent_totals() {
    let mut a = YieldAggregatorContract::init(OWNER);
    a.register_strategy(OWNER, 1, String::from("one"), 500, true).unwrap();
    a.register_strategy(OWNER, 2, String::from("two"), 900, true).unwrap();
    a.deposit_to(ALICE, 1, 1_000_000_000_000).unwrap();
    a.deposit_to(ALICE, 2, 2_000_000_000_000).unwrap();
    a.deposit_to(BOB, 2, 3_000_000_000_000).unwrap();
    assert_eq!(a.get_strategy(1).unwrap().total_deposited, 1_000_000_000_000);
    assert_eq!(a.get_strategy(2).unwrap().total_deposited, 5_000_000_000_000);
    let p = a.get_strategy_position(ALICE, 2).unwrap();
    assert_eq!(p.shares, 2_000_000_000_000);
    assert_eq!(p.base_contributed, 2_000_000_000_000);
    a.withdraw_from(BOB, 2, 3_000_000_000_000).unwrap();
    assert_eq!(a.get_strategy(2).unwrap().total_deposited, 2_000_000_000_000);
    assert_eq!(a.get_strategy(1).unwrap().total_deposited, 1_000_000_000_000);
}

#[test]
fn withdraw_more_than_strategy_balance_rejected() {
    let mut a = YieldAggregatorContract::init(OWNER);
    a.register_strategy(OWNER, 7, String::from("alpha"), 800, true).unwrap();
    a.deposit_to(ALICE, 7, 1_000_000_000_000).unwrap();
    assert_eq!(
        a.withdraw_from(ALICE, 7, 1_000_000_000_001),
        Err(StakingError::InsufficientShares)
    );
    assert_eq!(
        a.withdraw_from(BOB, 7, 1),
        Err(StakingError::InsufficientShares)
    );
}

#[test]
fn small_strategy_deposit_rejected() {
    let mut a = YieldAggregatorContract::init(OWNER);
    a.register_strategy(OWNER, 7, String::from("alpha"), 800, true).unwrap();
    assert_eq!(
        a.deposit_to(ALICE, 7, 5),
        Err(StakingError::InsufficientAmount)
    );
}
