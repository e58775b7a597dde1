//! Plain data records and the error kinds shared by the accounting engine.

use vstd::prelude::*;

verus! {

/// Fixed-point scale of the exchange rate: a rate of `SCALE` means one unit
/// of base value per share (1:1).
pub const SCALE: u128 = 1_000_000_000_000_000_000;

/// Largest total base value a pool may hold. Keeping every pool total at or
/// below this bound guarantees that `total * SCALE` fits in 128 bits, so the
/// rate computation can never overflow.
pub const MAX_POOL_VALUE: u128 = u128::MAX / SCALE;

/// Every failure an operation of the engine can report. Operations abort
/// with no state change when they return one of these.
#[derive(Clone, Copy, PartialEq, Eq, Structural, Debug)]
pub enum StakingError {
    /// The ledger is paused; no deposit or withdrawal proceeds.
    Paused,
    /// The caller is not the designated administrator.
    Unauthorized,
    /// A deposit below the configured minimum.
    InsufficientAmount,
    /// A withdrawal of more shares than the caller holds.
    InsufficientShares,
    /// A strategy id that was never registered.
    UnknownStrategy,
    /// A strategy id that is already taken.
    DuplicateId,
    /// A deposit routed to a deactivated strategy.
    StrategyInactive,
    /// An addition that would exceed the representable range.
    ArithmeticOverflow,
    /// A subtraction that would go negative. The engine's own operations
    /// check shares and balances before subtracting, and the pool's
    /// invariants keep every other difference in range, so none of them
    /// reports this; it completes the vocabulary for consumers that layer
    /// their own arithmetic on the engine's values.
    ArithmeticUnderflow,
    /// A repeated accrual inside the same period.
    TooSoon,
}

/// One depositor's record: historical base contributed, shares currently
/// held, the last time the record was touched, and an informational rewards
/// accumulator. A record with `vcspr_amount == 0` is logically empty but
/// stays addressable.
#[derive(Clone, Copy, PartialEq, Eq, Structural, Debug)]
pub struct StakePosition {
    pub user: u64,
    pub cspr_amount: u128,
    pub vcspr_amount: u128,
    pub timestamp: u64,
    pub rewards_earned: u128,
}

/// An independently parameterized sub-pool: its own APY, deposit total and
/// activity flag. Strategies are append-only; deactivation blocks new
/// deposits but never withdrawals.
#[derive(Clone, PartialEq, Eq, Debug)]
pub struct YieldStrategy {
    pub id: u32,
    pub name: String,
    pub apy: u32,
    pub total_deposited: u128,
    pub is_active: bool,
}

/// A consumer-side record for collateralized positions that value their
/// collateral at the engine's share price. The engine itself never reads it.
#[derive(Clone, Copy, PartialEq, Eq, Structural, Debug)]
pub struct CollateralPosition {
    pub user: u64,
    pub vcspr_collateral: u128,
    pub synthetic_minted: u128,
    pub liquidation_threshold: u32,
}

/// A purely observational running counter of recorded fees and transactions.
#[derive(Clone, Copy, PartialEq, Eq, Structural, Debug)]
pub struct BurnMetrics {
    pub total_fees_burned: u128,
    pub transactions_count: u64,
    pub last_burn_timestamp: u64,
}

} // verus!
