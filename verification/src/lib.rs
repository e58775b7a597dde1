//! A proportional-share value-accounting engine.
//!
//! The library tracks a pool of deposited base value, issues fungible shares
//! that represent proportional claims on that pool, and lets the pool's total
//! value grow through administrator-triggered yield accrual. Conversions
//! between base value and shares go through a fixed-point exchange rate that
//! floors toward zero, so rounding always favors the pool.

pub mod liquid_staking;
pub mod pool;
pub mod types;
pub mod yield_aggregator;

pub use liquid_staking::LiquidStakingContract;
pub use yield_aggregator::YieldAggregatorContract;
