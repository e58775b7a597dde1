//! The proportional-share ledger: deposits mint shares at the current rate,
//! withdrawals burn them, and administrator-triggered accrual grows the pool
//! total that every share redeems against.
//!
//! Conservation is the ledger's standing invariant: after every completed
//! operation the shares held across all positions add up exactly to the
//! outstanding supply, and the pool's base total always covers that supply,
//! so no withdrawal can return more value than the pool holds. Every
//! operation either completes fully or fails with a typed error and leaves
//! the ledger untouched.

use vstd::prelude::*;
use crate::pool::{
    base_for_withdraw, compute_base_to_return, compute_rate, compute_shares_to_mint,
    lemma_accrue_raises_rate, lemma_round_trip_bounded, lemma_withdraw_bounds, pool_wf, rate_of,
    shares_for_deposit,
};
use crate::types::{BurnMetrics, StakePosition, StakingError, MAX_POOL_VALUE, SCALE};

verus! {

/// Default minimum deposit accepted by a freshly initialized ledger.
pub const DEFAULT_MIN_STAKE: u128 = 100_000_000_000;

/// Default yield parameter of a freshly initialized ledger, in basis points.
pub const DEFAULT_STAKING_APY_BP: u32 = 1200;

/// Number of accrual periods per year: accrual is computed per day.
pub const PERIODS_PER_YEAR: u32 = 365;

/// Length of one accrual period in milliseconds (one day).
pub const PERIOD_MILLIS: u64 = 86_400_000;

/// Configured flat fee recorded per transaction in the observational burn
/// metrics.
pub const TX_FEE: u128 = 1_000_000_000;

/// Total shares held across a sequence of positions.
pub open spec fn sum_shares(s: Seq<StakePosition>) -> int
    decreases s.len(),
{
    if s.len() == 0 {
        0
    } else {
        sum_shares(s.drop_last()) + s.last().vcspr_amount as int
    }
}

/// No two positions belong to the same depositor.
pub open spec fn users_distinct(s: Seq<StakePosition>) -> bool {
    forall|i: int, j: int| 0 <= i < j < s.len() ==> s[i].user != s[j].user
}

/// Whether some position in `s` belongs to `user`.
pub open spec fn seq_has_user(s: Seq<StakePosition>, user: u64) -> bool {
    exists|i: int| 0 <= i < s.len() && s[i].user == user
}

/// The position of `user` in `s`; meaningful when `seq_has_user(s, user)`
/// and the users of `s` are distinct.
pub open spec fn position_for(s: Seq<StakePosition>, user: u64) -> StakePosition {
    s[choose|i: int| 0 <= i < s.len() && s[i].user == user]
}

proof fn lemma_sum_shares_nonneg(s: Seq<StakePosition>)
    ensures
        sum_shares(s) >= 0,
    decreases s.len(),
{
    if s.len() > 0 {
        lemma_sum_shares_nonneg(s.drop_last());
    }
}

proof fn lemma_sum_shares_push(s: Seq<StakePosition>, p: StakePosition)
    ensures
        sum_shares(s.push(p)) == sum_shares(s) + p.vcspr_amount as int,
{
    assert(s.push(p).drop_last() =~= s);
}

proof fn lemma_sum_shares_update(s: Seq<StakePosition>, i: int, p: StakePosition)
    requires
        0 <= i < s.len(),
    ensures
        sum_shares(s.update(i, p)) == sum_shares(s) - s[i].vcspr_amount as int
            + p.vcspr_amount as int,
    decreases s.len(),
{
    if i == s.len() - 1 {
        assert(s.update(i, p).drop_last() =~= s.drop_last());
    } else {
        assert(s.update(i, p).drop_last() =~= s.drop_last().update(i, p));
        lemma_sum_shares_update(s.drop_last(), i, p);
    }
}

/// A single position never holds more shares than the whole sum.
proof fn lemma_elem_le_sum(s: Seq<StakePosition>, i: int)
    requires
        0 <= i < s.len(),
    ensures
        s[i].vcspr_amount as int <= sum_shares(s),
    decreases s.len(),
{
    if i == s.len() - 1 {
        lemma_sum_shares_nonneg(s.drop_last());
    } else {
        lemma_elem_le_sum(s.drop_last(), i);
    }
}

/// With distinct users, the index of a given user is unique.
proof fn lemma_unique_index(s: Seq<StakePosition>, i: int, j: int)
    requires
        users_distinct(s),
        0 <= i < s.len(),
        0 <= j < s.len(),
        s[i].user == s[j].user,
    ensures
        i == j,
{
}

/// Ties an index with its user's looked-up position.
proof fn lemma_position_for_at(s: Seq<StakePosition>, i: int)
    requires
        users_distinct(s),
        0 <= i < s.len(),
    ensures
        seq_has_user(s, s[i].user),
        position_for(s, s[i].user) == s[i],
{
    let u = s[i].user;
    assert(seq_has_user(s, u));
    let j = choose|j: int| 0 <= j < s.len() && s[j].user == u;
    lemma_unique_index(s, i, j);
}

/// All lookups of users other than `s[i].user` are unaffected by replacing
/// the entry at `i`.
proof fn lemma_update_preserves_others(s: Seq<StakePosition>, i: int, p: StakePosition)
    requires
        users_distinct(s),
        0 <= i < s.len(),
        p.user == s[i].user,
    ensures
        users_distinct(s.update(i, p)),
        forall|u: u64|
            u != p.user ==> (seq_has_user(s.update(i, p), u) <==> seq_has_user(s, u)),
        forall|u: u64|
            u != p.user && seq_has_user(s, u) ==> position_for(s.update(i, p), u)
                == position_for(s, u),
{
    let t = s.update(i, p);
    assert forall|u: u64| u != p.user implies (seq_has_user(t, u) <==> seq_has_user(s, u)) by {
        if seq_has_user(t, u) {
            let j = choose|j: int| 0 <= j < t.len() && t[j].user == u;
            assert(j != i);
            assert(s[j].user == u);
        }
        if seq_has_user(s, u) {
            let j = choose|j: int| 0 <= j < s.len() && s[j].user == u;
            assert(j != i);
            assert(t[j].user == u);
        }
    }
    assert forall|u: u64| u != p.user && seq_has_user(s, u) implies position_for(t, u)
        == position_for(s, u) by {
        let j1 = choose|j: int| 0 <= j < t.len() && t[j].user == u;
        let j2 = choose|j: int| 0 <= j < s.len() && s[j].user == u;
        assert(j1 != i);
        assert(s[j1].user == u);
        lemma_unique_index(s, j1, j2);
    }
}

/// All lookups of users other than `p.user` are unaffected by appending `p`.
proof fn lemma_push_preserves_others(s: Seq<StakePosition>, p: StakePosition)
    requires
        users_distinct(s),
        !seq_has_user(s, p.user),
    ensures
        users_distinct(s.push(p)),
        seq_has_user(s.push(p), p.user),
        position_for(s.push(p), p.user) == p,
        forall|u: u64| u != p.user ==> (seq_has_user(s.push(p), u) <==> seq_has_user(s, u)),
        forall|u: u64|
            u != p.user && seq_has_user(s, u) ==> position_for(s.push(p), u)
                == position_for(s, u),
{
    let t = s.push(p);
    assert forall|i: int, j: int| 0 <= i < j < t.len() implies t[i].user != t[j].user by {
        if j == s.len() {
            assert(t[i] == s[i]);
        }
    }
    assert(t[s.len() as int].user == p.user);
    lemma_position_for_at(t, s.len() as int);
    assert forall|u: u64| u != p.user implies (seq_has_user(t, u) <==> seq_has_user(s, u)) by {
        if seq_has_user(t, u) {
            let j = choose|j: int| 0 <= j < t.len() && t[j].user == u;
            assert(j != s.len());
            assert(s[j].user == u);
        }
        if seq_has_user(s, u) {
            let j = choose|j: int| 0 <= j < s.len() && s[j].user == u;
            assert(t[j].user == u);
        }
    }
    assert forall|u: u64| u != p.user && seq_has_user(s, u) implies position_for(t, u)
        == position_for(s, u) by {
        let j1 = choose|j: int| 0 <= j < t.len() && t[j].user == u;
        let j2 = choose|j: int| 0 <= j < s.len() && s[j].user == u;
        assert(j1 != s.len());
        assert(s[j1].user == u);
        lemma_unique_index(s, j1, j2);
    }
}

/// Round-trip dust, never deficit: depositing `amount` into a ledger and
/// immediately withdrawing exactly the shares minted for it returns at most
/// `amount`; the floor-rounded difference stays in the pool as non-negative
/// dust. The deposit must not land in a pool that holds base value with no
/// shares outstanding: such stranded value would be captured by the first
/// depositor, whose round trip could then return more than it put in.
pub proof fn lemma_stake_round_trip(c: LiquidStakingContract, amount: u128)
    requires
        c.wf(),
        amount >= 1,
        c.total_vcspr_supply > 0 || c.total_cspr_staked == 0,
    ensures
        base_for_withdraw(
            c.total_cspr_staked as int + amount as int,
            c.total_vcspr_supply as int + shares_for_deposit(
                c.total_cspr_staked as int,
                c.total_vcspr_supply as int,
                amount as int,
            ),
            shares_for_deposit(
                c.total_cspr_staked as int,
                c.total_vcspr_supply as int,
                amount as int,
            ),
        ) <= amount as int,
{
    lemma_round_trip_bounded(
        c.total_cspr_staked as int,
        c.total_vcspr_supply as int,
        amount as int,
    );
}

/// Conservation: in a well-formed ledger the shares held across all
/// positions add up exactly to the outstanding supply, no single holder's
/// balance exceeds that supply, and even a withdrawal of a holder's entire
/// balance returns at most the base value the pool holds.
pub proof fn lemma_pool_covers_withdrawals(c: LiquidStakingContract, user: u64)
    requires
        c.wf(),
    ensures
        sum_shares(c.positions@) == c.total_vcspr_supply as int,
        c.balance_of(user) <= c.total_vcspr_supply as int,
        base_for_withdraw(
            c.total_cspr_staked as int,
            c.total_vcspr_supply as int,
            c.balance_of(user),
        ) <= c.total_cspr_staked as int,
{
    if c.has_position(user) {
        let i = choose|i: int|
            0 <= i < c.positions@.len() && c.positions@[i].user == user;
        lemma_elem_le_sum(c.positions@, i);
    }
    lemma_withdraw_bounds(
        c.total_cspr_staked as int,
        c.total_vcspr_supply as int,
        c.balance_of(user),
    );
}

/// Finds the index of `user`'s position, if one exists.
fn find_position(positions: &Vec<StakePosition>, user: u64) -> (r: Option<usize>)
    ensures
        match r {
            Some(i) => i < positions@.len() && positions@[i as int].user == user,
            None => !seq_has_user(positions@, user),
        },
{
    let mut i: usize = 0;
    while i < positions.len()
        invariant
            i <= positions@.len(),
            forall|j: int| 0 <= j < i ==> positions@[j].user != user,
        decreases positions@.len() - i,
    {
        if positions[i].user == user {
            return Some(i);
        }
        i = i + 1;
    }
    None
}

/// The proportional-share ledger: pool totals, per-depositor positions,
/// observational metrics and the administrator configuration.
pub struct LiquidStakingContract {
    pub total_cspr_staked: u128,
    pub total_vcspr_supply: u128,
    pub total_rewards_earned: u128,
    pub burn_metrics: BurnMetrics,
    pub owner: u64,
    pub paused: bool,
    pub min_stake_amount: u128,
    pub staking_apy: u32,
    pub last_accrual_time: u64,
    pub positions: Vec<StakePosition>,
}

impl LiquidStakingContract {
    /// The ledger's standing invariant: the pool totals are well formed
    /// (shares covered by base value, base value bounded) and — conservation —
    /// the shares held across all positions add up exactly to the supply.
    pub open spec fn wf(self) -> bool {
        &&& pool_wf(self.total_cspr_staked as int, self.total_vcspr_supply as int)
        &&& users_distinct(self.positions@)
        &&& sum_shares(self.positions@) == self.total_vcspr_supply as int
    }

    /// Whether `user` has a (possibly logically empty) position.
    pub open spec fn has_position(self, user: u64) -> bool {
        seq_has_user(self.positions@, user)
    }

    /// The position recorded for `user`.
    pub open spec fn position_of(self, user: u64) -> StakePosition {
        position_for(self.positions@, user)
    }

    /// Shares held by `user`: zero when no position exists.
    pub open spec fn balance_of(self, user: u64) -> int {
        if self.has_position(user) {
            self.position_of(user).vcspr_amount as int
        } else {
            0
        }
    }

    /// The ledger's current exchange rate, over its totals.
    pub open spec fn spec_rate(self) -> int {
        rate_of(self.total_cspr_staked as int, self.total_vcspr_supply as int)
    }

    /// Positions of all users other than `caller` read the same in `pre`
    /// and `post`.
    pub open spec fn others_unchanged(pre: Self, post: Self, caller: u64) -> bool {
        forall|u: u64|
            u != caller ==> {
                &&& (post.has_position(u) <==> pre.has_position(u))
                &&& (pre.has_position(u) ==> post.position_of(u) == pre.position_of(u))
            }
    }

    /// Whether one more transaction can be recorded in the metrics.
    pub open spec fn metrics_fit(self) -> bool {
        &&& self.burn_metrics.transactions_count < u64::MAX
        &&& self.burn_metrics.total_fees_burned + TX_FEE as int <= u128::MAX as int
    }

    /// A fresh ledger: administered by `owner`, unpaused, empty pool, with
    /// the default minimum deposit and yield parameter.
    pub fn init(owner: u64) -> (c: Self)
        ensures
            c.wf(),
            c.owner == owner,
            c.paused == false,
            c.total_cspr_staked == 0,
            c.total_vcspr_supply == 0,
            c.total_rewards_earned == 0,
            c.min_stake_amount == DEFAULT_MIN_STAKE,
            c.staking_apy == DEFAULT_STAKING_APY_BP,
            c.last_accrual_time == 0,
            c.positions@.len() == 0,
            c.burn_metrics == (BurnMetrics {
                total_fees_burned: 0,
                transactions_count: 0,
                last_burn_timestamp: 0,
            }),
    {
        LiquidStakingContract {
            total_cspr_staked: 0,
            total_vcspr_supply: 0,
            total_rewards_earned: 0,
            burn_metrics: BurnMetrics {
                total_fees_burned: 0,
                transactions_count: 0,
                last_burn_timestamp: 0,
            },
            owner,
            paused: false,
            min_stake_amount: DEFAULT_MIN_STAKE,
            staking_apy: DEFAULT_STAKING_APY_BP,
            last_accrual_time: 0,
            positions: Vec::new(),
        }
    }

    /// Records one transaction in the observational metrics.
    fn update_burn_metrics(&mut self, now: u64)
        requires
            old(self).metrics_fit(),
        ensures
            final(self).burn_metrics.transactions_count
                == old(self).burn_metrics.transactions_count + 1,
            final(self).burn_metrics.total_fees_burned
                == old(self).burn_metrics.total_fees_burned + TX_FEE,
            final(self).burn_metrics.last_burn_timestamp == now,
            final(self).total_cspr_staked == old(self).total_cspr_staked,
            final(self).total_vcspr_supply == old(self).total_vcspr_supply,
            final(self).total_rewards_earned == old(self).total_rewards_earned,
            final(self).owner == old(self).owner,
            final(self).paused == old(self).paused,
            final(self).min_stake_amount == old(self).min_stake_amount,
            final(self).staking_apy == old(self).staking_apy,
            final(self).last_accrual_time == old(self).last_accrual_time,
            final(self).positions@ == old(self).positions@,
    {
        let mut metrics = self.burn_metrics;
        metrics.transactions_count = metrics.transactions_count + 1;
        metrics.last_burn_timestamp = now;
        metrics.total_fees_burned = metrics.total_fees_burned + TX_FEE;
        self.burn_metrics = metrics;
    }

    /// The first failure a deposit of `amount` by `caller` would hit, if any.
    pub open spec fn stake_error(self, caller: u64, amount: u128) -> Option<StakingError> {
        if self.paused {
            Some(StakingError::Paused)
        } else if amount < self.min_stake_amount {
            Some(StakingError::InsufficientAmount)
        } else if self.total_cspr_staked as int + amount as int > MAX_POOL_VALUE as int {
            Some(StakingError::ArithmeticOverflow)
        } else if self.has_position(caller) && self.position_of(caller).cspr_amount as int
            + amount as int > u128::MAX as int {
            Some(StakingError::ArithmeticOverflow)
        } else if !self.metrics_fit() {
            Some(StakingError::ArithmeticOverflow)
        } else {
            None
        }
    }

    /// Deposits `amount` of base value for `caller` and mints shares at the
    /// current rate, floored. On success the pool grows by exactly `amount`,
    /// the caller's position absorbs the deposit, and everyone else's
    /// position is untouched.
    pub fn stake_cspr(&mut self, caller: u64, amount: u128, now: u64) -> (r: Result<
        u128,
        StakingError,
    >)
        requires
            old(self).wf(),
        ensures
            final(self).wf(),
            r is Ok <==> old(self).stake_error(caller, amount) is None,
            r matches Err(e) ==> Some(e) == old(self).stake_error(caller, amount)
                && *final(self) == *old(self),
            r matches Ok(minted) ==> {
                &&& minted as int == shares_for_deposit(
                    old(self).total_cspr_staked as int,
                    old(self).total_vcspr_supply as int,
                    amount as int,
                )
                &&& minted <= amount
                &&& final(self).total_cspr_staked == old(self).total_cspr_staked + amount
                &&& final(self).total_vcspr_supply == old(self).total_vcspr_supply + minted
                &&& final(self).has_position(caller)
                &&& final(self).balance_of(caller) == old(self).balance_of(caller) + minted
                &&& final(self).position_of(caller).cspr_amount as int == (if old(
                    self,
                ).has_position(caller) {
                    old(self).position_of(caller).cspr_amount as int
                } else {
                    0
                }) + amount as int
                &&& final(self).position_of(caller).timestamp == now
                &&& final(self).burn_metrics.transactions_count == old(
                    self,
                ).burn_metrics.transactions_count + 1
                &&& final(self).burn_metrics.total_fees_burned == old(
                    self,
                ).burn_metrics.total_fees_burned + TX_FEE
                &&& final(self).burn_metrics.last_burn_timestamp == now
            },
            Self::others_unchanged(*old(self), *final(self), caller),
            final(self).owner == old(self).owner,
            final(self).paused == old(self).paused,
            final(self).min_stake_amount == old(self).min_stake_amount,
            final(self).staking_apy == old(self).staking_apy,
            final(self).total_rewards_earned == old(self).total_rewards_earned,
            final(self).last_accrual_time == old(self).last_accrual_time,
    {
        if self.paused {
            return Err(StakingError::Paused);
        }
        if amount < self.min_stake_amount {
            return Err(StakingError::InsufficientAmount);
        }
        if amount > MAX_POOL_VALUE - self.total_cspr_staked {
            return Err(StakingError::ArithmeticOverflow);
        }
        let idx_opt = find_position(&self.positions, caller);
        let old_cspr: u128 = match idx_opt {
            Some(i) => {
                proof {
                    lemma_position_for_at(self.positions@, i as int);
                }
                self.positions[i].cspr_amount
            },
            None => 0,
        };
        if amount > u128::MAX - old_cspr {
            return Err(StakingError::ArithmeticOverflow);
        }
        if self.burn_metrics.transactions_count == u64::MAX {
            return Err(StakingError::ArithmeticOverflow);
        }
        if TX_FEE > u128::MAX - self.burn_metrics.total_fees_burned {
            return Err(StakingError::ArithmeticOverflow);
        }
        let minted = compute_shares_to_mint(
            self.total_cspr_staked,
            self.total_vcspr_supply,
            amount,
        );
        match idx_opt {
            Some(i) => {
                proof {
                    lemma_position_for_at(self.positions@, i as int);
                    lemma_elem_le_sum(self.positions@, i as int);
                }
                let mut p = self.positions[i];
                p.cspr_amount = p.cspr_amount + amount;
                p.vcspr_amount = p.vcspr_amount + minted;
                p.timestamp = now;
                proof {
                    lemma_sum_shares_update(self.positions@, i as int, p);
                    lemma_update_preserves_others(self.positions@, i as int, p);
                    lemma_position_for_at(self.positions@.update(i as int, p), i as int);
                }
                self.positions.set(i, p);
            },
            None => {
                let p = StakePosition {
                    user: caller,
                    cspr_amount: amount,
                    vcspr_amount: minted,
                    timestamp: now,
                    rewards_earned: 0,
                };
                proof {
                    lemma_sum_shares_push(self.positions@, p);
                    lemma_push_preserves_others(self.positions@, p);
                }
                self.positions.push(p);
            },
        }
        self.total_cspr_staked = self.total_cspr_staked + amount;
        self.total_vcspr_supply = self.total_vcspr_supply + minted;
        self.update_burn_metrics(now);
        Ok(minted)
    }

    /// The first failure a withdrawal of `shares` by `caller` would hit,
    /// if any.
    pub open spec fn unstake_error(self, caller: u64, shares: u128) -> Option<StakingError> {
        if self.paused {
            Some(StakingError::Paused)
        } else if self.balance_of(caller) < shares as int {
            Some(StakingError::InsufficientShares)
        } else if !self.metrics_fit() {
            Some(StakingError::ArithmeticOverflow)
        } else {
            None
        }
    }

    /// Burns `vcspr_amount` of the caller's shares and returns base value at
    /// the current rate, floored. The pool never returns more than it holds,
    /// and what remains still covers every outstanding share. The historical
    /// `cspr_amount` of the position is reduced by the returned value, not
    /// below zero.
    pub fn unstake_cspr(&mut self, caller: u64, vcspr_amount: u128, now: u64) -> (r: Result<
        u128,
        StakingError,
    >)
        requires
            old(self).wf(),
        ensures
            final(self).wf(),
            r is Ok <==> old(self).unstake_error(caller, vcspr_amount) is None,
            r matches Err(e) ==> Some(e) == old(self).unstake_error(caller, vcspr_amount)
                && *final(self) == *old(self),
            r matches Ok(ret) ==> {
                &&& ret as int == base_for_withdraw(
                    old(self).total_cspr_staked as int,
                    old(self).total_vcspr_supply as int,
                    vcspr_amount as int,
                )
                &&& ret <= old(self).total_cspr_staked
                &&& final(self).total_cspr_staked == old(self).total_cspr_staked - ret
                &&& final(self).total_vcspr_supply == old(self).total_vcspr_supply
                    - vcspr_amount
                &&& final(self).balance_of(caller) == old(self).balance_of(caller)
                    - vcspr_amount
                &&& (old(self).has_position(caller) ==> {
                    &&& final(self).has_position(caller)
                    &&& final(self).position_of(caller).cspr_amount as int == (if ret as int
                        <= old(self).position_of(caller).cspr_amount as int {
                        old(self).position_of(caller).cspr_amount - ret
                    } else {
                        0
                    })
                    &&& final(self).position_of(caller).timestamp == old(self).position_of(
                        caller,
                    ).timestamp
                })
                &&& final(self).burn_metrics.transactions_count == old(
                    self,
                ).burn_metrics.transactions_count + 1
                &&& final(self).burn_metrics.last_burn_timestamp == now
            },
            Self::others_unchanged(*old(self), *final(self), caller),
            final(self).owner == old(self).owner,
            final(self).paused == old(self).paused,
            final(self).min_stake_amount == old(self).min_stake_amount,
            final(self).staking_apy == old(self).staking_apy,
            final(self).total_rewards_earned == old(self).total_rewards_earned,
            final(self).last_accrual_time == old(self).last_accrual_time,
    {
        if self.paused {
            return Err(StakingError::Paused);
        }
        let idx_opt = find_position(&self.positions, caller);
        match idx_opt {
            None => {
                if vcspr_amount > 0 {
                    return Err(StakingError::InsufficientShares);
                }
                if self.burn_metrics.transactions_count == u64::MAX {
                    return Err(StakingError::ArithmeticOverflow);
                }
                if TX_FEE > u128::MAX - self.burn_metrics.total_fees_burned {
                    return Err(StakingError::ArithmeticOverflow);
                }
                let ret = compute_base_to_return(
                    self.total_cspr_staked,
                    self.total_vcspr_supply,
                    0,
                );
                self.update_burn_metrics(now);
                Ok(ret)
            },
            Some(i) => {
                proof {
                    lemma_position_for_at(self.positions@, i as int);
                }
                let p = self.positions[i];
                if vcspr_amount > p.vcspr_amount {
                    return Err(StakingError::InsufficientShares);
                }
                if self.burn_metrics.transactions_count == u64::MAX {
                    return Err(StakingError::ArithmeticOverflow);
                }
                if TX_FEE > u128::MAX - self.burn_metrics.total_fees_burned {
                    return Err(StakingError::ArithmeticOverflow);
                }
                proof {
                    lemma_elem_le_sum(self.positions@, i as int);
                }
                let ret = compute_base_to_return(
                    self.total_cspr_staked,
                    self.total_vcspr_supply,
                    vcspr_amount,
                );
                let mut np = p;
                np.vcspr_amount = p.vcspr_amount - vcspr_amount;
                np.cspr_amount = if ret <= p.cspr_amount {
                    p.cspr_amount - ret
                } else {
                    0
                };
                proof {
                    lemma_sum_shares_update(self.positions@, i as int, np);
                    lemma_update_preserves_others(self.positions@, i as int, np);
                    lemma_position_for_at(self.positions@.update(i as int, np), i as int);
                }
                self.positions.set(i, np);
                self.total_cspr_staked = self.total_cspr_staked - ret;
                self.total_vcspr_supply = self.total_vcspr_supply - vcspr_amount;
                self.update_burn_metrics(now);
                Ok(ret)
            },
        }
    }

    /// The first failure an accrual of `amount` by `caller` would hit, if any.
    pub open spec fn accrue_error(self, caller: u64, amount: u128) -> Option<StakingError> {
        if caller != self.owner {
            Some(StakingError::Unauthorized)
        } else if self.total_vcspr_supply > 0 && self.total_cspr_staked as int + amount as int
            > MAX_POOL_VALUE as int {
            Some(StakingError::ArithmeticOverflow)
        } else {
            None
        }
    }

    /// Grows the pool's base total by `amount` without minting shares: the
    /// sole mechanism by which the exchange rate rises. Administrator-only.
    /// A no-op while no shares are outstanding, so a rate is never derived
    /// from an uncovered pool. The rate never decreases, and rises strictly
    /// once the accrued amount reaches one `SCALE` unit per outstanding
    /// share.
    pub fn accrue_yield(&mut self, caller: u64, amount: u128) -> (r: Result<(), StakingError>)
        requires
            old(self).wf(),
        ensures
            final(self).wf(),
            r is Ok <==> old(self).accrue_error(caller, amount) is None,
            r matches Err(e) ==> Some(e) == old(self).accrue_error(caller, amount)
                && *final(self) == *old(self),
            r is Ok && old(self).total_vcspr_supply == 0 ==> *final(self) == *old(self),
            r is Ok && old(self).total_vcspr_supply > 0 ==> {
                &&& final(self).total_cspr_staked == old(self).total_cspr_staked + amount
                &&& final(self).total_vcspr_supply == old(self).total_vcspr_supply
                &&& final(self).positions@ == old(self).positions@
            },
            r is Ok ==> final(self).spec_rate() >= old(self).spec_rate(),
            r is Ok && old(self).total_vcspr_supply > 0 && amount as int * SCALE as int >= old(
                self,
            ).total_vcspr_supply as int ==> final(self).spec_rate() > old(self).spec_rate(),
            final(self).owner == old(self).owner,
            final(self).paused == old(self).paused,
            final(self).burn_metrics == old(self).burn_metrics,
            final(self).total_rewards_earned == old(self).total_rewards_earned,
            final(self).min_stake_amount == old(self).min_stake_amount,
            final(self).staking_apy == old(self).staking_apy,
            final(self).last_accrual_time == old(self).last_accrual_time,
    {
        if caller != self.owner {
            return Err(StakingError::Unauthorized);
        }
        if self.total_vcspr_supply == 0 {
            return Ok(());
        }
        if amount > MAX_POOL_VALUE - self.total_cspr_staked {
            return Err(StakingError::ArithmeticOverflow);
        }
        proof {
            lemma_accrue_raises_rate(
                self.total_cspr_staked as int,
                self.total_vcspr_supply as int,
                amount as int,
            );
        }
        self.total_cspr_staked = self.total_cspr_staked + amount;
        Ok(())
    }

    /// The yield owed for one period at the configured rate: the per-period
    /// basis points (truncated) applied to the pool total (truncated).
    pub open spec fn periodic_yield(self) -> int {
        (self.total_cspr_staked as int) * (self.staking_apy as int / PERIODS_PER_YEAR as int)
            / 10000
    }

    /// The first failure a rewards update by `caller` at `now` would hit,
    /// if any.
    pub open spec fn rewards_error(self, caller: u64, now: u64) -> Option<StakingError> {
        if caller != self.owner {
            Some(StakingError::Unauthorized)
        } else if self.total_vcspr_supply == 0 {
            None
        } else if now as int / PERIOD_MILLIS as int <= self.last_accrual_time as int
            / PERIOD_MILLIS as int {
            Some(StakingError::TooSoon)
        } else if self.total_cspr_staked as int + self.periodic_yield() > MAX_POOL_VALUE as int {
            Some(StakingError::ArithmeticOverflow)
        } else if self.total_rewards_earned as int + self.periodic_yield() > u128::MAX as int {
            Some(StakingError::ArithmeticOverflow)
        } else {
            None
        }
    }

    /// Computes one period's yield and accrues it into the pool total,
    /// raising the rate for all holders. Administrator-only, gated to at
    /// most one accrual per period boundary: a second call within the same
    /// period is rejected with `TooSoon` rather than double-counting.
    /// A no-op while no shares are outstanding.
    pub fn update_rewards(&mut self, caller: u64, now: u64) -> (r: Result<u128, StakingError>)
        requires
            old(self).wf(),
        ensures
            final(self).wf(),
            r is Ok <==> old(self).rewards_error(caller, now) is None,
            r matches Err(e) ==> Some(e) == old(self).rewards_error(caller, now)
                && *final(self) == *old(self),
            r is Ok && old(self).total_vcspr_supply == 0 ==> r == Ok::<u128, StakingError>(0)
                && *final(self) == *old(self),
            r matches Ok(y) ==> old(self).total_vcspr_supply == 0 || {
                &&& y as int == old(self).periodic_yield()
                &&& final(self).total_cspr_staked == old(self).total_cspr_staked + y
                &&& final(self).total_vcspr_supply == old(self).total_vcspr_supply
                &&& final(self).total_rewards_earned == old(self).total_rewards_earned + y
                &&& final(self).last_accrual_time == now
                &&& final(self).positions@ == old(self).positions@
            },
            r is Ok ==> final(self).spec_rate() >= old(self).spec_rate(),
            final(self).owner == old(self).owner,
            final(self).paused == old(self).paused,
            final(self).burn_metrics == old(self).burn_metrics,
            final(self).min_stake_amount == old(self).min_stake_amount,
            final(self).staking_apy == old(self).staking_apy,
    {
        if caller != self.owner {
            return Err(StakingError::Unauthorized);
        }
        if self.total_vcspr_supply == 0 {
            return Ok(0);
        }
        if now / PERIOD_MILLIS <= self.last_accrual_time / PERIOD_MILLIS {
            return Err(StakingError::TooSoon);
        }
        let daily_bp: u32 = self.staking_apy / PERIODS_PER_YEAR;
        proof {
            vstd::arithmetic::mul::lemma_mul_upper_bound(
                self.total_cspr_staked as int,
                MAX_POOL_VALUE as int,
                daily_bp as int,
                u32::MAX as int,
            );
        }
        let rewards = self.total_cspr_staked * (daily_bp as u128) / 10000;
        if rewards > MAX_POOL_VALUE - self.total_cspr_staked {
            return Err(StakingError::ArithmeticOverflow);
        }
        if rewards > u128::MAX - self.total_rewards_earned {
            return Err(StakingError::ArithmeticOverflow);
        }
        proof {
            lemma_accrue_raises_rate(
                self.total_cspr_staked as int,
                self.total_vcspr_supply as int,
                rewards as int,
            );
        }
        self.total_cspr_staked = self.total_cspr_staked + rewards;
        self.total_rewards_earned = self.total_rewards_earned + rewards;
        self.last_accrual_time = now;
        Ok(rewards)
    }

    /// The position recorded for `user`, if any.
    pub fn get_user_position(&self, user: u64) -> (r: Option<StakePosition>)
        requires
            self.wf(),
        ensures
            r == if self.has_position(user) {
                Some(self.position_of(user))
            } else {
                None::<StakePosition>
            },
    {
        match find_position(&self.positions, user) {
            Some(i) => {
                proof {
                    lemma_position_for_at(self.positions@, i as int);
                }
                Some(self.positions[i])
            },
            None => None,
        }
    }

    /// Shares currently held by `user`; zero when no position exists.
    pub fn get_vcspr_balance(&self, user: u64) -> (r: u128)
        requires
            self.wf(),
        ensures
            r as int == self.balance_of(user),
    {
        match find_position(&self.positions, user) {
            Some(i) => {
                proof {
                    lemma_position_for_at(self.positions@, i as int);
                }
                self.positions[i].vcspr_amount
            },
            None => 0,
        }
    }

    /// The current exchange rate, derived from the pool totals: `SCALE`
    /// while no shares are outstanding.
    pub fn get_exchange_rate(&self) -> (r: u128)
        requires
            self.wf(),
        ensures
            r as int == self.spec_rate(),
    {
        compute_rate(self.total_cspr_staked, self.total_vcspr_supply)
    }

    /// The pool's total base value.
    pub fn get_total_staked(&self) -> (r: u128)
        ensures
            r == self.total_cspr_staked,
    {
        self.total_cspr_staked
    }

    /// The outstanding share supply.
    pub fn get_vcspr_supply(&self) -> (r: u128)
        ensures
            r == self.total_vcspr_supply,
    {
        self.total_vcspr_supply
    }

    /// The observational burn metrics.
    pub fn get_burn_metrics(&self) -> (r: BurnMetrics)
        ensures
            r == self.burn_metrics,
    {
        self.burn_metrics
    }

    /// The configured yield parameter, in basis points.
    pub fn calculate_apy(&self) -> (r: u32)
        ensures
            r == self.staking_apy,
    {
        self.staking_apy
    }

    /// Pauses deposits and withdrawals. Administrator-only.
    pub fn pause(&mut self, caller: u64) -> (r: Result<(), StakingError>)
        requires
            old(self).wf(),
        ensures
            final(self).wf(),
            r is Ok <==> caller == old(self).owner,
            r is Err ==> r == Err::<(), StakingError>(StakingError::Unauthorized) && *final(self)
                == *old(self),
            r is Ok ==> *final(self) == (LiquidStakingContract { paused: true, ..*old(self) }),
    {
        if caller != self.owner {
            return Err(StakingError::Unauthorized);
        }
        self.paused = true;
        Ok(())
    }

    /// Lifts a pause. Administrator-only.
    pub fn unpause(&mut self, caller: u64) -> (r: Result<(), StakingError>)
        requires
            old(self).wf(),
        ensures
            final(self).wf(),
            r is Ok <==> caller == old(self).owner,
            r is Err ==> r == Err::<(), StakingError>(StakingError::Unauthorized) && *final(self)
                == *old(self),
            r is Ok ==> *final(self) == (LiquidStakingContract { paused: false, ..*old(self) }),
    {
        if caller != self.owner {
            return Err(StakingError::Unauthorized);
        }
        self.paused = false;
        Ok(())
    }
}

} // verus!
