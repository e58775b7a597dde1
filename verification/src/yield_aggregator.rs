//! The strategy allocator: a set of independently parameterized sub-pools
//! ("strategies"), each with its own yield parameter, deposit total and
//! implicit share count, with positions keyed by depositor and strategy.
//!
//! Strategies are append-only: once registered they are never removed, only
//! deactivated. Deactivation blocks new deposits but never withdrawals —
//! depositors can always exit. Each strategy's sub-pool obeys the same
//! conservation and coverage invariants as the main ledger.

use vstd::prelude::*;
use crate::pool::{
    base_for_withdraw, compute_base_to_return, compute_shares_to_mint, lemma_withdraw_bounds,
    pool_wf, shares_for_deposit,
};
use crate::types::{StakingError, YieldStrategy, MAX_POOL_VALUE};
use crate::liquid_staking::DEFAULT_MIN_STAKE;

verus! {

/// One depositor's stake in one strategy: historical base contributed and
/// shares currently held in that strategy's sub-pool.
#[derive(Clone, Copy, PartialEq, Eq, Structural, Debug)]
pub struct StrategyPosition {
    pub user: u64,
    pub strategy_id: u32,
    pub base_contributed: u128,
    pub shares: u128,
}

/// A registered strategy together with its sub-pool's outstanding shares.
#[derive(PartialEq, Eq, Debug)]
pub struct StrategyEntry {
    pub strategy: YieldStrategy,
    pub total_shares: u128,
}

/// Total shares held in strategy `sid` across a sequence of positions.
pub open spec fn sum_shares_for(s: Seq<StrategyPosition>, sid: u32) -> int
    decreases s.len(),
{
    if s.len() == 0 {
        0
    } else {
        sum_shares_for(s.drop_last(), sid) + if s.last().strategy_id == sid {
            s.last().shares as int
        } else {
            0
        }
    }
}

/// No two positions share the same (depositor, strategy) key.
pub open spec fn keys_distinct(s: Seq<StrategyPosition>) -> bool {
    forall|i: int, j: int|
        0 <= i < j < s.len() ==> !(s[i].user == s[j].user && s[i].strategy_id
            == s[j].strategy_id)
}

/// Whether some position in `s` is keyed by (`user`, `sid`).
pub open spec fn seq_has_key(s: Seq<StrategyPosition>, user: u64, sid: u32) -> bool {
    exists|i: int| 0 <= i < s.len() && s[i].user == user && s[i].strategy_id == sid
}

/// The position keyed by (`user`, `sid`); meaningful when `seq_has_key`
/// holds and the keys of `s` are distinct.
pub open spec fn position_for_key(s: Seq<StrategyPosition>, user: u64, sid: u32)
    -> StrategyPosition {
    s[choose|i: int| 0 <= i < s.len() && s[i].user == user && s[i].strategy_id == sid]
}

proof fn lemma_sum_for_nonneg(s: Seq<StrategyPosition>, sid: u32)
    ensures
        sum_shares_for(s, sid) >= 0,
    decreases s.len(),
{
    if s.len() > 0 {
        lemma_sum_for_nonneg(s.drop_last(), sid);
    }
}

proof fn lemma_sum_for_push(s: Seq<StrategyPosition>, p: StrategyPosition, sid: u32)
    ensures
        sum_shares_for(s.push(p), sid) == sum_shares_for(s, sid) + if p.strategy_id == sid {
            p.shares as int
        } else {
            0
        },
{
    assert(s.push(p).drop_last() =~= s);
}

proof fn lemma_sum_for_update(s: Seq<StrategyPosition>, i: int, p: StrategyPosition, sid: u32)
    requires
        0 <= i < s.len(),
    ensures
        sum_shares_for(s.update(i, p), sid) == sum_shares_for(s, sid) - (if s[i].strategy_id
            == sid {
            s[i].shares as int
        } else {
            0
        }) + (if p.strategy_id == sid {
            p.shares as int
        } else {
            0
        }),
    decreases s.len(),
{
    if i == s.len() - 1 {
        assert(s.update(i, p).drop_last() =~= s.drop_last());
    } else {
        assert(s.update(i, p).drop_last() =~= s.drop_last().update(i, p));
        lemma_sum_for_update(s.drop_last(), i, p, sid);
    }
}

/// A position in strategy `sid` never holds more shares than that
/// strategy's whole sum.
proof fn lemma_elem_le_sum_for(s: Seq<StrategyPosition>, i: int)
    requires
        0 <= i < s.len(),
    ensures
        s[i].shares as int <= sum_shares_for(s, s[i].strategy_id),
    decreases s.len(),
{
    if i == s.len() - 1 {
        lemma_sum_for_nonneg(s.drop_last(), s[i].strategy_id);
    } else {
        lemma_elem_le_sum_for(s.drop_last(), i);
    }
}

/// A strategy id that no position references has a zero share sum.
proof fn lemma_sum_for_absent(s: Seq<StrategyPosition>, sid: u32)
    requires
        forall|i: int| 0 <= i < s.len() ==> s[i].strategy_id != sid,
    ensures
        sum_shares_for(s, sid) == 0,
    decreases s.len(),
{
    if s.len() > 0 {
        lemma_sum_for_absent(s.drop_last(), sid);
    }
}

/// With distinct keys, the index of a given (user, strategy) key is unique.
proof fn lemma_unique_key_index(s: Seq<StrategyPosition>, i: int, j: int)
    requires
        keys_distinct(s),
        0 <= i < s.len(),
        0 <= j < s.len(),
        s[i].user == s[j].user,
        s[i].strategy_id == s[j].strategy_id,
    ensures
        i == j,
{
}

/// Ties an index with its key's looked-up position.
proof fn lemma_position_for_key_at(s: Seq<StrategyPosition>, i: int)
    requires
        keys_distinct(s),
        0 <= i < s.len(),
    ensures
        seq_has_key(s, s[i].user, s[i].strategy_id),
        position_for_key(s, s[i].user, s[i].strategy_id) == s[i],
{
    let u = s[i].user;
    let sid = s[i].strategy_id;
    assert(seq_has_key(s, u, sid));
    let j = choose|j: int| 0 <= j < s.len() && s[j].user == u && s[j].strategy_id == sid;
    lemma_unique_key_index(s, i, j);
}

/// All lookups of keys other than `s[i]`'s are unaffected by replacing the
/// entry at `i`.
proof fn lemma_key_update_preserves_others(s: Seq<StrategyPosition>, i: int, p: StrategyPosition)
    requires
        keys_distinct(s),
        0 <= i < s.len(),
        p.user == s[i].user,
        p.strategy_id == s[i].strategy_id,
    ensures
        keys_distinct(s.update(i, p)),
        forall|u: u64, sid: u32|
            !(u == p.user && sid == p.strategy_id) ==> (seq_has_key(s.update(i, p), u, sid)
                <==> seq_has_key(s, u, sid)),
        forall|u: u64, sid: u32|
            !(u == p.user && sid == p.strategy_id) && seq_has_key(s, u, sid)
                ==> position_for_key(s.update(i, p), u, sid) == position_for_key(s, u, sid),
{
    let t = s.update(i, p);
    assert forall|u: u64, sid: u32| !(u == p.user && sid == p.strategy_id) implies (seq_has_key(
        t,
        u,
        sid,
    ) <==> seq_has_key(s, u, sid)) by {
        if seq_has_key(t, u, sid) {
            let j = choose|j: int| 0 <= j < t.len() && t[j].user == u && t[j].strategy_id == sid;
            assert(j != i);
            assert(s[j].user == u && s[j].strategy_id == sid);
        }
        if seq_has_key(s, u, sid) {
            let j = choose|j: int| 0 <= j < s.len() && s[j].user == u && s[j].strategy_id == sid;
            assert(j != i);
            assert(t[j].user == u && t[j].strategy_id == sid);
        }
    }
    assert forall|u: u64, sid: u32|
        !(u == p.user && sid == p.strategy_id) && seq_has_key(s, u, sid) implies position_for_key(
        t,
        u,
        sid,
    ) == position_for_key(s, u, sid) by {
        let j1 = choose|j: int| 0 <= j < t.len() && t[j].user == u && t[j].strategy_id == sid;
        let j2 = choose|j: int| 0 <= j < s.len() && s[j].user == u && s[j].strategy_id == sid;
        assert(j1 != i);
        assert(s[j1].user == u && s[j1].strategy_id == sid);
        lemma_unique_key_index(s, j1, j2);
    }
}

/// All lookups of keys other than `p`'s are unaffected by appending `p`.
proof fn lemma_key_push_preserves_others(s: Seq<StrategyPosition>, p: StrategyPosition)
    requires
        keys_distinct(s),
        !seq_has_key(s, p.user, p.strategy_id),
    ensures
        keys_distinct(s.push(p)),
        seq_has_key(s.push(p), p.user, p.strategy_id),
        position_for_key(s.push(p), p.user, p.strategy_id) == p,
        forall|u: u64, sid: u32|
            !(u == p.user && sid == p.strategy_id) ==> (seq_has_key(s.push(p), u, sid)
                <==> seq_has_key(s, u, sid)),
        forall|u: u64, sid: u32|
            !(u == p.user && sid == p.strategy_id) && seq_has_key(s, u, sid)
                ==> position_for_key(s.push(p), u, sid) == position_for_key(s, u, sid),
{
    let t = s.push(p);
    assert forall|i: int, j: int| 0 <= i < j < t.len() implies !(t[i].user == t[j].user
        && t[i].strategy_id == t[j].strategy_id) by {
        if j == s.len() {
            assert(t[i] == s[i]);
        }
    }
    assert(t[s.len() as int] == p);
    lemma_position_for_key_at(t, s.len() as int);
    assert forall|u: u64, sid: u32| !(u == p.user && sid == p.strategy_id) implies (seq_has_key(
        t,
        u,
        sid,
    ) <==> seq_has_key(s, u, sid)) by {
        if seq_has_key(t, u, sid) {
            let j = choose|j: int| 0 <= j < t.len() && t[j].user == u && t[j].strategy_id == sid;
            assert(j != s.len());
            assert(s[j].user == u && s[j].strategy_id == sid);
        }
        if seq_has_key(s, u, sid) {
            let j = choose|j: int| 0 <= j < s.len() && s[j].user == u && s[j].strategy_id == sid;
            assert(t[j].user == u && t[j].strategy_id == sid);
        }
    }
    assert forall|u: u64, sid: u32|
        !(u == p.user && sid == p.strategy_id) && seq_has_key(s, u, sid) implies position_for_key(
        t,
        u,
        sid,
    ) == position_for_key(s, u, sid) by {
        let j1 = choose|j: int| 0 <= j < t.len() && t[j].user == u && t[j].strategy_id == sid;
        let j2 = choose|j: int| 0 <= j < s.len() && s[j].user == u && s[j].strategy_id == sid;
        assert(j1 != s.len());
        assert(s[j1].user == u && s[j1].strategy_id == sid);
        lemma_unique_key_index(s, j1, j2);
    }
}

/// Conservation per strategy: in a well-formed allocator the shares held
/// across a strategy's positions add up exactly to that strategy's
/// outstanding shares, no single position exceeds them, and even a
/// withdrawal of a depositor's entire stake returns at most the base value
/// that strategy's sub-pool holds.
pub proof fn lemma_strategy_pool_covers_withdrawals(
    a: YieldAggregatorContract,
    user: u64,
    sid: u32,
)
    requires
        a.wf(),
        a.sid_registered(sid),
    ensures
        sum_shares_for(a.positions@, sid) == a.entry_for(sid).total_shares as int,
        a.balance_of(user, sid) <= a.entry_for(sid).total_shares as int,
        base_for_withdraw(
            a.entry_for(sid).strategy.total_deposited as int,
            a.entry_for(sid).total_shares as int,
            a.balance_of(user, sid),
        ) <= a.entry_for(sid).strategy.total_deposited as int,
{
    let k = choose|k: int|
        0 <= k < a.strategies@.len() && a.strategies@[k].strategy.id == sid;
    assert(sum_shares_for(a.positions@, a.strategies@[k].strategy.id)
        == a.strategies@[k].total_shares as int);
    if a.has_position(user, sid) {
        let i = choose|i: int|
            0 <= i < a.positions@.len() && a.positions@[i].user == user
                && a.positions@[i].strategy_id == sid;
        lemma_elem_le_sum_for(a.positions@, i);
    }
    lemma_withdraw_bounds(
        a.entry_for(sid).strategy.total_deposited as int,
        a.entry_for(sid).total_shares as int,
        a.balance_of(user, sid),
    );
}

/// Finds the index of the position keyed by (`user`, `sid`), if any.
fn find_key(positions: &Vec<StrategyPosition>, user: u64, sid: u32) -> (r: Option<usize>)
    ensures
        match r {
            Some(i) => i < positions@.len() && positions@[i as int].user == user
                && positions@[i as int].strategy_id == sid,
            None => !seq_has_key(positions@, user, sid),
        },
{
    let mut i: usize = 0;
    while i < positions.len()
        invariant
            i <= positions@.len(),
            forall|j: int|
                0 <= j < i ==> !(positions@[j].user == user && positions@[j].strategy_id == sid),
        decreases positions@.len() - i,
    {
        if positions[i].user == user && positions[i].strategy_id == sid {
            return Some(i);
        }
        i = i + 1;
    }
    None
}

/// Finds the index of the strategy with id `sid`, if any.
fn find_strategy(strategies: &Vec<StrategyEntry>, sid: u32) -> (r: Option<usize>)
    ensures
        match r {
            Some(k) => k < strategies@.len() && strategies@[k as int].strategy.id == sid,
            None => forall|k: int|
                0 <= k < strategies@.len() ==> strategies@[k].strategy.id != sid,
        },
{
    let mut k: usize = 0;
    while k < strategies.len()
        invariant
            k <= strategies@.len(),
            forall|j: int| 0 <= j < k ==> strategies@[j].strategy.id != sid,
        decreases strategies@.len() - k,
    {
        if strategies[k].strategy.id == sid {
            return Some(k);
        }
        k = k + 1;
    }
    None
}

/// The strategy allocator: registered strategies with their sub-pool
/// totals, and positions keyed by depositor and strategy.
pub struct YieldAggregatorContract {
    pub owner: u64,
    pub min_deposit: u128,
    pub strategies: Vec<StrategyEntry>,
    pub positions: Vec<StrategyPosition>,
}

impl YieldAggregatorContract {
    /// Strategy ids are unique.
    pub open spec fn ids_distinct(self) -> bool {
        forall|i: int, j: int|
            0 <= i < j < self.strategies@.len() ==> self.strategies@[i].strategy.id
                != self.strategies@[j].strategy.id
    }

    /// The allocator's standing invariant: unique strategy ids, unique
    /// position keys, every position referencing a registered strategy, and
    /// for each strategy a well-formed sub-pool whose outstanding shares are
    /// exactly the shares held across its positions.
    pub open spec fn wf(self) -> bool {
        &&& self.ids_distinct()
        &&& keys_distinct(self.positions@)
        &&& forall|j: int|
            0 <= j < self.positions@.len() ==> self.sid_registered(
                self.positions@[j].strategy_id,
            )
        &&& forall|k: int|
            0 <= k < self.strategies@.len() ==> pool_wf(
                #[trigger] self.strategies@[k].strategy.total_deposited as int,
                self.strategies@[k].total_shares as int,
            )
        &&& forall|k: int|
            0 <= k < self.strategies@.len() ==> sum_shares_for(
                self.positions@,
                #[trigger] self.strategies@[k].strategy.id,
            ) == self.strategies@[k].total_shares as int
    }

    /// Whether a strategy with id `sid` was ever registered.
    pub open spec fn sid_registered(self, sid: u32) -> bool {
        exists|k: int| 0 <= k < self.strategies@.len() && self.strategies@[k].strategy.id == sid
    }

    /// The entry of the strategy with id `sid`.
    pub open spec fn entry_for(self, sid: u32) -> StrategyEntry {
        self.strategies@[choose|k: int|
            0 <= k < self.strategies@.len() && self.strategies@[k].strategy.id == sid]
    }

    /// Whether `user` has a position in strategy `sid`.
    pub open spec fn has_position(self, user: u64, sid: u32) -> bool {
        seq_has_key(self.positions@, user, sid)
    }

    /// The position of `user` in strategy `sid`.
    pub open spec fn position_of(self, user: u64, sid: u32) -> StrategyPosition {
        position_for_key(self.positions@, user, sid)
    }

    /// Shares held by `user` in strategy `sid`; zero when no position
    /// exists.
    pub open spec fn balance_of(self, user: u64, sid: u32) -> int {
        if self.has_position(user, sid) {
            self.position_of(user, sid).shares as int
        } else {
            0
        }
    }

    /// Positions of all keys other than (`caller`, `sid`) read the same in
    /// `pre` and `post`.
    pub open spec fn others_unchanged(pre: Self, post: Self, caller: u64, sid: u32) -> bool {
        forall|u: u64, s: u32|
            !(u == caller && s == sid) ==> {
                &&& (post.has_position(u, s) <==> pre.has_position(u, s))
                &&& (pre.has_position(u, s) ==> post.position_of(u, s) == pre.position_of(u, s))
            }
    }

    /// A fresh allocator administered by `owner`, with no strategies and the
    /// default minimum deposit.
    pub fn init(owner: u64) -> (c: Self)
        ensures
            c.wf(),
            c.owner == owner,
            c.min_deposit == DEFAULT_MIN_STAKE,
            c.strategies@.len() == 0,
            c.positions@.len() == 0,
    {
        YieldAggregatorContract {
            owner,
            min_deposit: DEFAULT_MIN_STAKE,
            strategies: Vec::new(),
            positions: Vec::new(),
        }
    }

    /// The first failure registering strategy `id` by `caller` would hit,
    /// if any.
    pub open spec fn register_error(self, caller: u64, id: u32) -> Option<StakingError> {
        if caller != self.owner {
            Some(StakingError::Unauthorized)
        } else if self.sid_registered(id) {
            Some(StakingError::DuplicateId)
        } else {
            None
        }
    }

    /// Registers a new strategy with its own yield parameter and activity
    /// flag, and an empty sub-pool. Administrator-only; ids are never
    /// reused.
    pub fn register_strategy(
        &mut self,
        caller: u64,
        id: u32,
        name: String,
        apy_bp: u32,
        initially_active: bool,
    ) -> (r: Result<(), StakingError>)
        requires
            old(self).wf(),
        ensures
            final(self).wf(),
            r is Ok <==> old(self).register_error(caller, id) is None,
            r matches Err(e) ==> Some(e) == old(self).register_error(caller, id) && *final(self)
                == *old(self),
            r is Ok ==> {
                &&& final(self).sid_registered(id)
                &&& final(self).entry_for(id).strategy.id == id
                &&& final(self).entry_for(id).strategy.apy == apy_bp
                &&& final(self).entry_for(id).strategy.name@ == name@
                &&& final(self).entry_for(id).strategy.total_deposited == 0
                &&& final(self).entry_for(id).strategy.is_active == initially_active
                &&& final(self).entry_for(id).total_shares == 0
                &&& final(self).strategies@.len() == old(self).strategies@.len() + 1
                &&& forall|sid: u32|
                    sid != id ==> (final(self).sid_registered(sid) <==> old(
                        self,
                    ).sid_registered(sid))
                &&& forall|sid: u32|
                    sid != id && old(self).sid_registered(sid) ==> final(self).entry_for(sid)
                        == old(self).entry_for(sid)
            },
            final(self).positions@ == old(self).positions@,
            final(self).owner == old(self).owner,
            final(self).min_deposit == old(self).min_deposit,
    {
        if caller != self.owner {
            return Err(StakingError::Unauthorized);
        }
        match find_strategy(&self.strategies, id) {
            Some(_) => {
                proof {
                    assert(self.sid_registered(id));
                }
                Err(StakingError::DuplicateId)
            },
            None => {
                let entry = StrategyEntry {
                    strategy: YieldStrategy {
                        id,
                        name,
                        apy: apy_bp,
                        total_deposited: 0,
                        is_active: initially_active,
                    },
                    total_shares: 0,
                };
                proof {
                    assert(forall|j: int|
                        0 <= j < self.positions@.len() ==> self.positions@[j].strategy_id != id);
                    lemma_sum_for_absent(self.positions@, id);
                }
                let ghost pre = *self;
                self.strategies.push(entry);
                proof {
                    let t = self.strategies@;
                    let n = pre.strategies@.len() as int;
                    assert(t[n].strategy.id == id);
                    assert forall|i: int, j: int| 0 <= i < j < t.len() implies t[i].strategy.id
                        != t[j].strategy.id by {
                        if j == n {
                            assert(!pre.sid_registered(id));
                            assert(t[i] == pre.strategies@[i]);
                        }
                    }
                    assert(self.sid_registered(id));
                    let k0 = choose|k: int|
                        0 <= k < t.len() && t[k].strategy.id == id;
                    assert(t[k0].strategy.id == t[n].strategy.id);
                    assert(k0 == n);
                    assert forall|sid: u32| sid != id implies (self.sid_registered(sid) <==> pre.sid_registered(sid)) by {
                        if self.sid_registered(sid) {
                            let k = choose|k: int| 0 <= k < t.len() && t[k].strategy.id == sid;
                            assert(k != n);
                            assert(pre.strategies@[k].strategy.id == sid);
                        }
                        if pre.sid_registered(sid) {
                            let k = choose|k: int|
                                0 <= k < pre.strategies@.len() && pre.strategies@[k].strategy.id
                                    == sid;
                            assert(t[k].strategy.id == sid);
                        }
                    }
                    assert forall|sid: u32| sid != id && pre.sid_registered(sid) implies self.entry_for(sid) == pre.entry_for(sid) by {
                        let k1 = choose|k: int| 0 <= k < t.len() && t[k].strategy.id == sid;
                        let k2 = choose|k: int|
                            0 <= k < pre.strategies@.len() && pre.strategies@[k].strategy.id
                                == sid;
                        assert(k1 != n);
                        assert(pre.strategies@[k1].strategy.id == sid);
                        assert(t[k2].strategy.id == sid);
                        if k1 != k2 {
                            assert(t[k1].strategy.id == t[k2].strategy.id);
                        }
                    }
                }
                Ok(())
            },
        }
    }

    /// The first failure toggling strategy `id` by `caller` would hit, if
    /// any.
    pub open spec fn set_active_error(self, caller: u64, id: u32) -> Option<StakingError> {
        if caller != self.owner {
            Some(StakingError::Unauthorized)
        } else if !self.sid_registered(id) {
            Some(StakingError::UnknownStrategy)
        } else {
            None
        }
    }

    /// Activates or deactivates a strategy. Administrator-only. Totals,
    /// shares and positions are untouched.
    pub fn set_active(&mut self, caller: u64, id: u32, active: bool) -> (r: Result<
        (),
        StakingError,
    >)
        requires
            old(self).wf(),
        ensures
            final(self).wf(),
            r is Ok <==> old(self).set_active_error(caller, id) is None,
            r matches Err(e) ==> Some(e) == old(self).set_active_error(caller, id) && *final(self)
                == *old(self),
            r is Ok ==> {
                &&& final(self).sid_registered(id)
                &&& final(self).entry_for(id).strategy.is_active == active
                &&& final(self).entry_for(id).strategy.id == id
                &&& final(self).entry_for(id).strategy.apy == old(self).entry_for(
                    id,
                ).strategy.apy
                &&& final(self).entry_for(id).strategy.total_deposited == old(self).entry_for(
                    id,
                ).strategy.total_deposited
                &&& final(self).entry_for(id).total_shares == old(self).entry_for(
                    id,
                ).total_shares
                &&& forall|sid: u32|
                    sid != id ==> (final(self).sid_registered(sid) <==> old(
                        self,
                    ).sid_registered(sid))
                &&& forall|sid: u32|
                    sid != id && old(self).sid_registered(sid) ==> final(self).entry_for(sid)
                        == old(self).entry_for(sid)
            },
            final(self).positions@ == old(self).positions@,
            final(self).owner == old(self).owner,
            final(self).min_deposit == old(self).min_deposit,
    {
        if caller != self.owner {
            return Err(StakingError::Unauthorized);
        }
        match find_strategy(&self.strategies, id) {
            None => Err(StakingError::UnknownStrategy),
            Some(k) => {
                let entry = StrategyEntry {
                    strategy: YieldStrategy {
                        id: self.strategies[k].strategy.id,
                        name: self.strategies[k].strategy.name.clone(),
                        apy: self.strategies[k].strategy.apy,
                        total_deposited: self.strategies[k].strategy.total_deposited,
                        is_active: active,
                    },
                    total_shares: self.strategies[k].total_shares,
                };
                let ghost pre = *self;
                proof {
                    self.lemma_entry_at(k as int);
                }
                self.strategies.set(k, entry);
                proof {
                    pre.lemma_strategy_update_ok(*self, k as int);
                }
                Ok(())
            },
        }
    }

    /// The first failure a deposit of `amount` into strategy `sid` by
    /// `caller` would hit, if any.
    pub open spec fn deposit_error(self, caller: u64, sid: u32, amount: u128) -> Option<
        StakingError,
    > {
        if !self.sid_registered(sid) {
            Some(StakingError::UnknownStrategy)
        } else if !self.entry_for(sid).strategy.is_active {
            Some(StakingError::StrategyInactive)
        } else if amount < self.min_deposit {
            Some(StakingError::InsufficientAmount)
        } else if self.entry_for(sid).strategy.total_deposited as int + amount as int
            > MAX_POOL_VALUE as int {
            Some(StakingError::ArithmeticOverflow)
        } else if self.has_position(caller, sid) && self.position_of(
            caller,
            sid,
        ).base_contributed as int + amount as int > u128::MAX as int {
            Some(StakingError::ArithmeticOverflow)
        } else {
            None
        }
    }

    /// Deposits `amount` into the given strategy's sub-pool, minting shares
    /// at that strategy's own rate, floored. Deposits are gated on the
    /// strategy being active; an inactive strategy always rejects them.
    pub fn deposit_to(&mut self, caller: u64, strategy_id: u32, amount: u128) -> (r: Result<
        u128,
        StakingError,
    >)
        requires
            old(self).wf(),
        ensures
            final(self).wf(),
            r is Ok <==> old(self).deposit_error(caller, strategy_id, amount) is None,
            r matches Err(e) ==> Some(e) == old(self).deposit_error(caller, strategy_id, amount)
                && *final(self) == *old(self),
            r matches Ok(minted) ==> {
                &&& minted as int == shares_for_deposit(
                    old(self).entry_for(strategy_id).strategy.total_deposited as int,
                    old(self).entry_for(strategy_id).total_shares as int,
                    amount as int,
                )
                &&& minted <= amount
                &&& final(self).entry_for(strategy_id).strategy.total_deposited == old(
                    self,
                ).entry_for(strategy_id).strategy.total_deposited + amount
                &&& final(self).entry_for(strategy_id).total_shares == old(self).entry_for(
                    strategy_id,
                ).total_shares + minted
                &&& final(self).has_position(caller, strategy_id)
                &&& final(self).balance_of(caller, strategy_id) == old(self).balance_of(
                    caller,
                    strategy_id,
                ) + minted
                &&& final(self).position_of(caller, strategy_id).base_contributed as int == (if
                    old(self).has_position(caller, strategy_id) {
                    old(self).position_of(caller, strategy_id).base_contributed as int
                } else {
                    0
                }) + amount as int
            },
            r is Ok ==> {
                &&& final(self).entry_for(strategy_id).strategy.id == strategy_id
                &&& final(self).entry_for(strategy_id).strategy.apy == old(self).entry_for(
                    strategy_id,
                ).strategy.apy
                &&& final(self).entry_for(strategy_id).strategy.is_active
                &&& forall|sid: u32|
                    sid != strategy_id ==> (final(self).sid_registered(sid) <==> old(
                        self,
                    ).sid_registered(sid))
                &&& forall|sid: u32|
                    sid != strategy_id && old(self).sid_registered(sid) ==> final(self).entry_for(sid) == old(self).entry_for(sid)
            },
            Self::others_unchanged(*old(self), *final(self), caller, strategy_id),
            final(self).owner == old(self).owner,
            final(self).min_deposit == old(self).min_deposit,
    {
        let k_opt = find_strategy(&self.strategies, strategy_id);
        let k = match k_opt {
            None => {
                return Err(StakingError::UnknownStrategy);
            },
            Some(k) => k,
        };
        proof {
            self.lemma_entry_at(k as int);
        }
        if !self.strategies[k].strategy.is_active {
            return Err(StakingError::StrategyInactive);
        }
        if amount < self.min_deposit {
            return Err(StakingError::InsufficientAmount);
        }
        if amount > MAX_POOL_VALUE - self.strategies[k].strategy.total_deposited {
            return Err(StakingError::ArithmeticOverflow);
        }
        let i_opt = find_key(&self.positions, caller, strategy_id);
        let old_base: u128 = match i_opt {
            Some(i) => {
                proof {
                    lemma_position_for_key_at(self.positions@, i as int);
                }
                self.positions[i].base_contributed
            },
            None => 0,
        };
        if amount > u128::MAX - old_base {
            return Err(StakingError::ArithmeticOverflow);
        }
        let dep = self.strategies[k].strategy.total_deposited;
        let tsh = self.strategies[k].total_shares;
        let minted = compute_shares_to_mint(dep, tsh, amount);
        let ghost pre = *self;
        match i_opt {
            Some(i) => {
                proof {
                    lemma_position_for_key_at(self.positions@, i as int);
                    lemma_elem_le_sum_for(self.positions@, i as int);
                }
                let mut p = self.positions[i];
                p.base_contributed = p.base_contributed + amount;
                p.shares = p.shares + minted;
                proof {
                    lemma_key_update_preserves_others(self.positions@, i as int, p);
                    lemma_position_for_key_at(self.positions@.update(i as int, p), i as int);
                    assert forall|sid: u32|
                        sum_shares_for(#[trigger] pre.positions@.update(i as int, p), sid)
                            == sum_shares_for(pre.positions@, sid) + (if sid == strategy_id {
                            minted as int
                        } else {
                            0
                        }) by {
                        lemma_sum_for_update(pre.positions@, i as int, p, sid);
                    }
                }
                self.positions.set(i, p);
            },
            None => {
                let p = StrategyPosition {
                    user: caller,
                    strategy_id,
                    base_contributed: amount,
                    shares: minted,
                };
                proof {
                    lemma_key_push_preserves_others(self.positions@, p);
                    assert forall|sid: u32|
                        sum_shares_for(#[trigger] pre.positions@.push(p), sid) == sum_shares_for(
                            pre.positions@,
                            sid,
                        ) + (if sid == strategy_id {
                            minted as int
                        } else {
                            0
                        }) by {
                        lemma_sum_for_push(pre.positions@, p, sid);
                    }
                }
                self.positions.push(p);
            },
        }
        let entry = StrategyEntry {
            strategy: YieldStrategy {
                id: self.strategies[k].strategy.id,
                name: self.strategies[k].strategy.name.clone(),
                apy: self.strategies[k].strategy.apy,
                total_deposited: dep + amount,
                is_active: true,
            },
            total_shares: tsh + minted,
        };
        let ghost mid = *self;
        self.strategies.set(k, entry);
        proof {
            mid.lemma_strategy_update_ok(*self, k as int);
            assert forall|k2: int|
                0 <= k2 < self.strategies@.len() implies sum_shares_for(
                self.positions@,
                #[trigger] self.strategies@[k2].strategy.id,
            ) == self.strategies@[k2].total_shares as int by {
                if k2 != k as int {
                    assert(self.strategies@[k2] == pre.strategies@[k2]);
                    assert(pre.strategies@[k2].strategy.id != strategy_id);
                }
            }
        }
        Ok(minted)
    }

    /// The first failure a withdrawal of `shares` from strategy `sid` by
    /// `caller` would hit, if any. Deactivation never blocks withdrawal.
    pub open spec fn withdraw_error(self, caller: u64, sid: u32, shares: u128) -> Option<
        StakingError,
    > {
        if !self.sid_registered(sid) {
            Some(StakingError::UnknownStrategy)
        } else if self.balance_of(caller, sid) < shares as int {
            Some(StakingError::InsufficientShares)
        } else {
            None
        }
    }

    /// Burns `shares` of the caller's stake in the given strategy and
    /// returns base value at that strategy's rate, floored. Withdrawal is
    /// always permitted, active or not: depositors can always exit. The
    /// position's historical `base_contributed` is reduced by the returned
    /// value, not below zero.
    pub fn withdraw_from(&mut self, caller: u64, strategy_id: u32, shares: u128) -> (r: Result<
        u128,
        StakingError,
    >)
        requires
            old(self).wf(),
        ensures
            final(self).wf(),
            r is Ok <==> old(self).withdraw_error(caller, strategy_id, shares) is None,
            r matches Err(e) ==> Some(e) == old(self).withdraw_error(caller, strategy_id, shares)
                && *final(self) == *old(self),
            r matches Ok(ret) ==> {
                &&& ret as int == base_for_withdraw(
                    old(self).entry_for(strategy_id).strategy.total_deposited as int,
                    old(self).entry_for(strategy_id).total_shares as int,
                    shares as int,
                )
                &&& ret <= old(self).entry_for(strategy_id).strategy.total_deposited
                &&& final(self).entry_for(strategy_id).strategy.total_deposited == old(
                    self,
                ).entry_for(strategy_id).strategy.total_deposited - ret
                &&& final(self).entry_for(strategy_id).total_shares == old(self).entry_for(
                    strategy_id,
                ).total_shares - shares
                &&& final(self).balance_of(caller, strategy_id) == old(self).balance_of(
                    caller,
                    strategy_id,
                ) - shares
            },
            r is Ok ==> {
                &&& final(self).entry_for(strategy_id).strategy.id == strategy_id
                &&& final(self).entry_for(strategy_id).strategy.apy == old(self).entry_for(
                    strategy_id,
                ).strategy.apy
                &&& final(self).entry_for(strategy_id).strategy.is_active == old(self).entry_for(
                    strategy_id,
                ).strategy.is_active
                &&& forall|sid: u32|
                    sid != strategy_id ==> (final(self).sid_registered(sid) <==> old(
                        self,
                    ).sid_registered(sid))
                &&& forall|sid: u32|
                    sid != strategy_id && old(self).sid_registered(sid) ==> final(self).entry_for(sid) == old(self).entry_for(sid)
            },
            Self::others_unchanged(*old(self), *final(self), caller, strategy_id),
            final(self).owner == old(self).owner,
            final(self).min_deposit == old(self).min_deposit,
    {
        let k_opt = find_strategy(&self.strategies, strategy_id);
        let k = match k_opt {
            None => {
                return Err(StakingError::UnknownStrategy);
            },
            Some(k) => k,
        };
        proof {
            self.lemma_entry_at(k as int);
        }
        let dep = self.strategies[k].strategy.total_deposited;
        let tsh = self.strategies[k].total_shares;
        let i_opt = find_key(&self.positions, caller, strategy_id);
        let i = match i_opt {
            None => {
                if shares > 0 {
                    return Err(StakingError::InsufficientShares);
                }
                let ret = compute_base_to_return(dep, tsh, 0);
                return Ok(ret);
            },
            Some(i) => i,
        };
        proof {
            lemma_position_for_key_at(self.positions@, i as int);
        }
        let p = self.positions[i];
        if shares > p.shares {
            return Err(StakingError::InsufficientShares);
        }
        proof {
            lemma_elem_le_sum_for(self.positions@, i as int);
        }
        let ret = compute_base_to_return(dep, tsh, shares);
        let ghost pre = *self;
        let mut np = p;
        np.shares = p.shares - shares;
        np.base_contributed = if ret <= p.base_contributed {
            p.base_contributed - ret
        } else {
            0
        };
        proof {
            lemma_key_update_preserves_others(self.positions@, i as int, np);
            lemma_position_for_key_at(self.positions@.update(i as int, np), i as int);
            assert forall|sid: u32|
                sum_shares_for(#[trigger] pre.positions@.update(i as int, np), sid)
                    == sum_shares_for(pre.positions@, sid) - (if sid == strategy_id {
                    shares as int
                } else {
                    0
                }) by {
                lemma_sum_for_update(pre.positions@, i as int, np, sid);
            }
        }
        self.positions.set(i, np);
        let entry = StrategyEntry {
            strategy: YieldStrategy {
                id: self.strategies[k].strategy.id,
                name: self.strategies[k].strategy.name.clone(),
                apy: self.strategies[k].strategy.apy,
                total_deposited: dep - ret,
                is_active: self.strategies[k].strategy.is_active,
            },
            total_shares: tsh - shares,
        };
        let ghost mid = *self;
        self.strategies.set(k, entry);
        proof {
            mid.lemma_strategy_update_ok(*self, k as int);
            assert forall|k2: int|
                0 <= k2 < self.strategies@.len() implies sum_shares_for(
                self.positions@,
                #[trigger] self.strategies@[k2].strategy.id,
            ) == self.strategies@[k2].total_shares as int by {
                if k2 != k as int {
                    assert(self.strategies@[k2] == pre.strategies@[k2]);
                    assert(pre.strategies@[k2].strategy.id != strategy_id);
                }
            }
        }
        Ok(ret)
    }

    /// The registered strategy with id `id`, if any.
    pub fn get_strategy(&self, id: u32) -> (r: Option<YieldStrategy>)
        requires
            self.wf(),
        ensures
            r is Some <==> self.sid_registered(id),
            r matches Some(st) ==> st == self.entry_for(id).strategy,
    {
        match find_strategy(&self.strategies, id) {
            Some(k) => {
                proof {
                    self.lemma_entry_at(k as int);
                }
                Some(
                    YieldStrategy {
                        id: self.strategies[k].strategy.id,
                        name: self.strategies[k].strategy.name.clone(),
                        apy: self.strategies[k].strategy.apy,
                        total_deposited: self.strategies[k].strategy.total_deposited,
                        is_active: self.strategies[k].strategy.is_active,
                    },
                )
            },
            None => None,
        }
    }

    /// The position of `user` in strategy `strategy_id`, if any.
    pub fn get_strategy_position(&self, user: u64, strategy_id: u32) -> (r: Option<
        StrategyPosition,
    >)
        requires
            self.wf(),
        ensures
            r == if self.has_position(user, strategy_id) {
                Some(self.position_of(user, strategy_id))
            } else {
                None::<StrategyPosition>
            },
    {
        match find_key(&self.positions, user, strategy_id) {
            Some(i) => {
                proof {
                    lemma_position_for_key_at(self.positions@, i as int);
                }
                Some(self.positions[i])
            },
            None => None,
        }
    }

    /// Ties a strategy index to its id's looked-up entry.
    proof fn lemma_entry_at(self, k: int)
        requires
            self.ids_distinct(),
            0 <= k < self.strategies@.len(),
        ensures
            self.sid_registered(self.strategies@[k].strategy.id),
            self.entry_for(self.strategies@[k].strategy.id) == self.strategies@[k],
    {
        let sid = self.strategies@[k].strategy.id;
        assert(self.sid_registered(sid));
        let j = choose|j: int|
            0 <= j < self.strategies@.len() && self.strategies@[j].strategy.id == sid;
        if j != k {
            if j < k {
                assert(self.strategies@[j].strategy.id != self.strategies@[k].strategy.id);
            } else {
                assert(self.strategies@[k].strategy.id != self.strategies@[j].strategy.id);
            }
        }
    }

    /// Replacing the entry at `k` with one of the same id preserves all
    /// other lookups.
    proof fn lemma_strategy_update_ok(self, post: Self, k: int)
        requires
            self.ids_distinct(),
            0 <= k < self.strategies@.len(),
            post.strategies@ == self.strategies@.update(
                k,
                post.strategies@[k],
            ),
            post.strategies@[k].strategy.id == self.strategies@[k].strategy.id,
        ensures
            post.ids_distinct(),
            post.sid_registered(self.strategies@[k].strategy.id),
            post.entry_for(self.strategies@[k].strategy.id) == post.strategies@[k],
            forall|sid: u32| post.sid_registered(sid) <==> self.sid_registered(sid),
            forall|sid: u32|
                sid != self.strategies@[k].strategy.id && self.sid_registered(sid)
                    ==> post.entry_for(sid) == self.entry_for(sid),
    {
        let s = self.strategies@;
        let t = post.strategies@;
        let id = s[k].strategy.id;
        assert(forall|i: int| 0 <= i < t.len() && i != k ==> t[i] == s[i]);
        assert forall|i: int, j: int| 0 <= i < j < t.len() implies t[i].strategy.id
            != t[j].strategy.id by {
            assert(s[i].strategy.id != s[j].strategy.id);
        }
        post.lemma_entry_at(k);
        assert forall|sid: u32| post.sid_registered(sid) <==> self.sid_registered(sid) by {
            if post.sid_registered(sid) {
                let j = choose|j: int| 0 <= j < t.len() && t[j].strategy.id == sid;
                assert(s[j].strategy.id == sid);
            }
            if self.sid_registered(sid) {
                let j = choose|j: int| 0 <= j < s.len() && s[j].strategy.id == sid;
                assert(t[j].strategy.id == sid);
            }
        }
        assert forall|sid: u32|
            sid != id && self.sid_registered(sid) implies post.entry_for(sid) == self.entry_for(
            sid,
        ) by {
            let j1 = choose|j: int| 0 <= j < t.len() && t[j].strategy.id == sid;
            let j2 = choose|j: int| 0 <= j < s.len() && s[j].strategy.id == sid;
            assert(j1 != k);
            assert(s[j1].strategy.id == sid);
            if j1 != j2 {
                if j1 < j2 {
                    assert(s[j1].strategy.id != s[j2].strategy.id);
                } else {
                    assert(s[j2].strategy.id != s[j1].strategy.id);
                }
            }
        }
    }
}

} // verus!
