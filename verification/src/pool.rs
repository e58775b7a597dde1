//! The exchange-rate core: conversions between base value and shares for a
//! pool described by its two totals, and the proofs that floor rounding
//! always favors the pool.
//!
//! A pool is summarized by `(total base value, total shares)`. Its rate is
//! `total_base * SCALE / total_shares`, floored, and `SCALE` (1:1) while no
//! shares are outstanding. Every well-formed pool keeps
//! `total_shares <= total_base <= MAX_POOL_VALUE`, which makes the rate at
//! least `SCALE` and keeps every product computed here inside 128 bits.

use vstd::prelude::*;
use vstd::arithmetic::div_mod::{
    lemma_div_basics_2, lemma_div_is_ordered, lemma_div_is_ordered_by_denominator,
    lemma_div_multiples_vanish, lemma_div_multiples_vanish_fancy, lemma_div_pos_is_pos,
    lemma_fundamental_div_mod, lemma_mod_bound,
};
use vstd::arithmetic::mul::{
    lemma_mul_inequality, lemma_mul_is_distributive_add, lemma_mul_is_distributive_add_other_way,
    lemma_mul_nonnegative,
};
use crate::types::{MAX_POOL_VALUE, SCALE};

verus! {

/// Base value redeemable per share, scaled by `SCALE` and floored;
/// `SCALE` (1:1) while no shares are outstanding.
pub open spec fn rate_of(base: int, shares: int) -> int {
    if shares <= 0 {
        SCALE as int
    } else {
        base * (SCALE as int) / shares
    }
}

/// Shares minted for a deposit of `amount`, floored: truncation mints
/// slightly fewer shares, in the pool's favor.
pub open spec fn shares_for_deposit(base: int, shares: int, amount: int) -> int {
    amount * (SCALE as int) / rate_of(base, shares)
}

/// Base value returned for burning `w` shares, floored: truncation returns
/// slightly less value, in the pool's favor.
pub open spec fn base_for_withdraw(base: int, shares: int, w: int) -> int {
    w * rate_of(base, shares) / (SCALE as int)
}

/// Well-formedness of a pool's totals. Shares never outnumber base value
/// because minting floors, and the base total stays below `MAX_POOL_VALUE`
/// so that `base * SCALE` fits in 128 bits.
pub open spec fn pool_wf(base: int, shares: int) -> bool {
    0 <= shares <= base <= MAX_POOL_VALUE as int
}

/// Products of a bounded total with `SCALE` stay representable.
proof fn lemma_scale_product_fits(x: int)
    requires
        0 <= x <= MAX_POOL_VALUE as int,
    ensures
        x * (SCALE as int) <= u128::MAX as int,
{
    lemma_mul_inequality(x, MAX_POOL_VALUE as int, SCALE as int);
    assert((MAX_POOL_VALUE as int) * (SCALE as int) <= u128::MAX as int);
}

/// Splitting a division of `d * q + r` off into quotient and carried
/// remainder: `(d*q + r) / d == q + r / d`.
proof fn lemma_div_linear(q: int, r: int, d: int)
    requires
        d > 0,
        r >= 0,
        q >= 0,
    ensures
        (d * q + r) / d == q + r / d,
{
    lemma_fundamental_div_mod(r, d);
    lemma_mod_bound(r, d);
    lemma_div_pos_is_pos(r, d);
    assert(d * q + r == d * (q + r / d) + (r % d)) by {
        lemma_mul_is_distributive_add(d, q, r / d);
    }
    lemma_div_multiples_vanish_fancy(q + r / d, r % d, d);
}

/// With at least one share outstanding, a covered pool's rate never falls
/// below `SCALE`.
pub proof fn lemma_rate_at_least_scale(base: int, shares: int)
    requires
        1 <= shares <= base,
    ensures
        rate_of(base, shares) >= SCALE as int,
{
    let s = SCALE as int;
    lemma_mul_inequality(shares, base, s);
    lemma_div_is_ordered(shares * s, base * s, shares);
    lemma_div_multiples_vanish(s, shares);
}

/// The rate of a well-formed pool fits in 128 bits.
pub proof fn lemma_rate_fits(base: int, shares: int)
    requires
        pool_wf(base, shares),
    ensures
        0 <= rate_of(base, shares) <= u128::MAX as int,
{
    let s = SCALE as int;
    if shares <= 0 {
        assert((SCALE as int) <= u128::MAX as int);
    } else {
        lemma_mul_nonnegative(base, s);
        lemma_div_pos_is_pos(base * s, shares);
        lemma_div_is_ordered_by_denominator(base * s, 1, shares);
        lemma_div_basics_2(base * s);
        lemma_scale_product_fits(base);
    }
}

/// Minting floors: a deposit never mints more shares than the amount of
/// base value it brings, and never a negative count.
pub proof fn lemma_mint_bounds(base: int, shares: int, amount: int)
    requires
        pool_wf(base, shares),
        amount >= 0,
    ensures
        0 <= shares_for_deposit(base, shares, amount) <= amount,
{
    let s = SCALE as int;
    let r = rate_of(base, shares);
    if shares <= 0 {
        assert(r == s);
    } else {
        lemma_rate_at_least_scale(base, shares);
    }
    lemma_mul_nonnegative(amount, s);
    lemma_div_pos_is_pos(amount * s, r);
    lemma_div_is_ordered_by_denominator(amount * s, s, r);
    lemma_div_multiples_vanish(amount, s);
    assert(amount * s == s * amount) by { vstd::arithmetic::mul::lemma_mul_is_commutative(amount, s) };
}

/// Withdrawal stays within the pool: burning `w` of the outstanding shares
/// returns at most the whole base total, and leaves at least as much base
/// value as there are shares left.
pub proof fn lemma_withdraw_bounds(base: int, shares: int, w: int)
    requires
        pool_wf(base, shares),
        0 <= w <= shares,
    ensures
        0 <= base_for_withdraw(base, shares, w) <= base,
        base - base_for_withdraw(base, shares, w) >= shares - w,
{
    let s = SCALE as int;
    let r = rate_of(base, shares);
    if shares <= 0 {
        assert(w == 0);
        assert(w * r == 0) by { vstd::arithmetic::mul::lemma_mul_basics(r) };
        assert(base_for_withdraw(base, shares, w) == 0) by { lemma_div_pos_is_pos(0, s); lemma_div_is_ordered(0, 0, s); }
    } else {
        lemma_rate_at_least_scale(base, shares);
        lemma_fundamental_div_mod(base * s, shares);
        lemma_mod_bound(base * s, shares);
        // shares * r <= base * s, hence w * r <= base * s.
        assert(shares * r <= base * s);
        assert(w * r <= shares * r) by { lemma_mul_inequality(w, shares, r); }
        lemma_mul_nonnegative(w, r);
        lemma_div_pos_is_pos(w * r, s);
        lemma_div_is_ordered(w * r, base * s, s);
        lemma_div_multiples_vanish(base, s);
        assert(base * s == s * base) by { vstd::arithmetic::mul::lemma_mul_is_commutative(base, s) };
        // The remaining base still covers the remaining shares:
        // w * r < (base - shares + w + 1) * s, so the floored return leaves enough.
        let q = base - shares + w + 1;
        assert(w * r < q * s) by (nonlinear_arith)
            requires
                shares >= 1,
                0 <= w <= shares,
                shares <= base,
                s >= 1,
                r >= 0,
                shares * r <= base * s,
                q == base - shares + w + 1,
        {
        }
        // From w * r <= q * s - 1 conclude (w * r) / s <= q - 1.
        assert((q * s - 1) / s == q - 1) by {
            assert(q * s - 1 == s * (q - 1) + (s - 1)) by (nonlinear_arith)
                requires s >= 1, q == base - shares + w + 1,
            {
            }
            lemma_div_multiples_vanish_fancy(q - 1, s - 1, s);
        }
        lemma_div_is_ordered(w * r, q * s - 1, s);
    }
}

/// Accrual only raises the rate: growing the base total while shares stay
/// put never lowers the floored rate, and raises it strictly as soon as the
/// growth is at least one `SCALE` unit per outstanding share.
pub proof fn lemma_accrue_raises_rate(base: int, shares: int, amount: int)
    requires
        1 <= shares,
        0 <= base,
        amount >= 0,
    ensures
        rate_of(base + amount, shares) >= rate_of(base, shares),
        amount * (SCALE as int) >= shares ==> rate_of(base + amount, shares) > rate_of(base, shares),
{
    let s = SCALE as int;
    assert((base + amount) * s == base * s + amount * s) by {
        lemma_mul_is_distributive_add_other_way(s, base, amount);
    }
    lemma_mul_nonnegative(base, s);
    lemma_mul_nonnegative(amount, s);
    lemma_div_is_ordered(base * s, base * s + amount * s, shares);
    if amount * s >= shares {
        let q = base * s / shares;
        lemma_fundamental_div_mod(base * s, shares);
        lemma_mod_bound(base * s, shares);
        lemma_div_pos_is_pos(base * s, shares);
        // base*s + amount*s >= shares*(q + 1), so the new rate is at least q + 1.
        assert(base * s + amount * s >= shares * (q + 1)) by {
            lemma_mul_is_distributive_add(shares, q, 1);
        }
        assert(shares * (q + 1) == (q + 1) * shares) by {
            vstd::arithmetic::mul::lemma_mul_is_commutative(shares, q + 1);
        }
        lemma_div_is_ordered((q + 1) * shares, base * s + amount * s, shares);
        vstd::arithmetic::div_mod::lemma_div_by_multiple(q + 1, shares);
    }
}

/// Round-trip dust, never deficit: depositing `amount` into a covered pool
/// and immediately burning exactly the shares just minted returns at most
/// `amount`. The requirement that a pool holding base value has shares
/// outstanding is essential: value stranded in a shareless pool would be
/// captured by the next depositor.
pub proof fn lemma_round_trip_bounded(base: int, shares: int, amount: int)
    requires
        pool_wf(base, shares),
        amount >= 1,
        shares >= 1 || base == 0,
    ensures
        base_for_withdraw(
            base + amount,
            shares + shares_for_deposit(base, shares, amount),
            shares_for_deposit(base, shares, amount),
        ) <= amount,
{
    let s = SCALE as int;
    if shares <= 0 {
        // Empty pool: the deposit mints one share per unit at rate SCALE and
        // gets exactly its amount back.
        assert(shares == 0 && base == 0);
        let minted = shares_for_deposit(base, shares, amount);
        assert(minted == amount) by {
            assert(amount * s / s == amount) by { lemma_div_multiples_vanish(amount, s); vstd::arithmetic::mul::lemma_mul_is_commutative(amount, s); }
        }
        assert(rate_of(amount, amount) == s) by {
            lemma_div_multiples_vanish(s, amount);
        }
        assert(amount * s / s == amount) by { lemma_div_multiples_vanish(amount, s); vstd::arithmetic::mul::lemma_mul_is_commutative(amount, s); }
    } else {
        let r0 = rate_of(base, shares);
        lemma_rate_at_least_scale(base, shares);
        // base * s == shares * r0 + f, with 0 <= f < shares.
        lemma_fundamental_div_mod(base * s, shares);
        lemma_mod_bound(base * s, shares);
        let f = (base * s) % shares;
        // amount * s == r0 * minted + g, with 0 <= g < r0.
        let minted = shares_for_deposit(base, shares, amount);
        lemma_mul_nonnegative(amount, s);
        lemma_fundamental_div_mod(amount * s, r0);
        lemma_mod_bound(amount * s, r0);
        lemma_div_pos_is_pos(amount * s, r0);
        let g = (amount * s) % r0;
        let sh1 = shares + minted;
        // (base + amount) * s == sh1 * r0 + (f + g).
        assert((base + amount) * s == sh1 * r0 + (f + g)) by {
            lemma_mul_is_distributive_add_other_way(s, base, amount);
            lemma_mul_is_distributive_add_other_way(r0, shares, minted);
            vstd::arithmetic::mul::lemma_mul_is_commutative(shares, r0);
            vstd::arithmetic::mul::lemma_mul_is_commutative(r0, minted);
        }
        // The rate after the deposit is r0 plus the carry of (f + g) / sh1.
        let r1 = rate_of(base + amount, sh1);
        let k = (f + g) / sh1;
        assert(r1 == r0 + k) by {
            assert(sh1 * r0 == r0 * sh1) by { vstd::arithmetic::mul::lemma_mul_is_commutative(sh1, r0); }
            assert((base + amount) * s == sh1 * r0 + (f + g));
            lemma_div_linear(r0, f + g, sh1);
            assert(sh1 * r0 + (f + g) == (sh1 * r0 + (f + g)));
        }
        lemma_div_pos_is_pos(f + g, sh1);
        // In either case the returned value is bounded by amount * s.
        assert(minted * r1 <= amount * s) by {
            if k == 0 {
                assert(minted * r1 == minted * r0) by (nonlinear_arith)
                    requires r1 == r0 + k, k == 0,
                {
                }
                assert(minted * r0 <= amount * s) by (nonlinear_arith)
                    requires amount * s == r0 * minted + g, g >= 0,
                {
                }
            } else {
                // k >= 1: the carry costs the withdrawer at least minted * k,
                // which the remainder g more than covers.
                lemma_fundamental_div_mod(f + g, sh1);
                lemma_mod_bound(f + g, sh1);
                assert(g >= minted * k + 1) by (nonlinear_arith)
                    requires
                        f + g >= sh1 * k,
                        sh1 == shares + minted,
                        f <= shares - 1,
                        k >= 1,
                        shares >= 1,
                        minted >= 0,
                {
                }
                assert(minted * r1 <= amount * s - 1) by (nonlinear_arith)
                    requires
                        r1 == r0 + k,
                        amount * s == r0 * minted + g,
                        g >= minted * k + 1,
                {
                }
            }
        }
        lemma_mul_nonnegative(minted, r1);
        lemma_div_is_ordered(minted * r1, amount * s, s);
        lemma_div_multiples_vanish(amount, s);
        assert(amount * s == s * amount) by { vstd::arithmetic::mul::lemma_mul_is_commutative(amount, s) };
    }
}

/// Exchange rate of a pool, computed from its totals.
pub fn compute_rate(base: u128, shares: u128) -> (r: u128)
    requires
        pool_wf(base as int, shares as int),
    ensures
        r as int == rate_of(base as int, shares as int),
{
    if shares == 0 {
        SCALE
    } else {
        proof {
            lemma_scale_product_fits(base as int);
            lemma_rate_fits(base as int, shares as int);
        }
        (base * SCALE) / shares
    }
}

/// Shares to mint for a deposit of `amount` at the pool's current rate.
pub fn compute_shares_to_mint(base: u128, shares: u128, amount: u128) -> (minted: u128)
    requires
        pool_wf(base as int, shares as int),
        base + amount <= MAX_POOL_VALUE,
    ensures
        minted as int == shares_for_deposit(base as int, shares as int, amount as int),
        minted <= amount,
{
    let rate = compute_rate(base, shares);
    proof {
        lemma_mint_bounds(base as int, shares as int, amount as int);
        lemma_scale_product_fits(amount as int);
        if shares > 0 {
            lemma_rate_at_least_scale(base as int, shares as int);
        }
    }
    (amount * SCALE) / rate
}

/// Base value to return for burning `w` of the pool's outstanding shares.
pub fn compute_base_to_return(base: u128, shares: u128, w: u128) -> (ret: u128)
    requires
        pool_wf(base as int, shares as int),
        w <= shares,
    ensures
        ret as int == base_for_withdraw(base as int, shares as int, w as int),
        ret <= base,
        base - ret >= shares - w,
{
    let rate = compute_rate(base, shares);
    proof {
        lemma_withdraw_bounds(base as int, shares as int, w as int);
        lemma_rate_fits(base as int, shares as int);
        if shares > 0 {
            // w * rate <= shares * rate <= base * SCALE fits in 128 bits.
            lemma_fundamental_div_mod((base as int) * (SCALE as int), shares as int);
            lemma_mod_bound((base as int) * (SCALE as int), shares as int);
            lemma_mul_inequality(w as int, shares as int, rate as int);
            lemma_scale_product_fits(base as int);
        } else {
            assert((w as int) * (rate as int) == 0) by (nonlinear_arith)
                requires w == 0,
            {
            }
        }
    }
    (w * rate) / SCALE
}

} // verus!
