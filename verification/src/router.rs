//! The conversion router: constant-product quoting and asset-to-asset
//! conversion with slippage enforcement.
//!
//! Pools are external liquidity sources. The router reads their reserve
//! quantities from a table the Reserve Pool Oracle fills (no placeholder
//! reserves are baked in), quotes with the constant-product formula and a
//! 0.3% fee, and settles each hop against the pool: the input units leave
//! the modeled ledgers and the output units arrive from the pool.

use vstd::arithmetic::div_mod::lemma_div_basics;
use vstd::arithmetic::div_mod::lemma_div_is_ordered_by_denominator;
use vstd::arithmetic::div_mod::lemma_div_nonincreasing;
use vstd::arithmetic::div_mod::lemma_div_pos_is_pos;
use vstd::prelude::*;

use crate::amount::div_floor;
use crate::errors::Error;
use crate::token::TokenLedger;
use crate::AccountId;
use crate::AssetId;

verus! {

/// The canonical address of the pool for an unordered asset pair: the two
/// assets in ascending order. Hashing this pair into a ledger address is
/// the oracle's business; ordering before addressing is what makes the
/// address direction-independent.
#[derive(Clone, Copy, Debug, PartialEq, Eq, Structural)]
pub struct PoolId {
    pub asset_lo: AssetId,
    pub asset_hi: AssetId,
}

struct Pool {
    lo: AssetId,
    hi: AssetId,
    reserve_lo: i128,
    reserve_hi: i128,
}

/// Quotes and executes conversions between assets, routing through the
/// reference asset when no direct pool is addressed.
pub struct LiquidityRouter {
    account: AccountId,
    reference_asset: Option<AssetId>,
    pools: Vec<Pool>,
}

/// The constant-product output for `x` input against reserves `rin` and
/// `rout`, after the 0.3% fee, with floor division; zero when either
/// reserve is empty.
pub open spec fn swap_output(x: int, rin: int, rout: int) -> int {
    if rin == 0 || rout == 0 {
        0
    } else {
        (x * 997 * rout) / (rin * 1000 + x * 997)
    }
}

/// Whether the constant-product computation stays inside 128-bit amounts.
pub open spec fn swap_fits(x: int, rin: int, rout: int) -> bool {
    ||| rin == 0
    ||| rout == 0
    ||| (x * 997 * rout <= i128::MAX && rin * 1000 + x * 997 <= i128::MAX)
}

proof fn lemma_swap_output_bounds(x: int, rin: int, rout: int)
    requires
        0 <= x,
        0 <= rin,
        0 <= rout,
    ensures
        0 <= swap_output(x, rin, rout),
        swap_output(x, rin, rout) <= x * 997 * rout,
{
    if rin != 0 && rout != 0 {
        assert(x * 997 * rout >= 0) by (nonlinear_arith)
            requires
                0 <= x,
                0 <= rout,
        ;
        assert(rin * 1000 + x * 997 >= 1000) by (nonlinear_arith)
            requires
                1 <= rin,
                0 <= x,
        ;
        let num = x * 997 * rout;
        let den = rin * 1000 + x * 997;
        lemma_div_pos_is_pos(num, den);
        lemma_div_is_ordered_by_denominator(num, 1, den);
        lemma_div_basics(num);
    }
}

spec fn pl_has(s: Seq<Pool>, lo: AssetId, hi: AssetId) -> bool {
    exists|i: int| 0 <= i < s.len() && s[i].lo == lo && s[i].hi == hi
}

spec fn pl_index_of(s: Seq<Pool>, lo: AssetId, hi: AssetId) -> int {
    choose|i: int| 0 <= i < s.len() && s[i].lo == lo && s[i].hi == hi
}

spec fn pl_wf(s: Seq<Pool>) -> bool {
    &&& forall|i: int, j: int|
        0 <= i < j < s.len() ==> !((#[trigger] s[i]).lo == (#[trigger] s[j]).lo && s[i].hi
            == s[j].hi)
    &&& forall|i: int|
        0 <= i < s.len() ==> (#[trigger] s[i]).lo < s[i].hi && s[i].reserve_lo >= 0
            && s[i].reserve_hi >= 0
}

proof fn pl_lemma_at(s: Seq<Pool>, i: int)
    requires
        pl_wf(s),
        0 <= i < s.len(),
    ensures
        pl_has(s, s[i].lo, s[i].hi),
        pl_index_of(s, s[i].lo, s[i].hi) == i,
{
    assert(pl_has(s, s[i].lo, s[i].hi));
    let j = pl_index_of(s, s[i].lo, s[i].hi);
    assert(0 <= j < s.len() && s[j].lo == s[i].lo && s[j].hi == s[i].hi);
}

/// Rewriting pool `i` in place (same pair, non-negative reserves) leaves
/// every other pool's presence and reserves alone.
proof fn pl_lemma_update(pre: Seq<Pool>, post: Seq<Pool>, i: int)
    requires
        pl_wf(pre),
        0 <= i < pre.len(),
        post == pre.update(i, post[i]),
        post[i].lo == pre[i].lo,
        post[i].hi == pre[i].hi,
        post[i].reserve_lo >= 0,
        post[i].reserve_hi >= 0,
    ensures
        pl_wf(post),
        forall|a: AssetId, b: AssetId| pl_has(post, a, b) == pl_has(pre, a, b),
        pl_index_of(post, post[i].lo, post[i].hi) == i,
        forall|a: AssetId, b: AssetId|
            pl_has(pre, a, b) && !(a == pre[i].lo && b == pre[i].hi) ==> pl_index_of(post, a, b)
                == pl_index_of(pre, a, b) && post[pl_index_of(pre, a, b)] == pre[pl_index_of(
                pre,
                a,
                b,
            )],
{
    assert forall|k: int| 0 <= k < pre.len() && k != i implies (#[trigger] post[k])
        == pre[k] by {}
    assert forall|a: AssetId, b: AssetId| pl_has(post, a, b) == pl_has(pre, a, b) by {
        if pl_has(pre, a, b) {
            let k = pl_index_of(pre, a, b);
            assert(post[k].lo == a && post[k].hi == b);
        }
        if pl_has(post, a, b) {
            let k = pl_index_of(post, a, b);
            assert(pre[k].lo == a && pre[k].hi == b);
        }
    }
    pl_lemma_at(post, i);
    assert forall|a: AssetId, b: AssetId|
        pl_has(pre, a, b) && !(a == pre[i].lo && b == pre[i].hi) implies pl_index_of(post, a, b)
        == pl_index_of(pre, a, b) && post[pl_index_of(pre, a, b)] == pre[pl_index_of(
        pre,
        a,
        b,
    )] by {
        let k = pl_index_of(pre, a, b);
        assert(0 <= k < pre.len() && pre[k].lo == a && pre[k].hi == b);
        assert(k != i);
        assert(post[k].lo == a && post[k].hi == b);
        pl_lemma_at(post, k);
    }
}

/// Appending a pool for a fresh pair installs it and leaves every other
/// pool alone.
proof fn pl_lemma_push(pre: Seq<Pool>, post: Seq<Pool>)
    requires
        pl_wf(pre),
        post == pre.push(post[pre.len() as int]),
        post[pre.len() as int].lo < post[pre.len() as int].hi,
        post[pre.len() as int].reserve_lo >= 0,
        post[pre.len() as int].reserve_hi >= 0,
        !pl_has(pre, post[pre.len() as int].lo, post[pre.len() as int].hi),
    ensures
        pl_wf(post),
        pl_has(post, post[pre.len() as int].lo, post[pre.len() as int].hi),
        pl_index_of(post, post[pre.len() as int].lo, post[pre.len() as int].hi) == pre.len(),
        forall|a: AssetId, b: AssetId|
            !(a == post[pre.len() as int].lo && b == post[pre.len() as int].hi) ==> pl_has(
                post,
                a,
                b,
            ) == pl_has(pre, a, b),
        forall|a: AssetId, b: AssetId|
            pl_has(pre, a, b) ==> pl_index_of(post, a, b) == pl_index_of(pre, a, b) && post[
            pl_index_of(pre, a, b)] == pre[pl_index_of(pre, a, b)],
{
    let n = pre.len() as int;
    assert forall|k: int| 0 <= k < n implies (#[trigger] post[k]) == pre[k] by {}
    assert forall|k: int| 0 <= k < n implies !((#[trigger] post[k]).lo == post[n].lo && post[k].hi
        == post[n].hi) by {
        if post[k].lo == post[n].lo && post[k].hi == post[n].hi {
            assert(pl_has(pre, post[n].lo, post[n].hi));
        }
    }
    pl_lemma_at(post, n);
    assert forall|a: AssetId, b: AssetId|
        !(a == post[n].lo && b == post[n].hi) implies pl_has(post, a, b) == pl_has(pre, a, b) by {
        if pl_has(pre, a, b) {
            let k = pl_index_of(pre, a, b);
            assert(post[k].lo == a && post[k].hi == b);
        }
        if pl_has(post, a, b) {
            let k = pl_index_of(post, a, b);
            assert(k != n);
            assert(pre[k].lo == a && pre[k].hi == b);
        }
    }
    assert forall|a: AssetId, b: AssetId| pl_has(pre, a, b) implies pl_index_of(post, a, b)
        == pl_index_of(pre, a, b) && post[pl_index_of(pre, a, b)] == pre[pl_index_of(
        pre,
        a,
        b,
    )] by {
        let k = pl_index_of(pre, a, b);
        assert(0 <= k < n && pre[k].lo == a && pre[k].hi == b);
        assert(post[k].lo == a && post[k].hi == b);
        pl_lemma_at(post, k);
    }
}

impl LiquidityRouter {
    /// The router's own custody account on the ledger.
    pub closed spec fn spec_account(&self) -> AccountId {
        self.account
    }

    /// Whether the init-once reference asset has been set.
    pub closed spec fn initialized(&self) -> bool {
        self.reference_asset is Some
    }

    /// The reference asset conversions route through.
    pub closed spec fn reference(&self) -> AssetId {
        self.reference_asset->0
    }

    /// Pools are stored under ordered distinct pairs with non-negative
    /// reserves.
    pub closed spec fn wf(&self) -> bool {
        pl_wf(self.pools@)
    }

    /// The canonical pool address for an unordered pair.
    pub open spec fn spec_pool_id(asset_a: AssetId, asset_b: AssetId) -> PoolId {
        if asset_a <= asset_b {
            PoolId { asset_lo: asset_a, asset_hi: asset_b }
        } else {
            PoolId { asset_lo: asset_b, asset_hi: asset_a }
        }
    }

    /// Whether a pool for the pair has been addressed by the oracle.
    pub closed spec fn spec_has_pool(&self, asset_a: AssetId, asset_b: AssetId) -> bool {
        pl_has(
            self.pools@,
            Self::spec_pool_id(asset_a, asset_b).asset_lo,
            Self::spec_pool_id(asset_a, asset_b).asset_hi,
        )
    }

    /// The pool reserve on the `from` side of the pair's pool.
    pub closed spec fn reserve_in(&self, from: AssetId, to: AssetId) -> int {
        let p = self.pools@[pl_index_of(
            self.pools@,
            Self::spec_pool_id(from, to).asset_lo,
            Self::spec_pool_id(from, to).asset_hi,
        )];
        if from <= to {
            p.reserve_lo as int
        } else {
            p.reserve_hi as int
        }
    }

    /// The pool reserve on the `to` side of the pair's pool.
    pub open spec fn reserve_out(&self, from: AssetId, to: AssetId) -> int {
        self.reserve_in(to, from)
    }

    /// The quoted output of one hop from `from` to `to`.
    pub open spec fn spec_quote1(&self, from: AssetId, to: AssetId, x: int) -> int {
        swap_output(x, self.reserve_in(from, to), self.reserve_out(from, to))
    }

    /// One hop of the quote path: the pool must exist and the computation
    /// must stay inside 128-bit amounts.
    pub open spec fn spec_rate_single(&self, from: AssetId, to: AssetId, x: int) -> Result<
        int,
        Error,
    > {
        if !self.spec_has_pool(from, to) {
            Err(Error::NotFound)
        } else if !swap_fits(x, self.reserve_in(from, to), self.reserve_out(from, to)) {
            Err(Error::Arithmetic)
        } else {
            Ok(self.spec_quote1(from, to, x))
        }
    }

    /// The full quote: identical assets pass through unchanged; a pair
    /// touching the reference asset is one hop; anything else routes
    /// `from` to the reference asset to `to`.
    pub open spec fn spec_rate(&self, from: AssetId, to: AssetId, x: int) -> Result<int, Error> {
        if from == to {
            Ok(x)
        } else if !self.initialized() {
            Err(Error::NotFound)
        } else if from == self.reference() || to == self.reference() {
            self.spec_rate_single(from, to, x)
        } else {
            match self.spec_rate_single(from, self.reference(), x) {
                Ok(mid) => self.spec_rate_single(self.reference(), to, mid),
                Err(e) => Err(e),
            }
        }
    }

    /// A router with custody account `account`, no reference asset, and no
    /// pools.
    pub fn new(account: AccountId) -> (r: Self)
        ensures
            r.wf(),
            r.spec_account() == account,
            !r.initialized(),
            forall|a: AssetId, b: AssetId| !r.spec_has_pool(a, b),
    {
        LiquidityRouter { account, reference_asset: None, pools: Vec::new() }
    }

    /// The router's custody account.
    pub fn address(&self) -> (r: AccountId)
        ensures
            r == self.spec_account(),
    {
        self.account
    }

    /// Sets the reference asset, once.
    pub fn initialize(&mut self, reference_asset: AssetId) -> (r: Result<(), Error>)
        ensures
            final(self).wf() == old(self).wf(),
            final(self).spec_account() == old(self).spec_account(),
            r is Ok <==> !old(self).initialized(),
            r is Ok ==> final(self).initialized() && final(self).reference() == reference_asset,
            r is Ok ==> forall|a: AssetId, b: AssetId|
                final(self).spec_has_pool(a, b) == old(self).spec_has_pool(a, b)
                    && final(self).reserve_in(a, b) == old(self).reserve_in(a, b),
            r is Err ==> *final(self) == *old(self) && r == Err::<(), Error>(
                Error::AlreadyInitialized,
            ),
    {
        if self.reference_asset.is_some() {
            return Err(Error::AlreadyInitialized);
        }
        self.reference_asset = Some(reference_asset);
        Ok(())
    }

    /// The deterministic pool address for a pair: both orders of the same
    /// two assets name the same pool.
    pub fn get_pool_address(asset_a: AssetId, asset_b: AssetId) -> (p: PoolId)
        ensures
            p == Self::spec_pool_id(asset_a, asset_b),
            p == Self::spec_pool_id(asset_b, asset_a),
    {
        if asset_a <= asset_b {
            PoolId { asset_lo: asset_a, asset_hi: asset_b }
        } else {
            PoolId { asset_lo: asset_b, asset_hi: asset_a }
        }
    }

    fn find_pool(&self, lo: AssetId, hi: AssetId) -> (r: Option<usize>)
        ensures
            match r {
                Some(i) => i < self.pools@.len() && self.pools@[i as int].lo == lo
                    && self.pools@[i as int].hi == hi && pl_has(self.pools@, lo, hi),
                None => !pl_has(self.pools@, lo, hi),
            },
    {
        let mut i: usize = 0;
        while i < self.pools.len()
            invariant
                i <= self.pools@.len(),
                forall|j: int|
                    0 <= j < i ==> !((#[trigger] self.pools@[j]).lo == lo && self.pools@[j].hi
                        == hi),
            decreases self.pools@.len() - i,
        {
            let p = &self.pools[i];
            if p.lo == lo && p.hi == hi {
                proof {
                    assert(pl_has(self.pools@, lo, hi));
                }
                return Some(i);
            }
            i = i + 1;
        }
        None
    }

    /// Writes the oracle's reserve quantities for the pair's pool, with
    /// `reserve_a` on `asset_a`'s side; creates the pool entry when the
    /// pair is new.
    pub fn set_pool_reserves(
        &mut self,
        asset_a: AssetId,
        asset_b: AssetId,
        reserve_a: i128,
        reserve_b: i128,
    ) -> (r: Result<(), Error>)
        requires
            old(self).wf(),
        ensures
            final(self).wf(),
            final(self).spec_account() == old(self).spec_account(),
            final(self).initialized() == old(self).initialized(),
            final(self).initialized() ==> final(self).reference() == old(self).reference(),
            r is Ok <==> asset_a != asset_b && reserve_a >= 0 && reserve_b >= 0,
            r is Err ==> *final(self) == *old(self) && r == Err::<(), Error>(
                Error::InvalidArgument,
            ),
            r is Ok ==> final(self).spec_has_pool(asset_a, asset_b),
            r is Ok ==> final(self).reserve_in(asset_a, asset_b) == reserve_a
                && final(self).reserve_in(asset_b, asset_a) == reserve_b,
            r is Ok ==> forall|a: AssetId, b: AssetId|
                Self::spec_pool_id(a, b) != Self::spec_pool_id(asset_a, asset_b)
                    ==> final(self).spec_has_pool(a, b) == old(self).spec_has_pool(a, b) && (old(
                    self,
                ).spec_has_pool(a, b) ==> final(self).reserve_in(a, b) == old(self).reserve_in(
                    a,
                    b,
                )),
    {
        if asset_a == asset_b {
            return Err(Error::InvalidArgument);
        }
        if reserve_a < 0 || reserve_b < 0 {
            return Err(Error::InvalidArgument);
        }
        let (lo, hi, rlo, rhi) = if asset_a < asset_b {
            (asset_a, asset_b, reserve_a, reserve_b)
        } else {
            (asset_b, asset_a, reserve_b, reserve_a)
        };
        let ghost pre = self.pools@;
        match self.find_pool(lo, hi) {
            Some(i) => {
                self.pools[i] = Pool { lo, hi, reserve_lo: rlo, reserve_hi: rhi };
                proof {
                    pl_lemma_update(pre, self.pools@, i as int);
                }
            },
            None => {
                self.pools.push(Pool { lo, hi, reserve_lo: rlo, reserve_hi: rhi });
                proof {
                    pl_lemma_push(pre, self.pools@);
                }
            },
        }
        Ok(())
    }

    /// Reads the pair's reserves, oriented so the first component sits on
    /// `asset_a`'s side.
    pub fn get_pool_reserves(&self, asset_a: AssetId, asset_b: AssetId) -> (r: Result<
        (i128, i128),
        Error,
    >)
        requires
            self.wf(),
        ensures
            r is Ok <==> self.spec_has_pool(asset_a, asset_b),
            r is Err ==> r == Err::<(i128, i128), Error>(Error::NotFound),
            r is Ok ==> r->Ok_0.0 == self.reserve_in(asset_a, asset_b) && r->Ok_0.1
                == self.reserve_in(asset_b, asset_a),
    {
        let p = Self::get_pool_address(asset_a, asset_b);
        match self.find_pool(p.asset_lo, p.asset_hi) {
            Some(i) => {
                proof {
                    pl_lemma_at(self.pools@, i as int);
                }
                let pool = &self.pools[i];
                if asset_a <= asset_b {
                    Ok((pool.reserve_lo, pool.reserve_hi))
                } else {
                    Ok((pool.reserve_hi, pool.reserve_lo))
                }
            },
            None => Err(Error::NotFound),
        }
    }

    /// The constant-product output with the 0.3% fee:
    /// `(input × 997 × reserve_out) / (reserve_in × 1000 + input × 997)`,
    /// floored; zero when either reserve is empty. Rejects computations
    /// that leave 128-bit amounts.
    pub fn calculate_swap_output(input_amount: i128, input_reserve: i128, output_reserve: i128) -> (
        r: Result<i128, Error>)
        requires
            0 <= input_amount,
            0 <= input_reserve,
            0 <= output_reserve,
        ensures
            r is Ok <==> swap_fits(input_amount as int, input_reserve as int, output_reserve as int),
            r is Ok ==> r->Ok_0 == swap_output(
                input_amount as int,
                input_reserve as int,
                output_reserve as int,
            ),
            r is Err ==> r == Err::<i128, Error>(Error::Arithmetic),
            r is Ok ==> 0 <= r->Ok_0,
    {
        if input_reserve == 0 || output_reserve == 0 {
            return Ok(0);
        }
        let input_with_fee = match input_amount.checked_mul(997) {
            Some(v) => v,
            None => {
                proof {
                    lemma_no_fit(input_amount as int, input_reserve as int, output_reserve as int);
                }
                return Err(Error::Arithmetic);
            },
        };
        let numerator = match input_with_fee.checked_mul(output_reserve) {
            Some(v) => v,
            None => {
                proof {
                    lemma_no_fit(input_amount as int, input_reserve as int, output_reserve as int);
                }
                return Err(Error::Arithmetic);
            },
        };
        let scaled = match input_reserve.checked_mul(1000) {
            Some(v) => v,
            None => {
                proof {
                    lemma_no_fit(input_amount as int, input_reserve as int, output_reserve as int);
                }
                return Err(Error::Arithmetic);
            },
        };
        let denominator = match scaled.checked_add(input_with_fee) {
            Some(v) => v,
            None => {
                return Err(Error::Arithmetic);
            },
        };
        proof {
            assert(denominator >= 1000) by (nonlinear_arith)
                requires
                    denominator == input_reserve * 1000 + input_amount * 997,
                    input_reserve >= 1,
                    input_amount >= 0,
            ;
            lemma_swap_output_bounds(
                input_amount as int,
                input_reserve as int,
                output_reserve as int,
            );
        }
        Ok(div_floor(numerator, denominator))
    }
}

/// Truncating division (the machine's signed division), for a positive
/// divisor.
pub open spec fn div_trunc(a: int, b: int) -> int {
    if a >= 0 {
        a / b
    } else {
        -((-a) / b)
    }
}

impl LiquidityRouter {
    /// One hop quoted without executing it.
    fn quote_single_swap(&self, from_asset: AssetId, to_asset: AssetId, amount_in: i128) -> (r:
        Result<i128, Error>)
        requires
            self.wf(),
            0 <= amount_in,
        ensures
            match r {
                Ok(v) => self.spec_rate_single(from_asset, to_asset, amount_in as int) == Ok::<
                    int,
                    Error,
                >(v as int) && 0 <= v,
                Err(e) => self.spec_rate_single(from_asset, to_asset, amount_in as int) == Err::<
                    int,
                    Error,
                >(e),
            },
    {
        let (reserve_in, reserve_out) = match self.get_pool_reserves(from_asset, to_asset) {
            Ok(p) => p,
            Err(e) => {
                return Err(e);
            },
        };
        Self::calculate_swap_output(amount_in, reserve_in, reserve_out)
    }

    /// The expected output of converting `amount` of `from_asset` into
    /// `to_asset` along the routing path, as a pure quote.
    pub fn get_exchange_rate(&self, from_asset: AssetId, to_asset: AssetId, amount: i128) -> (r:
        Result<i128, Error>)
        requires
            self.wf(),
            0 <= amount,
        ensures
            match r {
                Ok(v) => self.spec_rate(from_asset, to_asset, amount as int) == Ok::<int, Error>(
                    v as int,
                ) && 0 <= v,
                Err(e) => self.spec_rate(from_asset, to_asset, amount as int) == Err::<int, Error>(
                    e,
                ),
            },
    {
        if from_asset == to_asset {
            return Ok(amount);
        }
        let reference = match self.reference_asset {
            Some(x) => x,
            None => {
                return Err(Error::NotFound);
            },
        };
        if from_asset == reference || to_asset == reference {
            self.quote_single_swap(from_asset, to_asset, amount)
        } else {
            let mid = match self.quote_single_swap(from_asset, reference, amount) {
                Ok(v) => v,
                Err(e) => {
                    return Err(e);
                },
            };
            self.quote_single_swap(reference, to_asset, mid)
        }
    }

    /// Settles one executed hop against the pair's pool: `amount_in` of
    /// `from_asset` leaves the router's account for the pool, and
    /// `amount_out` of `to_asset` arrives from it.
    fn settle_hop(
        &self,
        tokens: &mut TokenLedger,
        from_asset: AssetId,
        to_asset: AssetId,
        amount_in: i128,
        amount_out: i128,
    )
        requires
            old(tokens).wf(),
            0 <= amount_in,
            0 <= amount_out,
            from_asset != to_asset,
            old(tokens).has_asset(from_asset),
            old(tokens).has_asset(to_asset),
            old(tokens).bal(from_asset, self.spec_account()) >= amount_in,
            old(tokens).bal(to_asset, self.spec_account()) + amount_out <= i128::MAX,
        ensures
            final(tokens).wf(),
            forall|x: AssetId| final(tokens).has_asset(x) == old(tokens).has_asset(x),
            final(tokens).bal(from_asset, self.spec_account()) == old(tokens).bal(
                from_asset,
                self.spec_account(),
            ) - amount_in,
            final(tokens).bal(to_asset, self.spec_account()) == old(tokens).bal(
                to_asset,
                self.spec_account(),
            ) + amount_out,
            forall|x: AssetId, a: AccountId|
                !((x == from_asset || x == to_asset) && a == self.spec_account())
                    ==> final(tokens).bal(x, a) == old(tokens).bal(x, a),
    {
        let ghost t0 = *tokens;
        let r1 = tokens.burn(from_asset, self.account, amount_in);
        match r1 {
            Ok(_) => {},
            Err(_) => {
                proof {
                    assert(false);
                }
            },
        }
        let ghost t1 = *tokens;
        let r2 = tokens.mint(to_asset, self.account, amount_out);
        match r2 {
            Ok(_) => {},
            Err(_) => {
                proof {
                    assert(false);
                }
            },
        }
        proof {
            assert forall|x: AssetId, a: AccountId|
                !((x == from_asset || x == to_asset) && a == self.spec_account()) implies tokens.bal(
                x,
                a,
            ) == t0.bal(x, a) by {
                assert(t1.bal(x, a) == t0.bal(x, a));
                assert(tokens.bal(x, a) == t1.bal(x, a));
            }
        }
    }

    /// The exact outcome of `convert_and_send`, decided over the current
    /// pools and ledger balances.
    pub open spec fn spec_execute(
        &self,
        t: &TokenLedger,
        from: AssetId,
        to: AssetId,
        amount: i128,
        recipient: AccountId,
        min_out: int,
    ) -> Result<i128, Error> {
        let acct = self.spec_account();
        if from == self.reference() || to == self.reference() {
            let out = self.spec_quote1(from, to, amount as int);
            if out < min_out {
                Err(Error::SlippageExceeded)
            } else if !t.has_asset(from) {
                Err(Error::NotFound)
            } else if t.bal(from, acct) < amount {
                Err(Error::InsufficientBalance)
            } else if !t.has_asset(to) {
                Err(Error::NotFound)
            } else if t.bal(to, acct) + out > i128::MAX {
                Err(Error::Arithmetic)
            } else if recipient != acct && t.bal(to, recipient) + out > i128::MAX {
                Err(Error::Arithmetic)
            } else {
                Ok(out as i128)
            }
        } else {
            let out1 = self.spec_quote1(from, self.reference(), amount as int);
            let out2 = self.spec_quote1(self.reference(), to, out1);
            if out2 < min_out {
                Err(Error::SlippageExceeded)
            } else if !t.has_asset(from) {
                Err(Error::NotFound)
            } else if t.bal(from, acct) < amount {
                Err(Error::InsufficientBalance)
            } else if !t.has_asset(self.reference()) {
                Err(Error::NotFound)
            } else if t.bal(self.reference(), acct) + out1 > i128::MAX {
                Err(Error::Arithmetic)
            } else if !t.has_asset(to) {
                Err(Error::NotFound)
            } else if t.bal(to, acct) + out2 > i128::MAX {
                Err(Error::Arithmetic)
            } else if recipient != acct && t.bal(to, recipient) + out2 > i128::MAX {
                Err(Error::Arithmetic)
            } else {
                Ok(out2 as i128)
            }
        }
    }

    /// The exact outcome of the whole conversion: the identical-asset
    /// short circuit, the quote, the slippage bound
    /// `min_out = expected - expected * max_slippage_bps / 10000`, and the
    /// execution path.
    pub open spec fn spec_convert(
        &self,
        t: &TokenLedger,
        from: AssetId,
        to: AssetId,
        amount: i128,
        recipient: AccountId,
        max_slippage_bps: i128,
    ) -> Result<i128, Error> {
        let acct = self.spec_account();
        if from == to {
            if !t.has_asset(from) {
                Err(Error::NotFound)
            } else if t.bal(from, acct) < amount {
                Err(Error::InsufficientBalance)
            } else if recipient != acct && t.bal(from, recipient) + amount > i128::MAX {
                Err(Error::Arithmetic)
            } else {
                Ok(amount)
            }
        } else {
            match self.spec_rate(from, to, amount as int) {
                Err(e) => Err(e),
                Ok(expected) => {
                    if expected * max_slippage_bps > i128::MAX || expected * max_slippage_bps
                        < i128::MIN {
                        Err(Error::Arithmetic)
                    } else {
                        let min_out = expected - div_trunc(expected * max_slippage_bps, 10000);
                        if min_out > i128::MAX || min_out < i128::MIN {
                            Err(Error::Arithmetic)
                        } else {
                            self.spec_execute(t, from, to, amount, recipient, min_out)
                        }
                    }
                },
            }
        }
    }

    /// The outcome `convert_and_send` will have once the caller has moved
    /// `amount` of `from_asset` into the router's account: the same
    /// decision over the current ledger, with the router's own funding
    /// taken as given.
    pub open spec fn spec_execute_funded(
        &self,
        t: &TokenLedger,
        from: AssetId,
        to: AssetId,
        amount: i128,
        recipient: AccountId,
        min_out: int,
    ) -> Result<i128, Error> {
        let acct = self.spec_account();
        if from == self.reference() || to == self.reference() {
            let out = self.spec_quote1(from, to, amount as int);
            if out < min_out {
                Err(Error::SlippageExceeded)
            } else if !t.has_asset(from) {
                Err(Error::NotFound)
            } else if !t.has_asset(to) {
                Err(Error::NotFound)
            } else if t.bal(to, acct) + out > i128::MAX {
                Err(Error::Arithmetic)
            } else if recipient != acct && t.bal(to, recipient) + out > i128::MAX {
                Err(Error::Arithmetic)
            } else {
                Ok(out as i128)
            }
        } else {
            let out1 = self.spec_quote1(from, self.reference(), amount as int);
            let out2 = self.spec_quote1(self.reference(), to, out1);
            if out2 < min_out {
                Err(Error::SlippageExceeded)
            } else if !t.has_asset(from) {
                Err(Error::NotFound)
            } else if !t.has_asset(self.reference()) {
                Err(Error::NotFound)
            } else if t.bal(self.reference(), acct) + out1 > i128::MAX {
                Err(Error::Arithmetic)
            } else if !t.has_asset(to) {
                Err(Error::NotFound)
            } else if t.bal(to, acct) + out2 > i128::MAX {
                Err(Error::Arithmetic)
            } else if recipient != acct && t.bal(to, recipient) + out2 > i128::MAX {
                Err(Error::Arithmetic)
            } else {
                Ok(out2 as i128)
            }
        }
    }

    /// The whole funded conversion decision for two distinct assets.
    pub open spec fn spec_convert_funded(
        &self,
        t: &TokenLedger,
        from: AssetId,
        to: AssetId,
        amount: i128,
        recipient: AccountId,
        max_slippage_bps: i128,
    ) -> Result<i128, Error> {
        match self.spec_rate(from, to, amount as int) {
            Err(e) => Err(e),
            Ok(expected) => {
                if expected * max_slippage_bps > i128::MAX || expected * max_slippage_bps
                    < i128::MIN {
                    Err(Error::Arithmetic)
                } else {
                    let min_out = expected - div_trunc(expected * max_slippage_bps, 10000);
                    if min_out > i128::MAX || min_out < i128::MIN {
                        Err(Error::Arithmetic)
                    } else {
                        self.spec_execute_funded(t, from, to, amount, recipient, min_out)
                    }
                }
            },
        }
    }

    /// Once the router's account has been funded with `amount` of the
    /// input asset on top of a ledger that otherwise agrees with `t_old`,
    /// the conversion decides exactly as the funded decision over `t_old`:
    /// nothing in it reads the input asset's balances besides the
    /// router's own funding.
    pub proof fn lemma_convert_after_funding(
        &self,
        t_old: &TokenLedger,
        t_mid: &TokenLedger,
        from: AssetId,
        to: AssetId,
        amount: i128,
        recipient: AccountId,
        max_slippage_bps: i128,
    )
        requires
            self.wf(),
            0 <= amount,
            from != to,
            forall|x: AssetId| t_mid.has_asset(x) == t_old.has_asset(x),
            forall|x: AssetId, a: AccountId| x != from ==> t_mid.bal(x, a) == t_old.bal(x, a),
            t_mid.bal(from, self.spec_account()) >= amount,
        ensures
            self.spec_convert(t_mid, from, to, amount, recipient, max_slippage_bps)
                == self.spec_convert_funded(t_old, from, to, amount, recipient, max_slippage_bps),
    {
        let acct = self.spec_account();
        match self.spec_rate(from, to, amount as int) {
            Err(_) => {},
            Ok(expected) => {
                if self.initialized() {
                    let refa = self.reference();
                    if from == refa || to == refa {
                        assert(t_mid.bal(to, acct) == t_old.bal(to, acct));
                        if recipient != acct {
                            assert(t_mid.bal(to, recipient) == t_old.bal(to, recipient));
                        }
                    } else {
                        assert(t_mid.bal(refa, acct) == t_old.bal(refa, acct));
                        assert(t_mid.bal(to, acct) == t_old.bal(to, acct));
                        if recipient != acct {
                            assert(t_mid.bal(to, recipient) == t_old.bal(to, recipient));
                        }
                    }
                }
            },
        }
    }

    /// Quotes the whole conversion and checks every settlement condition
    /// that `convert_and_send` will enforce once the router has been
    /// funded with `amount` of the input asset, without touching any
    /// state.
    pub fn preflight_convert(
        &self,
        tokens: &TokenLedger,
        from_asset: AssetId,
        to_asset: AssetId,
        amount: i128,
        recipient: AccountId,
        max_slippage_bps: i128,
    ) -> (r: Result<i128, Error>)
        requires
            self.wf(),
            tokens.wf(),
            0 <= amount,
            from_asset != to_asset,
        ensures
            r == self.spec_convert_funded(
                tokens,
                from_asset,
                to_asset,
                amount,
                recipient,
                max_slippage_bps,
            ),
            r is Ok ==> 0 <= r->Ok_0,
            0 <= max_slippage_bps ==> r != Err::<i128, Error>(Error::SlippageExceeded),
    {
        let expected = match self.get_exchange_rate(from_asset, to_asset, amount) {
            Ok(v) => v,
            Err(e) => {
                return Err(e);
            },
        };
        let prod = match expected.checked_mul(max_slippage_bps) {
            Some(v) => v,
            None => {
                return Err(Error::Arithmetic);
            },
        };
        let q = match prod.checked_div(10000) {
            Some(v) => v,
            None => {
                proof {
                    if prod >= 0 {
                        lemma_div_nonincreasing(prod as int, 10000);
                        lemma_div_pos_is_pos(prod as int, 10000);
                    } else {
                        lemma_div_nonincreasing(-(prod as int), 10000);
                        lemma_div_pos_is_pos(-(prod as int), 10000);
                    }
                    assert(false);
                }
                return Err(Error::Arithmetic);
            },
        };
        proof {
            assert(q == div_trunc(prod as int, 10000));
        }
        let min_out = match expected.checked_sub(q) {
            Some(v) => v,
            None => {
                return Err(Error::Arithmetic);
            },
        };
        let reference = match self.reference_asset {
            Some(x) => x,
            None => {
                proof {
                    assert(false);
                }
                return Err(Error::NotFound);
            },
        };
        let acct = self.account;
        if from_asset == reference || to_asset == reference {
            let out = expected;
            if out < min_out {
                proof {
                    if max_slippage_bps >= 0 {
                        assert(prod >= 0) by (nonlinear_arith)
                            requires
                                prod == expected * max_slippage_bps,
                                expected >= 0,
                                max_slippage_bps >= 0,
                        ;
                        lemma_div_pos_is_pos(prod as int, 10000);
                        assert(false);
                    }
                }
                return Err(Error::SlippageExceeded);
            }
            if !tokens.has(from_asset) {
                return Err(Error::NotFound);
            }
            if !tokens.has(to_asset) {
                return Err(Error::NotFound);
            }
            let bto = tokens.balance(to_asset, acct);
            if bto > i128::MAX - out {
                return Err(Error::Arithmetic);
            }
            if recipient != acct {
                let brec = tokens.balance(to_asset, recipient);
                if brec > i128::MAX - out {
                    return Err(Error::Arithmetic);
                }
            }
            Ok(out)
        } else {
            let out1 = match self.quote_single_swap(from_asset, reference, amount) {
                Ok(v) => v,
                Err(_) => {
                    proof {
                        assert(false);
                    }
                    return Err(Error::NotFound);
                },
            };
            let out = expected;
            if out < min_out {
                proof {
                    if max_slippage_bps >= 0 {
                        assert(prod >= 0) by (nonlinear_arith)
                            requires
                                prod == expected * max_slippage_bps,
                                expected >= 0,
                                max_slippage_bps >= 0,
                        ;
                        lemma_div_pos_is_pos(prod as int, 10000);
                        assert(false);
                    }
                }
                return Err(Error::SlippageExceeded);
            }
            if !tokens.has(from_asset) {
                return Err(Error::NotFound);
            }
            if !tokens.has(reference) {
                return Err(Error::NotFound);
            }
            let bref = tokens.balance(reference, acct);
            if bref > i128::MAX - out1 {
                return Err(Error::Arithmetic);
            }
            if !tokens.has(to_asset) {
                return Err(Error::NotFound);
            }
            let bto = tokens.balance(to_asset, acct);
            if bto > i128::MAX - out {
                return Err(Error::Arithmetic);
            }
            if recipient != acct {
                let brec = tokens.balance(to_asset, recipient);
                if brec > i128::MAX - out {
                    return Err(Error::Arithmetic);
                }
            }
            Ok(out)
        }
    }

    /// Converts `amount` of `from_asset` held by the router into
    /// `to_asset` and sends the realized output to `recipient`, exactly or
    /// not at all: on any error no balance has changed. A non-negative
    /// slippage bound can never be exceeded here, because the hops settle
    /// at the quoted rate within one atomic operation.
    #[verifier::rlimit(100)]
    pub fn convert_and_send(
        &self,
        tokens: &mut TokenLedger,
        from_asset: AssetId,
        to_asset: AssetId,
        amount: i128,
        recipient: AccountId,
        max_slippage_bps: i128,
    ) -> (r: Result<i128, Error>)
        requires
            self.wf(),
            old(tokens).wf(),
            0 <= amount,
        ensures
            final(tokens).wf(),
            forall|x: AssetId| final(tokens).has_asset(x) == old(tokens).has_asset(x),
            r is Err ==> *final(tokens) == *old(tokens),
            match r {
                Ok(v) => self.spec_convert(
                    old(tokens),
                    from_asset,
                    to_asset,
                    amount,
                    recipient,
                    max_slippage_bps,
                ) == Ok::<i128, Error>(v),
                Err(e) => self.spec_convert(
                    old(tokens),
                    from_asset,
                    to_asset,
                    amount,
                    recipient,
                    max_slippage_bps,
                ) == Err::<i128, Error>(e),
            },
            0 <= max_slippage_bps ==> r != Err::<i128, Error>(Error::SlippageExceeded),
            r is Ok ==> 0 <= r->Ok_0,
            r is Ok && recipient == self.spec_account() && from_asset == to_asset
                ==> *final(tokens) == *old(tokens),
            r is Ok && recipient != self.spec_account() && from_asset == to_asset
                ==> final(tokens).bal(from_asset, self.spec_account()) == old(tokens).bal(
                from_asset,
                self.spec_account(),
            ) - amount && final(tokens).bal(from_asset, recipient) == old(tokens).bal(
                from_asset,
                recipient,
            ) + amount,
            r is Ok && recipient == self.spec_account() && from_asset != to_asset
                ==> final(tokens).bal(from_asset, self.spec_account()) == old(tokens).bal(
                from_asset,
                self.spec_account(),
            ) - amount && final(tokens).bal(to_asset, self.spec_account()) == old(tokens).bal(
                to_asset,
                self.spec_account(),
            ) + r->Ok_0,
            r is Ok && recipient != self.spec_account() && from_asset != to_asset
                ==> final(tokens).bal(from_asset, self.spec_account()) == old(tokens).bal(
                from_asset,
                self.spec_account(),
            ) - amount && final(tokens).bal(to_asset, self.spec_account()) == old(tokens).bal(
                to_asset,
                self.spec_account(),
            ) && final(tokens).bal(to_asset, recipient) == old(tokens).bal(to_asset, recipient)
                + r->Ok_0,
            r is Ok ==> forall|x: AssetId, a: AccountId|
                !((x == from_asset && a == self.spec_account()) || (x == to_asset && (a
                    == self.spec_account() || a == recipient))) ==> final(tokens).bal(x, a) == old(
                    tokens,
                ).bal(x, a),
    {
        let acct = self.account;
        if from_asset == to_asset {
            let tr = tokens.transfer(from_asset, acct, recipient, amount);
            return match tr {
                Ok(_) => Ok(amount),
                Err(e) => Err(e),
            };
        }
        let expected = match self.get_exchange_rate(from_asset, to_asset, amount) {
            Ok(v) => v,
            Err(e) => {
                return Err(e);
            },
        };
        let prod = match expected.checked_mul(max_slippage_bps) {
            Some(v) => v,
            None => {
                return Err(Error::Arithmetic);
            },
        };
        let q = match prod.checked_div(10000) {
            Some(v) => v,
            None => {
                proof {
                    if prod >= 0 {
                        lemma_div_nonincreasing(prod as int, 10000);
                        lemma_div_pos_is_pos(prod as int, 10000);
                    } else {
                        lemma_div_nonincreasing(-(prod as int), 10000);
                        lemma_div_pos_is_pos(-(prod as int), 10000);
                    }
                    assert(false);
                }
                return Err(Error::Arithmetic);
            },
        };
        proof {
            assert(q == div_trunc(prod as int, 10000));
        }
        let min_out = match expected.checked_sub(q) {
            Some(v) => v,
            None => {
                return Err(Error::Arithmetic);
            },
        };
        let reference = match self.reference_asset {
            Some(x) => x,
            None => {
                proof {
                    assert(false);
                }
                return Err(Error::NotFound);
            },
        };
        if from_asset == reference || to_asset == reference {
            let out = expected;
            if out < min_out {
                proof {
                    if max_slippage_bps >= 0 {
                        assert(prod >= 0) by (nonlinear_arith)
                            requires
                                prod == expected * max_slippage_bps,
                                expected >= 0,
                                max_slippage_bps >= 0,
                        ;
                        lemma_div_pos_is_pos(prod as int, 10000);
                        assert(false);
                    }
                }
                return Err(Error::SlippageExceeded);
            }
            if !tokens.has(from_asset) {
                return Err(Error::NotFound);
            }
            let bfrom = tokens.balance(from_asset, acct);
            if bfrom < amount {
                return Err(Error::InsufficientBalance);
            }
            if !tokens.has(to_asset) {
                return Err(Error::NotFound);
            }
            let bto = tokens.balance(to_asset, acct);
            if bto > i128::MAX - out {
                return Err(Error::Arithmetic);
            }
            if recipient != acct {
                let brec = tokens.balance(to_asset, recipient);
                if brec > i128::MAX - out {
                    return Err(Error::Arithmetic);
                }
            }
            let ghost t0 = *tokens;
            self.settle_hop(tokens, from_asset, to_asset, amount, out);
            let ghost t1 = *tokens;
            proof {
                t0.lemma_bal_nonneg(to_asset, acct);
                assert(t1.bal(to_asset, acct) == t0.bal(to_asset, acct) + out);
                if recipient != acct {
                    assert(t1.bal(to_asset, recipient) == t0.bal(to_asset, recipient));
                }
            }
            let tr = tokens.transfer(to_asset, acct, recipient, out);
            match tr {
                Ok(_) => {
                    proof {
                        assert forall|x: AssetId, a: AccountId|
                            !((x == from_asset && a == acct) || (x == to_asset && (a == acct || a
                                == recipient))) implies tokens.bal(x, a) == t0.bal(x, a) by {
                            assert(t1.bal(x, a) == t0.bal(x, a));
                            assert(tokens.bal(x, a) == t1.bal(x, a));
                        }
                    }
                    Ok(out)
                },
                Err(e) => {
                    proof {
                        assert(false);
                    }
                    Err(e)
                },
            }
        } else {
            let out1 = match self.quote_single_swap(from_asset, reference, amount) {
                Ok(v) => v,
                Err(_) => {
                    proof {
                        assert(false);
                    }
                    return Err(Error::NotFound);
                },
            };
            let out = expected;
            if out < min_out {
                proof {
                    if max_slippage_bps >= 0 {
                        assert(prod >= 0) by (nonlinear_arith)
                            requires
                                prod == expected * max_slippage_bps,
                                expected >= 0,
                                max_slippage_bps >= 0,
                        ;
                        lemma_div_pos_is_pos(prod as int, 10000);
                        assert(false);
                    }
                }
                return Err(Error::SlippageExceeded);
            }
            if !tokens.has(from_asset) {
                return Err(Error::NotFound);
            }
            let bfrom = tokens.balance(from_asset, acct);
            if bfrom < amount {
                return Err(Error::InsufficientBalance);
            }
            if !tokens.has(reference) {
                return Err(Error::NotFound);
            }
            let bref = tokens.balance(reference, acct);
            if bref > i128::MAX - out1 {
                return Err(Error::Arithmetic);
            }
            if !tokens.has(to_asset) {
                return Err(Error::NotFound);
            }
            let bto = tokens.balance(to_asset, acct);
            if bto > i128::MAX - out {
                return Err(Error::Arithmetic);
            }
            if recipient != acct {
                let brec = tokens.balance(to_asset, recipient);
                if brec > i128::MAX - out {
                    return Err(Error::Arithmetic);
                }
            }
            let ghost t0 = *tokens;
            self.settle_hop(tokens, from_asset, reference, amount, out1);
            let ghost t1 = *tokens;
            proof {
                t0.lemma_bal_nonneg(reference, acct);
            }
            self.settle_hop(tokens, reference, to_asset, out1, out);
            let ghost t2 = *tokens;
            proof {
                t0.lemma_bal_nonneg(to_asset, acct);
                assert(t1.bal(to_asset, acct) == t0.bal(to_asset, acct));
                assert(t2.bal(to_asset, acct) == t1.bal(to_asset, acct) + out);
                if recipient != acct {
                    assert(t1.bal(to_asset, recipient) == t0.bal(to_asset, recipient));
                    assert(t2.bal(to_asset, recipient) == t1.bal(to_asset, recipient));
                }
            }
            let tr = tokens.transfer(to_asset, acct, recipient, out);
            match tr {
                Ok(_) => {
                    proof {
                        assert forall|x: AssetId, a: AccountId|
                            !((x == from_asset && a == acct) || (x == to_asset && (a == acct || a
                                == recipient))) && !(x == reference && a == acct) implies tokens.bal(
                            x,
                            a,
                        ) == t0.bal(x, a) by {
                            assert(t1.bal(x, a) == t0.bal(x, a));
                            assert(t2.bal(x, a) == t1.bal(x, a));
                            assert(tokens.bal(x, a) == t2.bal(x, a));
                        }
                        assert(tokens.bal(reference, acct) == t0.bal(reference, acct));
                    }
                    Ok(out)
                },
                Err(e) => {
                    proof {
                        assert(false);
                    }
                    Err(e)
                },
            }
        }
    }
}

/// When the fee-scaled product leaves 128-bit amounts on positive
/// reserves, the computation does not fit.
proof fn lemma_no_fit(x: int, rin: int, rout: int)
    requires
        0 <= x,
        1 <= rin,
        1 <= rout,
        x * 997 > i128::MAX || x * 997 * rout > i128::MAX || rin * 1000 > i128::MAX || rin * 1000
            + x * 997 > i128::MAX,
    ensures
        !swap_fits(x, rin, rout),
{
    if x * 997 > i128::MAX {
        assert(x * 997 * rout >= x * 997) by (nonlinear_arith)
            requires
                x >= 0,
                rout >= 1,
        ;
    }
    if rin * 1000 > i128::MAX {
        assert(rin * 1000 + x * 997 >= rin * 1000) by (nonlinear_arith)
            requires
                x >= 0,
        ;
    }
}

} // verus!
