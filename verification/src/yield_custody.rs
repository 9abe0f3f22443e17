//! The yield custody tracker: per-owner principal and yield-bearing
//! balances.
//!
//! Deposits convert the settlement asset into yield-bearing units at the
//! fixed 1:1 exchange policy of a stable reference unit, and redemptions
//! convert back at the same rate. Yield accrues over elapsed ledger time
//! at a fixed 5% annual rate (500 basis points) on the unit balance and
//! compounds when harvested. The current time enters as an argument; the
//! platform clock never decreases, and a stale timestamp accrues nothing.

use vstd::arithmetic::div_mod::lemma_div_basics_1;
use vstd::arithmetic::div_mod::lemma_div_is_ordered_by_denominator;
use vstd::arithmetic::div_mod::lemma_div_basics;
use vstd::arithmetic::div_mod::lemma_div_pos_is_pos;
use vstd::prelude::*;

use crate::amount::div_floor;
use crate::errors::Error;
use crate::token::TokenLedger;
use crate::AccountId;
use crate::AssetId;

verus! {

/// One owner's custody position.
#[derive(Clone, Copy, Debug, PartialEq, Eq, Structural)]
pub struct YieldPosition {
    /// The account the position belongs to.
    pub owner: AccountId,
    /// Settlement-asset principal still eligible for interest.
    pub principal: i128,
    /// Current yield-bearing unit holding; never below `principal`.
    pub ousg_balance: i128,
    /// When the position was opened.
    pub deposited_at: u64,
    /// When yield was last computed into the balance.
    pub last_harvest_at: u64,
    /// Cumulative yield ever harvested into the balance.
    pub total_yield_earned: i128,
}

/// Tracks every owner's position and settles deposits and withdrawals
/// against the token ledger.
pub struct RwaYieldHarvester {
    account: AccountId,
    trusted_caller: AccountId,
    positions: Vec<YieldPosition>,
}

/// Elapsed accrual time: the clock never decreases, and a stale `now`
/// accrues nothing.
pub open spec fn spec_elapsed(now: u64, last: u64) -> int {
    if now >= last {
        now - last
    } else {
        0
    }
}

/// Accrued yield on `balance` units over `elapsed` seconds:
/// `balance × apy_bps × elapsed / (seconds_per_year × 10000)` with
/// `apy_bps = 500`, floored.
pub open spec fn yield_amount(balance: int, elapsed: int) -> int {
    (balance * 500 * elapsed) / (31_536_000int * 10000)
}

/// Whether the yield computation stays inside 128-bit amounts.
pub open spec fn yield_fits(balance: int, elapsed: int) -> bool {
    balance * 500 <= i128::MAX && balance * 500 * elapsed <= i128::MAX
}

proof fn lemma_yield_bounds(balance: int, elapsed: int)
    requires
        0 <= balance,
        0 <= elapsed,
    ensures
        0 <= yield_amount(balance, elapsed),
        yield_amount(balance, elapsed) <= balance * 500 * elapsed,
        elapsed == 0 ==> yield_amount(balance, elapsed) == 0,
{
    assert(balance * 500 * elapsed >= 0) by (nonlinear_arith)
        requires
            0 <= balance,
            0 <= elapsed,
    ;
    let num = balance * 500 * elapsed;
    lemma_div_pos_is_pos(num, 31_536_000int * 10000);
    lemma_div_is_ordered_by_denominator(num, 1, 31_536_000int * 10000);
    lemma_div_basics(num);
    if elapsed == 0 {
        assert(balance * 500 * elapsed == 0) by (nonlinear_arith)
            requires
                elapsed == 0,
        ;
        lemma_div_basics_1(31_536_000int * 10000);
    }
}

/// The position left behind by a harvest-then-redeem withdrawal of
/// `units`: yield `y` compounds in, the units leave, and the principal is
/// trimmed so it never exceeds the remaining balance.
pub open spec fn position_after_withdraw(p: YieldPosition, y: int, units: i128, now: u64) -> YieldPosition {
    YieldPosition {
        principal: if p.principal <= p.ousg_balance + y - units {
            p.principal
        } else {
            (p.ousg_balance + y - units) as i128
        },
        ousg_balance: (p.ousg_balance + y - units) as i128,
        last_harvest_at: now,
        total_yield_earned: (p.total_yield_earned + y) as i128,
        ..p
    }
}

spec fn yp_has(s: Seq<YieldPosition>, owner: AccountId) -> bool {
    exists|i: int| 0 <= i < s.len() && s[i].owner == owner
}

spec fn yp_index_of(s: Seq<YieldPosition>, owner: AccountId) -> int {
    choose|i: int| 0 <= i < s.len() && s[i].owner == owner
}

/// The per-position invariant: non-negative amounts and a unit balance
/// that covers the principal.
pub open spec fn position_wf(p: YieldPosition) -> bool {
    &&& 0 <= p.principal
    &&& p.principal <= p.ousg_balance
    &&& 0 <= p.total_yield_earned
}

spec fn yp_wf(s: Seq<YieldPosition>) -> bool {
    &&& forall|i: int, j: int|
        0 <= i < j < s.len() ==> (#[trigger] s[i]).owner != (#[trigger] s[j]).owner
    &&& forall|i: int| 0 <= i < s.len() ==> position_wf(#[trigger] s[i])
}

proof fn yp_lemma_at(s: Seq<YieldPosition>, i: int)
    requires
        yp_wf(s),
        0 <= i < s.len(),
    ensures
        yp_has(s, s[i].owner),
        yp_index_of(s, s[i].owner) == i,
{
    assert(yp_has(s, s[i].owner));
    let j = yp_index_of(s, s[i].owner);
    assert(0 <= j < s.len() && s[j].owner == s[i].owner);
}

proof fn yp_lemma_update(pre: Seq<YieldPosition>, post: Seq<YieldPosition>, i: int)
    requires
        yp_wf(pre),
        0 <= i < pre.len(),
        post == pre.update(i, post[i]),
        post[i].owner == pre[i].owner,
        position_wf(post[i]),
    ensures
        yp_wf(post),
        forall|o: AccountId| yp_has(post, o) == yp_has(pre, o),
        yp_index_of(post, post[i].owner) == i,
        forall|o: AccountId|
            yp_has(pre, o) && o != pre[i].owner ==> post[yp_index_of(post, o)] == pre[yp_index_of(
                pre,
                o,
            )],
{
    assert forall|k: int| 0 <= k < pre.len() && k != i implies (#[trigger] post[k])
        == pre[k] by {}
    assert forall|o: AccountId| yp_has(post, o) == yp_has(pre, o) by {
        if yp_has(pre, o) {
            let k = yp_index_of(pre, o);
            assert(post[k].owner == o);
        }
        if yp_has(post, o) {
            let k = yp_index_of(post, o);
            assert(pre[k].owner == o);
        }
    }
    yp_lemma_at(post, i);
    assert forall|o: AccountId| yp_has(pre, o) && o != pre[i].owner implies post[yp_index_of(
        post,
        o,
    )] == pre[yp_index_of(pre, o)] by {
        let k = yp_index_of(pre, o);
        assert(0 <= k < pre.len() && pre[k].owner == o);
        assert(k != i);
        assert(post[k].owner == o);
        yp_lemma_at(post, k);
    }
}

proof fn yp_lemma_push(pre: Seq<YieldPosition>, post: Seq<YieldPosition>)
    requires
        yp_wf(pre),
        post == pre.push(post[pre.len() as int]),
        position_wf(post[pre.len() as int]),
        !yp_has(pre, post[pre.len() as int].owner),
    ensures
        yp_wf(post),
        yp_has(post, post[pre.len() as int].owner),
        yp_index_of(post, post[pre.len() as int].owner) == pre.len(),
        forall|o: AccountId|
            o != post[pre.len() as int].owner ==> yp_has(post, o) == yp_has(pre, o),
        forall|o: AccountId|
            yp_has(pre, o) ==> post[yp_index_of(post, o)] == pre[yp_index_of(pre, o)],
{
    let n = pre.len() as int;
    assert forall|k: int| 0 <= k < n implies (#[trigger] post[k]) == pre[k] by {}
    assert forall|k: int| 0 <= k < n implies (#[trigger] post[k]).owner != post[n].owner by {
        if post[k].owner == post[n].owner {
            assert(yp_has(pre, post[n].owner));
        }
    }
    yp_lemma_at(post, n);
    assert forall|o: AccountId| o != post[n].owner implies yp_has(post, o) == yp_has(pre, o) by {
        if yp_has(pre, o) {
            let k = yp_index_of(pre, o);
            assert(post[k].owner == o);
        }
        if yp_has(post, o) {
            let k = yp_index_of(post, o);
            assert(k != n);
            assert(pre[k].owner == o);
        }
    }
    assert forall|o: AccountId| yp_has(pre, o) implies post[yp_index_of(post, o)] == pre[
    yp_index_of(pre, o)] by {
        let k = yp_index_of(pre, o);
        assert(0 <= k < n && pre[k].owner == o);
        assert(post[k].owner == o);
        yp_lemma_at(post, k);
        assert(k != n);
    }
}

impl RwaYieldHarvester {
    /// The custody account deposits settle into.
    pub closed spec fn spec_account(&self) -> AccountId {
        self.account
    }

    /// The one contract account allowed to move funds on an owner's
    /// behalf.
    pub closed spec fn spec_trusted_caller(&self) -> AccountId {
        self.trusted_caller
    }

    /// Whether `owner` holds a position.
    pub closed spec fn has_position(&self, owner: AccountId) -> bool {
        yp_has(self.positions@, owner)
    }

    /// The position of `owner` (meaningful when one exists).
    pub closed spec fn position_of(&self, owner: AccountId) -> YieldPosition {
        self.positions@[yp_index_of(self.positions@, owner)]
    }

    /// Owners are distinct and every position satisfies its invariant.
    pub closed spec fn wf(&self) -> bool {
        yp_wf(self.positions@)
    }

    /// The yield accrued for `owner` at time `now` since the last
    /// harvest.
    pub open spec fn spec_yield_of(&self, owner: AccountId, now: u64) -> int {
        yield_amount(
            self.position_of(owner).ousg_balance as int,
            spec_elapsed(now, self.position_of(owner).last_harvest_at),
        )
    }

    /// In a well-formed tracker every position satisfies its invariant.
    pub proof fn lemma_position_wf(&self, owner: AccountId)
        requires
            self.wf(),
            self.has_position(owner),
        ensures
            position_wf(self.position_of(owner)),
            self.position_of(owner).owner == owner,
    {
        let i = yp_index_of(self.positions@, owner);
        assert(0 <= i < self.positions@.len() && self.positions@[i].owner == owner);
    }

    /// Once a harvest has stamped `now`, a second accrual at the same
    /// time yields nothing.
    pub proof fn lemma_harvest_idempotent(&self, owner: AccountId, now: u64)
        requires
            self.wf(),
            self.has_position(owner),
            self.position_of(owner).last_harvest_at == now,
        ensures
            self.spec_yield_of(owner, now) == 0,
    {
        self.lemma_position_wf(owner);
        lemma_yield_bounds(self.position_of(owner).ousg_balance as int, 0);
    }

    /// Harvesting twice at one timestamp compounds nothing the second
    /// time: once a harvest has stamped `now`, another harvest at `now`
    /// returns exactly zero (provided the yield computation fits in
    /// 128-bit amounts, which a balance below `i128::MAX / 500`
    /// guarantees).
    pub proof fn lemma_second_harvest_returns_zero(&self, owner: AccountId, now: u64)
        requires
            self.wf(),
            self.has_position(owner),
            self.position_of(owner).last_harvest_at == now,
            self.position_of(owner).ousg_balance * 500 <= i128::MAX,
        ensures
            self.spec_harvest(owner, now) == Ok::<i128, Error>(0),
    {
        self.lemma_position_wf(owner);
        lemma_yield_bounds(self.position_of(owner).ousg_balance as int, 0);
        assert(self.position_of(owner).ousg_balance * 500 * 0 == 0) by (nonlinear_arith);
    }

    /// An empty tracker whose custody account is `account` and whose only
    /// trusted on-behalf caller is `trusted_caller`.
    pub fn new(account: AccountId, trusted_caller: AccountId) -> (r: Self)
        ensures
            r.wf(),
            r.spec_account() == account,
            r.spec_trusted_caller() == trusted_caller,
            forall|o: AccountId| !r.has_position(o),
    {
        RwaYieldHarvester { account, trusted_caller, positions: Vec::new() }
    }

    /// The custody account.
    pub fn address(&self) -> (r: AccountId)
        ensures
            r == self.spec_account(),
    {
        self.account
    }

    fn find(&self, owner: AccountId) -> (r: Option<usize>)
        ensures
            match r {
                Some(i) => i < self.positions@.len() && self.positions@[i as int].owner == owner
                    && self.has_position(owner) && (self.wf() ==> self.positions@[i as int]
                    == self.position_of(owner)),
                None => !self.has_position(owner),
            },
    {
        let mut i: usize = 0;
        while i < self.positions.len()
            invariant
                i <= self.positions@.len(),
                forall|j: int| 0 <= j < i ==> (#[trigger] self.positions@[j]).owner != owner,
            decreases self.positions@.len() - i,
        {
            let p = &self.positions[i];
            if p.owner == owner {
                proof {
                    assert(yp_has(self.positions@, owner));
                    if yp_wf(self.positions@) {
                        yp_lemma_at(self.positions@, i as int);
                    }
                }
                return Some(i);
            }
            i = i + 1;
        }
        None
    }

    /// Writes `pos` at entry `i` (same owner), or appends it for a fresh
    /// owner.
    fn put(&mut self, i: Option<usize>, pos: YieldPosition)
        requires
            old(self).wf(),
            position_wf(pos),
            match i {
                Some(i) => i < old(self).positions@.len() && old(self).positions@[i as int].owner
                    == pos.owner,
                None => !old(self).has_position(pos.owner),
            },
        ensures
            final(self).wf(),
            final(self).spec_account() == old(self).spec_account(),
            final(self).spec_trusted_caller() == old(self).spec_trusted_caller(),
            final(self).has_position(pos.owner),
            final(self).position_of(pos.owner) == pos,
            forall|o: AccountId|
                o != pos.owner ==> final(self).has_position(o) == old(self).has_position(o),
            forall|o: AccountId|
                o != pos.owner && old(self).has_position(o) ==> final(self).position_of(o) == old(
                    self,
                ).position_of(o),
    {
        let ghost pre = self.positions@;
        match i {
            Some(i) => {
                self.positions[i] = pos;
                proof {
                    yp_lemma_update(pre, self.positions@, i as int);
                }
            },
            None => {
                self.positions.push(pos);
                proof {
                    yp_lemma_push(pre, self.positions@);
                }
            },
        }
    }

    /// The exact outcome of `calculate_yield`.
    pub open spec fn spec_calculate_yield(&self, owner: AccountId, now: u64) -> Result<
        i128,
        Error,
    > {
        if !self.has_position(owner) {
            Err(Error::NotFound)
        } else {
            let p = self.position_of(owner);
            let e = spec_elapsed(now, p.last_harvest_at);
            if !yield_fits(p.ousg_balance as int, e) {
                Err(Error::Arithmetic)
            } else {
                Ok(yield_amount(p.ousg_balance as int, e) as i128)
            }
        }
    }

    /// The yield accrued for `owner` since the last harvest, as a pure
    /// computation.
    pub fn calculate_yield(&self, owner: AccountId, now: u64) -> (r: Result<i128, Error>)
        requires
            self.wf(),
        ensures
            r == self.spec_calculate_yield(owner, now),
            r is Ok ==> 0 <= r->Ok_0 && r->Ok_0 == self.spec_yield_of(owner, now),
    {
        let i = match self.find(owner) {
            Some(i) => i,
            None => {
                return Err(Error::NotFound);
            },
        };
        let p = self.positions[i];
        proof {
            self.lemma_position_wf(owner);
        }
        let elapsed: u64 = if now >= p.last_harvest_at {
            now - p.last_harvest_at
        } else {
            0
        };
        let scaled = match p.ousg_balance.checked_mul(500) {
            Some(v) => v,
            None => {
                return Err(Error::Arithmetic);
            },
        };
        let numerator = match scaled.checked_mul(elapsed as i128) {
            Some(v) => v,
            None => {
                return Err(Error::Arithmetic);
            },
        };
        proof {
            lemma_yield_bounds(p.ousg_balance as int, elapsed as int);
        }
        let denom: i128 = 31_536_000 * 10000;
        Ok(div_floor(numerator, denom))
    }

    /// The exact outcome of `harvest_yield`.
    pub open spec fn spec_harvest(&self, owner: AccountId, now: u64) -> Result<i128, Error> {
        match self.spec_calculate_yield(owner, now) {
            Err(e) => Err(e),
            Ok(y) => {
                let p = self.position_of(owner);
                if p.ousg_balance + y > i128::MAX {
                    Err(Error::Arithmetic)
                } else if p.total_yield_earned + y > i128::MAX {
                    Err(Error::Arithmetic)
                } else {
                    Ok(y)
                }
            },
        }
    }

    /// Compounds the accrued yield into the unit balance and stamps the
    /// harvest time. Within the same timestamp a second harvest returns
    /// zero.
    pub fn harvest_yield(&mut self, owner: AccountId, now: u64) -> (r: Result<i128, Error>)
        requires
            old(self).wf(),
        ensures
            final(self).wf(),
            final(self).spec_account() == old(self).spec_account(),
            final(self).spec_trusted_caller() == old(self).spec_trusted_caller(),
            r == old(self).spec_harvest(owner, now),
            r is Err ==> *final(self) == *old(self),
            r is Ok ==> 0 <= r->Ok_0 && r->Ok_0 == old(self).spec_yield_of(owner, now),
            r is Ok ==> final(self).has_position(owner) && final(self).position_of(owner) == (
            YieldPosition {
                last_harvest_at: now,
                ousg_balance: (old(self).position_of(owner).ousg_balance + r->Ok_0) as i128,
                total_yield_earned: (old(self).position_of(owner).total_yield_earned
                    + r->Ok_0) as i128,
                ..old(self).position_of(owner)
            }),
            forall|o: AccountId|
                o != owner ==> final(self).has_position(o) == old(self).has_position(o),
            forall|o: AccountId|
                o != owner && old(self).has_position(o) ==> final(self).position_of(o) == old(
                    self,
                ).position_of(o),
    {
        let y = match self.calculate_yield(owner, now) {
            Ok(y) => y,
            Err(e) => {
                return Err(e);
            },
        };
        let i = match self.find(owner) {
            Some(i) => i,
            None => {
                proof {
                    assert(false);
                }
                return Err(Error::NotFound);
            },
        };
        let p = self.positions[i];
        proof {
            self.lemma_position_wf(owner);
        }
        if p.ousg_balance > i128::MAX - y {
            return Err(Error::Arithmetic);
        }
        if p.total_yield_earned > i128::MAX - y {
            return Err(Error::Arithmetic);
        }
        self.put(
            Some(i),
            YieldPosition {
                last_harvest_at: now,
                ousg_balance: p.ousg_balance + y,
                total_yield_earned: p.total_yield_earned + y,
                ..p
            },
        );
        Ok(y)
    }

    /// The exact outcome of `deposit`.
    pub open spec fn spec_deposit(
        &self,
        tokens: &TokenLedger,
        from: AccountId,
        amount: i128,
        asset: AssetId,
    ) -> Result<i128, Error> {
        if amount < 0 {
            Err(Error::InvalidArgument)
        } else if self.has_position(from) && self.position_of(from).principal + amount
            > i128::MAX {
            Err(Error::Arithmetic)
        } else if self.has_position(from) && self.position_of(from).ousg_balance + amount
            > i128::MAX {
            Err(Error::Arithmetic)
        } else if !tokens.has_asset(asset) {
            Err(Error::NotFound)
        } else if tokens.bal(asset, from) < amount {
            Err(Error::InsufficientBalance)
        } else if from != self.spec_account() && tokens.bal(asset, self.spec_account()) + amount
            > i128::MAX {
            Err(Error::Arithmetic)
        } else {
            Ok(amount)
        }
    }

    /// Moves `usdc_amount` of the settlement asset from `from` into
    /// custody and credits the converted units (1:1) to `from`'s
    /// position, opening it at time `now` if needed. Returns the credited
    /// units.
    pub fn deposit(
        &mut self,
        tokens: &mut TokenLedger,
        from: AccountId,
        usdc_amount: i128,
        usdc_asset: AssetId,
        now: u64,
    ) -> (r: Result<i128, Error>)
        requires
            old(self).wf(),
            old(tokens).wf(),
        ensures
            final(self).wf(),
            final(tokens).wf(),
            final(self).spec_account() == old(self).spec_account(),
            final(self).spec_trusted_caller() == old(self).spec_trusted_caller(),
            forall|x: AssetId| final(tokens).has_asset(x) == old(tokens).has_asset(x),
            r == old(self).spec_deposit(old(tokens), from, usdc_amount, usdc_asset),
            r is Err ==> *final(self) == *old(self) && *final(tokens) == *old(tokens),
            r is Ok ==> r->Ok_0 == usdc_amount,
            r is Ok ==> final(self).has_position(from),
            r is Ok && from != old(self).spec_account() ==> final(tokens).bal(usdc_asset, from)
                == old(tokens).bal(usdc_asset, from) - usdc_amount && final(tokens).bal(
                usdc_asset,
                old(self).spec_account(),
            ) == old(tokens).bal(usdc_asset, old(self).spec_account()) + usdc_amount,
            r is Ok && from == old(self).spec_account() ==> *final(tokens) == *old(tokens),
            r is Ok ==> forall|x: AssetId, a: AccountId|
                !(x == usdc_asset && (a == from || a == old(self).spec_account())) ==> final(tokens).bal(x, a) == old(tokens).bal(x, a),
            r is Ok && old(self).has_position(from) ==> final(self).position_of(from) == (
            YieldPosition {
                principal: (old(self).position_of(from).principal + usdc_amount) as i128,
                ousg_balance: (old(self).position_of(from).ousg_balance + usdc_amount) as i128,
                ..old(self).position_of(from)
            }),
            r is Ok && !old(self).has_position(from) ==> final(self).has_position(from) && final(self).position_of(from) == (YieldPosition {
                owner: from,
                principal: usdc_amount,
                ousg_balance: usdc_amount,
                deposited_at: now,
                last_harvest_at: now,
                total_yield_earned: 0,
            }),
            forall|o: AccountId|
                o != from ==> final(self).has_position(o) == old(self).has_position(o),
            forall|o: AccountId|
                o != from && old(self).has_position(o) ==> final(self).position_of(o) == old(
                    self,
                ).position_of(o),
    {
        if usdc_amount < 0 {
            return Err(Error::InvalidArgument);
        }
        let i = self.find(from);
        let pos: Option<YieldPosition> = match i {
            Some(i) => {
                proof {
                    self.lemma_position_wf(from);
                }
                Some(self.positions[i])
            },
            None => None,
        };
        if let Some(p) = pos {
            if p.principal > i128::MAX - usdc_amount {
                return Err(Error::Arithmetic);
            }
            if p.ousg_balance > i128::MAX - usdc_amount {
                return Err(Error::Arithmetic);
            }
        }
        let tr = tokens.transfer(usdc_asset, from, self.account, usdc_amount);
        match tr {
            Ok(_) => {},
            Err(e) => {
                return Err(e);
            },
        }
        match (i, pos) {
            (Some(i), Some(p)) => {
                self.put(
                    Some(i),
                    YieldPosition {
                        principal: p.principal + usdc_amount,
                        ousg_balance: p.ousg_balance + usdc_amount,
                        ..p
                    },
                );
            },
            _ => {
                self.put(
                    None,
                    YieldPosition {
                        owner: from,
                        principal: usdc_amount,
                        ousg_balance: usdc_amount,
                        deposited_at: now,
                        last_harvest_at: now,
                        total_yield_earned: 0,
                    },
                );
            },
        }
        Ok(usdc_amount)
    }

    /// The exact outcome of `deposit_from_contract`.
    pub open spec fn spec_deposit_from_contract(
        &self,
        tokens: &TokenLedger,
        from_contract: AccountId,
        owner: AccountId,
        amount: i128,
        asset: AssetId,
    ) -> Result<i128, Error> {
        if from_contract != self.spec_trusted_caller() {
            Err(Error::Unauthorized)
        } else if amount < 0 {
            Err(Error::InvalidArgument)
        } else if tokens.bal(asset, self.spec_account()) < amount {
            Err(Error::InsufficientBalance)
        } else if self.has_position(owner) && self.position_of(owner).principal + amount
            > i128::MAX {
            Err(Error::Arithmetic)
        } else if self.has_position(owner) && self.position_of(owner).ousg_balance + amount
            > i128::MAX {
            Err(Error::Arithmetic)
        } else {
            Ok(amount)
        }
    }

    /// Credits units for a deposit a trusted contract already settled
    /// into custody: the settlement asset must sit in the custody account
    /// before the call, and the position is held for `owner`, not for the
    /// calling contract.
    pub fn deposit_from_contract(
        &mut self,
        tokens: &TokenLedger,
        from_contract: AccountId,
        owner: AccountId,
        usdc_amount: i128,
        usdc_asset: AssetId,
        now: u64,
    ) -> (r: Result<i128, Error>)
        requires
            old(self).wf(),
            tokens.wf(),
        ensures
            final(self).wf(),
            final(self).spec_account() == old(self).spec_account(),
            final(self).spec_trusted_caller() == old(self).spec_trusted_caller(),
            r == old(self).spec_deposit_from_contract(
                tokens,
                from_contract,
                owner,
                usdc_amount,
                usdc_asset,
            ),
            r is Err ==> *final(self) == *old(self),
            r is Ok ==> r->Ok_0 == usdc_amount,
            r is Ok ==> final(self).has_position(owner),
            r is Ok && old(self).has_position(owner) ==> final(self).position_of(owner) == (
            YieldPosition {
                principal: (old(self).position_of(owner).principal + usdc_amount) as i128,
                ousg_balance: (old(self).position_of(owner).ousg_balance + usdc_amount) as i128,
                ..old(self).position_of(owner)
            }),
            r is Ok && !old(self).has_position(owner) ==> final(self).has_position(owner) && final(self).position_of(owner) == (YieldPosition {
                owner: owner,
                principal: usdc_amount,
                ousg_balance: usdc_amount,
                deposited_at: now,
                last_harvest_at: now,
                total_yield_earned: 0,
            }),
            forall|o: AccountId|
                o != owner ==> final(self).has_position(o) == old(self).has_position(o),
            forall|o: AccountId|
                o != owner && old(self).has_position(o) ==> final(self).position_of(o) == old(
                    self,
                ).position_of(o),
    {
        if from_contract != self.trusted_caller {
            return Err(Error::Unauthorized);
        }
        if usdc_amount < 0 {
            return Err(Error::InvalidArgument);
        }
        let held = tokens.balance(usdc_asset, self.account);
        if held < usdc_amount {
            return Err(Error::InsufficientBalance);
        }
        let i = self.find(owner);
        match i {
            Some(i) => {
                proof {
                    self.lemma_position_wf(owner);
                }
                let p = self.positions[i];
                if p.principal > i128::MAX - usdc_amount {
                    return Err(Error::Arithmetic);
                }
                if p.ousg_balance > i128::MAX - usdc_amount {
                    return Err(Error::Arithmetic);
                }
                self.put(
                    Some(i),
                    YieldPosition {
                        principal: p.principal + usdc_amount,
                        ousg_balance: p.ousg_balance + usdc_amount,
                        ..p
                    },
                );
            },
            None => {
                self.put(
                    None,
                    YieldPosition {
                        owner: owner,
                        principal: usdc_amount,
                        ousg_balance: usdc_amount,
                        deposited_at: now,
                        last_harvest_at: now,
                        total_yield_earned: 0,
                    },
                );
            },
        }
        Ok(usdc_amount)
    }

    /// The exact outcome of `withdraw`.
    pub open spec fn spec_withdraw(
        &self,
        tokens: &TokenLedger,
        owner: AccountId,
        units: i128,
        asset: AssetId,
        now: u64,
    ) -> Result<i128, Error> {
        if units < 0 {
            Err(Error::InvalidArgument)
        } else if !self.has_position(owner) {
            Err(Error::NotFound)
        } else {
            let p = self.position_of(owner);
            let e = spec_elapsed(now, p.last_harvest_at);
            if !yield_fits(p.ousg_balance as int, e) {
                Err(Error::Arithmetic)
            } else {
                let y = yield_amount(p.ousg_balance as int, e);
                if p.ousg_balance + y > i128::MAX {
                    Err(Error::Arithmetic)
                } else if p.ousg_balance + y < units {
                    Err(Error::InsufficientBalance)
                } else if p.total_yield_earned + y > i128::MAX {
                    Err(Error::Arithmetic)
                } else if !tokens.has_asset(asset) {
                    Err(Error::NotFound)
                } else if tokens.bal(asset, self.spec_account()) < units {
                    Err(Error::InsufficientBalance)
                } else if owner != self.spec_account() && tokens.bal(asset, owner) + units
                    > i128::MAX {
                    Err(Error::Arithmetic)
                } else {
                    Ok(units)
                }
            }
        }
    }

    /// Redeems `ousg_amount` units back to the settlement asset for
    /// `owner`: pending yield is harvested first, the units are redeemed
    /// 1:1, and the realized amount is paid out of custody to `owner`.
    /// Fails with `InsufficientBalance` when the post-harvest balance
    /// cannot cover the units.
    pub fn withdraw(
        &mut self,
        tokens: &mut TokenLedger,
        owner: AccountId,
        ousg_amount: i128,
        usdc_asset: AssetId,
        now: u64,
    ) -> (r: Result<i128, Error>)
        requires
            old(self).wf(),
            old(tokens).wf(),
        ensures
            final(self).wf(),
            final(tokens).wf(),
            final(self).spec_account() == old(self).spec_account(),
            final(self).spec_trusted_caller() == old(self).spec_trusted_caller(),
            forall|x: AssetId| final(tokens).has_asset(x) == old(tokens).has_asset(x),
            r == old(self).spec_withdraw(old(tokens), owner, ousg_amount, usdc_asset, now),
            r is Err ==> *final(self) == *old(self) && *final(tokens) == *old(tokens),
            r is Ok ==> r->Ok_0 == ousg_amount,
            r is Ok && owner != old(self).spec_account() ==> final(tokens).bal(
                usdc_asset,
                old(self).spec_account(),
            ) == old(tokens).bal(usdc_asset, old(self).spec_account()) - ousg_amount && final(tokens).bal(usdc_asset, owner) == old(tokens).bal(usdc_asset, owner) + ousg_amount,
            r is Ok && owner == old(self).spec_account() ==> *final(tokens) == *old(tokens),
            r is Ok ==> forall|x: AssetId, a: AccountId|
                !(x == usdc_asset && (a == owner || a == old(self).spec_account()))
                    ==> final(tokens).bal(x, a) == old(tokens).bal(x, a),
            r is Ok ==> final(self).has_position(owner) && final(self).position_of(owner) == (
            YieldPosition {
                principal: if old(self).position_of(owner).principal <= old(self).position_of(
                    owner,
                ).ousg_balance + old(self).spec_yield_of(owner, now) - ousg_amount {
                    old(self).position_of(owner).principal
                } else {
                    (old(self).position_of(owner).ousg_balance + old(self).spec_yield_of(owner, now)
                        - ousg_amount) as i128
                },
                ousg_balance: (old(self).position_of(owner).ousg_balance + old(self).spec_yield_of(
                    owner,
                    now,
                ) - ousg_amount) as i128,
                last_harvest_at: now,
                total_yield_earned: (old(self).position_of(owner).total_yield_earned + old(
                    self,
                ).spec_yield_of(owner, now)) as i128,
                ..old(self).position_of(owner)
            }),
            forall|o: AccountId|
                o != owner ==> final(self).has_position(o) == old(self).has_position(o),
            forall|o: AccountId|
                o != owner && old(self).has_position(o) ==> final(self).position_of(o) == old(
                    self,
                ).position_of(o),
    {
        if ousg_amount < 0 {
            return Err(Error::InvalidArgument);
        }
        let y = match self.calculate_yield(owner, now) {
            Ok(y) => y,
            Err(e) => {
                return Err(e);
            },
        };
        let i = match self.find(owner) {
            Some(i) => i,
            None => {
                proof {
                    assert(false);
                }
                return Err(Error::NotFound);
            },
        };
        let p = self.positions[i];
        proof {
            self.lemma_position_wf(owner);
        }
        if p.ousg_balance > i128::MAX - y {
            return Err(Error::Arithmetic);
        }
        if p.ousg_balance + y < ousg_amount {
            return Err(Error::InsufficientBalance);
        }
        if p.total_yield_earned > i128::MAX - y {
            return Err(Error::Arithmetic);
        }
        if !tokens.has(usdc_asset) {
            return Err(Error::NotFound);
        }
        let held = tokens.balance(usdc_asset, self.account);
        if held < ousg_amount {
            return Err(Error::InsufficientBalance);
        }
        if owner != self.account {
            let recv = tokens.balance(usdc_asset, owner);
            if recv > i128::MAX - ousg_amount {
                return Err(Error::Arithmetic);
            }
        }
        let tr = tokens.transfer(usdc_asset, self.account, owner, ousg_amount);
        match tr {
            Ok(_) => {},
            Err(_) => {
                proof {
                    assert(false);
                }
            },
        }
        let balance2 = p.ousg_balance + y - ousg_amount;
        let principal2 = if p.principal <= balance2 {
            p.principal
        } else {
            balance2
        };
        self.put(
            Some(i),
            YieldPosition {
                principal: principal2,
                ousg_balance: balance2,
                last_harvest_at: now,
                total_yield_earned: p.total_yield_earned + y,
                ..p
            },
        );
        Ok(ousg_amount)
    }

    /// The exact outcome of a principal withdrawal to `recipient`.
    pub open spec fn spec_withdraw_principal(
        &self,
        tokens: &TokenLedger,
        owner: AccountId,
        amount: i128,
        recipient: AccountId,
        asset: AssetId,
    ) -> Result<i128, Error> {
        if amount < 0 {
            Err(Error::InvalidArgument)
        } else if !self.has_position(owner) {
            Err(Error::NotFound)
        } else if self.position_of(owner).principal < amount {
            Err(Error::InsufficientBalance)
        } else if !tokens.has_asset(asset) {
            Err(Error::NotFound)
        } else if tokens.bal(asset, self.spec_account()) < amount {
            Err(Error::InsufficientBalance)
        } else if recipient != self.spec_account() && tokens.bal(asset, recipient) + amount
            > i128::MAX {
            Err(Error::Arithmetic)
        } else {
            Ok(amount)
        }
    }

    fn withdraw_principal_internal(
        &mut self,
        tokens: &mut TokenLedger,
        owner: AccountId,
        usdc_principal_amount: i128,
        recipient: AccountId,
        usdc_asset: AssetId,
    ) -> (r: Result<i128, Error>)
        requires
            old(self).wf(),
            old(tokens).wf(),
        ensures
            final(self).wf(),
            final(tokens).wf(),
            final(self).spec_account() == old(self).spec_account(),
            final(self).spec_trusted_caller() == old(self).spec_trusted_caller(),
            forall|x: AssetId| final(tokens).has_asset(x) == old(tokens).has_asset(x),
            r == old(self).spec_withdraw_principal(
                old(tokens),
                owner,
                usdc_principal_amount,
                recipient,
                usdc_asset,
            ),
            r is Err ==> *final(self) == *old(self) && *final(tokens) == *old(tokens),
            r is Ok ==> r->Ok_0 == usdc_principal_amount,
            r is Ok && recipient != old(self).spec_account() ==> final(tokens).bal(
                usdc_asset,
                old(self).spec_account(),
            ) == old(tokens).bal(usdc_asset, old(self).spec_account()) - usdc_principal_amount
                && final(tokens).bal(usdc_asset, recipient) == old(tokens).bal(
                usdc_asset,
                recipient,
            ) + usdc_principal_amount,
            r is Ok && recipient == old(self).spec_account() ==> *final(tokens) == *old(tokens),
            r is Ok ==> forall|x: AssetId, a: AccountId|
                !(x == usdc_asset && (a == recipient || a == old(self).spec_account()))
                    ==> final(tokens).bal(x, a) == old(tokens).bal(x, a),
            r is Ok ==> final(self).has_position(owner) && final(self).position_of(owner) == (
            YieldPosition {
                principal: (old(self).position_of(owner).principal
                    - usdc_principal_amount) as i128,
                ousg_balance: (old(self).position_of(owner).ousg_balance
                    - usdc_principal_amount) as i128,
                ..old(self).position_of(owner)
            }),
            forall|o: AccountId|
                o != owner ==> final(self).has_position(o) == old(self).has_position(o),
            forall|o: AccountId|
                o != owner && old(self).has_position(o) ==> final(self).position_of(o) == old(
                    self,
                ).position_of(o),
    {
        if usdc_principal_amount < 0 {
            return Err(Error::InvalidArgument);
        }
        let i = match self.find(owner) {
            Some(i) => i,
            None => {
                return Err(Error::NotFound);
            },
        };
        let p = self.positions[i];
        proof {
            self.lemma_position_wf(owner);
        }
        if p.principal < usdc_principal_amount {
            return Err(Error::InsufficientBalance);
        }
        if !tokens.has(usdc_asset) {
            return Err(Error::NotFound);
        }
        let held = tokens.balance(usdc_asset, self.account);
        if held < usdc_principal_amount {
            return Err(Error::InsufficientBalance);
        }
        if recipient != self.account {
            let recv = tokens.balance(usdc_asset, recipient);
            if recv > i128::MAX - usdc_principal_amount {
                return Err(Error::Arithmetic);
            }
        }
        let tr = tokens.transfer(usdc_asset, self.account, recipient, usdc_principal_amount);
        match tr {
            Ok(_) => {},
            Err(_) => {
                proof {
                    assert(false);
                }
            },
        }
        self.put(
            Some(i),
            YieldPosition {
                principal: p.principal - usdc_principal_amount,
                ousg_balance: p.ousg_balance - usdc_principal_amount,
                ..p
            },
        );
        Ok(usdc_principal_amount)
    }

    /// Withdraws `usdc_principal_amount` strictly from principal, without
    /// forcing a harvest, and pays it to the owner.
    pub fn withdraw_principal(
        &mut self,
        tokens: &mut TokenLedger,
        owner: AccountId,
        usdc_principal_amount: i128,
        usdc_asset: AssetId,
    ) -> (r: Result<i128, Error>)
        requires
            old(self).wf(),
            old(tokens).wf(),
        ensures
            final(self).wf(),
            final(tokens).wf(),
            final(self).spec_account() == old(self).spec_account(),
            final(self).spec_trusted_caller() == old(self).spec_trusted_caller(),
            forall|x: AssetId| final(tokens).has_asset(x) == old(tokens).has_asset(x),
            r == old(self).spec_withdraw_principal(
                old(tokens),
                owner,
                usdc_principal_amount,
                owner,
                usdc_asset,
            ),
            r is Err ==> *final(self) == *old(self) && *final(tokens) == *old(tokens),
            r is Ok && owner != old(self).spec_account() ==> final(tokens).bal(
                usdc_asset,
                old(self).spec_account(),
            ) == old(tokens).bal(usdc_asset, old(self).spec_account()) - usdc_principal_amount
                && final(tokens).bal(usdc_asset, owner) == old(tokens).bal(usdc_asset, owner)
                + usdc_principal_amount,
            r is Ok ==> forall|x: AssetId, a: AccountId|
                !(x == usdc_asset && (a == owner || a == old(self).spec_account()))
                    ==> final(tokens).bal(x, a) == old(tokens).bal(x, a),
            r is Ok ==> final(self).has_position(owner) && final(self).position_of(owner) == (
            YieldPosition {
                principal: (old(self).position_of(owner).principal
                    - usdc_principal_amount) as i128,
                ousg_balance: (old(self).position_of(owner).ousg_balance
                    - usdc_principal_amount) as i128,
                ..old(self).position_of(owner)
            }),
            forall|o: AccountId|
                o != owner ==> final(self).has_position(o) == old(self).has_position(o),
            forall|o: AccountId|
                o != owner && old(self).has_position(o) ==> final(self).position_of(o) == old(
                    self,
                ).position_of(o),
    {
        self.withdraw_principal_internal(tokens, owner, usdc_principal_amount, owner, usdc_asset)
    }

    /// Withdraws principal on an owner's behalf and pays it to
    /// `recipient`. Only the one trusted contract account may call this:
    /// anything else is rejected before any state is read.
    pub fn withdraw_principal_for_owner(
        &mut self,
        tokens: &mut TokenLedger,
        caller: AccountId,
        owner: AccountId,
        usdc_principal_amount: i128,
        recipient: AccountId,
        usdc_asset: AssetId,
    ) -> (r: Result<i128, Error>)
        requires
            old(self).wf(),
            old(tokens).wf(),
        ensures
            final(self).wf(),
            final(tokens).wf(),
            final(self).spec_account() == old(self).spec_account(),
            final(self).spec_trusted_caller() == old(self).spec_trusted_caller(),
            forall|x: AssetId| final(tokens).has_asset(x) == old(tokens).has_asset(x),
            caller != old(self).spec_trusted_caller() ==> r == Err::<i128, Error>(
                Error::Unauthorized,
            ),
            caller == old(self).spec_trusted_caller() ==> r == old(self).spec_withdraw_principal(
                old(tokens),
                owner,
                usdc_principal_amount,
                recipient,
                usdc_asset,
            ),
            r is Err ==> *final(self) == *old(self) && *final(tokens) == *old(tokens),
            r is Ok ==> r->Ok_0 == usdc_principal_amount,
            r is Ok && recipient != old(self).spec_account() ==> final(tokens).bal(
                usdc_asset,
                old(self).spec_account(),
            ) == old(tokens).bal(usdc_asset, old(self).spec_account()) - usdc_principal_amount
                && final(tokens).bal(usdc_asset, recipient) == old(tokens).bal(
                usdc_asset,
                recipient,
            ) + usdc_principal_amount,
            r is Ok && recipient == old(self).spec_account() ==> *final(tokens) == *old(tokens),
            r is Ok ==> forall|x: AssetId, a: AccountId|
                !(x == usdc_asset && (a == recipient || a == old(self).spec_account()))
                    ==> final(tokens).bal(x, a) == old(tokens).bal(x, a),
            r is Ok ==> final(self).has_position(owner) && final(self).position_of(owner) == (
            YieldPosition {
                principal: (old(self).position_of(owner).principal
                    - usdc_principal_amount) as i128,
                ousg_balance: (old(self).position_of(owner).ousg_balance
                    - usdc_principal_amount) as i128,
                ..old(self).position_of(owner)
            }),
            forall|o: AccountId|
                o != owner ==> final(self).has_position(o) == old(self).has_position(o),
            forall|o: AccountId|
                o != owner && old(self).has_position(o) ==> final(self).position_of(o) == old(
                    self,
                ).position_of(o),
    {
        if caller != self.trusted_caller {
            return Err(Error::Unauthorized);
        }
        self.withdraw_principal_internal(
            tokens,
            owner,
            usdc_principal_amount,
            recipient,
            usdc_asset,
        )
    }

    /// The position of `owner`.
    pub fn get_position(&self, owner: AccountId) -> (r: Result<YieldPosition, Error>)
        requires
            self.wf(),
        ensures
            r is Ok <==> self.has_position(owner),
            r is Ok ==> r->Ok_0 == self.position_of(owner),
            r is Err ==> r == Err::<YieldPosition, Error>(Error::NotFound),
    {
        match self.find(owner) {
            Some(i) => Ok(self.positions[i]),
            None => Err(Error::NotFound),
        }
    }
}

} // verus!
