//! The asset-settlement collaborator, modeled as explicit ledgers.
//!
//! `SimpleToken` keeps one fungible asset's per-account balances;
//! `TokenLedger` collects the tokens of every asset the platform moves, so
//! that the escrow, custody, and router components can settle against one
//! shared value store. Balances are amounts in the asset's smallest unit
//! and are never negative.

use vstd::prelude::*;

use crate::errors::Error;
use crate::AccountId;
use crate::AssetId;

verus! {

/// Descriptive metadata recorded when a token is initialized.
pub struct Token {
    pub name: String,
    pub symbol: String,
    pub decimals: u32,
}

/// One fungible asset's ledger: per-account balances, plus the metadata of
/// an init-once bootstrap.
pub struct SimpleToken {
    asset: AssetId,
    meta: Option<Token>,
    entries: Vec<(AccountId, i128)>,
}

spec fn seq_has(s: Seq<(AccountId, i128)>, a: AccountId) -> bool {
    exists|i: int| 0 <= i < s.len() && s[i].0 == a
}

spec fn seq_index_of(s: Seq<(AccountId, i128)>, a: AccountId) -> int {
    choose|i: int| 0 <= i < s.len() && s[i].0 == a
}

spec fn seq_balance(s: Seq<(AccountId, i128)>, a: AccountId) -> int {
    if seq_has(s, a) {
        s[seq_index_of(s, a)].1 as int
    } else {
        0
    }
}

spec fn seq_wf(s: Seq<(AccountId, i128)>) -> bool {
    &&& forall|i: int, j: int| 0 <= i < j < s.len() ==> (#[trigger] s[i]).0 != (#[trigger] s[j]).0
    &&& forall|i: int| 0 <= i < s.len() ==> (#[trigger] s[i]).1 >= 0
}

proof fn lemma_balance_at(s: Seq<(AccountId, i128)>, i: int)
    requires
        seq_wf(s),
        0 <= i < s.len(),
    ensures
        seq_has(s, s[i].0),
        seq_balance(s, s[i].0) == s[i].1,
{
    let a = s[i].0;
    assert(seq_has(s, a));
    let j = seq_index_of(s, a);
    assert(0 <= j < s.len() && s[j].0 == a);
}

/// Rewriting entry `i` in place (same account, non-negative amount) moves
/// that account's balance and no other.
proof fn lemma_update_balance(pre: Seq<(AccountId, i128)>, post: Seq<(AccountId, i128)>, i: int)
    requires
        seq_wf(pre),
        0 <= i < pre.len(),
        post == pre.update(i, post[i]),
        post[i].0 == pre[i].0,
        post[i].1 >= 0,
    ensures
        seq_wf(post),
        seq_balance(post, pre[i].0) == post[i].1,
        forall|b: AccountId| b != pre[i].0 ==> seq_balance(post, b) == seq_balance(pre, b),
{
    let a = pre[i].0;
    assert forall|k: int| 0 <= k < pre.len() implies (#[trigger] post[k]).0 == pre[k].0 by {}
    lemma_balance_at(post, i);
    assert forall|b: AccountId| b != a implies seq_balance(post, b) == seq_balance(pre, b) by {
        if seq_has(pre, b) {
            let k = seq_index_of(pre, b);
            assert(0 <= k < pre.len() && pre[k].0 == b);
            assert(post[k].0 == b);
            lemma_balance_at(post, k);
            lemma_balance_at(pre, k);
            assert(k != i);
        } else {
            if seq_has(post, b) {
                let k2 = seq_index_of(post, b);
                assert(pre[k2].0 == b);
            }
        }
    }
}

/// Appending a fresh account gives it the appended balance and moves no
/// other.
proof fn lemma_push_balance(pre: Seq<(AccountId, i128)>, post: Seq<(AccountId, i128)>)
    requires
        seq_wf(pre),
        post == pre.push(post[pre.len() as int]),
        post[pre.len() as int].1 >= 0,
        !seq_has(pre, post[pre.len() as int].0),
    ensures
        seq_wf(post),
        seq_balance(post, post[pre.len() as int].0) == post[pre.len() as int].1,
        forall|b: AccountId|
            b != post[pre.len() as int].0 ==> seq_balance(post, b) == seq_balance(pre, b),
{
    let n = pre.len() as int;
    let a = post[n].0;
    assert forall|k: int| 0 <= k < n implies (#[trigger] post[k]) == pre[k] by {}
    assert forall|k: int| 0 <= k < n implies (#[trigger] post[k]).0 != a by {
        if post[k].0 == a {
            assert(seq_has(pre, a));
        }
    }
    lemma_balance_at(post, n);
    assert forall|b: AccountId| b != a implies seq_balance(post, b) == seq_balance(pre, b) by {
        if seq_has(pre, b) {
            let k = seq_index_of(pre, b);
            assert(0 <= k < n && pre[k].0 == b);
            assert(post[k].0 == b);
            lemma_balance_at(post, k);
            lemma_balance_at(pre, k);
        } else {
            if seq_has(post, b) {
                let k2 = seq_index_of(post, b);
                assert(0 <= k2 < post.len() && post[k2].0 == b);
                assert(k2 != n);
                assert(pre[k2].0 == b);
            }
        }
    }
}

impl SimpleToken {
    /// The asset this ledger settles.
    pub closed spec fn spec_asset(&self) -> AssetId {
        self.asset
    }

    /// Whether the init-once metadata has been written.
    pub closed spec fn initialized(&self) -> bool {
        self.meta is Some
    }

    /// Whether `a` holds an entry (possibly of amount zero).
    pub closed spec fn has_account(&self, a: AccountId) -> bool {
        seq_has(self.entries@, a)
    }

    /// The balance of account `a`; accounts without an entry hold zero.
    pub closed spec fn balance_of(&self, a: AccountId) -> int {
        seq_balance(self.entries@, a)
    }

    /// Each account appears at most once and no balance is negative.
    pub closed spec fn wf(&self) -> bool {
        seq_wf(self.entries@)
    }

    /// A settlement of `amount` from `from` to `to` can be performed exactly.
    pub open spec fn can_transfer(&self, from: AccountId, to: AccountId, amount: i128) -> bool {
        &&& 0 <= amount
        &&& amount <= self.balance_of(from)
        &&& (from == to || self.balance_of(to) + amount <= i128::MAX)
    }

    /// A mint of `amount` to `to` can be performed exactly.
    pub open spec fn can_mint(&self, to: AccountId, amount: i128) -> bool {
        &&& 0 <= amount
        &&& self.balance_of(to) + amount <= i128::MAX
    }

    /// An empty ledger for `asset`: no accounts, no metadata.
    pub fn new(asset: AssetId) -> (t: Self)
        ensures
            t.wf(),
            t.spec_asset() == asset,
            !t.initialized(),
            forall|a: AccountId| t.balance_of(a) == 0,
    {
        SimpleToken { asset, meta: None, entries: Vec::new() }
    }

    /// The asset this ledger settles.
    pub fn asset(&self) -> (r: AssetId)
        ensures
            r == self.spec_asset(),
    {
        self.asset
    }

    /// Records name, symbol, and decimals, once.
    pub fn initialize(&mut self, name: String, symbol: String, decimals: u32) -> (r: Result<
        (),
        Error,
    >)
        ensures
            final(self).wf() == old(self).wf(),
            final(self).spec_asset() == old(self).spec_asset(),
            final(self).initialized(),
            forall|a: AccountId| final(self).balance_of(a) == old(self).balance_of(a),
            r is Ok <==> !old(self).initialized(),
            r is Err ==> *final(self) == *old(self) && r == Err::<(), Error>(
                Error::AlreadyInitialized,
            ),
    {
        if self.meta.is_some() {
            return Err(Error::AlreadyInitialized);
        }
        self.meta = Some(Token { name, symbol, decimals });
        Ok(())
    }

    fn find(&self, a: AccountId) -> (r: Option<usize>)
        ensures
            match r {
                Some(i) => i < self.entries@.len() && self.entries@[i as int].0 == a,
                None => !self.has_account(a),
            },
    {
        let mut i: usize = 0;
        while i < self.entries.len()
            invariant
                i <= self.entries@.len(),
                forall|j: int| 0 <= j < i ==> (#[trigger] self.entries@[j]).0 != a,
            decreases self.entries@.len() - i,
        {
            if self.entries[i].0 == a {
                return Some(i);
            }
            i = i + 1;
        }
        None
    }

    /// The balance of `account` (zero when the account has no entry).
    pub fn balance(&self, account: AccountId) -> (r: i128)
        requires
            self.wf(),
        ensures
            r == self.balance_of(account),
    {
        match self.find(account) {
            Some(i) => {
                proof {
                    lemma_balance_at(self.entries@, i as int);
                }
                self.entries[i].1
            },
            None => 0,
        }
    }

    /// Writes balance `v` for account `a` at entry `i`, or appends a fresh
    /// entry when the account has none.
    fn put(&mut self, i: Option<usize>, a: AccountId, v: i128)
        requires
            old(self).wf(),
            0 <= v,
            match i {
                Some(i) => i < old(self).entries@.len() && old(self).entries@[i as int].0 == a,
                None => !old(self).has_account(a),
            },
        ensures
            final(self).wf(),
            final(self).spec_asset() == old(self).spec_asset(),
            final(self).initialized() == old(self).initialized(),
            final(self).balance_of(a) == v,
            forall|b: AccountId| b != a ==> final(self).balance_of(b) == old(self).balance_of(b),
    {
        let ghost pre = self.entries@;
        match i {
            Some(i) => {
                self.entries[i] = (a, v);
                proof {
                    lemma_update_balance(pre, self.entries@, i as int);
                }
            },
            None => {
                self.entries.push((a, v));
                proof {
                    lemma_push_balance(pre, self.entries@);
                }
            },
        }
    }

    /// Creates `amount` new units in `to`'s balance.
    pub fn mint(&mut self, to: AccountId, amount: i128) -> (r: Result<(), Error>)
        requires
            old(self).wf(),
        ensures
            final(self).wf(),
            final(self).spec_asset() == old(self).spec_asset(),
            final(self).initialized() == old(self).initialized(),
            r is Ok <==> old(self).can_mint(to, amount),
            r is Err ==> *final(self) == *old(self),
            r == Err::<(), Error>(Error::InvalidArgument) <==> amount < 0,
            r == Err::<(), Error>(Error::Arithmetic) <==> amount >= 0 && old(self).balance_of(to)
                + amount > i128::MAX,
            r is Ok ==> final(self).balance_of(to) == old(self).balance_of(to) + amount,
            r is Ok ==> forall|b: AccountId|
                b != to ==> final(self).balance_of(b) == old(self).balance_of(b),
    {
        if amount < 0 {
            return Err(Error::InvalidArgument);
        }
        let i = self.find(to);
        let bal: i128 = match i {
            Some(i) => {
                proof {
                    lemma_balance_at(self.entries@, i as int);
                }
                self.entries[i].1
            },
            None => 0,
        };
        if bal > i128::MAX - amount {
            return Err(Error::Arithmetic);
        }
        self.put(i, to, bal + amount);
        Ok(())
    }

    /// Removes `amount` units from `from`'s balance. This is the outbound
    /// leg of a settlement whose counterparty lives outside the modeled
    /// ledgers (a reserve pool).
    pub fn burn(&mut self, from: AccountId, amount: i128) -> (r: Result<(), Error>)
        requires
            old(self).wf(),
        ensures
            final(self).wf(),
            final(self).spec_asset() == old(self).spec_asset(),
            final(self).initialized() == old(self).initialized(),
            r is Ok <==> 0 <= amount <= old(self).balance_of(from),
            r is Err ==> *final(self) == *old(self),
            r == Err::<(), Error>(Error::InvalidArgument) <==> amount < 0,
            r == Err::<(), Error>(Error::InsufficientBalance) <==> amount >= 0 && old(
                self,
            ).balance_of(from) < amount,
            r is Ok ==> final(self).balance_of(from) == old(self).balance_of(from) - amount,
            r is Ok ==> forall|b: AccountId|
                b != from ==> final(self).balance_of(b) == old(self).balance_of(b),
    {
        if amount < 0 {
            return Err(Error::InvalidArgument);
        }
        let i = self.find(from);
        let bal: i128 = match i {
            Some(i) => {
                proof {
                    lemma_balance_at(self.entries@, i as int);
                }
                self.entries[i].1
            },
            None => 0,
        };
        if bal < amount {
            return Err(Error::InsufficientBalance);
        }
        self.put(i, from, bal - amount);
        Ok(())
    }

    /// Moves `amount` from `from` to `to`, exactly or not at all.
    pub fn transfer(&mut self, from: AccountId, to: AccountId, amount: i128) -> (r: Result<
        (),
        Error,
    >)
        requires
            old(self).wf(),
        ensures
            final(self).wf(),
            final(self).spec_asset() == old(self).spec_asset(),
            final(self).initialized() == old(self).initialized(),
            r is Ok <==> old(self).can_transfer(from, to, amount),
            r is Err ==> *final(self) == *old(self),
            r == Err::<(), Error>(Error::InvalidArgument) <==> amount < 0,
            r == Err::<(), Error>(Error::InsufficientBalance) <==> amount >= 0 && old(
                self,
            ).balance_of(from) < amount,
            r == Err::<(), Error>(Error::Arithmetic) <==> amount >= 0 && amount <= old(
                self,
            ).balance_of(from) && from != to && old(self).balance_of(to) + amount > i128::MAX,
            r is Ok && from == to ==> *final(self) == *old(self),
            r is Ok && from != to ==> final(self).balance_of(from) == old(self).balance_of(from)
                - amount && final(self).balance_of(to) == old(self).balance_of(to) + amount,
            r is Ok ==> forall|b: AccountId|
                b != from && b != to ==> final(self).balance_of(b) == old(self).balance_of(b),
    {
        if amount < 0 {
            return Err(Error::InvalidArgument);
        }
        let fi = self.find(from);
        let from_bal: i128 = match fi {
            Some(i) => {
                proof {
                    lemma_balance_at(self.entries@, i as int);
                }
                self.entries[i].1
            },
            None => 0,
        };
        if from_bal < amount {
            return Err(Error::InsufficientBalance);
        }
        if from == to {
            return Ok(());
        }
        let ti = self.find(to);
        let to_bal: i128 = match ti {
            Some(i) => {
                proof {
                    lemma_balance_at(self.entries@, i as int);
                }
                self.entries[i].1
            },
            None => 0,
        };
        if to_bal > i128::MAX - amount {
            return Err(Error::Arithmetic);
        }
        self.put(fi, from, from_bal - amount);
        // The debit rewrote `from`'s entry in place, so `to`'s entry (if
        // any) kept its account and balance; look it up again to credit.
        let ti2 = self.find(to);
        let to_bal2: i128 = match ti2 {
            Some(i) => {
                proof {
                    lemma_balance_at(self.entries@, i as int);
                }
                self.entries[i].1
            },
            None => 0,
        };
        proof {
            assert(self.balance_of(to) == to_bal);
            assert(to_bal2 == to_bal);
        }
        self.put(ti2, to, to_bal2 + amount);
        Ok(())
    }
}

/// Every token ledger the platform settles against, keyed by asset.
///
/// Components take the ledger by mutable reference, so one atomic
/// operation can move several assets and a contract can relate all of the
/// resulting balances.
pub struct TokenLedger {
    toks: Vec<SimpleToken>,
}

spec fn tl_has(s: Seq<SimpleToken>, asset: AssetId) -> bool {
    exists|i: int| 0 <= i < s.len() && s[i].spec_asset() == asset
}

spec fn tl_index_of(s: Seq<SimpleToken>, asset: AssetId) -> int {
    choose|i: int| 0 <= i < s.len() && s[i].spec_asset() == asset
}

spec fn tl_bal(s: Seq<SimpleToken>, asset: AssetId, a: AccountId) -> int {
    if tl_has(s, asset) {
        s[tl_index_of(s, asset)].balance_of(a)
    } else {
        0
    }
}

spec fn tl_wf(s: Seq<SimpleToken>) -> bool {
    &&& forall|i: int, j: int|
        0 <= i < j < s.len() ==> (#[trigger] s[i]).spec_asset() != (#[trigger] s[j]).spec_asset()
    &&& forall|i: int| 0 <= i < s.len() ==> (#[trigger] s[i]).wf()
}

proof fn tl_lemma_at(s: Seq<SimpleToken>, i: int)
    requires
        tl_wf(s),
        0 <= i < s.len(),
    ensures
        tl_has(s, s[i].spec_asset()),
        forall|a: AccountId| tl_bal(s, s[i].spec_asset(), a) == s[i].balance_of(a),
{
    let x = s[i].spec_asset();
    assert(tl_has(s, x));
    let j = tl_index_of(s, x);
    assert(0 <= j < s.len() && s[j].spec_asset() == x);
}

/// Replacing one asset's token with a well-formed token of the same asset
/// leaves every other asset's balances alone.
proof fn tl_lemma_update(pre: Seq<SimpleToken>, post: Seq<SimpleToken>, i: int)
    requires
        tl_wf(pre),
        0 <= i < pre.len(),
        post == pre.update(i, post[i]),
        post[i].spec_asset() == pre[i].spec_asset(),
        post[i].wf(),
    ensures
        tl_wf(post),
        forall|x: AssetId| tl_has(post, x) == tl_has(pre, x),
        forall|a: AccountId| tl_bal(post, pre[i].spec_asset(), a) == post[i].balance_of(a),
        forall|x: AssetId, a: AccountId|
            x != pre[i].spec_asset() ==> tl_bal(post, x, a) == tl_bal(pre, x, a),
{
    let y = pre[i].spec_asset();
    assert forall|k: int| 0 <= k < pre.len() implies (#[trigger] post[k]).spec_asset()
        == pre[k].spec_asset() by {}
    assert forall|x: AssetId| tl_has(post, x) == tl_has(pre, x) by {
        if tl_has(pre, x) {
            let k = tl_index_of(pre, x);
            assert(post[k].spec_asset() == x);
        }
        if tl_has(post, x) {
            let k = tl_index_of(post, x);
            assert(pre[k].spec_asset() == x);
        }
    }
    tl_lemma_at(post, i);
    assert forall|x: AssetId, a: AccountId| x != y implies tl_bal(post, x, a) == tl_bal(
        pre,
        x,
        a,
    ) by {
        if tl_has(pre, x) {
            let k = tl_index_of(pre, x);
            assert(0 <= k < pre.len() && pre[k].spec_asset() == x);
            assert(post[k].spec_asset() == x);
            tl_lemma_at(post, k);
            tl_lemma_at(pre, k);
            assert(k != i);
        }
    }
}

/// Appending a token for a fresh asset installs its balances and leaves
/// every other asset's balances alone.
proof fn tl_lemma_push(pre: Seq<SimpleToken>, post: Seq<SimpleToken>)
    requires
        tl_wf(pre),
        post == pre.push(post[pre.len() as int]),
        post[pre.len() as int].wf(),
        !tl_has(pre, post[pre.len() as int].spec_asset()),
    ensures
        tl_wf(post),
        tl_has(post, post[pre.len() as int].spec_asset()),
        forall|x: AssetId| x != post[pre.len() as int].spec_asset() ==> tl_has(post, x) == tl_has(
            pre,
            x,
        ),
        forall|a: AccountId| tl_bal(post, post[pre.len() as int].spec_asset(), a) == post[pre.len(
        ) as int].balance_of(a),
        forall|x: AssetId, a: AccountId|
            x != post[pre.len() as int].spec_asset() ==> tl_bal(post, x, a) == tl_bal(pre, x, a),
{
    let n = pre.len() as int;
    let y = post[n].spec_asset();
    assert forall|k: int| 0 <= k < n implies (#[trigger] post[k]) == pre[k] by {}
    assert forall|k: int| 0 <= k < n implies (#[trigger] post[k]).spec_asset() != y by {
        if post[k].spec_asset() == y {
            assert(tl_has(pre, y));
        }
    }
    tl_lemma_at(post, n);
    assert forall|x: AssetId| x != y implies tl_has(post, x) == tl_has(pre, x) by {
        if tl_has(pre, x) {
            let k = tl_index_of(pre, x);
            assert(post[k].spec_asset() == x);
        }
        if tl_has(post, x) {
            let k = tl_index_of(post, x);
            assert(k != n);
            assert(pre[k].spec_asset() == x);
        }
    }
    assert forall|x: AssetId, a: AccountId| x != y implies tl_bal(post, x, a) == tl_bal(
        pre,
        x,
        a,
    ) by {
        if tl_has(pre, x) {
            let k = tl_index_of(pre, x);
            assert(0 <= k < n && pre[k].spec_asset() == x);
            assert(post[k].spec_asset() == x);
            tl_lemma_at(post, k);
            tl_lemma_at(pre, k);
        }
    }
}

impl TokenLedger {
    /// Whether a token for `asset` is registered.
    pub closed spec fn has_asset(&self, asset: AssetId) -> bool {
        tl_has(self.toks@, asset)
    }

    /// The balance of `a` in `asset`; zero when either is unknown.
    pub closed spec fn bal(&self, asset: AssetId, a: AccountId) -> int {
        tl_bal(self.toks@, asset, a)
    }

    /// Assets are distinct and each token ledger is well-formed.
    pub closed spec fn wf(&self) -> bool {
        tl_wf(self.toks@)
    }

    /// A settlement of `amount` in `asset` from `from` to `to` can be
    /// performed exactly.
    pub open spec fn can_transfer(
        &self,
        asset: AssetId,
        from: AccountId,
        to: AccountId,
        amount: i128,
    ) -> bool {
        &&& self.has_asset(asset)
        &&& 0 <= amount
        &&& amount <= self.bal(asset, from)
        &&& (from == to || self.bal(asset, to) + amount <= i128::MAX)
    }

    /// In a well-formed ledger no balance is negative.
    pub proof fn lemma_bal_nonneg(&self, asset: AssetId, a: AccountId)
        requires
            self.wf(),
        ensures
            0 <= self.bal(asset, a),
    {
        if tl_has(self.toks@, asset) {
            let i = tl_index_of(self.toks@, asset);
            assert(0 <= i < self.toks@.len() && self.toks@[i].spec_asset() == asset);
            let tok = self.toks@[i];
            if seq_has(tok.entries@, a) {
                let j = seq_index_of(tok.entries@, a);
                assert(0 <= j < tok.entries@.len() && tok.entries@[j].0 == a);
            }
        }
    }

    /// An empty ledger with no assets.
    pub fn new() -> (t: Self)
        ensures
            t.wf(),
            forall|x: AssetId| !t.has_asset(x),
            forall|x: AssetId, a: AccountId| t.bal(x, a) == 0,
    {
        TokenLedger { toks: Vec::new() }
    }

    fn find_tok(&self, asset: AssetId) -> (r: Option<usize>)
        ensures
            match r {
                Some(i) => i < self.toks@.len() && self.toks@[i as int].spec_asset() == asset,
                None => !self.has_asset(asset),
            },
    {
        let mut i: usize = 0;
        while i < self.toks.len()
            invariant
                i <= self.toks@.len(),
                forall|j: int| 0 <= j < i ==> (#[trigger] self.toks@[j]).spec_asset() != asset,
            decreases self.toks@.len() - i,
        {
            let t = &self.toks[i];
            if t.asset == asset {
                proof {
                    assert(self.toks@[i as int].spec_asset() == asset);
                }
                return Some(i);
            }
            i = i + 1;
        }
        None
    }

    /// Adds a token under its asset; each asset is registered once.
    pub fn register(&mut self, tok: SimpleToken) -> (r: Result<(), Error>)
        requires
            old(self).wf(),
            tok.wf(),
        ensures
            final(self).wf(),
            r is Ok <==> !old(self).has_asset(tok.spec_asset()),
            r is Err ==> *final(self) == *old(self) && r == Err::<(), Error>(
                Error::AlreadyInitialized,
            ),
            r is Ok ==> final(self).has_asset(tok.spec_asset()),
            r is Ok ==> forall|x: AssetId|
                x != tok.spec_asset() ==> final(self).has_asset(x) == old(self).has_asset(x),
            r is Ok ==> forall|a: AccountId|
                final(self).bal(tok.spec_asset(), a) == tok.balance_of(a),
            r is Ok ==> forall|x: AssetId, a: AccountId|
                x != tok.spec_asset() ==> final(self).bal(x, a) == old(self).bal(x, a),
    {
        match self.find_tok(tok.asset) {
            Some(_) => Err(Error::AlreadyInitialized),
            None => {
                let ghost pre = self.toks@;
                let ghost asset = tok.spec_asset();
                self.toks.push(tok);
                proof {
                    tl_lemma_push(pre, self.toks@);
                }
                Ok(())
            },
        }
    }

    /// The balance of `account` in `asset` (zero when unregistered).
    pub fn balance(&self, asset: AssetId, account: AccountId) -> (r: i128)
        requires
            self.wf(),
        ensures
            r == self.bal(asset, account),
    {
        match self.find_tok(asset) {
            Some(i) => {
                proof {
                    tl_lemma_at(self.toks@, i as int);
                }
                let t = &self.toks[i];
                t.balance(account)
            },
            None => 0,
        }
    }

    /// Creates `amount` new units of `asset` in `to`'s balance.
    pub fn mint(&mut self, asset: AssetId, to: AccountId, amount: i128) -> (r: Result<(), Error>)
        requires
            old(self).wf(),
        ensures
            final(self).wf(),
            forall|x: AssetId| final(self).has_asset(x) == old(self).has_asset(x),
            r is Err ==> *final(self) == *old(self),
            r == Err::<(), Error>(Error::NotFound) <==> !old(self).has_asset(asset),
            r == Err::<(), Error>(Error::InvalidArgument) <==> old(self).has_asset(asset) && amount
                < 0,
            r == Err::<(), Error>(Error::Arithmetic) <==> old(self).has_asset(asset) && amount >= 0
                && old(self).bal(asset, to) + amount > i128::MAX,
            r is Ok <==> old(self).has_asset(asset) && amount >= 0 && old(self).bal(asset, to)
                + amount <= i128::MAX,
            r is Ok ==> final(self).bal(asset, to) == old(self).bal(asset, to) + amount,
            r is Ok ==> forall|x: AssetId, a: AccountId|
                !(x == asset && a == to) ==> final(self).bal(x, a) == old(self).bal(x, a),
    {
        let i = match self.find_tok(asset) {
            Some(i) => i,
            None => {
                return Err(Error::NotFound);
            },
        };
        proof {
            tl_lemma_at(self.toks@, i as int);
        }
        if amount < 0 {
            return Err(Error::InvalidArgument);
        }
        let bal: i128 = {
            let t = &self.toks[i];
            t.balance(to)
        };
        if bal > i128::MAX - amount {
            return Err(Error::Arithmetic);
        }
        let ghost pre = self.toks@;
        let t = &mut self.toks[i];
        let res = t.mint(to, amount);
        proof {
            tl_lemma_update(pre, self.toks@, i as int);
        }
        match res {
            Ok(_) => Ok(()),
            Err(e) => {
                proof {
                    assert(false);
                }
                Err(e)
            },
        }
    }

    /// Whether a token for `asset` is registered.
    pub fn has(&self, asset: AssetId) -> (r: bool)
        ensures
            r == self.has_asset(asset),
    {
        match self.find_tok(asset) {
            Some(i) => {
                proof {
                    assert(tl_has(self.toks@, asset));
                }
                true
            },
            None => false,
        }
    }

    /// Removes `amount` of `asset` from `from`'s balance: the outbound leg
    /// of a settlement against a counterparty outside the modeled ledgers.
    pub fn burn(&mut self, asset: AssetId, from: AccountId, amount: i128) -> (r: Result<(), Error>)
        requires
            old(self).wf(),
        ensures
            final(self).wf(),
            forall|x: AssetId| final(self).has_asset(x) == old(self).has_asset(x),
            r is Err ==> *final(self) == *old(self),
            r == Err::<(), Error>(Error::NotFound) <==> !old(self).has_asset(asset),
            r == Err::<(), Error>(Error::InvalidArgument) <==> old(self).has_asset(asset) && amount
                < 0,
            r == Err::<(), Error>(Error::InsufficientBalance) <==> old(self).has_asset(asset)
                && amount >= 0 && old(self).bal(asset, from) < amount,
            r is Ok <==> old(self).has_asset(asset) && 0 <= amount <= old(self).bal(asset, from),
            r is Ok ==> final(self).bal(asset, from) == old(self).bal(asset, from) - amount,
            r is Ok ==> forall|x: AssetId, a: AccountId|
                !(x == asset && a == from) ==> final(self).bal(x, a) == old(self).bal(x, a),
    {
        let i = match self.find_tok(asset) {
            Some(i) => i,
            None => {
                return Err(Error::NotFound);
            },
        };
        proof {
            tl_lemma_at(self.toks@, i as int);
        }
        if amount < 0 {
            return Err(Error::InvalidArgument);
        }
        let bal: i128 = {
            let t = &self.toks[i];
            t.balance(from)
        };
        if bal < amount {
            return Err(Error::InsufficientBalance);
        }
        let ghost pre = self.toks@;
        let t = &mut self.toks[i];
        let res = t.burn(from, amount);
        proof {
            tl_lemma_update(pre, self.toks@, i as int);
        }
        match res {
            Ok(_) => Ok(()),
            Err(e) => {
                proof {
                    assert(false);
                }
                Err(e)
            },
        }
    }

    /// Moves `amount` of `asset` from `from` to `to`, exactly or not at
    /// all: on any error no balance has changed.
    pub fn transfer(&mut self, asset: AssetId, from: AccountId, to: AccountId, amount: i128) -> (r:
        Result<(), Error>)
        requires
            old(self).wf(),
        ensures
            final(self).wf(),
            forall|x: AssetId| final(self).has_asset(x) == old(self).has_asset(x),
            r is Err ==> *final(self) == *old(self),
            r is Ok <==> old(self).can_transfer(asset, from, to, amount),
            r == Err::<(), Error>(Error::NotFound) <==> !old(self).has_asset(asset),
            r == Err::<(), Error>(Error::InvalidArgument) <==> old(self).has_asset(asset) && amount
                < 0,
            r == Err::<(), Error>(Error::InsufficientBalance) <==> old(self).has_asset(asset)
                && amount >= 0 && old(self).bal(asset, from) < amount,
            r == Err::<(), Error>(Error::Arithmetic) <==> old(self).has_asset(asset) && amount >= 0
                && amount <= old(self).bal(asset, from) && from != to && old(self).bal(asset, to)
                + amount > i128::MAX,
            r is Ok && from != to ==> final(self).bal(asset, from) == old(self).bal(asset, from)
                - amount && final(self).bal(asset, to) == old(self).bal(asset, to) + amount,
            r is Ok && from == to ==> *final(self) == *old(self),
            r is Ok ==> forall|x: AssetId, a: AccountId|
                !(x == asset && (a == from || a == to)) ==> final(self).bal(x, a) == old(self).bal(
                    x,
                    a,
                ),
    {
        let i = match self.find_tok(asset) {
            Some(i) => i,
            None => {
                return Err(Error::NotFound);
            },
        };
        proof {
            tl_lemma_at(self.toks@, i as int);
        }
        if amount < 0 {
            return Err(Error::InvalidArgument);
        }
        let fb: i128 = {
            let t = &self.toks[i];
            t.balance(from)
        };
        if fb < amount {
            return Err(Error::InsufficientBalance);
        }
        if from == to {
            return Ok(());
        }
        let tb: i128 = {
            let t = &self.toks[i];
            t.balance(to)
        };
        if tb > i128::MAX - amount {
            return Err(Error::Arithmetic);
        }
        let ghost pre = self.toks@;
        let t = &mut self.toks[i];
        let res = t.transfer(from, to, amount);
        proof {
            tl_lemma_update(pre, self.toks@, i as int);
        }
        match res {
            Ok(_) => Ok(()),
            Err(e) => {
                proof {
                    assert(false);
                }
                Err(e)
            },
        }
    }
}

} // verus!
