//! Custodial balances: funds locked when an order is submitted, released by settlement.
use vstd::prelude::*;
use crate::clearing::{
    book, clearing_matches, fill_sum, fills, from_order, is_clearing_price, lemma_book, lemma_fill_sum_append,
    lemma_fills_shape, lemma_quote_origin, matched_volume, on_side, quote_of, side_quotes,
};
use crate::types::{copy_bytes, same_orders, ClearingResult, Order, OrderMatch, OrderType};

verus! {

/// Base asset a new account starts with (1.0 in satoshis).
pub const INITIAL_BTC_BALANCE: u64 = 1_000_000_000;

/// Quote currency a new account starts with, in cents.
pub const INITIAL_USD_BALANCE: u64 = 10_000_000_000;

/// Balance of one user: base asset (`btc`) and quote currency (`usd`), each free or locked.
#[derive(Clone, Copy, Debug, PartialEq, Eq, Structural)]
pub struct DemoUserBalance {
    pub btc_free: u64,
    pub btc_locked: u64,
    pub usd_free: u64,
    pub usd_locked: u64,
}

impl DemoUserBalance {
    pub open spec fn usd_total(self) -> int {
        self.usd_free + self.usd_locked
    }

    pub open spec fn btc_total(self) -> int {
        self.btc_free + self.btc_locked
    }

    /// Free and locked together fit in a `u64`, in each currency.
    pub open spec fn fits(self) -> bool {
        self.usd_total() <= u64::MAX && self.btc_total() <= u64::MAX
    }

    pub open spec fn initial() -> DemoUserBalance {
        DemoUserBalance {
            btc_free: INITIAL_BTC_BALANCE,
            btc_locked: 0,
            usd_free: INITIAL_USD_BALANCE,
            usd_locked: 0,
        }
    }

    /// The balance of an account that was just opened.
    pub fn new_account() -> (r: DemoUserBalance)
        ensures
            r == DemoUserBalance::initial(),
    {
        DemoUserBalance {
            btc_free: INITIAL_BTC_BALANCE,
            btc_locked: 0,
            usd_free: INITIAL_USD_BALANCE,
            usd_locked: 0,
        }
    }
}

/// Balance of `user` in `m`; a user without an account has the initial balance.
pub open spec fn balance_in(m: Map<Seq<u8>, DemoUserBalance>, user: Seq<u8>) -> DemoUserBalance {
    if m.contains_key(user) {
        m[user]
    } else {
        DemoUserBalance::initial()
    }
}

/// Why funds could not be locked.
#[derive(Clone, Copy, Debug, PartialEq, Eq, Structural)]
pub enum LockError {
    /// `amount * price_limit` does not fit in a `u64`.
    Overflow,
    InsufficientUsd { required: u64, available: u64 },
    InsufficientBtc { required: u64, available: u64 },
}

/// Balance after locking the funds of an order: a bid locks `amount * price_limit` of the
/// quote currency, an ask locks `amount` of the base asset.
pub open spec fn locked_balance(b: DemoUserBalance, order_type: OrderType, amount: u64, price_limit: u64) -> Result<
    DemoUserBalance,
    LockError,
> {
    match order_type {
        OrderType::Buy => {
            let required = amount * price_limit;
            if required > u64::MAX {
                Err(LockError::Overflow)
            } else if b.usd_free < required {
                Err(LockError::InsufficientUsd { required: required as u64, available: b.usd_free })
            } else {
                Ok(
                    DemoUserBalance {
                        usd_free: (b.usd_free - required) as u64,
                        usd_locked: (b.usd_locked + required) as u64,
                        ..b
                    },
                )
            }
        },
        OrderType::Sell => {
            if b.btc_free < amount {
                Err(LockError::InsufficientBtc { required: amount, available: b.btc_free })
            } else {
                Ok(
                    DemoUserBalance {
                        btc_free: (b.btc_free - amount) as u64,
                        btc_locked: (b.btc_locked + amount) as u64,
                        ..b
                    },
                )
            }
        },
    }
}

/// Why a settlement pass was abandoned. Each of these is an internal inconsistency.
#[derive(Clone, Copy, Debug, PartialEq, Eq, Structural)]
pub enum SettlementError {
    /// A product or a balance does not fit in a `u64`.
    Overflow { order_id: u64 },
    /// A buyer's cost at the clearing price exceeds what the order reserved.
    CostExceedsReserve { order_id: u64 },
    /// A seller's fill exceeds the order's amount.
    FillExceedsOrder { order_id: u64 },
    /// The account holds less locked than the order reserved.
    LockedShortfall { order_id: u64 },
}

/// Balance of the owner of order `o` after settling its match `m` at price `cp`.
pub open spec fn settled_balance(b: DemoUserBalance, o: Order, m: OrderMatch, cp: u64) -> Result<
    DemoUserBalance,
    SettlementError,
> {
    let fill = m.fill_amount as int;
    match o.order_type {
        OrderType::Buy => {
            let reserved = o.amount * o.price_limit;
            let cost = fill * cp;
            if reserved > u64::MAX || cost > u64::MAX {
                Err(SettlementError::Overflow { order_id: o.id })
            } else if cost > reserved {
                Err(SettlementError::CostExceedsReserve { order_id: o.id })
            } else if b.usd_locked < reserved {
                Err(SettlementError::LockedShortfall { order_id: o.id })
            } else if b.btc_total() + fill > u64::MAX {
                Err(SettlementError::Overflow { order_id: o.id })
            } else {
                Ok(
                    DemoUserBalance {
                        btc_free: (b.btc_free + fill) as u64,
                        btc_locked: b.btc_locked,
                        usd_free: (b.usd_free + (reserved - cost)) as u64,
                        usd_locked: (b.usd_locked - reserved) as u64,
                    },
                )
            }
        },
        OrderType::Sell => {
            let reserved = o.amount as int;
            let proceeds = fill * cp;
            if fill > reserved {
                Err(SettlementError::FillExceedsOrder { order_id: o.id })
            } else if proceeds > u64::MAX {
                Err(SettlementError::Overflow { order_id: o.id })
            } else if b.btc_locked < reserved {
                Err(SettlementError::LockedShortfall { order_id: o.id })
            } else if b.usd_total() + proceeds > u64::MAX {
                Err(SettlementError::Overflow { order_id: o.id })
            } else {
                Ok(
                    DemoUserBalance {
                        btc_free: (b.btc_free + (reserved - fill)) as u64,
                        btc_locked: (b.btc_locked - reserved) as u64,
                        usd_free: (b.usd_free + proceeds) as u64,
                        usd_locked: b.usd_locked,
                    },
                )
            }
        },
    }
}

/// The first order with identifier `id`.
pub open spec fn find_order(orders: Seq<Order>, id: u64) -> Option<Order>
    decreases orders.len(),
{
    if orders.len() == 0 {
        None
    } else if orders[0].id == id {
        Some(orders[0])
    } else {
        find_order(orders.drop_first(), id)
    }
}

/// Balances after settling one match; a match of an unknown order changes nothing.
pub open spec fn settle_match(
    m: Map<Seq<u8>, DemoUserBalance>,
    orders: Seq<Order>,
    cp: u64,
    om: OrderMatch,
) -> Result<Map<Seq<u8>, DemoUserBalance>, SettlementError> {
    match find_order(orders, om.order_id) {
        None => Ok(m),
        Some(o) => match settled_balance(balance_in(m, o.owner@), o, om, cp) {
            Ok(b) => Ok(m.insert(o.owner@, b)),
            Err(e) => Err(e),
        },
    }
}

/// Balances after settling every match in order; the first failure ends the pass.
pub open spec fn settle_all(
    m: Map<Seq<u8>, DemoUserBalance>,
    orders: Seq<Order>,
    cp: u64,
    ms: Seq<OrderMatch>,
) -> Result<Map<Seq<u8>, DemoUserBalance>, SettlementError>
    decreases ms.len(),
{
    if ms.len() == 0 {
        Ok(m)
    } else {
        match settle_match(m, orders, cp, ms[0]) {
            Ok(m2) => settle_all(m2, orders, cp, ms.drop_first()),
            Err(e) => Err(e),
        }
    }
}

/// Every order that one of the matches `ms` refers to belongs to a user with an account in `m`.
pub open spec fn owners_known(m: Map<Seq<u8>, DemoUserBalance>, orders: Seq<Order>, ms: Seq<OrderMatch>) -> bool {
    forall|k: int|
        0 <= k < ms.len() ==> match #[trigger] find_order(orders, ms[k].order_id) {
            Some(o) => m.contains_key(o.owner@),
            None => true,
        }
}

/// Equality of two byte strings.
pub fn bytes_equal(a: &Vec<u8>, b: &Vec<u8>) -> (r: bool)
    ensures
        r == (a@ == b@),
{
    if a.len() != b.len() {
        return false;
    }
    let mut i: usize = 0;
    while i < a.len()
        invariant
            i <= a.len() == b.len(),
            forall|j: int| 0 <= j < i ==> a@[j] == b@[j],
        decreases a.len() - i,
    {
        if a[i] != b[i] {
            return false;
        }
        i = i + 1;
    }
    assert(a@ =~= b@);
    true
}

/// One user's account.
pub struct Account {
    pub user: Vec<u8>,
    pub balance: DemoUserBalance,
}

pub open spec fn accounts_wf(s: Seq<Account>) -> bool {
    &&& forall|i: int, j: int|
        0 <= i < j < s.len() ==> (#[trigger] s[i]).user@ != (#[trigger] s[j]).user@
    &&& forall|i: int| 0 <= i < s.len() ==> (#[trigger] s[i]).balance.fits()
}

pub open spec fn holds(s: Seq<Account>, user: Seq<u8>) -> bool {
    exists|i: int| 0 <= i < s.len() && (#[trigger] s[i]).user@ == user
}

pub open spec fn index_of(s: Seq<Account>, user: Seq<u8>) -> int {
    choose|i: int| 0 <= i < s.len() && (#[trigger] s[i]).user@ == user
}

/// Balance of each user that has an account in `s`.
pub open spec fn accounts_view(s: Seq<Account>) -> Map<Seq<u8>, DemoUserBalance> {
    Map::new(|u: Seq<u8>| holds(s, u), |u: Seq<u8>| s[index_of(s, u)].balance)
}

proof fn lemma_account_at(s: Seq<Account>, i: int)
    requires
        accounts_wf(s),
        0 <= i < s.len(),
    ensures
        accounts_view(s).contains_key(s[i].user@),
        accounts_view(s)[s[i].user@] == s[i].balance,
        index_of(s, s[i].user@) == i,
{
    let u = s[i].user@;
    assert(holds(s, u));
    let k = index_of(s, u);
    if k < i {
        assert(s[k].user@ != s[i].user@);
    } else if k > i {
        assert(s[i].user@ != s[k].user@);
    }
}

proof fn lemma_account_update(s: Seq<Account>, i: int, a: Account)
    requires
        accounts_wf(s),
        0 <= i < s.len(),
        a.user@ == s[i].user@,
        a.balance.fits(),
    ensures
        accounts_wf(s.update(i, a)),
        accounts_view(s.update(i, a)) == accounts_view(s).insert(a.user@, a.balance),
{
    let t = s.update(i, a);
    assert forall|x: int, y: int| 0 <= x < y < t.len() implies (#[trigger] t[x]).user@ != (#[trigger] t[y]).user@ by {
        assert(s[x].user@ != s[y].user@);
    }
    assert forall|k: Seq<u8>| holds(t, k) == holds(s, k) by {
        if holds(t, k) {
            let j = choose|j: int| 0 <= j < t.len() && (#[trigger] t[j]).user@ == k;
            assert(s[j].user@ == k);
        }
        if holds(s, k) {
            let j = choose|j: int| 0 <= j < s.len() && (#[trigger] s[j]).user@ == k;
            assert(t[j].user@ == k);
        }
    }
    assert(accounts_view(t) =~= accounts_view(s).insert(a.user@, a.balance)) by {
        assert forall|k: Seq<u8>| #[trigger] accounts_view(t).contains_key(k) implies accounts_view(t)[k]
            == accounts_view(s).insert(a.user@, a.balance)[k] by {
            let j = index_of(t, k);
            lemma_account_at(t, j);
            if j != i {
                assert(t[j] == s[j]);
                lemma_account_at(s, j);
            }
        }
    }
}

proof fn lemma_account_push(s: Seq<Account>, a: Account)
    requires
        accounts_wf(s),
        !accounts_view(s).contains_key(a.user@),
        a.balance.fits(),
    ensures
        accounts_wf(s.push(a)),
        accounts_view(s.push(a)) == accounts_view(s).insert(a.user@, a.balance),
{
    let t = s.push(a);
    assert forall|x: int, y: int| 0 <= x < y < t.len() implies (#[trigger] t[x]).user@ != (#[trigger] t[y]).user@ by {
        if y == s.len() {
            assert(t[x] == s[x]);
            assert(!holds(s, a.user@));
        } else {
            assert(s[x].user@ != s[y].user@);
        }
    }
    assert forall|k: Seq<u8>| holds(t, k) == (holds(s, k) || k == a.user@) by {
        if holds(t, k) {
            let j = choose|j: int| 0 <= j < t.len() && (#[trigger] t[j]).user@ == k;
            if j < s.len() {
                assert(s[j].user@ == k);
            }
        }
        if holds(s, k) {
            let j = choose|j: int| 0 <= j < s.len() && (#[trigger] s[j]).user@ == k;
            assert(t[j].user@ == k);
        }
        if k == a.user@ {
            assert(t[s.len() as int].user@ == k);
        }
    }
    assert(accounts_view(t) =~= accounts_view(s).insert(a.user@, a.balance)) by {
        assert forall|k: Seq<u8>| #[trigger] accounts_view(t).contains_key(k) implies accounts_view(t)[k]
            == accounts_view(s).insert(a.user@, a.balance)[k] by {
            let j = index_of(t, k);
            lemma_account_at(t, j);
            if j < s.len() {
                assert(t[j] == s[j]);
                lemma_account_at(s, j);
            }
        }
    }
}

proof fn lemma_same_accounts(s: Seq<Account>, t: Seq<Account>)
    requires
        accounts_wf(s),
        s.len() == t.len(),
        forall|i: int|
            0 <= i < s.len() ==> (#[trigger] t[i]).user@ == s[i].user@ && t[i].balance == s[i].balance,
    ensures
        accounts_wf(t),
        accounts_view(t) == accounts_view(s),
{
    assert forall|x: int, y: int| 0 <= x < y < t.len() implies (#[trigger] t[x]).user@ != (#[trigger] t[y]).user@ by {
        assert(s[x].user@ != s[y].user@);
    }
    assert forall|k: Seq<u8>| holds(t, k) == holds(s, k) by {
        if holds(t, k) {
            let j = choose|j: int| 0 <= j < t.len() && (#[trigger] t[j]).user@ == k;
            assert(s[j].user@ == k);
        }
        if holds(s, k) {
            let j = choose|j: int| 0 <= j < s.len() && (#[trigger] s[j]).user@ == k;
            assert(t[j].user@ == k);
        }
    }
    assert(accounts_view(t) =~= accounts_view(s)) by {
        assert forall|k: Seq<u8>| #[trigger] accounts_view(t).contains_key(k) implies accounts_view(t)[k]
            == accounts_view(s)[k] by {
            let j = index_of(t, k);
            lemma_account_at(t, j);
            lemma_account_at(s, j);
        }
    }
}

/// Index of the first order with identifier `id`.
fn find_order_index(orders: &Vec<Order>, id: u64) -> (r: Option<usize>)
    ensures
        match r {
            Some(i) => i < orders@.len() && find_order(orders@, id) == Some(orders@[i as int]),
            None => find_order(orders@, id) is None,
        },
{
    let mut i: usize = 0;
    assert(orders@.skip(0) =~= orders@);
    while i < orders.len()
        invariant
            i <= orders@.len(),
            find_order(orders@, id) == find_order(orders@.skip(i as int), id),
        decreases orders.len() - i,
    {
        assert(orders@.skip(i as int).drop_first() =~= orders@.skip(i + 1));
        if orders[i].id == id {
            return Some(i);
        }
        i = i + 1;
    }
    None
}

/// Settles one match against the balance of its order's owner (see `settled_balance`).
fn settle_balance(b: DemoUserBalance, o: &Order, m: OrderMatch, cp: u64) -> (r: Result<
    DemoUserBalance,
    SettlementError,
>)
    requires
        b.fits(),
    ensures
        r == settled_balance(b, *o, m, cp),
        r matches Ok(nb) ==> nb.fits(),
{
    let fill = m.fill_amount;
    match o.order_type {
        OrderType::Buy => {
            let reserved = match o.amount.checked_mul(o.price_limit) {
                Some(x) => x,
                None => {
                    return Err(SettlementError::Overflow { order_id: o.id });
                },
            };
            let cost = match fill.checked_mul(cp) {
                Some(x) => x,
                None => {
                    return Err(SettlementError::Overflow { order_id: o.id });
                },
            };
            if cost > reserved {
                return Err(SettlementError::CostExceedsReserve { order_id: o.id });
            }
            if b.usd_locked < reserved {
                return Err(SettlementError::LockedShortfall { order_id: o.id });
            }
            if b.btc_free as u128 + b.btc_locked as u128 + fill as u128 > u64::MAX as u128 {
                return Err(SettlementError::Overflow { order_id: o.id });
            }
            Ok(
                DemoUserBalance {
                    btc_free: b.btc_free + fill,
                    btc_locked: b.btc_locked,
                    usd_free: b.usd_free + (reserved - cost),
                    usd_locked: b.usd_locked - reserved,
                },
            )
        },
        OrderType::Sell => {
            let reserved = o.amount;
            if fill > reserved {
                return Err(SettlementError::FillExceedsOrder { order_id: o.id });
            }
            let proceeds = match fill.checked_mul(cp) {
                Some(x) => x,
                None => {
                    return Err(SettlementError::Overflow { order_id: o.id });
                },
            };
            if b.btc_locked < reserved {
                return Err(SettlementError::LockedShortfall { order_id: o.id });
            }
            if b.usd_free as u128 + b.usd_locked as u128 + proceeds as u128 > u64::MAX as u128 {
                return Err(SettlementError::Overflow { order_id: o.id });
            }
            Ok(
                DemoUserBalance {
                    btc_free: b.btc_free + (reserved - fill),
                    btc_locked: b.btc_locked - reserved,
                    usd_free: b.usd_free + proceeds,
                    usd_locked: b.usd_locked,
                },
            )
        },
    }
}

/// Quote currency held over all the accounts, free and locked.
pub open spec fn usd_sum(s: Seq<Account>) -> int
    decreases s.len(),
{
    if s.len() == 0 {
        0
    } else {
        usd_sum(s.drop_last()) + s.last().balance.usd_total()
    }
}

/// Base asset held over all the accounts, free and locked.
pub open spec fn btc_sum(s: Seq<Account>) -> int
    decreases s.len(),
{
    if s.len() == 0 {
        0
    } else {
        btc_sum(s.drop_last()) + s.last().balance.btc_total()
    }
}

proof fn lemma_same_sums(s: Seq<Account>, t: Seq<Account>)
    requires
        s.len() == t.len(),
        forall|i: int| 0 <= i < s.len() ==> (#[trigger] t[i]).balance == s[i].balance,
    ensures
        usd_sum(t) == usd_sum(s),
        btc_sum(t) == btc_sum(s),
    decreases s.len(),
{
    if s.len() > 0 {
        lemma_same_sums(s.drop_last(), t.drop_last());
    }
}

proof fn lemma_sums_update(s: Seq<Account>, i: int, a: Account)
    requires
        0 <= i < s.len(),
    ensures
        usd_sum(s.update(i, a)) == usd_sum(s) - s[i].balance.usd_total() + a.balance.usd_total(),
        btc_sum(s.update(i, a)) == btc_sum(s) - s[i].balance.btc_total() + a.balance.btc_total(),
    decreases s.len(),
{
    let t = s.update(i, a);
    if i == s.len() - 1 {
        assert(t.drop_last() =~= s.drop_last());
    } else {
        assert(t.drop_last() =~= s.drop_last().update(i, a));
        lemma_sums_update(s.drop_last(), i, a);
    }
}

proof fn lemma_sums_push(s: Seq<Account>, a: Account)
    ensures
        usd_sum(s.push(a)) == usd_sum(s) + a.balance.usd_total(),
        btc_sum(s.push(a)) == btc_sum(s) + a.balance.btc_total(),
{
    assert(s.push(a).drop_last() =~= s);
}

/// Balances of every user who has an account.
pub struct Ledger {
    accounts: Vec<Account>,
}

impl Ledger {
    /// Each user has at most one account, and every balance fits.
    pub closed spec fn wf(&self) -> bool {
        accounts_wf(self.accounts@)
    }

    /// Quote currency held over the whole ledger.
    pub closed spec fn usd_total(&self) -> int {
        usd_sum(self.accounts@)
    }

    /// Base asset held over the whole ledger.
    pub closed spec fn btc_total(&self) -> int {
        btc_sum(self.accounts@)
    }

    /// Balance of each user with an account.
    pub closed spec fn view(&self) -> Map<Seq<u8>, DemoUserBalance> {
        accounts_view(self.accounts@)
    }

    /// Every balance that the ledger reports fits.
    pub proof fn lemma_fits(&self, user: Seq<u8>)
        requires
            self.wf(),
        ensures
            balance_in(self@, user).fits(),
    {
        if self@.contains_key(user) {
            lemma_account_at(self.accounts@, index_of(self.accounts@, user));
        }
    }

    pub fn new() -> (r: Ledger)
        ensures
            r.wf(),
            r@ == Map::<Seq<u8>, DemoUserBalance>::empty(),
    {
        let r = Ledger { accounts: Vec::new() };
        assert(r@ =~= Map::<Seq<u8>, DemoUserBalance>::empty());
        r
    }

    fn position(&self, user: &Vec<u8>) -> (r: Option<usize>)
        requires
            self.wf(),
        ensures
            match r {
                Some(i) => i < self.accounts@.len() && self.accounts@[i as int].user@ == user@,
                None => !self@.contains_key(user@),
            },
    {
        let mut i: usize = 0;
        while i < self.accounts.len()
            invariant
                i <= self.accounts@.len(),
                forall|j: int| 0 <= j < i ==> (#[trigger] self.accounts@[j]).user@ != user@,
            decreases self.accounts.len() - i,
        {
            if bytes_equal(&self.accounts[i].user, user) {
                return Some(i);
            }
            i = i + 1;
        }
        None
    }

    /// The balance of `user`, or the initial balance if the user has no account.
    pub fn balance_of(&self, user: &Vec<u8>) -> (r: DemoUserBalance)
        requires
            self.wf(),
        ensures
            r == balance_in(self@, user@),
    {
        match self.position(user) {
            Some(i) => {
                proof {
                    lemma_account_at(self.accounts@, i as int);
                }
                self.accounts[i].balance
            },
            None => DemoUserBalance::new_account(),
        }
    }

    /// Sets the balance of `user`, opening an account if there is none.
    pub fn set_demo_balance(&mut self, user: &Vec<u8>, balance: DemoUserBalance)
        requires
            old(self).wf(),
            balance.fits(),
        ensures
            final(self).wf(),
            final(self)@ == old(self)@.insert(user@, balance),
            final(self).usd_total() == old(self).usd_total() - balance_in(old(self)@, user@).usd_total()
                + balance.usd_total() + if old(self)@.contains_key(user@) {
                0
            } else {
                DemoUserBalance::initial().usd_total()
            },
            final(self).btc_total() == old(self).btc_total() - balance_in(old(self)@, user@).btc_total()
                + balance.btc_total() + if old(self)@.contains_key(user@) {
                0
            } else {
                DemoUserBalance::initial().btc_total()
            },
    {
        let u = copy_bytes(user);
        let a = Account { user: u, balance };
        match self.position(user) {
            Some(i) => {
                proof {
                    lemma_account_update(self.accounts@, i as int, a);
                    lemma_account_at(self.accounts@, i as int);
                    lemma_sums_update(self.accounts@, i as int, a);
                }
                self.accounts.set(i, a);
            },
            None => {
                proof {
                    lemma_account_push(self.accounts@, a);
                    lemma_sums_push(self.accounts@, a);
                }
                self.accounts.push(a);
            },
        }
    }

    /// The balance of `user`, opening an account with the initial balance if there is none.
    pub fn get_or_create_demo_balance(&mut self, user: &Vec<u8>) -> (r: DemoUserBalance)
        requires
            old(self).wf(),
        ensures
            final(self).wf(),
            r == balance_in(old(self)@, user@),
            final(self)@ == old(self)@.insert(user@, r),
    {
        let b = self.balance_of(user);
        proof {
            self.lemma_fits(user@);
        }
        self.set_demo_balance(user, b);
        b
    }

    /// Locks the funds that an order of `user` needs; on an error nothing changes.
    pub fn lock_demo_funds(&mut self, user: &Vec<u8>, order_type: OrderType, amount: u64, price_limit: u64) -> (r:
        Result<(), LockError>)
        requires
            old(self).wf(),
        ensures
            final(self).wf(),
            match locked_balance(balance_in(old(self)@, user@), order_type, amount, price_limit) {
                Ok(b) => r is Ok && final(self)@ == old(self)@.insert(user@, b),
                Err(e) => r == Err::<(), LockError>(e) && final(self)@ == old(self)@,
            },
    {
        let b = self.balance_of(user);
        proof {
            self.lemma_fits(user@);
        }
        let nb = match order_type {
            OrderType::Buy => {
                let required = match amount.checked_mul(price_limit) {
                    Some(x) => x,
                    None => {
                        return Err(LockError::Overflow);
                    },
                };
                if b.usd_free < required {
                    return Err(LockError::InsufficientUsd { required, available: b.usd_free });
                }
                DemoUserBalance {
                    usd_free: b.usd_free - required,
                    usd_locked: b.usd_locked + required,
                    ..b
                }
            },
            OrderType::Sell => {
                if b.btc_free < amount {
                    return Err(LockError::InsufficientBtc { required: amount, available: b.btc_free });
                }
                DemoUserBalance {
                    btc_free: b.btc_free - amount,
                    btc_locked: b.btc_locked + amount,
                    ..b
                }
            },
        };
        self.set_demo_balance(user, nb);
        Ok(())
    }

    /// The accounts of the ledger, one per user.
    /// Whether `user` has an account.
    pub fn has_account(&self, user: &Vec<u8>) -> (r: bool)
        requires
            self.wf(),
        ensures
            r == self@.contains_key(user@),
    {
        match self.position(user) {
            Some(i) => {
                proof {
                    lemma_account_at(self.accounts@, i as int);
                }
                true
            },
            None => false,
        }
    }

    pub fn accounts(&self) -> (r: &Vec<Account>)
        requires
            self.wf(),
        ensures
            accounts_wf(r@),
            accounts_view(r@) == self@,
    {
        &self.accounts
    }

    /// A ledger of the given accounts; `None` when a user has two accounts or a balance
    /// does not fit.
    pub fn from_accounts(accounts: Vec<Account>) -> (r: Option<Ledger>)
        ensures
            match r {
                Some(l) => l.wf() && l@ == accounts_view(accounts@),
                None => !accounts_wf(accounts@),
            },
    {
        let mut i: usize = 0;
        while i < accounts.len()
            invariant
                i <= accounts@.len(),
                forall|a: int, b: int| 0 <= a < b < i ==> (#[trigger] accounts@[a]).user@ != (#[trigger] accounts@[b]).user@,
                forall|a: int| 0 <= a < i ==> (#[trigger] accounts@[a]).balance.fits(),
            decreases accounts.len() - i,
        {
            let b = accounts[i].balance;
            if b.usd_free as u128 + b.usd_locked as u128 > u64::MAX as u128
                || b.btc_free as u128 + b.btc_locked as u128 > u64::MAX as u128 {
                return None;
            }
            let mut j: usize = 0;
            while j < i
                invariant
                    j <= i < accounts@.len(),
                    forall|a: int| 0 <= a < j ==> (#[trigger] accounts@[a]).user@ != accounts@[i as int].user@,
                decreases i - j,
            {
                if bytes_equal(&accounts[j].user, &accounts[i].user) {
                    return None;
                }
                j = j + 1;
            }
            i = i + 1;
        }
        Some(Ledger { accounts })
    }

    /// A copy of the ledger.
    pub fn duplicate(&self) -> (r: Ledger)
        requires
            self.wf(),
        ensures
            r.wf(),
            r@ == self@,
            r.usd_total() == self.usd_total(),
            r.btc_total() == self.btc_total(),
    {
        let mut accounts: Vec<Account> = Vec::new();
        let mut i: usize = 0;
        while i < self.accounts.len()
            invariant
                i <= self.accounts@.len(),
                accounts@.len() == i,
                forall|j: int|
                    0 <= j < i ==> (#[trigger] accounts@[j]).user@ == self.accounts@[j].user@
                        && accounts@[j].balance == self.accounts@[j].balance,
            decreases self.accounts.len() - i,
        {
            let a = &self.accounts[i];
            accounts.push(Account { user: copy_bytes(&a.user), balance: a.balance });
            i = i + 1;
        }
        proof {
            lemma_same_accounts(self.accounts@, accounts@);
            lemma_same_sums(self.accounts@, accounts@);
        }
        Ledger { accounts }
    }

    /// Applies a clearing result to the balances of the orders' owners, match by match.
    /// All or nothing: on the first error the ledger is left as it was.
    pub fn apply_settlement_for_round(&mut self, orders: &Vec<Order>, clearing: &ClearingResult) -> (r:
        Result<(), SettlementError>)
        requires
            old(self).wf(),
        ensures
            final(self).wf(),
            match settle_all(old(self)@, orders@, clearing.clearing_price, clearing.matches@) {
                Ok(m) => r is Ok && final(self)@ == m,
                Err(e) => r == Err::<(), SettlementError>(e) && final(self)@ == old(self)@,
            },
            r is Ok && owners_known(old(self)@, orders@, clearing.matches@) ==> {
                &&& final(self).usd_total() == old(self).usd_total() + usd_flow(
                    orders@,
                    clearing.matches@,
                    clearing.clearing_price,
                )
                &&& final(self).btc_total() == old(self).btc_total() + btc_flow(orders@, clearing.matches@)
            },
            r is Err ==> final(self).usd_total() == old(self).usd_total() && final(self).btc_total()
                == old(self).btc_total(),
    {
        let cp = clearing.clearing_price;
        let ghost ms = clearing.matches@;
        let mut work = self.duplicate();
        let mut i: usize = 0;
        assert(ms.skip(0) =~= ms);
        while i < clearing.matches.len()
            invariant
                i <= ms.len(),
                ms == clearing.matches@,
                cp == clearing.clearing_price,
                self.wf(),
                self@ == old(self)@,
                work.wf(),
                settle_all(self@, orders@, cp, ms) == settle_all(work@, orders@, cp, ms.skip(i as int)),
                forall|k: Seq<u8>| self@.contains_key(k) ==> #[trigger] work@.contains_key(k),
                owners_known(self@, orders@, ms) ==> self.usd_total() + usd_flow(orders@, ms, cp)
                    == work.usd_total() + usd_flow(orders@, ms.skip(i as int), cp),
                owners_known(self@, orders@, ms) ==> self.btc_total() + btc_flow(orders@, ms)
                    == work.btc_total() + btc_flow(orders@, ms.skip(i as int)),
            decreases ms.len() - i,
        {
            let m = clearing.matches[i];
            assert(ms.skip(i as int).drop_first() =~= ms.skip(i + 1));
            assert(ms.skip(i as int)[0] == m);
            assert(ms[i as int] == m);
            match find_order_index(orders, m.order_id) {
                None => {},
                Some(k) => {
                    let o = &orders[k];
                    let b = work.balance_of(&o.owner);
                    proof {
                        work.lemma_fits(o.owner@);
                    }
                    match settle_balance(b, o, m, cp) {
                        Ok(nb) => {
                            proof {
                                lemma_settlement_moves_trade(b, *o, m, cp);
                                if owners_known(self@, orders@, ms) {
                                    assert(match find_order(orders@, ms[i as int].order_id) {
                                        Some(x) => self@.contains_key(x.owner@),
                                        None => true,
                                    });
                                }
                            }
                            work.set_demo_balance(&o.owner, nb);
                        },
                        Err(e) => {
                            return Err(e);
                        },
                    }
                },
            }
            i = i + 1;
        }
        assert(ms.skip(ms.len() as int) =~= Seq::<OrderMatch>::empty());
        *self = work;
        Ok(())
    }
}


proof fn lemma_same_orders_find(a: Seq<Order>, b: Seq<Order>, id: u64)
    requires
        same_orders(a, b),
    ensures
        find_order(a, id) is None <==> find_order(b, id) is None,
        find_order(a, id) is Some ==> find_order(a, id)->0.same_as(find_order(b, id)->0),
    decreases a.len(),
{
    if a.len() > 0 {
        assert(a[0].same_as(b[0]));
        assert forall|i: int| 0 <= i < a.drop_first().len() implies (#[trigger] a.drop_first()[i]).same_as(
            b.drop_first()[i],
        ) by {
            assert(a[i + 1].same_as(b[i + 1]));
        }
        lemma_same_orders_find(a.drop_first(), b.drop_first(), id);
    }
}

/// Settling against copies of the same orders gives the same balances.
pub proof fn lemma_same_orders_settle(
    m: Map<Seq<u8>, DemoUserBalance>,
    a: Seq<Order>,
    b: Seq<Order>,
    cp: u64,
    ms: Seq<OrderMatch>,
)
    requires
        same_orders(a, b),
    ensures
        settle_all(m, a, cp, ms) == settle_all(m, b, cp, ms),
    decreases ms.len(),
{
    if ms.len() > 0 {
        lemma_same_orders_find(a, b, ms[0].order_id);
        assert(settle_match(m, a, cp, ms[0]) == settle_match(m, b, cp, ms[0]));
        match settle_match(m, a, cp, ms[0]) {
            Ok(m2) => lemma_same_orders_settle(m2, a, b, cp, ms.drop_first()),
            Err(_) => {},
        }
    }
}

/// Locking moves funds from free to locked: each currency's total is unchanged.
pub proof fn lemma_lock_keeps_totals(b: DemoUserBalance, order_type: OrderType, amount: u64, price_limit: u64)
    requires
        b.fits(),
        locked_balance(b, order_type, amount, price_limit) is Ok,
    ensures
        ({
            let nb = locked_balance(b, order_type, amount, price_limit)->Ok_0;
            nb.usd_total() == b.usd_total() && nb.btc_total() == b.btc_total()
        }),
{
}

/// Settling a match moves exactly the trade: a buyer pays `fill * price` and receives
/// `fill`; a seller delivers `fill` and receives `fill * price`. What was reserved but not
/// traded goes back to free.
pub proof fn lemma_settlement_moves_trade(b: DemoUserBalance, o: Order, m: OrderMatch, cp: u64)
    requires
        b.fits(),
        settled_balance(b, o, m, cp) is Ok,
    ensures
        ({
            let nb = settled_balance(b, o, m, cp)->Ok_0;
            match o.order_type {
                OrderType::Buy => nb.usd_total() == b.usd_total() - m.fill_amount * cp
                    && nb.btc_total() == b.btc_total() + m.fill_amount,
                OrderType::Sell => nb.usd_total() == b.usd_total() + m.fill_amount * cp
                    && nb.btc_total() == b.btc_total() - m.fill_amount,
            }
        }),
{
}

/// Change in quote currency that settling `ms` brings to the owners of their orders.
pub open spec fn usd_flow(orders: Seq<Order>, ms: Seq<OrderMatch>, cp: u64) -> int
    decreases ms.len(),
{
    if ms.len() == 0 {
        0
    } else {
        (match find_order(orders, ms[0].order_id) {
            Some(o) => if o.order_type == OrderType::Buy {
                -(ms[0].fill_amount * cp)
            } else {
                ms[0].fill_amount * cp
            },
            None => 0,
        }) + usd_flow(orders, ms.drop_first(), cp)
    }
}

/// Change in base asset that settling `ms` brings to the owners of their orders.
pub open spec fn btc_flow(orders: Seq<Order>, ms: Seq<OrderMatch>) -> int
    decreases ms.len(),
{
    if ms.len() == 0 {
        0
    } else {
        (match find_order(orders, ms[0].order_id) {
            Some(o) => if o.order_type == OrderType::Buy {
                ms[0].fill_amount as int
            } else {
                -ms[0].fill_amount
            },
            None => 0,
        }) + btc_flow(orders, ms.drop_first())
    }
}

pub open spec fn unique_ids(orders: Seq<Order>) -> bool {
    forall|i: int, j: int| 0 <= i < j < orders.len() ==> (#[trigger] orders[i]).id != (#[trigger] orders[j]).id
}

proof fn lemma_find_unique(orders: Seq<Order>, j: int)
    requires
        unique_ids(orders),
        0 <= j < orders.len(),
    ensures
        find_order(orders, orders[j].id) == Some(orders[j]),
    decreases orders.len(),
{
    if j > 0 {
        let t = orders.drop_first();
        assert(orders[0].id != orders[j].id);
        assert forall|a: int, c: int| 0 <= a < c < t.len() implies (#[trigger] t[a]).id != (#[trigger] t[c]).id by {
            assert(orders[a + 1].id != orders[c + 1].id);
        }
        assert(t[j - 1] == orders[j]);
        lemma_find_unique(t, j - 1);
    }
}

proof fn lemma_flow_one_side(orders: Seq<Order>, ms: Seq<OrderMatch>, cp: u64, buy: bool)
    requires
        forall|i: int|
            0 <= i < ms.len() ==> (#[trigger] find_order(orders, ms[i].order_id)) is Some
                && on_side(find_order(orders, ms[i].order_id)->0, buy),
    ensures
        usd_flow(orders, ms, cp) == (if buy {
            -(cp * fill_sum(ms))
        } else {
            cp * fill_sum(ms)
        }),
        btc_flow(orders, ms) == (if buy {
            fill_sum(ms)
        } else {
            -fill_sum(ms)
        }),
    decreases ms.len(),
{
    if ms.len() > 0 {
        let t = ms.drop_first();
        assert forall|i: int| 0 <= i < t.len() implies (#[trigger] find_order(orders, t[i].order_id)) is Some
            && on_side(find_order(orders, t[i].order_id)->0, buy) by {
            assert(t[i] == ms[i + 1]);
            assert(find_order(orders, ms[i + 1].order_id) is Some);
        }
        assert(find_order(orders, ms[0].order_id) is Some);
        lemma_flow_one_side(orders, t, cp, buy);
        let f = ms[0].fill_amount as int;
        assert(cp * fill_sum(ms) == f * cp + cp * fill_sum(t)) by (nonlinear_arith)
            requires
                fill_sum(ms) == f + fill_sum(t),
        ;
    }
}

proof fn lemma_flow_append(orders: Seq<Order>, a: Seq<OrderMatch>, b: Seq<OrderMatch>, cp: u64)
    ensures
        usd_flow(orders, a + b, cp) == usd_flow(orders, a, cp) + usd_flow(orders, b, cp),
        btc_flow(orders, a + b) == btc_flow(orders, a) + btc_flow(orders, b),
    decreases a.len(),
{
    if a.len() == 0 {
        assert(a + b =~= b);
    } else {
        assert((a + b).drop_first() =~= a.drop_first() + b);
        lemma_flow_append(orders, a.drop_first(), b, cp);
    }
}

proof fn lemma_fills_of_side(orders: Seq<Order>, p: u64, v: int, buy: bool)
    requires
        unique_ids(orders),
        v >= 0,
    ensures
        forall|i: int|
            0 <= i < fills(book(side_quotes(orders, buy), buy), p, v, buy).len() ==> (
            #[trigger] find_order(orders, fills(book(side_quotes(orders, buy), buy), p, v, buy)[i].order_id))
                is Some && on_side(
                find_order(orders, fills(book(side_quotes(orders, buy), buy), p, v, buy)[i].order_id)->0,
                buy,
            ),
{
    let qs = side_quotes(orders, buy);
    let f = fills(book(qs, buy), p, v, buy);
    lemma_quote_origin(orders, buy);
    lemma_book(qs, p as int, buy);
    lemma_fills_shape(book(qs, buy), p, v, buy);
    assert forall|i: int| 0 <= i < f.len() implies (#[trigger] find_order(orders, f[i].order_id)) is Some
        && on_side(find_order(orders, f[i].order_id)->0, buy) by {
        let k = choose|k: int| 0 <= k < qs.len() && #[trigger] book(qs, buy)[i] == qs[k];
        assert(from_order(orders, qs[k], buy));
        let j = choose|j: int| 0 <= j < orders.len() && qs[k] == quote_of(#[trigger] orders[j])
            && on_side(orders[j], buy);
        lemma_find_unique(orders, j);
    }
}

/// Clearing creates and destroys nothing: over all matches of a clearing, what buyers pay
/// equals what sellers receive, and what sellers deliver equals what buyers receive.
pub proof fn lemma_clearing_conserves(orders: Seq<Order>, p: u64)
    requires
        unique_ids(orders),
        is_clearing_price(orders, p as int),
    ensures
        usd_flow(orders, clearing_matches(orders, p), p) == 0,
        btc_flow(orders, clearing_matches(orders, p)) == 0,
{
    let v = matched_volume(orders, p as int);
    let bids = side_quotes(orders, true);
    let asks = side_quotes(orders, false);
    let fb = fills(book(bids, true), p, v, true);
    let fa = fills(book(asks, false), p, v, false);
    crate::clearing::lemma_fills_balance(orders, p);
    lemma_book(bids, p as int, true);
    lemma_fills_shape(book(bids, true), p, v, true);
    assert(clearing_matches(orders, p).take(bids.len() as int) =~= fb);
    assert(clearing_matches(orders, p).skip(bids.len() as int) =~= fa);
    lemma_fills_of_side(orders, p, v, true);
    lemma_fills_of_side(orders, p, v, false);
    lemma_flow_one_side(orders, fb, p, true);
    lemma_flow_one_side(orders, fa, p, false);
    lemma_flow_append(orders, fb, fa, p);
}

/// Currency flows of settlement read the same from copies of the same orders.
pub proof fn lemma_same_orders_flow(a: Seq<Order>, b: Seq<Order>, ms: Seq<OrderMatch>, cp: u64)
    requires
        same_orders(a, b),
    ensures
        usd_flow(a, ms, cp) == usd_flow(b, ms, cp),
        btc_flow(a, ms) == btc_flow(b, ms),
    decreases ms.len(),
{
    if ms.len() > 0 {
        lemma_same_orders_find(a, b, ms[0].order_id);
        lemma_same_orders_flow(a, b, ms.drop_first(), cp);
    }
}

/// The order that `find_order` returns is one of the orders.
pub proof fn lemma_find_order_member(orders: Seq<Order>, id: u64)
    ensures
        find_order(orders, id) matches Some(o) ==> exists|j: int| 0 <= j < orders.len() && #[trigger] orders[j] == o,
    decreases orders.len(),
{
    if orders.len() > 0 && orders[0].id != id {
        lemma_find_order_member(orders.drop_first(), id);
        if let Some(o) = find_order(orders, id) {
            let j = choose|j: int| 0 <= j < orders.len() - 1 && #[trigger] orders.drop_first()[j] == o;
            assert(orders[j + 1] == o);
        }
    } else if orders.len() > 0 {
        assert(orders[0] == orders[0]);
    }
}

/// Settling only adds accounts.
pub proof fn lemma_settle_keeps_accounts(
    m: Map<Seq<u8>, DemoUserBalance>,
    orders: Seq<Order>,
    cp: u64,
    ms: Seq<OrderMatch>,
)
    ensures
        settle_all(m, orders, cp, ms) matches Ok(m2) ==> forall|k: Seq<u8>| m.contains_key(k) ==> #[trigger] m2.contains_key(k),
    decreases ms.len(),
{
    if ms.len() > 0 {
        if let Ok(m1) = settle_match(m, orders, cp, ms[0]) {
            lemma_settle_keeps_accounts(m1, orders, cp, ms.drop_first());
        }
    }
}
} // verus!
