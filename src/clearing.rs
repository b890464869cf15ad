//! Uniform-price double auction: the clearing price and the fill of every order.
use vstd::prelude::*;
use crate::types::{ClearingResult, Order, OrderMatch, OrderType};

verus! {

/// The part of an order that clearing reads.
#[derive(Clone, Copy, Debug)]
pub struct Quote {
    pub id: u64,
    pub price: u64,
    pub amount: u64,
}

pub open spec fn quote_of(o: Order) -> Quote {
    Quote { id: o.id, price: o.price_limit, amount: o.amount }
}

pub open spec fn on_side(o: Order, buy: bool) -> bool {
    (o.order_type == OrderType::Buy) == buy
}

/// Quotes of the orders of one side (`buy` for bids), in the orders' sequence.
pub open spec fn side_quotes(orders: Seq<Order>, buy: bool) -> Seq<Quote>
    decreases orders.len(),
{
    if orders.len() == 0 {
        Seq::empty()
    } else {
        let rest = side_quotes(orders.drop_last(), buy);
        if on_side(orders.last(), buy) {
            rest.push(quote_of(orders.last()))
        } else {
            rest
        }
    }
}

/// A bid trades at `p` when its limit is at least `p`; an ask when its limit is at most `p`.
pub open spec fn accepts(q: Quote, p: int, buy: bool) -> bool {
    if buy {
        q.price >= p
    } else {
        q.price <= p
    }
}

/// Total amount of the quotes of one side that trade at price `p`.
pub open spec fn side_volume(s: Seq<Quote>, p: int, buy: bool) -> int
    decreases s.len(),
{
    if s.len() == 0 {
        0
    } else {
        (if accepts(s[0], p, buy) {
            s[0].amount as int
        } else {
            0
        }) + side_volume(s.drop_first(), p, buy)
    }
}

/// Amount that buyers take at price `p`: the bids whose limit is at least `p`.
pub open spec fn demand(orders: Seq<Order>, p: int) -> int {
    side_volume(side_quotes(orders, true), p, true)
}

/// Amount that sellers offer at price `p`: the asks whose limit is at most `p`.
pub open spec fn supply(orders: Seq<Order>, p: int) -> int {
    side_volume(side_quotes(orders, false), p, false)
}

pub open spec fn min_int(a: int, b: int) -> int {
    if a <= b {
        a
    } else {
        b
    }
}

/// Amount that trades when every order is matched at price `p`.
pub open spec fn matched_volume(orders: Seq<Order>, p: int) -> int {
    min_int(demand(orders, p), supply(orders, p))
}

/// `p` is the clearing price: some volume trades there, no price trades more,
/// and every lower price trades strictly less.
pub open spec fn is_clearing_price(orders: Seq<Order>, p: int) -> bool {
    &&& matched_volume(orders, p) > 0
    &&& forall|q: int| #[trigger] matched_volume(orders, q) <= matched_volume(orders, p)
    &&& forall|q: int| q < p ==> #[trigger] matched_volume(orders, q) < matched_volume(orders, p)
}

/// `q` is ahead of `r` in the book of its side: a higher bid, or a lower ask.
pub open spec fn ahead(q: Quote, r: Quote, buy: bool) -> bool {
    if buy {
        q.price > r.price
    } else {
        q.price < r.price
    }
}

/// `q` placed into book `s`: behind every quote that it is not ahead of.
pub open spec fn insert_quote(s: Seq<Quote>, q: Quote, buy: bool) -> Seq<Quote>
    decreases s.len(),
{
    if s.len() == 0 {
        seq![q]
    } else if ahead(q, s[0], buy) {
        seq![q] + s
    } else {
        seq![s[0]] + insert_quote(s.drop_first(), q, buy)
    }
}

/// The book of one side: best price first, quotes of equal price in arrival order.
pub open spec fn book(s: Seq<Quote>, buy: bool) -> Seq<Quote>
    decreases s.len(),
{
    if s.len() == 0 {
        s
    } else {
        insert_quote(book(s.drop_last(), buy), s.last(), buy)
    }
}

proof fn lemma_insert_split(s: Seq<Quote>, q: Quote, buy: bool, k: int)
    requires
        0 <= k <= s.len(),
        forall|j: int| 0 <= j < k ==> !ahead(q, #[trigger] s[j], buy),
        k < s.len() ==> ahead(q, s[k], buy),
    ensures
        insert_quote(s, q, buy) == s.take(k) + seq![q] + s.skip(k),
    decreases s.len(),
{
    if s.len() == 0 {
        assert(s.take(k) + seq![q] + s.skip(k) =~= seq![q]);
    } else if k == 0 {
        assert(s.take(k) + seq![q] + s.skip(k) =~= seq![q] + s);
    } else {
        let t = s.drop_first();
        assert forall|j: int| 0 <= j < k - 1 implies !ahead(q, #[trigger] t[j], buy) by {
            assert(t[j] == s[j + 1]);
        }
        lemma_insert_split(t, q, buy, k - 1);
        assert(s.take(k) + seq![q] + s.skip(k) =~= seq![s[0]] + (t.take(k - 1) + seq![q] + t.skip(
            k - 1,
        )));
    }
}

/// Places `q` into `book` at its place (see `insert_quote`).
fn insert_into_book(book_vec: &mut Vec<Quote>, q: Quote, buy: bool)
    ensures
        final(book_vec)@ == insert_quote(old(book_vec)@, q, buy),
{
    let mut k: usize = 0;
    while k < book_vec.len()
        invariant
            k <= book_vec.len(),
            book_vec@ == old(book_vec)@,
            forall|j: int| 0 <= j < k ==> !ahead(q, #[trigger] book_vec@[j], buy),
        ensures
            k <= book_vec.len(),
            book_vec@ == old(book_vec)@,
            forall|j: int| 0 <= j < k ==> !ahead(q, #[trigger] book_vec@[j], buy),
            k < book_vec.len() ==> ahead(q, book_vec@[k as int], buy),
        decreases book_vec.len() - k,
    {
        let r = book_vec[k];
        let is_ahead = if buy {
            q.price > r.price
        } else {
            q.price < r.price
        };
        if is_ahead {
            break;
        }
        k = k + 1;
    }
    proof {
        lemma_insert_split(book_vec@, q, buy, k as int);
    }
    book_vec.insert(k, q);
    assert(book_vec@ =~= old(book_vec)@.take(k as int) + seq![q] + old(book_vec)@.skip(k as int));
}

/// Sorts the quotes of one side into its book (see `book`).
fn sort_book(quotes: &Vec<Quote>, buy: bool) -> (r: Vec<Quote>)
    ensures
        r@ == book(quotes@, buy),
{
    let mut sorted: Vec<Quote> = Vec::new();
    let mut i: usize = 0;
    while i < quotes.len()
        invariant
            i <= quotes.len(),
            sorted@ == book(quotes@.take(i as int), buy),
        decreases quotes.len() - i,
    {
        assert(quotes@.take(i + 1).drop_last() =~= quotes@.take(i as int));
        insert_into_book(&mut sorted, quotes[i], buy);
        i = i + 1;
    }
    assert(quotes@.take(quotes.len() as int) =~= quotes@);
    sorted
}

/// Collects the quotes of the orders of one side.
fn collect_quotes(orders: &Vec<Order>, buy: bool) -> (r: Vec<Quote>)
    ensures
        r@ == side_quotes(orders@, buy),
{
    let mut quotes: Vec<Quote> = Vec::new();
    let mut i: usize = 0;
    while i < orders.len()
        invariant
            i <= orders.len(),
            quotes@ == side_quotes(orders@.take(i as int), buy),
        decreases orders.len() - i,
    {
        let o = &orders[i];
        assert(orders@.take(i + 1).drop_last() =~= orders@.take(i as int));
        let is_buy = match o.order_type {
            OrderType::Buy => true,
            OrderType::Sell => false,
        };
        if is_buy == buy {
            quotes.push(Quote { id: o.id, price: o.price_limit, amount: o.amount });
        }
        i = i + 1;
    }
    assert(orders@.take(orders.len() as int) =~= orders@);
    quotes
}

proof fn lemma_side_volume_bounds(s: Seq<Quote>, p: int, buy: bool)
    ensures
        0 <= side_volume(s, p, buy) <= s.len() * 0xffff_ffff_ffff_ffff,
    decreases s.len(),
{
    if s.len() > 0 {
        lemma_side_volume_bounds(s.drop_first(), p, buy);
    }
}

/// Volume of one side at price `p` (see `side_volume`).
fn volume_at(quotes: &Vec<Quote>, p: u64, buy: bool) -> (r: u128)
    ensures
        r == side_volume(quotes@, p as int, buy),
{
    let mut acc: u128 = 0;
    let mut i: usize = 0;
    assert(quotes@.skip(0) =~= quotes@);
    while i < quotes.len()
        invariant
            i <= quotes.len(),
            acc + side_volume(quotes@.skip(i as int), p as int, buy) == side_volume(
                quotes@,
                p as int,
                buy,
            ),
            acc <= i * 0xffff_ffff_ffff_ffffu128,
        decreases quotes.len() - i,
    {
        let q = quotes[i];
        assert(quotes@.skip(i as int).drop_first() =~= quotes@.skip(i + 1));
        let takes = if buy {
            q.price >= p
        } else {
            q.price <= p
        };
        if takes {
            assert(i < 0x1_0000_0000_0000_0000);
            assert(acc + q.amount <= (i + 1) * 0xffff_ffff_ffff_ffffu128) by (nonlinear_arith)
                requires
                    acc <= i * 0xffff_ffff_ffff_ffffu128,
                    q.amount <= 0xffff_ffff_ffff_ffffu64,
            ;
            assert((i + 1) * 0xffff_ffff_ffff_ffffu128 <= 0xffff_ffff_ffff_ffff_ffff_ffff_ffff_ffffu128)
                by (nonlinear_arith)
                requires
                    i < 0x1_0000_0000_0000_0000,
            ;
            acc = acc + q.amount as u128;
        }
        assert(acc <= (i + 1) * 0xffff_ffff_ffff_ffffu128) by (nonlinear_arith)
            requires
                acc <= i * 0xffff_ffff_ffff_ffffu128 + 0xffff_ffff_ffff_ffffu128,
        ;
        i = i + 1;
    }
    acc
}


proof fn lemma_side_volume_monotone(s: Seq<Quote>, lo: int, hi: int, buy: bool)
    requires
        lo <= hi,
    ensures
        buy ==> side_volume(s, lo, buy) >= side_volume(s, hi, buy),
        !buy ==> side_volume(s, lo, buy) <= side_volume(s, hi, buy),
    decreases s.len(),
{
    if s.len() > 0 {
        lemma_side_volume_monotone(s.drop_first(), lo, hi, buy);
    }
}

proof fn lemma_side_volume_same(s: Seq<Quote>, lo: int, hi: int, buy: bool)
    requires
        forall|j: int| 0 <= j < s.len() ==> accepts(#[trigger] s[j], lo, buy) == accepts(s[j], hi, buy),
    ensures
        side_volume(s, lo, buy) == side_volume(s, hi, buy),
    decreases s.len(),
{
    if s.len() > 0 {
        let t = s.drop_first();
        assert forall|j: int| 0 <= j < t.len() implies accepts(#[trigger] t[j], lo, buy) == accepts(t[j], hi, buy) by {
            assert(t[j] == s[j + 1]);
        }
        assert(accepts(s[0], lo, buy) == accepts(s[0], hi, buy));
        lemma_side_volume_same(t, lo, hi, buy);
    }
}

/// Some quote trades wherever the volume of its side is positive.
proof fn lemma_positive_has_taker(s: Seq<Quote>, p: int, buy: bool)
    requires
        side_volume(s, p, buy) > 0,
    ensures
        exists|j: int| 0 <= j < s.len() && accepts(#[trigger] s[j], p, buy),
    decreases s.len(),
{
    if !accepts(s[0], p, buy) {
        lemma_positive_has_taker(s.drop_first(), p, buy);
        let j = choose|j: int| 0 <= j < s.len() - 1 && accepts(#[trigger] s.drop_first()[j], p, buy);
        assert(s[j + 1] == s.drop_first()[j]);
    }
}

/// Index of a highest ask at or below `p`.
proof fn highest_ask_below(s: Seq<Quote>, p: int) -> (j: int)
    requires
        exists|k: int| 0 <= k < s.len() && #[trigger] s[k].price <= p,
    ensures
        0 <= j < s.len(),
        s[j].price <= p,
        forall|k: int| 0 <= k < s.len() && #[trigger] s[k].price <= p ==> s[k].price <= s[j].price,
    decreases s.len(),
{
    let t = s.drop_last();
    if exists|k: int| 0 <= k < t.len() && #[trigger] t[k].price <= p {
        let i = highest_ask_below(t, p);
        assert(t[i] == s[i]);
        let j = if s.last().price <= p && s.last().price > s[i].price {
            s.len() - 1
        } else {
            i
        };
        assert forall|k: int| 0 <= k < s.len() && #[trigger] s[k].price <= p implies s[k].price
            <= s[j].price by {
            if k < t.len() {
                assert(t[k] == s[k]);
            }
        }
        j
    } else {
        assert forall|k: int| 0 <= k < s.len() && #[trigger] s[k].price <= p implies k == s.len() - 1 by {
            if k < t.len() {
                assert(t[k] == s[k]);
            }
        }
        s.len() - 1
    }
}

/// Wherever some volume trades, at least as much trades at the highest ask at or below that price.
proof fn lemma_anchor_at_ask(orders: Seq<Order>, q: int)
    requires
        matched_volume(orders, q) > 0,
    ensures
        exists|k: int|
            0 <= k < side_quotes(orders, false).len() && side_quotes(orders, false)[k].price <= q
                && matched_volume(orders, #[trigger] side_quotes(orders, false)[k].price as int)
                >= matched_volume(orders, q),
{
    let asks = side_quotes(orders, false);
    let bids = side_quotes(orders, true);
    lemma_positive_has_taker(asks, q, false);
    let j = highest_ask_below(asks, q);
    let a = asks[j].price as int;
    assert forall|k: int| 0 <= k < asks.len() implies accepts(#[trigger] asks[k], q, false) == accepts(
        asks[k],
        a,
        false,
    ) by {}
    lemma_side_volume_same(asks, q, a, false);
    lemma_side_volume_monotone(bids, a, q, true);
    assert(matched_volume(orders, asks[j].price as int) >= matched_volume(orders, q));
}

proof fn lemma_volume_nonnegative(orders: Seq<Order>, q: int)
    ensures
        matched_volume(orders, q) >= 0,
{
    lemma_side_volume_bounds(side_quotes(orders, true), q, true);
    lemma_side_volume_bounds(side_quotes(orders, false), q, false);
}

/// A price that no ask price beats, and that every lower ask price trails, is the clearing price.
proof fn lemma_clearing_from_asks(orders: Seq<Order>, p: int)
    requires
        matched_volume(orders, p) > 0,
        forall|k: int|
            0 <= k < side_quotes(orders, false).len() ==> {
                let v = matched_volume(orders, #[trigger] side_quotes(orders, false)[k].price as int);
                &&& v <= matched_volume(orders, p)
                &&& v == matched_volume(orders, p) ==> p <= side_quotes(orders, false)[k].price
            },
    ensures
        is_clearing_price(orders, p),
{
    assert forall|q: int| #[trigger] matched_volume(orders, q) <= matched_volume(orders, p) by {
        lemma_volume_nonnegative(orders, q);
        if matched_volume(orders, q) > 0 {
            lemma_anchor_at_ask(orders, q);
        }
    }
    assert forall|q: int| q < p implies #[trigger] matched_volume(orders, q) < matched_volume(orders, p) by {
        lemma_volume_nonnegative(orders, q);
        if matched_volume(orders, q) > 0 {
            lemma_anchor_at_ask(orders, q);
        }
    }
}

/// When no ask price trades anything, no price does.
proof fn lemma_no_volume(orders: Seq<Order>)
    requires
        forall|k: int|
            0 <= k < side_quotes(orders, false).len() ==> matched_volume(
                orders,
                #[trigger] side_quotes(orders, false)[k].price as int,
            ) == 0,
    ensures
        forall|q: int| #[trigger] matched_volume(orders, q) == 0,
{
    assert forall|q: int| #[trigger] matched_volume(orders, q) == 0 by {
        lemma_volume_nonnegative(orders, q);
        if matched_volume(orders, q) > 0 {
            lemma_anchor_at_ask(orders, q);
        }
    }
}

/// The clearing price is unique: equal inputs always give the same price.
pub proof fn lemma_clearing_price_unique(orders: Seq<Order>, first: int, second: int)
    requires
        is_clearing_price(orders, first),
        is_clearing_price(orders, second),
    ensures
        first == second,
{
    assert(matched_volume(orders, first) <= matched_volume(orders, second));
    assert(matched_volume(orders, second) <= matched_volume(orders, first));
}

/// Why an order set does not clear.
#[derive(Clone, Copy, Debug, PartialEq, Eq, Structural)]
pub enum ClearingError {
    /// One side of the book is empty.
    InsufficientOrders { buy_orders: u64, sell_orders: u64 },
    /// Bids and asks do not cross: no price trades any volume.
    NoClearingPrice,
    /// The matched volume or the total surplus does not fit in a `u64`.
    Overflow,
}

/// Price and volume at which a round clears.
#[derive(Clone, Copy, Debug, PartialEq, Eq, Structural)]
pub struct ClearingPrice {
    pub clearing_price: u64,
    pub volume: u64,
}

/// Matched volume at price `p`, from the quotes of both sides.
fn matched_at(bids: &Vec<Quote>, asks: &Vec<Quote>, p: u64) -> (r: u128)
    ensures
        r == min_int(side_volume(bids@, p as int, true), side_volume(asks@, p as int, false)),
{
    let d = volume_at(bids, p, true);
    let s = volume_at(asks, p, false);
    if d <= s {
        d
    } else {
        s
    }
}

/// Finds the lowest price with the largest matched volume, among ask prices.
fn search_price(orders: &Vec<Order>, bids: &Vec<Quote>, asks: &Vec<Quote>) -> (r: (u64, u128))
    requires
        bids@ == side_quotes(orders@, true),
        asks@ == side_quotes(orders@, false),
        asks.len() > 0,
    ensures
        r.1 == matched_volume(orders@, r.0 as int),
        forall|k: int|
            0 <= k < asks@.len() ==> {
                let v = matched_volume(orders@, #[trigger] asks@[k].price as int);
                &&& v <= r.1
                &&& v == r.1 ==> r.0 <= asks@[k].price
            },
{
    let mut best_p: u64 = asks[0].price;
    let mut best_v: u128 = matched_at(bids, asks, best_p);
    let mut i: usize = 1;
    while i < asks.len()
        invariant
            1 <= i <= asks.len(),
            bids@ == side_quotes(orders@, true),
            asks@ == side_quotes(orders@, false),
            best_v == matched_volume(orders@, best_p as int),
            forall|k: int|
                0 <= k < i ==> {
                    let v = matched_volume(orders@, #[trigger] asks@[k].price as int);
                    &&& v <= best_v
                    &&& v == best_v ==> best_p <= asks@[k].price
                },
        decreases asks.len() - i,
    {
        let p = asks[i].price;
        let v = matched_at(bids, asks, p);
        if v > best_v || (v == best_v && p < best_p) {
            best_p = p;
            best_v = v;
        }
        i = i + 1;
    }
    (best_p, best_v)
}

/// Finds the uniform clearing price of a round's orders and the volume that trades there.
pub fn find_clearing_price(orders: &Vec<Order>) -> (r: Result<ClearingPrice, ClearingError>)
    ensures
        match r {
            Ok(c) => is_clearing_price(orders@, c.clearing_price as int) && c.volume
                == matched_volume(orders@, c.clearing_price as int),
            Err(ClearingError::InsufficientOrders { buy_orders, sell_orders }) => {
                &&& buy_orders == side_quotes(orders@, true).len()
                &&& sell_orders == side_quotes(orders@, false).len()
                &&& (buy_orders == 0 || sell_orders == 0)
            },
            Err(ClearingError::NoClearingPrice) => {
                &&& side_quotes(orders@, true).len() > 0
                &&& side_quotes(orders@, false).len() > 0
                &&& forall|q: int| #[trigger] matched_volume(orders@, q) == 0
            },
            Err(ClearingError::Overflow) => {
                &&& side_quotes(orders@, true).len() > 0
                &&& side_quotes(orders@, false).len() > 0
                &&& exists|p: int|
                    #[trigger] is_clearing_price(orders@, p) && matched_volume(orders@, p)
                        > u64::MAX
            },
        },
        r is Ok <==> (exists|p: int|
            #[trigger] is_clearing_price(orders@, p) && matched_volume(orders@, p) <= u64::MAX),
{
    let bids = collect_quotes(orders, true);
    let asks = collect_quotes(orders, false);
    proof {
        assert forall|p: int| #[trigger] is_clearing_price(orders@, p) implies bids.len() > 0
            && asks.len() > 0 by {
            if bids.len() == 0 {
                assert(demand(orders@, p) == 0);
            }
            if asks.len() == 0 {
                assert(supply(orders@, p) == 0);
            }
        }
    }
    if bids.len() == 0 || asks.len() == 0 {
        return Err(
            ClearingError::InsufficientOrders {
                buy_orders: bids.len() as u64,
                sell_orders: asks.len() as u64,
            },
        );
    }
    let (price, volume) = search_price(orders, &bids, &asks);
    if volume == 0 {
        proof {
            assert forall|k: int| 0 <= k < asks@.len() implies matched_volume(
                orders@,
                #[trigger] asks@[k].price as int,
            ) == 0 by {
                lemma_volume_nonnegative(orders@, asks@[k].price as int);
            }
            lemma_no_volume(orders@);
            assert forall|p: int| !#[trigger] is_clearing_price(orders@, p) by {
                assert(matched_volume(orders@, p) == 0);
            }
        }
        return Err(ClearingError::NoClearingPrice);
    }
    proof {
        lemma_clearing_from_asks(orders@, price as int);
        assert forall|p: int| #[trigger] is_clearing_price(orders@, p) implies p == price by {
            lemma_clearing_price_unique(orders@, p, price as int);
        }
    }
    if volume > u64::MAX as u128 {
        return Err(ClearingError::Overflow);
    }
    Ok(ClearingPrice { clearing_price: price, volume: volume as u64 })
}


/// What a filled order gains per unit at `price`: a buyer pays less than the limit,
/// a seller receives more.
pub open spec fn gain(q: Quote, price: int, buy: bool) -> int {
    if buy {
        q.price - price
    } else {
        price - q.price
    }
}

/// Fills of a book at `price`, best quote first, until `rem` units are used up.
pub open spec fn fills(s: Seq<Quote>, price: u64, rem: int, buy: bool) -> Seq<OrderMatch>
    decreases s.len(),
{
    if s.len() == 0 {
        Seq::empty()
    } else if rem > 0 && accepts(s[0], price as int, buy) {
        let f = min_int(s[0].amount as int, rem);
        seq![
            OrderMatch {
                order_id: s[0].id,
                filled: true,
                fill_amount: f as u64,
                fill_price: price,
                surplus: (gain(s[0], price as int, buy) * f) as u64,
            },
        ] + fills(s.drop_first(), price, rem - f, buy)
    } else {
        seq![OrderMatch { order_id: s[0].id, filled: false, fill_amount: 0, fill_price: 0, surplus: 0 }]
            + fills(s.drop_first(), price, rem, buy)
    }
}

/// Total surplus of the fills of a book (see `fills`).
pub open spec fn surplus_of(s: Seq<Quote>, price: u64, rem: int, buy: bool) -> int
    decreases s.len(),
{
    if s.len() == 0 {
        0
    } else if rem > 0 && accepts(s[0], price as int, buy) {
        let f = min_int(s[0].amount as int, rem);
        gain(s[0], price as int, buy) * f + surplus_of(s.drop_first(), price, rem - f, buy)
    } else {
        surplus_of(s.drop_first(), price, rem, buy)
    }
}

/// Matches of a clearing at price `p`: the bids' book, then the asks' book.
pub open spec fn clearing_matches(orders: Seq<Order>, p: u64) -> Seq<OrderMatch> {
    let v = matched_volume(orders, p as int);
    fills(book(side_quotes(orders, true), true), p, v, true) + fills(
        book(side_quotes(orders, false), false),
        p,
        v,
        false,
    )
}

/// Total surplus of a clearing at price `p`.
pub open spec fn clearing_surplus(orders: Seq<Order>, p: u64) -> int {
    let v = matched_volume(orders, p as int);
    surplus_of(book(side_quotes(orders, true), true), p, v, true) + surplus_of(
        book(side_quotes(orders, false), false),
        p,
        v,
        false,
    )
}

/// The volume and the total surplus of a clearing at `p` fit in a `u64`.
pub open spec fn fits_u64(orders: Seq<Order>, p: int) -> bool {
    &&& matched_volume(orders, p) <= u64::MAX
    &&& clearing_surplus(orders, p as u64) <= u64::MAX
}

/// `e` is why `orders` do not clear.
pub open spec fn clearing_error_of(orders: Seq<Order>, e: ClearingError) -> bool {
    match e {
        ClearingError::InsufficientOrders { buy_orders, sell_orders } => {
            &&& buy_orders == side_quotes(orders, true).len()
            &&& sell_orders == side_quotes(orders, false).len()
            &&& (buy_orders == 0 || sell_orders == 0)
        },
        ClearingError::NoClearingPrice => {
            &&& side_quotes(orders, true).len() > 0
            &&& side_quotes(orders, false).len() > 0
            &&& forall|q: int| #[trigger] matched_volume(orders, q) == 0
        },
        ClearingError::Overflow => exists|p: int| #[trigger] is_clearing_price(orders, p) && !fits_u64(orders, p),
    }
}

proof fn lemma_surplus_nonnegative(s: Seq<Quote>, price: u64, rem: int, buy: bool)
    ensures
        surplus_of(s, price, rem, buy) >= 0,
    decreases s.len(),
{
    if s.len() > 0 {
        if rem > 0 && accepts(s[0], price as int, buy) {
            let f = min_int(s[0].amount as int, rem);
            lemma_surplus_nonnegative(s.drop_first(), price, rem - f, buy);
            assert(gain(s[0], price as int, buy) * f >= 0) by (nonlinear_arith)
                requires
                    gain(s[0], price as int, buy) >= 0,
                    f >= 0,
            ;
        } else {
            lemma_surplus_nonnegative(s.drop_first(), price, rem, buy);
        }
    }
}

/// Appends the fills of one book at `price` with `volume` units to `matches`, adding their
/// surplus to `surplus`; `None` when the sum leaves the range of `u64`.
fn fill_book(
    book_vec: &Vec<Quote>,
    price: u64,
    volume: u64,
    buy: bool,
    matches: &mut Vec<OrderMatch>,
    surplus: u64,
) -> (r: Option<u64>)
    ensures
        match r {
            Some(t) => {
                &&& t == surplus + surplus_of(book_vec@, price, volume as int, buy)
                &&& final(matches)@ == old(matches)@ + fills(book_vec@, price, volume as int, buy)
            },
            None => surplus + surplus_of(book_vec@, price, volume as int, buy) > u64::MAX,
        },
{
    let mut rem: u64 = volume;
    let mut total: u64 = surplus;
    let mut i: usize = 0;
    assert(book_vec@.skip(0) =~= book_vec@);
    assert(old(matches)@ + fills(book_vec@, price, volume as int, buy) =~= matches@ + fills(
        book_vec@.skip(0),
        price,
        rem as int,
        buy,
    ));
    while i < book_vec.len()
        invariant
            i <= book_vec.len(),
            old(matches)@ + fills(book_vec@, price, volume as int, buy) == matches@ + fills(
                book_vec@.skip(i as int),
                price,
                rem as int,
                buy,
            ),
            surplus + surplus_of(book_vec@, price, volume as int, buy) == total + surplus_of(
                book_vec@.skip(i as int),
                price,
                rem as int,
                buy,
            ),
        decreases book_vec.len() - i,
    {
        let q = book_vec[i];
        let rest = Ghost(book_vec@.skip(i + 1));
        assert(book_vec@.skip(i as int).drop_first() =~= rest@);
        let takes = if buy {
            q.price >= price
        } else {
            q.price <= price
        };
        if rem > 0 && takes {
            let f = if q.amount <= rem {
                q.amount
            } else {
                rem
            };
            let g = if buy {
                q.price - price
            } else {
                price - q.price
            };
            assert(g as u128 * f as u128 <= 0xffff_ffff_ffff_ffff_ffff_ffff_ffff_ffffu128) by (
            nonlinear_arith)
                requires
                    g <= 0xffff_ffff_ffff_ffffu64,
                    f <= 0xffff_ffff_ffff_ffffu64,
            ;
            let gained: u128 = g as u128 * f as u128;
            proof {
                lemma_surplus_nonnegative(rest@, price, (rem - f) as int, buy);
            }
            if gained > u64::MAX as u128 {
                return None;
            }
            let next = total.checked_add(gained as u64);
            match next {
                None => {
                    return None;
                },
                Some(t) => {
                    total = t;
                },
            }
            let m = OrderMatch {
                order_id: q.id,
                filled: true,
                fill_amount: f,
                fill_price: price,
                surplus: gained as u64,
            };
            let ghost before = matches@;
            matches.push(m);
            assert(before + fills(book_vec@.skip(i as int), price, rem as int, buy) =~= matches@
                + fills(rest@, price, (rem - f) as int, buy));
            rem = rem - f;
        } else {
            let m = OrderMatch { order_id: q.id, filled: false, fill_amount: 0, fill_price: 0, surplus: 0 };
            let ghost before = matches@;
            matches.push(m);
            assert(before + fills(book_vec@.skip(i as int), price, rem as int, buy) =~= matches@
                + fills(rest@, price, rem as int, buy));
        }
        i = i + 1;
    }
    assert(matches@ + fills(book_vec@.skip(i as int), price, rem as int, buy) =~= matches@);
    Some(total)
}

/// Clears a round: finds the clearing price and fills every order against it. Bids
/// are filled best first, then asks best first, each side up to the matched volume;
/// every order gets exactly one match, filled or not.
pub fn find_clearing_price_and_match(orders: &Vec<Order>, round_id: u64, now: u64) -> (r: Result<
    ClearingResult,
    ClearingError,
>)
    ensures
        match r {
            Ok(res) => {
                &&& res.round_id == round_id
                &&& res.timestamp == now
                &&& is_clearing_price(orders@, res.clearing_price as int)
                &&& res.total_volume == matched_volume(orders@, res.clearing_price as int)
                &&& res.total_surplus == clearing_surplus(orders@, res.clearing_price)
                &&& res.matches@ == clearing_matches(orders@, res.clearing_price)
            },
            Err(e) => clearing_error_of(orders@, e),
        },
        r is Ok <==> (exists|p: int| #[trigger] is_clearing_price(orders@, p) && fits_u64(orders@, p)),
{
    let cp = match find_clearing_price(orders) {
        Ok(c) => c,
        Err(ClearingError::Overflow) => {
            proof {
                let p = choose|p: int| #[trigger]
                    is_clearing_price(orders@, p) && matched_volume(orders@, p) > u64::MAX;
                assert(!fits_u64(orders@, p));
            }
            return Err(ClearingError::Overflow);
        },
        Err(e) => {
            return Err(e);
        },
    };
    let price = cp.clearing_price;
    let volume = cp.volume;
    proof {
        assert forall|p: int| #[trigger] is_clearing_price(orders@, p) implies p == price by {
            lemma_clearing_price_unique(orders@, p, price as int);
        }
    }
    let bids = sort_book(&collect_quotes(orders, true), true);
    let asks = sort_book(&collect_quotes(orders, false), false);
    let mut matches: Vec<OrderMatch> = Vec::new();
    let after_bids = fill_book(&bids, price, volume, true, &mut matches, 0);
    let bid_surplus = match after_bids {
        Some(t) => t,
        None => {
            proof {
                lemma_surplus_nonnegative(asks@, price, volume as int, false);
                assert(!fits_u64(orders@, price as int));
            }
            return Err(ClearingError::Overflow);
        },
    };
    let total_surplus = match fill_book(&asks, price, volume, false, &mut matches, bid_surplus) {
        Some(t) => t,
        None => {
            proof {
                assert(!fits_u64(orders@, price as int));
            }
            return Err(ClearingError::Overflow);
        },
    };
    assert(matches@ =~= clearing_matches(orders@, price));
    Ok(
        ClearingResult {
            round_id,
            clearing_price: price,
            total_volume: volume,
            total_surplus,
            matches,
            timestamp: now,
        },
    )
}


/// Sum of the filled amounts of a sequence of matches.
pub open spec fn fill_sum(m: Seq<OrderMatch>) -> int
    decreases m.len(),
{
    if m.len() == 0 {
        0
    } else {
        m[0].fill_amount + fill_sum(m.drop_first())
    }
}

pub open spec fn contribution(q: Quote, p: int, buy: bool) -> int {
    if accepts(q, p, buy) {
        q.amount as int
    } else {
        0
    }
}

pub(crate) proof fn lemma_fill_sum_append(a: Seq<OrderMatch>, b: Seq<OrderMatch>)
    ensures
        fill_sum(a + b) == fill_sum(a) + fill_sum(b),
    decreases a.len(),
{
    if a.len() == 0 {
        assert(a + b =~= b);
    } else {
        assert((a + b).drop_first() =~= a.drop_first() + b);
        lemma_fill_sum_append(a.drop_first(), b);
    }
}

pub(crate) proof fn lemma_fills_shape(s: Seq<Quote>, price: u64, rem: int, buy: bool)
    requires
        rem >= 0,
    ensures
        fills(s, price, rem, buy).len() == s.len(),
        fill_sum(fills(s, price, rem, buy)) == min_int(rem, side_volume(s, price as int, buy)),
        forall|i: int|
            0 <= i < s.len() ==> (#[trigger] fills(s, price, rem, buy)[i]).order_id == s[i].id
                && fills(s, price, rem, buy)[i].fill_amount <= s[i].amount,
    decreases s.len(),
{
    if s.len() > 0 {
        let t = s.drop_first();
        let m = fills(s, price, rem, buy);
        let next = if rem > 0 && accepts(s[0], price as int, buy) {
            rem - min_int(s[0].amount as int, rem)
        } else {
            rem
        };
        lemma_fills_shape(t, price, next, buy);
        lemma_side_volume_bounds(t, price as int, buy);
        assert(m.drop_first() =~= fills(t, price, next, buy));
        assert forall|i: int| 0 < i < s.len() implies (#[trigger] m[i]).order_id == s[i].id
            && m[i].fill_amount <= s[i].amount by {
            assert(m[i] == fills(t, price, next, buy)[i - 1]);
            assert(s[i] == t[i - 1]);
        }
    }
}

proof fn lemma_volume_push(s: Seq<Quote>, q: Quote, p: int, buy: bool)
    ensures
        side_volume(s.push(q), p, buy) == side_volume(s, p, buy) + contribution(q, p, buy),
    decreases s.len(),
{
    if s.len() == 0 {
        assert(s.push(q).drop_first() =~= s);
    } else {
        assert(s.push(q).drop_first() =~= s.drop_first().push(q));
        lemma_volume_push(s.drop_first(), q, p, buy);
    }
}

proof fn lemma_volume_insert(s: Seq<Quote>, q: Quote, p: int, buy: bool)
    ensures
        side_volume(insert_quote(s, q, buy), p, buy) == side_volume(s, p, buy) + contribution(
            q,
            p,
            buy,
        ),
        insert_quote(s, q, buy).len() == s.len() + 1,
        forall|i: int|
            0 <= i < s.len() + 1 ==> #[trigger] insert_quote(s, q, buy)[i] == q || exists|j: int|
                0 <= j < s.len() && insert_quote(s, q, buy)[i] == #[trigger] s[j],
    decreases s.len(),
{
    let r = insert_quote(s, q, buy);
    if s.len() == 0 {
        assert(seq![q].drop_first() =~= s);
    } else if ahead(q, s[0], buy) {
        assert((seq![q] + s).drop_first() =~= s);
        assert forall|i: int| 0 < i < s.len() + 1 implies #[trigger] r[i] == q || exists|j: int|
            0 <= j < s.len() && r[i] == #[trigger] s[j] by {
            assert(r[i] == s[i - 1]);
        }
    } else {
        let t = s.drop_first();
        lemma_volume_insert(t, q, p, buy);
        assert(r.drop_first() =~= insert_quote(t, q, buy));
        assert forall|i: int| 0 <= i < s.len() + 1 implies #[trigger] r[i] == q || exists|j: int|
            0 <= j < s.len() && r[i] == #[trigger] s[j] by {
            if i == 0 {
                assert(r[0] == s[0]);
            } else {
                assert(r[i] == insert_quote(t, q, buy)[i - 1]);
                if insert_quote(t, q, buy)[i - 1] != q {
                    let j = choose|j: int| 0 <= j < t.len() && insert_quote(t, q, buy)[i - 1] == #[trigger] t[j];
                    assert(t[j] == s[j + 1]);
                }
            }
        }
    }
}

/// A book holds the quotes of its side and trades the same volume at every price.
pub(crate) proof fn lemma_book(s: Seq<Quote>, p: int, buy: bool)
    ensures
        book(s, buy).len() == s.len(),
        side_volume(book(s, buy), p, buy) == side_volume(s, p, buy),
        forall|i: int|
            0 <= i < s.len() ==> exists|j: int| 0 <= j < s.len() && #[trigger] book(s, buy)[i] == s[j],
    decreases s.len(),
{
    if s.len() > 0 {
        let t = s.drop_last();
        lemma_book(t, p, buy);
        lemma_volume_insert(book(t, buy), s.last(), p, buy);
        lemma_volume_push(t, s.last(), p, buy);
        assert(t.push(s.last()) =~= s);
        let b = book(s, buy);
        assert forall|i: int| 0 <= i < s.len() implies exists|j: int|
            0 <= j < s.len() && #[trigger] b[i] == s[j] by {
            if b[i] == s.last() {
                assert(b[i] == s[s.len() - 1]);
            } else {
                let k = choose|k: int| 0 <= k < t.len() && b[i] == #[trigger] book(t, buy)[k];
                let j = choose|j: int| 0 <= j < t.len() && book(t, buy)[k] == #[trigger] t[j];
                assert(t[j] == s[j]);
            }
        }
    }
}

/// Each order is on exactly one side.
pub(crate) proof fn lemma_side_quotes(orders: Seq<Order>)
    ensures
        side_quotes(orders, true).len() + side_quotes(orders, false).len() == orders.len(),
    decreases orders.len(),
{
    if orders.len() > 0 {
        lemma_side_quotes(orders.drop_last());
    }
}

/// `q` is the quote of one of the orders of that side.
pub open spec fn from_order(orders: Seq<Order>, q: Quote, buy: bool) -> bool {
    exists|j: int| 0 <= j < orders.len() && q == quote_of(#[trigger] orders[j]) && on_side(orders[j], buy)
}

/// Every quote of a side comes from an order of that side.
pub(crate) proof fn lemma_quote_origin(orders: Seq<Order>, buy: bool)
    ensures
        forall|k: int|
            0 <= k < side_quotes(orders, buy).len() ==> from_order(
                orders,
                #[trigger] side_quotes(orders, buy)[k],
                buy,
            ),
    decreases orders.len(),
{
    if orders.len() > 0 {
        let t = orders.drop_last();
        let sq = side_quotes(orders, buy);
        lemma_quote_origin(t, buy);
        assert forall|k: int| 0 <= k < sq.len() implies from_order(orders, #[trigger] sq[k], buy) by {
            if k < side_quotes(t, buy).len() {
                assert(sq[k] == side_quotes(t, buy)[k]);
                assert(from_order(t, side_quotes(t, buy)[k], buy));
                let j = choose|j: int| 0 <= j < t.len() && side_quotes(t, buy)[k] == quote_of(#[trigger] t[j])
                    && on_side(t[j], buy);
                assert(t[j] == orders[j]);
            } else {
                let j = orders.len() - 1;
                if !on_side(orders.last(), buy) {
                    assert(sq == side_quotes(t, buy));
                }
                assert(sq[k] == quote_of(orders[j]) && on_side(orders[j], buy));
            }
        }
    }
}

/// Every order gets exactly one match; no fill exceeds its order's amount; and bids and asks
/// each trade exactly the matched volume in total.
pub proof fn lemma_fills_balance(orders: Seq<Order>, p: u64)
    requires
        is_clearing_price(orders, p as int),
    ensures
        clearing_matches(orders, p).len() == orders.len(),
        forall|i: int|
            0 <= i < orders.len() ==> exists|j: int|
                0 <= j < orders.len() && orders[j].id == (#[trigger] clearing_matches(orders, p)[i]).order_id
                    && clearing_matches(orders, p)[i].fill_amount <= orders[j].amount,
        fill_sum(clearing_matches(orders, p).take(side_quotes(orders, true).len() as int))
            == matched_volume(orders, p as int),
        fill_sum(clearing_matches(orders, p).skip(side_quotes(orders, true).len() as int))
            == matched_volume(orders, p as int),
{
    let v = matched_volume(orders, p as int);
    let bids = side_quotes(orders, true);
    let asks = side_quotes(orders, false);
    let fb = fills(book(bids, true), p, v, true);
    let fa = fills(book(asks, false), p, v, false);
    let m = clearing_matches(orders, p);
    lemma_side_quotes(orders);
    lemma_quote_origin(orders, true);
    lemma_quote_origin(orders, false);
    lemma_book(bids, p as int, true);
    lemma_book(asks, p as int, false);
    lemma_fills_shape(book(bids, true), p, v, true);
    lemma_fills_shape(book(asks, false), p, v, false);
    assert(m.take(bids.len() as int) =~= fb);
    assert(m.skip(bids.len() as int) =~= fa);
    assert forall|i: int| 0 <= i < orders.len() implies exists|j: int|
        0 <= j < orders.len() && orders[j].id == (#[trigger] m[i]).order_id && m[i].fill_amount
            <= orders[j].amount by {
        if i < bids.len() {
            assert(m[i] == fb[i]);
            let k = choose|k: int| 0 <= k < bids.len() && #[trigger] book(bids, true)[i] == bids[k];
            assert(from_order(orders, bids[k], true));
        } else {
            let a = i - bids.len();
            assert(m[i] == fa[a]);
            let k = choose|k: int| 0 <= k < asks.len() && #[trigger] book(asks, false)[a] == asks[k];
            assert(from_order(orders, asks[k], false));
        }
    }
}


proof fn lemma_side_volume_covers(orders: Seq<Order>, j: int, p: int, buy: bool)
    requires
        0 <= j < orders.len(),
        on_side(orders[j], buy),
    ensures
        side_volume(side_quotes(orders, buy), p, buy) >= contribution(quote_of(orders[j]), p, buy),
        side_quotes(orders, buy).len() > 0,
    decreases orders.len(),
{
    let t = orders.drop_last();
    lemma_side_volume_bounds(side_quotes(t, buy), p, buy);
    lemma_volume_push(side_quotes(t, buy), quote_of(orders.last()), p, buy);
    if j < orders.len() - 1 {
        assert(t[j] == orders[j]);
        lemma_side_volume_covers(t, j, p, buy);
    }
}

/// When a bid's limit is at or above an ask's limit, and both have a positive amount,
/// the book has both sides and volume trades at the ask's limit.
pub proof fn lemma_crossing_orders_trade(orders: Seq<Order>, b: int, s: int)
    requires
        0 <= b < orders.len(),
        0 <= s < orders.len(),
        orders[b].order_type == OrderType::Buy,
        orders[s].order_type == OrderType::Sell,
        orders[b].price_limit >= orders[s].price_limit,
        orders[b].amount > 0,
        orders[s].amount > 0,
    ensures
        side_quotes(orders, true).len() > 0,
        side_quotes(orders, false).len() > 0,
        matched_volume(orders, orders[s].price_limit as int) > 0,
{
    lemma_side_volume_covers(orders, b, orders[s].price_limit as int, true);
    lemma_side_volume_covers(orders, s, orders[s].price_limit as int, false);
}


/// Clearing reads the same quotes from copies of the same orders.
pub proof fn lemma_same_orders_quotes(a: Seq<Order>, b: Seq<Order>, buy: bool)
    requires
        crate::types::same_orders(a, b),
    ensures
        side_quotes(a, buy) == side_quotes(b, buy),
    decreases a.len(),
{
    if a.len() > 0 {
        assert(a.last().same_as(b.last()));
        assert forall|i: int| 0 <= i < a.drop_last().len() implies (#[trigger] a.drop_last()[i]).same_as(
            b.drop_last()[i],
        ) by {
            assert(a[i].same_as(b[i]));
        }
        lemma_same_orders_quotes(a.drop_last(), b.drop_last(), buy);
    }
}
} // verus!
