//! Data model shared by every part of the auction.
use vstd::prelude::*;

verus! {

pub type OrderId = u64;

pub type RoundId = u64;

pub type Timestamp = u64;

#[allow(non_camel_case_types)]
#[derive(Clone, Copy, Debug, PartialEq, Eq, Structural)]
pub enum Asset {
    BTC,
    ETH,
}

#[derive(Clone, Copy, Debug, PartialEq, Eq, Structural)]
pub enum OrderType {
    Buy,
    Sell,
}

/// Phase of the current round.
#[derive(Clone, Copy, Debug, PartialEq, Eq, Structural)]
pub enum RoundState {
    Pending,
    Active,
    Revealing,
    Clearing,
    Executing,
    Completed,
}

/// A submitted order. `owner` holds the raw bytes of the submitter's principal.
#[derive(Clone, Debug)]
pub struct Order {
    pub id: OrderId,
    pub round_id: RoundId,
    pub owner: Vec<u8>,
    pub order_type: OrderType,
    pub asset: Asset,
    /// Amount in the asset's smallest unit.
    pub amount: u64,
    /// Limit price in the quote currency's smallest unit.
    pub price_limit: u64,
    pub created_at: Timestamp,
    pub encrypted_payload: Vec<u8>,
    /// Lower-case hex SHA-256 of the plaintext order.
    pub commitment_hash: String,
}

/// Outcome of one order in a clearing run.
#[derive(Clone, Copy, Debug, PartialEq, Eq, Structural)]
pub struct OrderMatch {
    pub order_id: OrderId,
    pub filled: bool,
    pub fill_amount: u64,
    pub fill_price: u64,
    /// Savings of a buyer, or extra earnings of a seller, at the clearing price.
    pub surplus: u64,
}

/// Result of clearing one round.
#[derive(Clone, Debug)]
pub struct ClearingResult {
    pub round_id: RoundId,
    pub clearing_price: u64,
    pub total_volume: u64,
    pub total_surplus: u64,
    pub matches: Vec<OrderMatch>,
    pub timestamp: Timestamp,
}

/// Trading record of one user, rebuilt from the clearing results.
#[derive(Clone, Debug)]
pub struct UserStats {
    pub user: Vec<u8>,
    pub total_orders: u64,
    pub filled_orders: u64,
    pub total_surplus: u64,
    pub rounds_participated: u64,
}

/// One line of a leaderboard.
#[derive(Clone, Debug)]
pub struct LeaderboardEntry {
    pub user: Vec<u8>,
    pub surplus: u64,
    /// Percentage of the user's orders that were filled, 0 to 100.
    pub fill_rate: u64,
    pub rank: u64,
}

impl Order {
    /// `self` and `o` hold the same data.
    pub open spec fn same_as(self, o: Order) -> bool {
        &&& self.id == o.id
        &&& self.round_id == o.round_id
        &&& self.owner@ == o.owner@
        &&& self.order_type == o.order_type
        &&& self.asset == o.asset
        &&& self.amount == o.amount
        &&& self.price_limit == o.price_limit
        &&& self.created_at == o.created_at
        &&& self.encrypted_payload@ == o.encrypted_payload@
        &&& self.commitment_hash@ == o.commitment_hash@
    }

    /// A copy of the order.
    pub fn duplicate(&self) -> (r: Order)
        ensures
            r.same_as(*self),
    {
        Order {
            id: self.id,
            round_id: self.round_id,
            owner: copy_bytes(&self.owner),
            order_type: self.order_type,
            asset: self.asset,
            amount: self.amount,
            price_limit: self.price_limit,
            created_at: self.created_at,
            encrypted_payload: copy_bytes(&self.encrypted_payload),
            commitment_hash: self.commitment_hash.clone(),
        }
    }
}

/// Two order sequences hold the same orders, position by position.
pub open spec fn same_orders(a: Seq<Order>, b: Seq<Order>) -> bool {
    a.len() == b.len() && forall|i: int| 0 <= i < a.len() ==> (#[trigger] a[i]).same_as(b[i])
}

/// A copy of a byte string.
pub fn copy_bytes(a: &Vec<u8>) -> (r: Vec<u8>)
    ensures
        r@ == a@,
{
    let mut r: Vec<u8> = Vec::new();
    let mut i: usize = 0;
    while i < a.len()
        invariant
            i <= a.len(),
            r@ == a@.take(i as int),
        decreases a.len() - i,
    {
        r.push(a[i]);
        i = i + 1;
        assert(r@ =~= a@.take(i as int));
    }
    assert(a@.take(a.len() as int) =~= a@);
    r
}

} // verus!
