//! The round lifecycle: order intake while a round is active, then reveal, clearing and
//! settlement, all or nothing.
use vstd::prelude::*;
use crate::clearing::{
    clearing_error_of, clearing_matches, clearing_surplus, find_clearing_price_and_match, fits_u64,
    is_clearing_price,
    lemma_clearing_price_unique, lemma_same_orders_quotes, matched_volume, ClearingError,
};
use crate::commitment::{batch_check, decrypt_order_batch, lemma_same_orders_check, CommitmentError};
use crate::escrow::{
    balance_in, find_order, lemma_clearing_conserves, lemma_find_order_member,
    lemma_same_orders_flow, lemma_same_orders_settle, lemma_settle_keeps_accounts, locked_balance,
    owners_known, settle_all, unique_ids, DemoUserBalance, Ledger, LockError,
    SettlementError,
};
use crate::types::{
    same_orders, Asset, ClearingResult, Order, OrderId, OrderType, RoundId, RoundState, Timestamp,
};

verus! {

/// Length of a round unless configured otherwise: 60 seconds.
pub const DEFAULT_ROUND_DURATION_NS: u64 = 60_000_000_000;

/// How long a completed round stays on display before the next one starts: 15 seconds.
pub const COMPLETION_COOLDOWN_NS: u64 = 15_000_000_000;

pub const NANOS_PER_SECOND: u64 = 1_000_000_000;

/// State of the round lifecycle.
#[derive(Clone, Debug)]
pub struct State {
    pub round_id: RoundId,
    pub round_state: RoundState,
    pub round_start_time: Timestamp,
    pub round_duration_ns: u64,
    pub next_order_id: OrderId,
    pub clearing_price_history: Vec<u64>,
}

impl Default for State {
    fn default() -> (r: State)
        ensures
            r.round_id == 0,
            r.round_state == RoundState::Pending,
            r.round_start_time == 0,
            r.round_duration_ns == DEFAULT_ROUND_DURATION_NS,
            r.next_order_id == 0,
            r.clearing_price_history@ == Seq::<u64>::empty(),
    {
        State {
            round_id: 0,
            round_state: RoundState::Pending,
            round_start_time: 0,
            round_duration_ns: DEFAULT_ROUND_DURATION_NS,
            next_order_id: 0,
            clearing_price_history: Vec::new(),
        }
    }
}

/// The orders of round `round_id`, in submission order.
pub open spec fn round_orders(s: Seq<Order>, round_id: u64) -> Seq<Order>
    decreases s.len(),
{
    if s.len() == 0 {
        s
    } else {
        let rest = round_orders(s.drop_last(), round_id);
        if s.last().round_id == round_id {
            rest.push(s.last())
        } else {
            rest
        }
    }
}

/// With ids equal to positions, each order of a round is the store's order at its id, and
/// ids increase along the round.
proof fn lemma_round_orders_facts(s: Seq<Order>, round_id: u64)
    requires
        forall|i: int| 0 <= i < s.len() ==> (#[trigger] s[i]).id == i,
    ensures
        forall|j: int|
            0 <= j < round_orders(s, round_id).len() ==> (#[trigger] round_orders(s, round_id)[j]).id
                < s.len() && s[round_orders(s, round_id)[j].id as int] == round_orders(s, round_id)[j],
        forall|a: int, b: int|
            0 <= a < b < round_orders(s, round_id).len() ==> (#[trigger] round_orders(s, round_id)[a]).id
                < (#[trigger] round_orders(s, round_id)[b]).id,
    decreases s.len(),
{
    if s.len() > 0 {
        let t = s.drop_last();
        assert forall|i: int| 0 <= i < t.len() implies (#[trigger] t[i]).id == i by {
            assert(t[i] == s[i]);
        }
        lemma_round_orders_facts(t, round_id);
        let rt = round_orders(t, round_id);
        assert forall|j: int| 0 <= j < rt.len() implies (#[trigger] rt[j]).id < t.len() && s[rt[j].id as int] == rt[j] by {
            assert(t[rt[j].id as int] == s[rt[j].id as int]);
        }
        assert(s.last().id == s.len() - 1);
    }
}

/// The first clearing result of round `round_id`.
pub open spec fn round_result(rs: Seq<ClearingResult>, round_id: u64) -> Option<ClearingResult>
    decreases rs.len(),
{
    if rs.len() == 0 {
        None
    } else if rs[0].round_id == round_id {
        Some(rs[0])
    } else {
        round_result(rs.drop_first(), round_id)
    }
}

/// Raw bytes of the anonymous principal.
pub open spec fn anonymous_principal() -> Seq<u8> {
    seq![4u8]
}

/// Why an order was refused.
#[derive(Clone, Copy, Debug, PartialEq, Eq, Structural)]
pub enum SubmitError {
    RoundNotActive,
    ZeroAmount,
    ZeroPrice,
    EmptyPayload,
    AnonymousCaller,
    OrderIdsExhausted,
    Lock(LockError),
}

/// The validation failure of a submission, if any; funds are checked after these.
pub open spec fn submit_rejection(
    round_state: RoundState,
    caller: Seq<u8>,
    amount: u64,
    price_limit: u64,
    payload: Seq<u8>,
    next_order_id: u64,
) -> Option<SubmitError> {
    if round_state != RoundState::Active {
        Some(SubmitError::RoundNotActive)
    } else if amount == 0 {
        Some(SubmitError::ZeroAmount)
    } else if price_limit == 0 {
        Some(SubmitError::ZeroPrice)
    } else if payload.len() == 0 {
        Some(SubmitError::EmptyPayload)
    } else if caller == anonymous_principal() {
        Some(SubmitError::AnonymousCaller)
    } else if next_order_id == u64::MAX {
        Some(SubmitError::OrderIdsExhausted)
    } else {
        None
    }
}

/// Why a round could not be started.
#[derive(Clone, Copy, Debug, PartialEq, Eq, Structural)]
pub enum StartError {
    NotPending { round_state: RoundState },
    RoundIdsExhausted,
}

/// What a request to clear the current round did.
#[derive(Clone, Copy, Debug, PartialEq, Eq, Structural)]
pub enum ClearingOutcome {
    /// No round is active: nothing was done.
    NotActive { round_state: RoundState },
    /// The round had no orders; it is back to pending.
    NoOrders { round_id: RoundId },
    /// A payload failed its commitment check; the round is back to pending.
    RevealFailed { round_id: RoundId, reveal_error: CommitmentError },
    /// The orders do not clear; the round is back to pending.
    ClearingFailed { round_id: RoundId, clearing_error: ClearingError },
    /// Settlement was abandoned; the round is back to pending and no balance changed.
    SettlementFailed { round_id: RoundId, settlement_error: SettlementError },
    /// The round cleared and settled.
    Cleared { round_id: RoundId, clearing_price: u64, total_volume: u64, total_surplus: u64 },
}

/// What a scheduler tick did.
#[derive(Clone, Copy, Debug, PartialEq, Eq, Structural)]
pub enum TickOutcome {
    Idle,
    /// The active round's time was up and it was cleared.
    Cleared(ClearingOutcome),
    /// The completed round's cooldown was over and the next round started.
    Started { round_id: RoundId },
}

/// The whole auction: round state, the append-only order store, the clearing results and
/// the custodial balances.
pub struct Auction {
    state: State,
    orders: Vec<Order>,
    results: Vec<ClearingResult>,
    ledger: Ledger,
}

/// The round orders clear at some price that fits.
pub open spec fn clears(ro: Seq<Order>) -> bool {
    exists|p: int| #[trigger] is_clearing_price(ro, p) && fits_u64(ro, p)
}

/// The price at which `ro` clears (see `clears`).
pub open spec fn price_of(ro: Seq<Order>) -> u64 {
    (choose|p: int| #[trigger] is_clearing_price(ro, p) && fits_u64(ro, p)) as u64
}

/// What clearing the current round at time `now` does, from `old` to `new`, with outcome
/// `r`. Outside an active round nothing changes. Otherwise the round either completes with
/// its result recorded and settled, or goes back to pending with no result and no balance
/// changed.
pub open spec fn clearing_done(old: Auction, new: Auction, now: Timestamp, r: ClearingOutcome) -> bool {
    &&& new.orders() == old.orders()
    &&& old.round().round_state != RoundState::Active ==> r == (ClearingOutcome::NotActive {
        round_state: old.round().round_state,
    }) && new == old
    &&& old.round().round_state == RoundState::Active ==> ({
        let round = old.round().round_id;
        let ro = round_orders(old.orders(), round);
        let reverted = new.round() == (State { round_state: RoundState::Pending, ..old.round() })
            && new.results() == old.results() && new.balances() == old.balances()
            && new.usd_total() == old.usd_total() && new.btc_total() == old.btc_total();
        if ro.len() == 0 {
            r == (ClearingOutcome::NoOrders { round_id: round }) && reverted
        } else if batch_check(ro) is Err {
            r == (ClearingOutcome::RevealFailed { round_id: round, reveal_error: batch_check(ro)->Err_0 })
                && reverted
        } else if !clears(ro) {
            r matches ClearingOutcome::ClearingFailed { round_id, clearing_error }
                && round_id == round && clearing_error_of(ro, clearing_error) && reverted
        } else {
            let p = price_of(ro);
            match settle_all(old.balances(), ro, p, clearing_matches(ro, p)) {
                Err(e) => r == (ClearingOutcome::SettlementFailed { round_id: round, settlement_error: e })
                    && reverted,
                Ok(m) => {
                    &&& r == (ClearingOutcome::Cleared {
                        round_id: round,
                        clearing_price: p,
                        total_volume: matched_volume(ro, p as int) as u64,
                        total_surplus: clearing_surplus(ro, p) as u64,
                    })
                    &&& new.balances() == m
                    &&& new.usd_total() == old.usd_total()
                    &&& new.btc_total() == old.btc_total()
                    &&& new.round().round_state == RoundState::Completed
                    &&& new.round().round_id == round
                    &&& new.round().round_start_time == old.round().round_start_time
                    &&& new.round().round_duration_ns == old.round().round_duration_ns
                    &&& new.round().next_order_id == old.round().next_order_id
                    &&& new.round().clearing_price_history@ == old.round().clearing_price_history@.push(p)
                    &&& new.results().len() == old.results().len() + 1
                    &&& new.results().take(old.results().len() as int) == old.results()
                    &&& {
                        let res = new.results().last();
                        &&& res.round_id == round
                        &&& res.clearing_price == p
                        &&& res.total_volume == matched_volume(ro, p as int)
                        &&& res.total_surplus == clearing_surplus(ro, p)
                        &&& res.matches@ == clearing_matches(ro, p)
                        &&& res.timestamp == now
                    }
                },
            }
        }
    })
}

/// Round state, orders and results that an auction can hold (see `Auction::wf`).
pub open spec fn parts_wf(state: State, orders: Seq<Order>, results: Seq<ClearingResult>) -> bool {
    &&& state.next_order_id == orders.len()
    &&& forall|i: int| 0 <= i < orders.len() ==> (#[trigger] orders[i]).id == i
    &&& forall|i: int, j: int|
        0 <= i < j < results.len() ==> (#[trigger] results[i]).round_id < (#[trigger] results[j]).round_id
    &&& forall|i: int| 0 <= i < results.len() ==> (#[trigger] results[i]).round_id <= state.round_id
    &&& state.round_state == RoundState::Active ==> forall|i: int|
        0 <= i < results.len() ==> (#[trigger] results[i]).round_id < state.round_id
}

impl Auction {
    pub closed spec fn round(&self) -> State {
        self.state
    }

    pub closed spec fn orders(&self) -> Seq<Order> {
        self.orders@
    }

    pub closed spec fn results(&self) -> Seq<ClearingResult> {
        self.results@
    }

    pub closed spec fn balances(&self) -> Map<Seq<u8>, DemoUserBalance> {
        self.ledger@
    }

    /// Order ids are positions in the store; each round has at most one result, in round
    /// order; an active round has none yet.
    pub closed spec fn wf(&self) -> bool {
        &&& self.ledger.wf()
        &&& self.state.next_order_id == self.orders@.len()
        &&& forall|i: int| 0 <= i < self.orders@.len() ==> (#[trigger] self.orders@[i]).id == i
        &&& forall|i: int, j: int|
            0 <= i < j < self.results@.len() ==> (#[trigger] self.results@[i]).round_id
                < (#[trigger] self.results@[j]).round_id
        &&& forall|i: int|
            0 <= i < self.results@.len() ==> (#[trigger] self.results@[i]).round_id
                <= self.state.round_id
        &&& self.state.round_state == RoundState::Active ==> forall|i: int|
            0 <= i < self.results@.len() ==> (#[trigger] self.results@[i]).round_id
                < self.state.round_id
        &&& forall|i: int| 0 <= i < self.orders@.len() ==> self.ledger@.contains_key((#[trigger] self.orders@[i]).owner@)
    }

    /// Quote currency held over all accounts, free and locked.
    pub closed spec fn usd_total(&self) -> int {
        self.ledger.usd_total()
    }

    /// Base asset held over all accounts, free and locked.
    pub closed spec fn btc_total(&self) -> int {
        self.ledger.btc_total()
    }

    pub fn new() -> (r: Auction)
        ensures
            r.wf(),
            r.round().round_id == 0,
            r.round().round_state == RoundState::Pending,
            r.round().round_duration_ns == DEFAULT_ROUND_DURATION_NS,
            r.orders().len() == 0,
            r.results().len() == 0,
            r.balances() == Map::<Seq<u8>, DemoUserBalance>::empty(),
    {
        Auction { state: State::default(), orders: Vec::new(), results: Vec::new(), ledger: Ledger::new() }
    }

    /// An auction rebuilt from stored parts; `None` when they do not fit together.
    pub fn from_parts(state: State, orders: Vec<Order>, results: Vec<ClearingResult>, ledger: Ledger) -> (r:
        Option<Auction>)
        requires
            ledger.wf(),
        ensures
            match r {
                Some(a) => {
                    &&& a.wf()
                    &&& a.round() == state
                    &&& a.orders() == orders@
                    &&& a.results() == results@
                    &&& a.balances() == ledger@
                },
                None => !parts_wf(state, orders@, results@) || exists|i: int|
                    0 <= i < orders@.len() && !ledger@.contains_key((#[trigger] orders@[i]).owner@),
            },
    {
        if state.next_order_id != orders.len() as u64 {
            return None;
        }
        let mut i: usize = 0;
        while i < orders.len()
            invariant
                i <= orders@.len(),
                ledger.wf(),
                forall|k: int| 0 <= k < i ==> (#[trigger] orders@[k]).id == k,
                forall|k: int| 0 <= k < i ==> ledger@.contains_key((#[trigger] orders@[k]).owner@),
            decreases orders.len() - i,
        {
            if orders[i].id != i as u64 {
                return None;
            }
            if !ledger.has_account(&orders[i].owner) {
                return None;
            }
            i = i + 1;
        }
        let active = state.round_state == RoundState::Active;
        let mut j: usize = 0;
        while j < results.len()
            invariant
                j <= results@.len(),
                active == (state.round_state == RoundState::Active),
                forall|a: int, b: int| 0 <= a < b < j ==> (#[trigger] results@[a]).round_id < (#[trigger] results@[b]).round_id,
                forall|a: int| 0 <= a < j ==> (#[trigger] results@[a]).round_id <= state.round_id,
                active ==> forall|a: int| 0 <= a < j ==> (#[trigger] results@[a]).round_id < state.round_id,
            decreases results.len() - j,
        {
            let rid = results[j].round_id;
            if rid > state.round_id || (active && rid == state.round_id) {
                return None;
            }
            if j > 0 && results[j - 1].round_id >= rid {
                return None;
            }
            proof {
                assert forall|a: int, b: int| 0 <= a < b < j + 1 implies (#[trigger] results@[a]).round_id < (#[trigger] results@[b]).round_id by {
                    if b == j as int && a < j - 1 {
                        assert(results@[a].round_id < results@[j - 1].round_id);
                    }
                }
            }
            j = j + 1;
        }
        Some(Auction { state, orders, results, ledger })
    }

    pub fn get_round_state(&self) -> (r: &State)
        ensures
            *r == self.round(),
    {
        &self.state
    }

    pub fn get_order_count(&self) -> (r: u64)
        requires
            self.wf(),
        ensures
            r == self.orders().len(),
    {
        self.orders.len() as u64
    }

    pub fn orders_ref(&self) -> (r: &Vec<Order>)
        ensures
            r@ == self.orders(),
    {
        &self.orders
    }

    pub fn results_ref(&self) -> (r: &Vec<ClearingResult>)
        ensures
            r@ == self.results(),
    {
        &self.results
    }

    pub fn ledger_ref(&self) -> (r: &Ledger)
        requires
            self.wf(),
        ensures
            r@ == self.balances(),
            r.wf(),
    {
        &self.ledger
    }

    /// Balance of `user`, or the initial balance if the user has no account yet.
    pub fn get_demo_balance_of(&self, user: &Vec<u8>) -> (r: DemoUserBalance)
        requires
            self.wf(),
        ensures
            r == balance_in(self.balances(), user@),
    {
        self.ledger.balance_of(user)
    }

    /// Copies of the orders of round `round_id`.
    pub fn get_round_orders(&self, round_id: RoundId) -> (r: Vec<Order>)
        ensures
            same_orders(r@, round_orders(self.orders(), round_id)),
    {
        let mut out: Vec<Order> = Vec::new();
        let mut i: usize = 0;
        while i < self.orders.len()
            invariant
                i <= self.orders@.len(),
                same_orders(out@, round_orders(self.orders@.take(i as int), round_id)),
            decreases self.orders.len() - i,
        {
            assert(self.orders@.take(i + 1).drop_last() =~= self.orders@.take(i as int));
            let o = &self.orders[i];
            if o.round_id == round_id {
                let ghost before = out@;
                out.push(o.duplicate());
                assert forall|k: int| 0 <= k < out@.len() implies (#[trigger] out@[k]).same_as(
                    round_orders(self.orders@.take(i + 1), round_id)[k],
                ) by {
                    if k < before.len() {
                        assert(out@[k] == before[k]);
                    }
                }
            }
            i = i + 1;
        }
        assert(self.orders@.take(self.orders.len() as int) =~= self.orders@);
        out
    }

    /// The clearing result of round `round_id`, if it cleared.
    pub fn get_round_result(&self, round_id: RoundId) -> (r: Option<&ClearingResult>)
        ensures
            match r {
                Some(res) => round_result(self.results(), round_id) == Some(*res),
                None => round_result(self.results(), round_id) is None,
            },
    {
        let mut i: usize = 0;
        assert(self.results@.skip(0) =~= self.results@);
        while i < self.results.len()
            invariant
                i <= self.results@.len(),
                round_result(self.results@, round_id) == round_result(self.results@.skip(i as int), round_id),
            decreases self.results.len() - i,
        {
            assert(self.results@.skip(i as int).drop_first() =~= self.results@.skip(i + 1));
            if self.results[i].round_id == round_id {
                return Some(&self.results[i]);
            }
            i = i + 1;
        }
        None
    }

    /// The clearing result of the current round, if it cleared.
    pub fn get_current_round_result(&self) -> (r: Option<&ClearingResult>)
        ensures
            match r {
                Some(res) => round_result(self.results(), self.round().round_id) == Some(*res),
                None => round_result(self.results(), self.round().round_id) is None,
            },
    {
        self.get_round_result(self.state.round_id)
    }

    /// Accepts an order of `caller` into the active round and locks the funds it needs.
    /// A refused order changes nothing.
    pub fn submit_order(
        &mut self,
        caller: Vec<u8>,
        order_type: OrderType,
        asset: Asset,
        amount: u64,
        price_limit: u64,
        encrypted_payload: Vec<u8>,
        commitment_hash: String,
        now: Timestamp,
    ) -> (r: Result<OrderId, SubmitError>)
        requires
            old(self).wf(),
        ensures
            final(self).wf(),
            match submit_rejection(
                old(self).round().round_state,
                caller@,
                amount,
                price_limit,
                encrypted_payload@,
                old(self).round().next_order_id,
            ) {
                Some(e) => r == Err::<OrderId, SubmitError>(e) && *final(self) == *old(self),
                None => match locked_balance(
                    balance_in(old(self).balances(), caller@),
                    order_type,
                    amount,
                    price_limit,
                ) {
                    Err(e) => {
                        &&& r == Err::<OrderId, SubmitError>(SubmitError::Lock(e))
                        &&& final(self).balances() == old(self).balances()
                        &&& final(self).orders() == old(self).orders()
                        &&& final(self).results() == old(self).results()
                        &&& final(self).round() == old(self).round()
                    },
                    Ok(b) => {
                        &&& r == Ok::<OrderId, SubmitError>(old(self).round().next_order_id)
                        &&& final(self).balances() == old(self).balances().insert(caller@, b)
                        &&& final(self).orders() == old(self).orders().push(
                            Order {
                                id: old(self).round().next_order_id,
                                round_id: old(self).round().round_id,
                                owner: caller,
                                order_type,
                                asset,
                                amount,
                                price_limit,
                                created_at: now,
                                encrypted_payload,
                                commitment_hash,
                            },
                        )
                        &&& final(self).results() == old(self).results()
                        &&& final(self).round() == (State {
                            next_order_id: (old(self).round().next_order_id + 1) as u64,
                            ..old(self).round()
                        })
                    },
                },
            },
    {
        if self.state.round_state != RoundState::Active {
            return Err(SubmitError::RoundNotActive);
        }
        if amount == 0 {
            return Err(SubmitError::ZeroAmount);
        }
        if price_limit == 0 {
            return Err(SubmitError::ZeroPrice);
        }
        if encrypted_payload.len() == 0 {
            return Err(SubmitError::EmptyPayload);
        }
        if caller.len() == 1 && caller[0] == 4u8 {
            assert(caller@ =~= anonymous_principal());
            return Err(SubmitError::AnonymousCaller);
        }
        assert(caller@ != anonymous_principal());
        if self.state.next_order_id == u64::MAX {
            return Err(SubmitError::OrderIdsExhausted);
        }
        match self.ledger.lock_demo_funds(&caller, order_type, amount, price_limit) {
            Err(e) => {
                return Err(SubmitError::Lock(e));
            },
            Ok(()) => {},
        }
        let id = self.state.next_order_id;
        let order = Order {
            id,
            round_id: self.state.round_id,
            owner: caller,
            order_type,
            asset,
            amount,
            price_limit,
            created_at: now,
            encrypted_payload,
            commitment_hash,
        };
        self.orders.push(order);
        self.state.next_order_id = id + 1;
        Ok(id)
    }

    /// Starts the next round; only a pending round can be started.
    pub fn admin_start_round(&mut self, now: Timestamp) -> (r: Result<RoundId, StartError>)
        requires
            old(self).wf(),
        ensures
            final(self).wf(),
            old(self).round().round_state != RoundState::Pending ==> r == Err::<RoundId, StartError>(
                StartError::NotPending { round_state: old(self).round().round_state },
            ) && *final(self) == *old(self),
            old(self).round().round_state == RoundState::Pending && old(self).round().round_id
                == u64::MAX ==> r == Err::<RoundId, StartError>(StartError::RoundIdsExhausted)
                && *final(self) == *old(self),
            old(self).round().round_state == RoundState::Pending && old(self).round().round_id
                < u64::MAX ==> {
                &&& r == Ok::<RoundId, StartError>((old(self).round().round_id + 1) as u64)
                &&& final(self).round() == (State {
                    round_id: (old(self).round().round_id + 1) as u64,
                    round_state: RoundState::Active,
                    round_start_time: now,
                    ..old(self).round()
                })
                &&& final(self).orders() == old(self).orders()
                &&& final(self).results() == old(self).results()
                &&& final(self).balances() == old(self).balances()
            },
    {
        if self.state.round_state != RoundState::Pending {
            return Err(StartError::NotPending { round_state: self.state.round_state });
        }
        if self.state.round_id == u64::MAX {
            return Err(StartError::RoundIdsExhausted);
        }
        self.state.round_id = self.state.round_id + 1;
        self.state.round_state = RoundState::Active;
        self.state.round_start_time = now;
        Ok(self.state.round_id)
    }

    /// Starts the next round after a completed one, or from pending; otherwise does nothing.
    pub fn auto_start_next_round(&mut self, now: Timestamp) -> (r: Option<RoundId>)
        requires
            old(self).wf(),
        ensures
            final(self).wf(),
            r is Some <==> ((old(self).round().round_state == RoundState::Completed
                || old(self).round().round_state == RoundState::Pending)
                && old(self).round().round_id < u64::MAX),
            r is None ==> *final(self) == *old(self),
            r is Some ==> {
                &&& r == Some((old(self).round().round_id + 1) as u64)
                &&& final(self).round() == (State {
                    round_id: (old(self).round().round_id + 1) as u64,
                    round_state: RoundState::Active,
                    round_start_time: now,
                    ..old(self).round()
                })
                &&& final(self).orders() == old(self).orders()
                &&& final(self).results() == old(self).results()
                &&& final(self).balances() == old(self).balances()
            },
    {
        let s = self.state.round_state;
        if (s == RoundState::Completed || s == RoundState::Pending) && self.state.round_id < u64::MAX {
            self.state.round_id = self.state.round_id + 1;
            self.state.round_state = RoundState::Active;
            self.state.round_start_time = now;
            Some(self.state.round_id)
        } else {
            None
        }
    }

    /// Puts the round back to pending, whatever its state.
    pub fn admin_reset_round(&mut self) -> (r: RoundId)
        requires
            old(self).wf(),
        ensures
            final(self).wf(),
            r == old(self).round().round_id,
            final(self).round() == (State { round_state: RoundState::Pending, ..old(self).round() }),
            final(self).orders() == old(self).orders(),
            final(self).results() == old(self).results(),
            final(self).balances() == old(self).balances(),
    {
        self.state.round_state = RoundState::Pending;
        self.state.round_id
    }

    /// Sets the length of later rounds, in seconds; `None`, and no change, if it does not
    /// fit in nanoseconds.
    pub fn set_round_duration(&mut self, seconds: u64) -> (r: Option<u64>)
        requires
            old(self).wf(),
        ensures
            final(self).wf(),
            seconds * NANOS_PER_SECOND > u64::MAX ==> r is None && *final(self) == *old(self),
            seconds * NANOS_PER_SECOND <= u64::MAX ==> {
                &&& r == Some((seconds * NANOS_PER_SECOND) as u64)
                &&& final(self).round() == (State {
                    round_duration_ns: (seconds * NANOS_PER_SECOND) as u64,
                    ..old(self).round()
                })
                &&& final(self).orders() == old(self).orders()
                &&& final(self).results() == old(self).results()
                &&& final(self).balances() == old(self).balances()
            },
    {
        match seconds.checked_mul(NANOS_PER_SECOND) {
            None => None,
            Some(ns) => {
                self.state.round_duration_ns = ns;
                Some(ns)
            },
        }
    }

    /// Nanoseconds left in the active round at time `now`; 0 when no round is active.
    pub fn get_time_remaining(&self, now: Timestamp) -> (r: u64)
        ensures
            r == if self.round().round_state != RoundState::Active || now
                >= self.round().round_start_time + self.round().round_duration_ns {
                0
            } else if now <= self.round().round_start_time {
                self.round().round_duration_ns as int
            } else {
                self.round().round_start_time + self.round().round_duration_ns - now
            },
    {
        if self.state.round_state != RoundState::Active {
            return 0;
        }
        let elapsed = if now > self.state.round_start_time {
            now - self.state.round_start_time
        } else {
            0
        };
        if elapsed >= self.state.round_duration_ns {
            0
        } else {
            self.state.round_duration_ns - elapsed
        }
    }

    /// Clears the active round: reveals and checks its orders, computes the clearing, and
    /// settles it. Outside an active round this does nothing, so a round is cleared at most
    /// once. Any failure puts the round back to pending with no balance or result changed.
    pub fn admin_run_clearing(&mut self, now: Timestamp) -> (r: ClearingOutcome)
        requires
            old(self).wf(),
        ensures
            final(self).wf(),
            clearing_done(*old(self), *final(self), now, r),
    {
        if self.state.round_state != RoundState::Active {
            return ClearingOutcome::NotActive { round_state: self.state.round_state };
        }
        let round = self.state.round_id;
        let ghost ro = round_orders(self.orders@, round);
        self.state.round_state = RoundState::Revealing;
        let round_orders_copy = self.get_round_orders(round);
        if round_orders_copy.len() == 0 {
            self.state.round_state = RoundState::Pending;
            return ClearingOutcome::NoOrders { round_id: round };
        }
        proof {
            lemma_same_orders_check(round_orders_copy@, ro);
        }
        let revealed = match decrypt_order_batch(round_orders_copy) {
            Ok(v) => v,
            Err(e) => {
                self.state.round_state = RoundState::Pending;
                return ClearingOutcome::RevealFailed { round_id: round, reveal_error: e };
            },
        };
        proof {
            lemma_same_orders_quotes(revealed@, ro, true);
            lemma_same_orders_quotes(revealed@, ro, false);
            assert forall|q: int| #[trigger] matched_volume(revealed@, q) == matched_volume(ro, q) by {}
            assert forall|p: int| is_clearing_price(revealed@, p) == is_clearing_price(ro, p) by {
                if is_clearing_price(revealed@, p) {
                    assert forall|q: int| #[trigger] matched_volume(ro, q) <= matched_volume(ro, p) by {
                        assert(matched_volume(revealed@, q) <= matched_volume(revealed@, p));
                    }
                    assert forall|q: int| q < p implies #[trigger] matched_volume(ro, q) < matched_volume(ro, p) by {
                        assert(matched_volume(revealed@, q) < matched_volume(revealed@, p));
                    }
                }
                if is_clearing_price(ro, p) {
                    assert forall|q: int| #[trigger] matched_volume(revealed@, q) <= matched_volume(revealed@, p) by {
                        assert(matched_volume(ro, q) <= matched_volume(ro, p));
                    }
                    assert forall|q: int| q < p implies #[trigger] matched_volume(revealed@, q) < matched_volume(revealed@, p) by {
                        assert(matched_volume(ro, q) < matched_volume(ro, p));
                    }
                }
            }
            assert forall|p: int| #[trigger] fits_u64(revealed@, p) == fits_u64(ro, p) by {
                assert(matched_volume(revealed@, p) == matched_volume(ro, p));
            }
            assert forall|p: u64| #[trigger] clearing_matches(revealed@, p) == clearing_matches(ro, p) by {
                assert(matched_volume(revealed@, p as int) == matched_volume(ro, p as int));
            }
        }
        self.state.round_state = RoundState::Clearing;
        let result = match find_clearing_price_and_match(&revealed, round, now) {
            Ok(res) => res,
            Err(e) => {
                proof {
                    if clears(ro) {
                        let p = choose|p: int| #[trigger] is_clearing_price(ro, p) && fits_u64(ro, p);
                        assert(is_clearing_price(revealed@, p) && fits_u64(revealed@, p));
                    }
                    match e {
                        ClearingError::Overflow => {
                            let p = choose|p: int| #[trigger] is_clearing_price(revealed@, p) && !fits_u64(revealed@, p);
                            assert(is_clearing_price(ro, p) && !fits_u64(ro, p));
                        },
                        ClearingError::NoClearingPrice => {
                            assert forall|q: int| #[trigger] matched_volume(ro, q) == 0 by {
                                assert(matched_volume(revealed@, q) == 0);
                            }
                        },
                        _ => {},
                    }
                    assert(clearing_error_of(ro, e));
                }
                self.state.round_state = RoundState::Pending;
                return ClearingOutcome::ClearingFailed { round_id: round, clearing_error: e };
            },
        };
        let price = result.clearing_price;
        proof {
            assert(is_clearing_price(ro, price as int) && fits_u64(ro, price as int));
            let q = choose|p: int| #[trigger] is_clearing_price(ro, p) && fits_u64(ro, p);
            lemma_clearing_price_unique(ro, q, price as int);
            assert(price_of(ro) == price);
            lemma_same_orders_settle(self.ledger@, revealed@, ro, price, result.matches@);
            lemma_round_orders_facts(self.orders@, round);
            assert(unique_ids(ro)) by {
                assert forall|a: int, b: int| 0 <= a < b < ro.len() implies (#[trigger] ro[a]).id != (#[trigger] ro[b]).id by {
                    assert(ro[a].id < ro[b].id);
                }
            }
            lemma_clearing_conserves(ro, price);
            lemma_same_orders_flow(revealed@, ro, result.matches@, price);
            assert forall|k: int| 0 <= k < result.matches@.len() implies match #[trigger] find_order(revealed@, result.matches@[k].order_id) {
                Some(o) => self.ledger@.contains_key(o.owner@),
                None => true,
            } by {
                lemma_find_order_member(revealed@, result.matches@[k].order_id);
                if let Some(o) = find_order(revealed@, result.matches@[k].order_id) {
                    let j = choose|j: int| 0 <= j < revealed@.len() && #[trigger] revealed@[j] == o;
                    assert(revealed@[j].same_as(ro[j]));
                    let i = ro[j].id as int;
                    assert(self.orders@[i] == ro[j]);
                }
            }
            assert(owners_known(self.ledger@, revealed@, result.matches@));
            lemma_settle_keeps_accounts(self.ledger@, revealed@, price, result.matches@);
        }
        self.state.round_state = RoundState::Executing;
        match self.ledger.apply_settlement_for_round(&revealed, &result) {
            Err(e) => {
                self.state.round_state = RoundState::Pending;
                return ClearingOutcome::SettlementFailed { round_id: round, settlement_error: e };
            },
            Ok(()) => {},
        }
        self.state.clearing_price_history.push(price);
        let outcome = ClearingOutcome::Cleared {
            round_id: round,
            clearing_price: price,
            total_volume: result.total_volume,
            total_surplus: result.total_surplus,
        };
        let ghost old_results = self.results@;
        self.results.push(result);
        assert(self.results@.take(old_results.len() as int) =~= old_results);
        self.state.round_state = RoundState::Completed;
        outcome
    }

    /// One scheduler tick at time `now`: clears the active round once its time is up, and
    /// starts the next round once a completed round's cooldown is over.
    pub fn check_and_progress_round(&mut self, now: Timestamp) -> (r: TickOutcome)
        requires
            old(self).wf(),
        ensures
            final(self).wf(),
            ({
                let s = old(self).round();
                let expired = s.round_state == RoundState::Active && now >= s.round_start_time
                    + s.round_duration_ns;
                let cooled = s.round_state == RoundState::Completed && now >= s.round_start_time
                    + s.round_duration_ns + COMPLETION_COOLDOWN_NS && s.round_id < u64::MAX;
                &&& expired ==> (r matches TickOutcome::Cleared(c) && clearing_done(
                    *old(self),
                    *final(self),
                    now,
                    c,
                ))
                &&& cooled ==> {
                    &&& r == (TickOutcome::Started { round_id: (s.round_id + 1) as u64 })
                    &&& final(self).round() == (State {
                        round_id: (s.round_id + 1) as u64,
                        round_state: RoundState::Active,
                        round_start_time: now,
                        ..s
                    })
                    &&& final(self).orders() == old(self).orders()
                    &&& final(self).results() == old(self).results()
                    &&& final(self).balances() == old(self).balances()
                }
                &&& !expired && !cooled ==> r is Idle && *final(self) == *old(self)
            }),
    {
        let s = self.state.round_state;
        let deadline: u128 = self.state.round_start_time as u128 + self.state.round_duration_ns as u128;
        if s == RoundState::Active && now as u128 >= deadline {
            return TickOutcome::Cleared(self.admin_run_clearing(now));
        }
        if s == RoundState::Completed && now as u128 >= deadline + COMPLETION_COOLDOWN_NS as u128 {
            match self.auto_start_next_round(now) {
                Some(id) => {
                    return TickOutcome::Started { round_id: id };
                },
                None => {},
            }
        }
        TickOutcome::Idle
    }
}

} // verus!
