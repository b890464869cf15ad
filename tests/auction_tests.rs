use mempool_chess_backend::auction::{
    Auction, ClearingOutcome, StartError, SubmitError, TickOutcome, COMPLETION_COOLDOWN_NS,
    DEFAULT_ROUND_DURATION_NS,
};
use mempool_chess_backend::clearing::ClearingError;
use mempool_chess_backend::commitment::{generate_commitment_hash, CommitmentError};
use mempool_chess_backend::escrow::{
    Account, DemoUserBalance, Ledger, LockError, SettlementError, INITIAL_BTC_BALANCE, INITIAL_USD_BALANCE,
};
use mempool_chess_backend::types::{Asset, ClearingResult, Order, OrderMatch, OrderType, RoundState};

fn alice() -> Vec<u8> {
    vec![10, 1]
}

fn bob() -> Vec<u8> {
    vec![10, 2]
}

fn carol() -> Vec<u8> {
    vec![10, 3]
}

fn submit(a: &mut Auction, who: Vec<u8>, t: OrderType, amount: u64, price: u64, text: &str) -> Result<u64, SubmitError> {
    let commitment = generate_commitment_hash(text);
    a.submit_order(who, t, Asset::BTC, amount, price, text.as_bytes().to_vec(), commitment, 5)
}

fn started() -> Auction {
    let mut a = Auction::new();
    assert_eq!(a.admin_start_round(100), Ok(1));
    a
}

#[test]
fn new_auction_is_pending() {
    let a = Auction::new();
    let s = a.get_round_state();
    assert_eq!(s.round_id, 0);
    assert_eq!(s.round_state, RoundState::Pending);
    assert_eq!(s.round_duration_ns, DEFAULT_ROUND_DURATION_NS);
    assert_eq!(a.get_order_count(), 0);
}

#[test]
fn start_round_only_from_pending() {
    let mut a = started();
    assert_eq!(a.get_round_state().round_state, RoundState::Active);
    assert_eq!(a.get_round_state().round_start_time, 100);
    assert_eq!(
        a.admin_start_round(200),
        Err(StartError::NotPending { round_state: RoundState::Active })
    );
    assert_eq!(a.admin_reset_round(), 1);
    assert_eq!(a.admin_start_round(300), Ok(2));
}

#[test]
fn orders_are_refused_outside_an_active_round() {
    let mut a = Auction::new();
    assert_eq!(
        submit(&mut a, alice(), OrderType::Buy, 1, 1, "x"),
        Err(SubmitError::RoundNotActive)
    );
    assert_eq!(a.get_order_count(), 0);
}

#[test]
fn invalid_orders_are_refused() {
    let mut a = started();
    assert_eq!(submit(&mut a, alice(), OrderType::Buy, 0, 5, "x"), Err(SubmitError::ZeroAmount));
    assert_eq!(submit(&mut a, alice(), OrderType::Buy, 5, 0, "x"), Err(SubmitError::ZeroPrice));
    assert_eq!(
        a.submit_order(alice(), OrderType::Buy, Asset::BTC, 1, 1, Vec::new(), String::new(), 5),
        Err(SubmitError::EmptyPayload)
    );
    assert_eq!(submit(&mut a, vec![4], OrderType::Buy, 1, 1, "x"), Err(SubmitError::AnonymousCaller));
    assert_eq!(a.get_order_count(), 0);
}

#[test]
fn insufficient_quote_balance_is_refused_without_change() {
    let mut a = started();
    let before = a.get_demo_balance_of(&alice());
    let r = submit(&mut a, alice(), OrderType::Buy, 1_000_000, 1_000_000, "big");
    assert_eq!(
        r,
        Err(SubmitError::Lock(LockError::InsufficientUsd {
            required: 1_000_000_000_000,
            available: INITIAL_USD_BALANCE
        }))
    );
    assert_eq!(a.get_demo_balance_of(&alice()), before);
    assert_eq!(a.get_order_count(), 0);
}

#[test]
fn insufficient_base_balance_is_refused() {
    let mut a = started();
    let r = submit(&mut a, bob(), OrderType::Sell, INITIAL_BTC_BALANCE + 1, 10, "s");
    assert_eq!(
        r,
        Err(SubmitError::Lock(LockError::InsufficientBtc {
            required: INITIAL_BTC_BALANCE + 1,
            available: INITIAL_BTC_BALANCE
        }))
    );
}

#[test]
fn overflowing_reserve_is_refused() {
    let mut a = started();
    let r = submit(&mut a, bob(), OrderType::Buy, u64::MAX, 2, "s");
    assert_eq!(r, Err(SubmitError::Lock(LockError::Overflow)));
}

#[test]
fn submission_locks_funds_and_keeps_totals() {
    let mut a = started();
    assert_eq!(submit(&mut a, alice(), OrderType::Buy, 10, 100, "b"), Ok(0));
    assert_eq!(submit(&mut a, bob(), OrderType::Sell, 7, 90, "s"), Ok(1));
    let ab = a.get_demo_balance_of(&alice());
    assert_eq!(ab.usd_locked, 1000);
    assert_eq!(ab.usd_free, INITIAL_USD_BALANCE - 1000);
    assert_eq!(ab.usd_free + ab.usd_locked, INITIAL_USD_BALANCE);
    let bb = a.get_demo_balance_of(&bob());
    assert_eq!(bb.btc_locked, 7);
    assert_eq!(bb.btc_free + bb.btc_locked, INITIAL_BTC_BALANCE);
    assert_eq!(a.get_order_count(), 2);
    assert_eq!(a.get_round_state().next_order_id, 2);
}

#[test]
fn full_round_clears_and_settles() {
    let mut a = started();
    submit(&mut a, alice(), OrderType::Buy, 10, 100, "alice buys").unwrap();
    submit(&mut a, carol(), OrderType::Buy, 5, 90, "carol buys").unwrap();
    submit(&mut a, bob(), OrderType::Sell, 8, 80, "bob sells").unwrap();
    submit(&mut a, bob(), OrderType::Sell, 10, 90, "bob sells more").unwrap();
    let out = a.admin_run_clearing(1_000);
    assert_eq!(
        out,
        ClearingOutcome::Cleared { round_id: 1, clearing_price: 90, total_volume: 15, total_surplus: 180 }
    );
    assert_eq!(a.get_round_state().round_state, RoundState::Completed);
    assert_eq!(a.get_price_history(), &vec![90]);

    let ab = a.get_demo_balance_of(&alice());
    assert_eq!(ab.btc_free, INITIAL_BTC_BALANCE + 10);
    assert_eq!(ab.usd_free, INITIAL_USD_BALANCE - 900);
    assert_eq!(ab.usd_locked, 0);
    let cb = a.get_demo_balance_of(&carol());
    assert_eq!(cb.btc_free, INITIAL_BTC_BALANCE + 5);
    assert_eq!(cb.usd_free, INITIAL_USD_BALANCE - 450);
    let bb = a.get_demo_balance_of(&bob());
    assert_eq!(bb.btc_locked, 0);
    assert_eq!(bb.btc_free, INITIAL_BTC_BALANCE - 15);
    assert_eq!(bb.usd_free, INITIAL_USD_BALANCE + 1350);

    // Money is neither created nor destroyed.
    let usd: u64 = [&ab, &cb, &bb].iter().map(|b| b.usd_free + b.usd_locked).sum();
    let btc: u64 = [&ab, &cb, &bb].iter().map(|b| b.btc_free + b.btc_locked).sum();
    assert_eq!(usd, 3 * INITIAL_USD_BALANCE);
    assert_eq!(btc, 3 * INITIAL_BTC_BALANCE);

    let res = a.get_round_result(1).unwrap();
    assert_eq!(res.clearing_price, 90);
    assert_eq!(res.timestamp, 1_000);
    assert_eq!(res.matches.len(), 4);
}

#[test]
fn second_clearing_is_a_no_op() {
    let mut a = started();
    submit(&mut a, alice(), OrderType::Buy, 10, 100, "a").unwrap();
    submit(&mut a, bob(), OrderType::Sell, 10, 100, "b").unwrap();
    assert!(matches!(a.admin_run_clearing(10), ClearingOutcome::Cleared { .. }));
    let ab = a.get_demo_balance_of(&alice());
    let bb = a.get_demo_balance_of(&bob());
    assert_eq!(
        a.admin_run_clearing(20),
        ClearingOutcome::NotActive { round_state: RoundState::Completed }
    );
    assert_eq!(a.get_demo_balance_of(&alice()), ab);
    assert_eq!(a.get_demo_balance_of(&bob()), bb);
    assert_eq!(a.results_ref().len(), 1);
    assert_eq!(a.get_price_history().len(), 1);
}

#[test]
fn empty_round_goes_back_to_pending() {
    let mut a = started();
    assert_eq!(a.admin_run_clearing(10), ClearingOutcome::NoOrders { round_id: 1 });
    assert_eq!(a.get_round_state().round_state, RoundState::Pending);
}

#[test]
fn tampered_payload_aborts_the_round() {
    let mut a = started();
    submit(&mut a, alice(), OrderType::Buy, 10, 100, "a").unwrap();
    let wrong = generate_commitment_hash("something else");
    a.submit_order(bob(), OrderType::Sell, Asset::BTC, 10, 100, b"b".to_vec(), wrong, 5)
        .unwrap();
    let before = a.get_demo_balance_of(&alice());
    assert_eq!(
        a.admin_run_clearing(10),
        ClearingOutcome::RevealFailed {
            round_id: 1,
            reveal_error: CommitmentError::OrderMismatch { order_id: 1 }
        }
    );
    assert_eq!(a.get_round_state().round_state, RoundState::Pending);
    assert_eq!(a.get_demo_balance_of(&alice()), before);
    assert!(a.get_round_result(1).is_none());
}

#[test]
fn non_utf8_payload_aborts_the_round() {
    let mut a = started();
    a.submit_order(alice(), OrderType::Buy, Asset::BTC, 1, 1, vec![0xff, 0xfe], String::new(), 5)
        .unwrap();
    assert_eq!(
        a.admin_run_clearing(10),
        ClearingOutcome::RevealFailed {
            round_id: 1,
            reveal_error: CommitmentError::InvalidUtf8 { order_id: 0 }
        }
    );
}

#[test]
fn uncrossed_round_goes_back_to_pending() {
    let mut a = started();
    submit(&mut a, alice(), OrderType::Buy, 10, 50, "a").unwrap();
    submit(&mut a, bob(), OrderType::Sell, 10, 60, "b").unwrap();
    assert_eq!(
        a.admin_run_clearing(10),
        ClearingOutcome::ClearingFailed { round_id: 1, clearing_error: ClearingError::NoClearingPrice }
    );
    assert_eq!(a.get_round_state().round_state, RoundState::Pending);
}

#[test]
fn time_remaining_counts_down() {
    let mut a = started();
    assert_eq!(a.get_time_remaining(100), DEFAULT_ROUND_DURATION_NS);
    assert_eq!(a.get_time_remaining(1_100), DEFAULT_ROUND_DURATION_NS - 1_000);
    assert_eq!(a.get_time_remaining(100 + DEFAULT_ROUND_DURATION_NS), 0);
    a.admin_reset_round();
    assert_eq!(a.get_time_remaining(1_100), 0);
}

#[test]
fn tick_clears_expired_round_then_restarts_after_cooldown() {
    let mut a = started();
    submit(&mut a, alice(), OrderType::Buy, 3, 100, "a").unwrap();
    submit(&mut a, bob(), OrderType::Sell, 3, 100, "b").unwrap();
    assert_eq!(a.check_and_progress_round(200), TickOutcome::Idle);
    let end = 100 + DEFAULT_ROUND_DURATION_NS;
    assert!(matches!(
        a.check_and_progress_round(end),
        TickOutcome::Cleared(ClearingOutcome::Cleared { round_id: 1, .. })
    ));
    assert_eq!(a.check_and_progress_round(end + 1), TickOutcome::Idle);
    assert_eq!(
        a.check_and_progress_round(end + COMPLETION_COOLDOWN_NS),
        TickOutcome::Started { round_id: 2 }
    );
    assert_eq!(a.get_round_state().round_state, RoundState::Active);
}

#[test]
fn round_duration_can_be_set() {
    let mut a = Auction::new();
    assert_eq!(a.set_round_duration(30), Some(30_000_000_000));
    assert_eq!(a.get_round_state().round_duration_ns, 30_000_000_000);
    assert_eq!(a.set_round_duration(u64::MAX), None);
    assert_eq!(a.get_round_state().round_duration_ns, 30_000_000_000);
}

fn plain_order(id: u64, owner: Vec<u8>, t: OrderType, amount: u64, price: u64) -> Order {
    Order {
        id,
        round_id: 1,
        owner,
        order_type: t,
        asset: Asset::BTC,
        amount,
        price_limit: price,
        created_at: 0,
        encrypted_payload: vec![1],
        commitment_hash: String::new(),
    }
}

#[test]
fn settlement_failure_leaves_ledger_untouched() {
    let mut ledger = Ledger::new();
    ledger.lock_demo_funds(&alice(), OrderType::Buy, 10, 100).unwrap();
    let before = ledger.balance_of(&alice());
    let orders = vec![
        plain_order(0, alice(), OrderType::Buy, 10, 100),
        plain_order(1, bob(), OrderType::Sell, 10, 100),
    ];
    // Bob never locked his base asset.
    let res = ClearingResult {
        round_id: 1,
        clearing_price: 100,
        total_volume: 10,
        total_surplus: 0,
        matches: vec![
            OrderMatch { order_id: 0, filled: true, fill_amount: 10, fill_price: 100, surplus: 0 },
            OrderMatch { order_id: 1, filled: true, fill_amount: 10, fill_price: 100, surplus: 0 },
        ],
        timestamp: 0,
    };
    assert_eq!(
        ledger.apply_settlement_for_round(&orders, &res),
        Err(SettlementError::LockedShortfall { order_id: 1 })
    );
    assert_eq!(ledger.balance_of(&alice()), before);
    assert_eq!(ledger.balance_of(&bob()), DemoUserBalance::new_account());
}

#[test]
fn buyer_cost_above_reserve_is_refused() {
    let mut ledger = Ledger::new();
    ledger.lock_demo_funds(&alice(), OrderType::Buy, 10, 100).unwrap();
    let orders = vec![plain_order(0, alice(), OrderType::Buy, 10, 100)];
    let res = ClearingResult {
        round_id: 1,
        clearing_price: 200,
        total_volume: 10,
        total_surplus: 0,
        matches: vec![OrderMatch { order_id: 0, filled: true, fill_amount: 10, fill_price: 200, surplus: 0 }],
        timestamp: 0,
    };
    assert_eq!(
        ledger.apply_settlement_for_round(&orders, &res),
        Err(SettlementError::CostExceedsReserve { order_id: 0 })
    );
}

#[test]
fn unfilled_buy_is_refunded() {
    let mut ledger = Ledger::new();
    ledger.lock_demo_funds(&alice(), OrderType::Buy, 10, 100).unwrap();
    let orders = vec![plain_order(0, alice(), OrderType::Buy, 10, 100)];
    let res = ClearingResult {
        round_id: 1,
        clearing_price: 100,
        total_volume: 0,
        total_surplus: 0,
        matches: vec![OrderMatch { order_id: 0, filled: false, fill_amount: 0, fill_price: 0, surplus: 0 }],
        timestamp: 0,
    };
    ledger.apply_settlement_for_round(&orders, &res).unwrap();
    assert_eq!(ledger.balance_of(&alice()), DemoUserBalance::new_account());
}

#[test]
fn oversold_fill_is_refused() {
    let mut ledger = Ledger::new();
    ledger.lock_demo_funds(&bob(), OrderType::Sell, 5, 100).unwrap();
    let orders = vec![plain_order(0, bob(), OrderType::Sell, 5, 100)];
    let res = ClearingResult {
        round_id: 1,
        clearing_price: 100,
        total_volume: 6,
        total_surplus: 0,
        matches: vec![OrderMatch { order_id: 0, filled: true, fill_amount: 6, fill_price: 100, surplus: 0 }],
        timestamp: 0,
    };
    assert_eq!(
        ledger.apply_settlement_for_round(&orders, &res),
        Err(SettlementError::FillExceedsOrder { order_id: 0 })
    );
}

#[test]
fn settlement_overflow_is_refused() {
    let mut ledger = Ledger::new();
    ledger.lock_demo_funds(&bob(), OrderType::Sell, 5, 1).unwrap();
    let orders = vec![plain_order(0, bob(), OrderType::Sell, 5, 1)];
    let res = ClearingResult {
        round_id: 1,
        clearing_price: u64::MAX,
        total_volume: 5,
        total_surplus: 0,
        matches: vec![OrderMatch { order_id: 0, filled: true, fill_amount: 5, fill_price: u64::MAX, surplus: 0 }],
        timestamp: 0,
    };
    assert_eq!(
        ledger.apply_settlement_for_round(&orders, &res),
        Err(SettlementError::Overflow { order_id: 0 })
    );
}

#[test]
fn set_and_create_balances() {
    let mut ledger = Ledger::new();
    let b = ledger.get_or_create_demo_balance(&carol());
    assert_eq!(b, DemoUserBalance::new_account());
    let nb = DemoUserBalance { btc_free: 1, btc_locked: 2, usd_free: 3, usd_locked: 4 };
    ledger.set_demo_balance(&carol(), nb);
    assert_eq!(ledger.balance_of(&carol()), nb);
    let copy = ledger.duplicate();
    assert_eq!(copy.balance_of(&carol()), nb);
}

#[test]
fn tick_is_idle_outside_expiry_and_cooldown() {
    let mut a = Auction::new();
    assert_eq!(a.check_and_progress_round(u64::MAX), TickOutcome::Idle);
    assert_eq!(a.get_round_state().round_state, RoundState::Pending);
    let mut b = started();
    assert_eq!(b.check_and_progress_round(100 + DEFAULT_ROUND_DURATION_NS - 1), TickOutcome::Idle);
    assert_eq!(b.get_round_state().round_state, RoundState::Active);
}

#[test]
fn auction_is_rebuilt_from_its_parts() {
    let mut a = started();
    submit(&mut a, alice(), OrderType::Buy, 10, 100, "a").unwrap();
    submit(&mut a, bob(), OrderType::Sell, 10, 100, "b").unwrap();
    a.admin_run_clearing(10);
    let accounts: Vec<Account> = a
        .ledger_ref()
        .accounts()
        .iter()
        .map(|acc| Account { user: acc.user.clone(), balance: acc.balance })
        .collect();
    let ledger = Ledger::from_accounts(accounts).unwrap();
    assert!(ledger.has_account(&alice()));
    assert!(!ledger.has_account(&carol()));
    let orders: Vec<Order> = a.orders_ref().iter().map(|o| o.duplicate()).collect();
    let results: Vec<ClearingResult> = a.results_ref().clone();
    let b = Auction::from_parts(a.get_round_state().clone(), orders, results, ledger).unwrap();
    assert_eq!(b.get_order_count(), 2);
    assert_eq!(b.get_round_result(1).unwrap().clearing_price, 100);
    assert_eq!(b.get_demo_balance_of(&alice()), a.get_demo_balance_of(&alice()));
}

#[test]
fn inconsistent_parts_are_refused() {
    let a = started();
    let dup = vec![
        Account { user: alice(), balance: DemoUserBalance::new_account() },
        Account { user: alice(), balance: DemoUserBalance::new_account() },
    ];
    assert!(Ledger::from_accounts(dup).is_none());
    let orders = vec![plain_order(3, alice(), OrderType::Buy, 1, 1)];
    let mut state = a.get_round_state().clone();
    state.next_order_id = 1;
    assert!(Auction::from_parts(state, orders, Vec::new(), Ledger::new()).is_none());
}
