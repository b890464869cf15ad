use mempool_chess_backend::clearing::{
    find_clearing_price, find_clearing_price_and_match, ClearingError, ClearingPrice,
};
use mempool_chess_backend::types::{Asset, Order, OrderType};

fn order(id: u64, order_type: OrderType, amount: u64, price_limit: u64) -> Order {
    Order {
        id,
        round_id: 1,
        owner: vec![1, 2, 3],
        order_type,
        asset: Asset::BTC,
        amount,
        price_limit,
        created_at: 0,
        encrypted_payload: vec![1],
        commitment_hash: String::new(),
    }
}

fn tie_break_book() -> Vec<Order> {
    vec![
        order(0, OrderType::Buy, 10, 100),
        order(1, OrderType::Buy, 5, 90),
        order(2, OrderType::Sell, 8, 80),
        order(3, OrderType::Sell, 10, 90),
    ]
}

#[test]
fn tie_break_picks_price_of_largest_volume() {
    let r = find_clearing_price(&tie_break_book()).unwrap();
    assert_eq!(r, ClearingPrice { clearing_price: 90, volume: 15 });
}

#[test]
fn equal_volumes_clear_at_the_lower_price() {
    // Volume 5 trades at every price from 50 to 60; the lowest one wins.
    let orders = vec![
        order(0, OrderType::Buy, 5, 60),
        order(1, OrderType::Sell, 5, 50),
    ];
    let r = find_clearing_price(&orders).unwrap();
    assert_eq!(r.clearing_price, 50);
    assert_eq!(r.volume, 5);
}

#[test]
fn full_clearing_of_tie_break_book() {
    let res = find_clearing_price_and_match(&tie_break_book(), 7, 1234).unwrap();
    assert_eq!(res.round_id, 7);
    assert_eq!(res.timestamp, 1234);
    assert_eq!(res.clearing_price, 90);
    assert_eq!(res.total_volume, 15);
    // Buyer at 100 saves 10 on 10 units; buyer at 90 saves nothing;
    // seller at 80 earns 10 more on 8 units; seller at 90 earns nothing.
    assert_eq!(res.total_surplus, 100 + 80);
    assert_eq!(res.matches.len(), 4);
    let ids: Vec<u64> = res.matches.iter().map(|m| m.order_id).collect();
    assert_eq!(ids, vec![0, 1, 2, 3]);
    let fills: Vec<u64> = res.matches.iter().map(|m| m.fill_amount).collect();
    assert_eq!(fills, vec![10, 5, 8, 7]);
    let surpluses: Vec<u64> = res.matches.iter().map(|m| m.surplus).collect();
    assert_eq!(surpluses, vec![100, 0, 80, 0]);
    assert!(res.matches.iter().all(|m| m.filled && m.fill_price == 90));
}

#[test]
fn buy_and_sell_fills_both_sum_to_volume() {
    let orders = vec![
        order(0, OrderType::Sell, 4, 95),
        order(1, OrderType::Buy, 7, 110),
        order(2, OrderType::Sell, 6, 100),
        order(3, OrderType::Buy, 3, 105),
        order(4, OrderType::Buy, 9, 90),
        order(5, OrderType::Sell, 5, 120),
    ];
    let res = find_clearing_price_and_match(&orders, 1, 0).unwrap();
    let buy_ids = [1u64, 3, 4];
    let buy_fill: u64 = res
        .matches
        .iter()
        .filter(|m| buy_ids.contains(&m.order_id))
        .map(|m| m.fill_amount)
        .sum();
    let sell_fill: u64 = res
        .matches
        .iter()
        .filter(|m| !buy_ids.contains(&m.order_id))
        .map(|m| m.fill_amount)
        .sum();
    assert_eq!(buy_fill, res.total_volume);
    assert_eq!(sell_fill, res.total_volume);
    assert_eq!(res.total_volume, 10);
    assert_eq!(res.clearing_price, 100);
    for m in &res.matches {
        let o = &orders[m.order_id as usize];
        assert!(m.fill_amount <= o.amount);
    }
}

#[test]
fn bids_are_filled_best_first_and_equal_prices_in_arrival_order() {
    let orders = vec![
        order(0, OrderType::Buy, 4, 100),
        order(1, OrderType::Buy, 4, 100),
        order(2, OrderType::Buy, 4, 120),
        order(3, OrderType::Sell, 10, 100),
    ];
    let res = find_clearing_price_and_match(&orders, 1, 0).unwrap();
    assert_eq!(res.clearing_price, 100);
    assert_eq!(res.total_volume, 10);
    let ids: Vec<u64> = res.matches.iter().map(|m| m.order_id).collect();
    assert_eq!(ids, vec![2, 0, 1, 3]);
    let fills: Vec<u64> = res.matches.iter().map(|m| m.fill_amount).collect();
    assert_eq!(fills, vec![4, 4, 2, 10]);
}

#[test]
fn unfilled_orders_get_an_empty_match() {
    let orders = vec![
        order(0, OrderType::Buy, 5, 100),
        order(1, OrderType::Buy, 5, 40),
        order(2, OrderType::Sell, 5, 90),
        order(3, OrderType::Sell, 5, 150),
    ];
    let res = find_clearing_price_and_match(&orders, 1, 0).unwrap();
    assert_eq!(res.clearing_price, 90);
    assert_eq!(res.total_volume, 5);
    let m1 = res.matches.iter().find(|m| m.order_id == 1).unwrap();
    assert!(!m1.filled);
    assert_eq!((m1.fill_amount, m1.fill_price, m1.surplus), (0, 0, 0));
    let m3 = res.matches.iter().find(|m| m.order_id == 3).unwrap();
    assert!(!m3.filled);
    assert_eq!(m3.fill_amount, 0);
}

#[test]
fn one_sided_book_is_refused() {
    let orders = vec![order(0, OrderType::Buy, 5, 100), order(1, OrderType::Buy, 5, 90)];
    assert_eq!(
        find_clearing_price_and_match(&orders, 1, 0).unwrap_err(),
        ClearingError::InsufficientOrders { buy_orders: 2, sell_orders: 0 }
    );
    assert_eq!(
        find_clearing_price(&Vec::new()).unwrap_err(),
        ClearingError::InsufficientOrders { buy_orders: 0, sell_orders: 0 }
    );
}

#[test]
fn books_that_do_not_cross_have_no_price() {
    let orders = vec![order(0, OrderType::Buy, 5, 80), order(1, OrderType::Sell, 5, 90)];
    assert_eq!(find_clearing_price(&orders).unwrap_err(), ClearingError::NoClearingPrice);
}

#[test]
fn volume_beyond_u64_is_an_overflow() {
    let orders = vec![
        order(0, OrderType::Buy, u64::MAX, 100),
        order(1, OrderType::Buy, u64::MAX, 100),
        order(2, OrderType::Sell, u64::MAX, 50),
        order(3, OrderType::Sell, u64::MAX, 50),
    ];
    assert_eq!(find_clearing_price(&orders).unwrap_err(), ClearingError::Overflow);
}

#[test]
fn surplus_beyond_u64_is_an_overflow() {
    let orders = vec![
        order(0, OrderType::Buy, u64::MAX / 2, u64::MAX),
        order(1, OrderType::Sell, u64::MAX / 2, 1),
    ];
    let price = find_clearing_price(&orders).unwrap();
    assert_eq!(price.clearing_price, 1);
    assert_eq!(
        find_clearing_price_and_match(&orders, 1, 0).unwrap_err(),
        ClearingError::Overflow
    );
}

#[test]
fn clearing_is_reproducible() {
    let a = find_clearing_price_and_match(&tie_break_book(), 3, 9).unwrap();
    let b = find_clearing_price_and_match(&tie_break_book(), 3, 9).unwrap();
    assert_eq!(a.clearing_price, b.clearing_price);
    assert_eq!(a.total_volume, b.total_volume);
    assert_eq!(a.total_surplus, b.total_surplus);
    assert_eq!(a.matches, b.matches);
}
