use mempool_chess_backend::auction::Auction;
use mempool_chess_backend::commitment::{
    decrypt_order_batch, generate_commitment_hash, generate_timelock_identity, verify_commitment,
    CommitmentError,
};
use mempool_chess_backend::queries::{aggregate_round, leaderboard_for, OrderBookSummary};
use mempool_chess_backend::types::{Asset, Order, OrderMatch, OrderType};

#[test]
fn commitment_is_lowercase_hex_sha256() {
    assert_eq!(
        generate_commitment_hash("hello"),
        "2cf24dba5fb0a30e26e83b2ac5b9e29e1b161e5c1fa7425e73043362938b9824"
    );
    assert_eq!(
        generate_commitment_hash(""),
        "e3b0c44298fc1c149afbf4c8996fb92427ae41e4649b934ca495991b7852b855"
    );
    let h = generate_commitment_hash("any order text");
    assert_eq!(h.len(), 64);
    assert!(h.chars().all(|c| c.is_ascii_hexdigit() && !c.is_ascii_uppercase()));
}

#[test]
fn commitment_round_trip_verifies() {
    let text = "{\"order\":\"BUY\",\"amount\":10}";
    let c = generate_commitment_hash(text);
    assert_eq!(verify_commitment(text, &c), Ok(true));
}

#[test]
fn altered_plaintext_fails_verification() {
    let c = generate_commitment_hash("{\"order\":\"BUY\"}");
    assert_eq!(verify_commitment("{\"order\":\"SELL\"}", &c), Err(CommitmentError::Mismatch));
    assert_eq!(verify_commitment("{\"order\":\"BUY\"}", &c.to_uppercase()), Err(CommitmentError::Mismatch));
}

#[test]
fn timelock_identity_is_prefix_and_big_endian_round() {
    let mut expected = b"ROUND:".to_vec();
    expected.extend_from_slice(&[0, 0, 0, 0, 0, 0, 1, 2]);
    assert_eq!(generate_timelock_identity(0x0102), expected);
    assert_eq!(generate_timelock_identity(u64::MAX)[6..], [0xff; 8]);
}

fn order(id: u64, owner: Vec<u8>, t: OrderType, payload: &str, commitment: String) -> Order {
    Order {
        id,
        round_id: 1,
        owner,
        order_type: t,
        asset: Asset::ETH,
        amount: 1,
        price_limit: 1,
        created_at: 0,
        encrypted_payload: payload.as_bytes().to_vec(),
        commitment_hash: commitment,
    }
}

#[test]
fn batch_with_valid_commitments_is_returned_whole() {
    let orders = vec![
        order(0, vec![1], OrderType::Buy, "a", generate_commitment_hash("a")),
        order(1, vec![2], OrderType::Sell, "b", generate_commitment_hash("b")),
    ];
    let out = decrypt_order_batch(orders).unwrap();
    assert_eq!(out.len(), 2);
    assert_eq!(out[1].encrypted_payload, b"b".to_vec());
}

#[test]
fn one_bad_commitment_rejects_the_batch() {
    let orders = vec![
        order(0, vec![1], OrderType::Buy, "a", generate_commitment_hash("a")),
        order(1, vec![2], OrderType::Sell, "b", generate_commitment_hash("c")),
        order(2, vec![3], OrderType::Sell, "d", generate_commitment_hash("e")),
    ];
    assert_eq!(decrypt_order_batch(orders).unwrap_err(), CommitmentError::OrderMismatch { order_id: 1 });
}

fn submit(a: &mut Auction, who: Vec<u8>, t: OrderType, amount: u64, price: u64, text: &str) {
    let c = generate_commitment_hash(text);
    a.submit_order(who, t, Asset::BTC, amount, price, text.as_bytes().to_vec(), c, 0).unwrap();
}

fn cleared_auction() -> Auction {
    let mut a = Auction::new();
    a.admin_start_round(0).unwrap();
    submit(&mut a, vec![1], OrderType::Buy, 10, 100, "a1");
    submit(&mut a, vec![2], OrderType::Buy, 5, 90, "b1");
    submit(&mut a, vec![3], OrderType::Sell, 8, 80, "c1");
    submit(&mut a, vec![3], OrderType::Sell, 10, 90, "c2");
    a.admin_run_clearing(1);
    a
}

#[test]
fn order_book_summary_counts_current_round() {
    let mut a = Auction::new();
    a.admin_start_round(0).unwrap();
    submit(&mut a, vec![1], OrderType::Buy, 10, 100, "a1");
    submit(&mut a, vec![2], OrderType::Buy, 5, 90, "b1");
    submit(&mut a, vec![3], OrderType::Sell, 8, 80, "c1");
    assert_eq!(a.get_current_round_orders(), 3);
    assert_eq!(
        a.get_order_book_summary(),
        OrderBookSummary { round_id: 1, buy_orders: 2, sell_orders: 1, total_buy_volume: 15, total_sell_volume: 8 }
    );
}

#[test]
fn user_queries() {
    let a = cleared_auction();
    assert_eq!(a.get_user_orders(&vec![3]).len(), 2);
    assert_eq!(a.get_user_current_round_orders(&vec![1]).len(), 1);
    assert_eq!(a.get_round_orders(1).len(), 4);
    assert_eq!(a.get_user_round_surplus(&vec![1], 1), 100);
    assert_eq!(a.get_user_round_surplus(&vec![3], 1), 80);
    assert_eq!(a.get_user_round_surplus(&vec![3], 2), 0);
    let st = a.get_user_stats(&vec![3]).unwrap();
    assert_eq!((st.total_orders, st.filled_orders, st.total_surplus, st.rounds_participated), (2, 2, 80, 1));
    assert!(a.get_user_stats(&vec![9]).is_none());
}

#[test]
fn round_leaderboard_ranks_by_surplus() {
    let a = cleared_auction();
    let board = a.get_round_leaderboard(1);
    let users: Vec<Vec<u8>> = board.iter().map(|e| e.user.clone()).collect();
    assert_eq!(users, vec![vec![1], vec![3], vec![2]]);
    let surplus: Vec<u64> = board.iter().map(|e| e.surplus).collect();
    assert_eq!(surplus, vec![100, 80, 0]);
    let ranks: Vec<u64> = board.iter().map(|e| e.rank).collect();
    assert_eq!(ranks, vec![1, 2, 3]);
    assert!(board.iter().all(|e| e.fill_rate == 100));
    assert!(a.get_round_leaderboard(5).is_empty());
}

#[test]
fn global_leaderboard_and_top_players() {
    let a = cleared_auction();
    let board = a.get_global_leaderboard();
    assert_eq!(board.len(), 3);
    assert_eq!(board[0].user, vec![1]);
    assert_eq!(board[0].rank, 1);
    let top = a.get_top_players(2);
    assert_eq!(top.len(), 2);
    assert_eq!(top[1].user, vec![3]);
}

#[test]
fn fill_rate_counts_unfilled_orders() {
    let orders = vec![
        order(0, vec![7], OrderType::Buy, "x", String::new()),
        order(1, vec![7], OrderType::Buy, "y", String::new()),
        order(2, vec![8], OrderType::Sell, "z", String::new()),
    ];
    let ms = vec![
        OrderMatch { order_id: 0, filled: true, fill_amount: 1, fill_price: 1, surplus: 3 },
        OrderMatch { order_id: 1, filled: false, fill_amount: 0, fill_price: 0, surplus: 0 },
        OrderMatch { order_id: 2, filled: true, fill_amount: 1, fill_price: 1, surplus: 5 },
    ];
    let tallies = aggregate_round(&orders, &ms, 1);
    assert_eq!(tallies.len(), 2);
    assert_eq!((tallies[0].orders, tallies[0].filled, tallies[0].surplus), (2, 1, 3));
    let board = leaderboard_for(&orders, &ms, 1);
    assert_eq!(board[0].user, vec![8]);
    assert_eq!(board[1].fill_rate, 50);
}

#[test]
fn platform_stats_and_prices() {
    let a = cleared_auction();
    let p = a.get_platform_stats();
    assert_eq!(p.total_orders, 4);
    assert_eq!(p.total_rounds, 1);
    assert_eq!(p.total_users, 3);
    assert_eq!(p.total_volume, 15);
    assert_eq!(p.total_surplus, 180);
    assert_eq!(a.get_recent_prices(5), vec![90]);
    assert_eq!(a.get_recent_prices(0), Vec::<u64>::new());
    assert!(a.get_current_round_result().is_some());
}
