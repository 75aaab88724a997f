use matching_engine::book::OrderBook;
use matching_engine::engine::MatchingEngine;
use matching_engine::risk::{RiskConfig, RiskEngine};
use matching_engine::types::{AccountId, Order, OrderId, OrderType, Price, Qty, Side, TimeInForce};

fn order(id: u64, side: Side, price: i64, qty: u64) -> Order {
    Order {
        id: OrderId(id),
        account: AccountId(id),
        side,
        order_type: OrderType::Limit,
        price: Price(price),
        qty: Qty(qty),
        remaining: Qty(qty),
        tif: TimeInForce::GTC,
        timestamp: id,
    }
}

fn resting_qty(book: &OrderBook) -> u64 {
    book.bids.iter().chain(book.asks.iter()).flat_map(|l| l.orders.iter()).map(|o| o.remaining.0).sum()
}

fn asks_book() -> OrderBook {
    let mut book = OrderBook::new();
    book.insert_order(order(1, Side::Ask, 100, 5));
    book.insert_order(order(2, Side::Ask, 102, 5));
    book.insert_order(order(3, Side::Ask, 101, 5));
    book.insert_order(order(4, Side::Ask, 100, 5));
    book
}

#[test]
fn trades_never_pass_the_limit() {
    let mut book = asks_book();
    let mut taker = order(10, Side::Bid, 101, 100);
    let trades = book.match_order(&mut taker, None);
    assert_eq!(trades.len(), 3);
    assert!(trades.iter().all(|t| t.price.0 <= 101));
    assert_eq!(book.best_ask(), Some(Price(102)));

    let mut bids = OrderBook::new();
    bids.insert_order(order(1, Side::Bid, 99, 5));
    let mut seller = order(11, Side::Ask, 100, 5);
    assert!(bids.match_order(&mut seller, None).is_empty());
}

#[test]
fn matching_conserves_quantity() {
    let mut book = asks_book();
    let before = resting_qty(&book);
    let mut taker = order(10, Side::Bid, 101, 12);
    let trades = book.match_order(&mut taker, None);
    let traded: u64 = trades.iter().map(|t| t.qty.0).sum();
    assert_eq!(traded + taker.remaining.0, 12);
    assert_eq!(resting_qty(&book) + traded, before);
    assert_eq!(traded, 12);
}

#[test]
fn price_time_priority_across_levels() {
    let mut book = asks_book();
    let mut taker = order(10, Side::Bid, 102, 12);
    let trades = book.match_order(&mut taker, None);
    let makers: Vec<u64> = trades.iter().map(|t| t.maker_id.0).collect();
    // price 100 (orders 1 then 4), then price 101 (order 3)
    assert_eq!(makers, vec![1, 4, 3]);
    assert_eq!(trades[0].qty, Qty(5));
    assert_eq!(trades[1].qty, Qty(5));
    assert_eq!(trades[2].qty, Qty(2));
}

#[test]
fn cancel_undoes_insert() {
    let mut book = asks_book();
    let before = book.l2_snapshot(10);
    book.insert_order(order(20, Side::Ask, 101, 7));
    assert_ne!(book.l2_snapshot(10), before);
    let cancelled = book.cancel_order(OrderId(20)).unwrap();
    assert_eq!(cancelled, order(20, Side::Ask, 101, 7));
    assert_eq!(book.l2_snapshot(10), before);
    // a new level disappears again
    book.insert_order(order(21, Side::Bid, 50, 1));
    book.cancel_order(OrderId(21)).unwrap();
    assert_eq!(book.l2_snapshot(10), before);
    assert!(book.best_bid().is_none());
}

#[test]
fn expiry_keeps_exactly_live_orders() {
    let mut e = MatchingEngine::with_session(RiskEngine::new(RiskConfig::default()), 100);
    let mut day = order(1, Side::Bid, 99, 5);
    day.tif = TimeInForce::DAY;
    e.submit_order(day).unwrap();
    e.submit_order(order(2, Side::Bid, 99, 5)).unwrap();
    e.submit_order(order(3, Side::Ask, 101, 5)).unwrap();
    let mut day_ask = order(4, Side::Ask, 102, 5);
    day_ask.tif = TimeInForce::DAY;
    e.submit_order(day_ask).unwrap();
    assert_eq!(e.expire_day_orders(), 2);
    let bids: Vec<u64> = e.book.l3_orders_at(Price(99), Side::Bid).iter().map(|o| o.id.0).collect();
    assert_eq!(bids, vec![2]);
    assert_eq!(e.book.best_ask(), Some(Price(101)));
    assert!(e.book.l3_orders_at(Price(102), Side::Ask).is_empty());
    assert_eq!(e.expire_day_orders(), 0);
}

#[test]
fn cancel_with_account_reports_the_owner() {
    let mut book = asks_book();
    let (o, account) = book.cancel_order_with_account(OrderId(3)).unwrap();
    assert_eq!(o.id, OrderId(3));
    assert_eq!(account, AccountId(3));
    assert!(book.l3_orders_at(Price(101), Side::Ask).is_empty());
    assert!(book.cancel_order_with_account(OrderId(3)).is_none());
}

#[test]
fn accepted_fok_fills_in_full() {
    let mut e = MatchingEngine::new(RiskEngine::new(RiskConfig::default()));
    e.submit_order(order(1, Side::Ask, 100, 4)).unwrap();
    e.submit_order(order(2, Side::Ask, 100, 4)).unwrap();
    let mut fok = order(3, Side::Bid, 100, 6);
    fok.order_type = OrderType::FOK;
    let trades = e.submit_order(fok).unwrap();
    assert_eq!(trades.iter().map(|t| t.qty.0).sum::<u64>(), 6);
    assert!(e.book.l3_orders_at(Price(100), Side::Bid).is_empty());
}

#[test]
fn accepted_post_only_never_trades() {
    let mut e = MatchingEngine::new(RiskEngine::new(RiskConfig::default()));
    e.submit_order(order(1, Side::Ask, 101, 4)).unwrap();
    let mut post = order(2, Side::Bid, 100, 6);
    post.order_type = OrderType::PostOnly;
    let trades = e.submit_order(post).unwrap();
    assert!(trades.is_empty());
    assert_eq!(e.book.best_bid(), Some(Price(100)));
}

#[test]
fn decrement_and_cancel_keeps_level_depth_exact() {
    let mut book = OrderBook::new();
    let mut a = order(1, Side::Ask, 100, 10);
    a.account = AccountId(9);
    book.insert_order(a);
    book.insert_order(order(2, Side::Ask, 100, 5));
    let mut taker = order(3, Side::Bid, 100, 6);
    taker.account = AccountId(9);
    let trades = book.match_order(&mut taker, Some(matching_engine::types::StpPolicy::DecrementAndCancel));
    assert_eq!(trades.len(), 1);
    assert_eq!(trades[0].qty, Qty(3));
    // the self-matching maker leaves the level whole; only order 2 rests
    let (_, ask) = book.l1_bbo();
    assert_eq!(ask, Some((Price(100), Qty(5))));
    assert_eq!(resting_qty(&book), 5);
}
