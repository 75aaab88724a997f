use matching_engine::engine::MatchingEngine;
use matching_engine::registry::MatchingRegistry;
use matching_engine::risk::{RiskConfig, RiskEngine};
use matching_engine::types::{
    AccountId, Order, OrderId, OrderType, Price, Qty, Side, StpPolicy, Symbol, TimeInForce, PRICE_SCALE,
};

fn from_f64(p: f64) -> Price {
    Price((p * PRICE_SCALE as f64) as i64)
}

fn make_order(id: u64, side: Side, price: f64, qty: u64) -> Order {
    Order {
        id: OrderId(id),
        account: AccountId(1),
        side,
        order_type: OrderType::Limit,
        price: from_f64(price),
        qty: Qty(qty),
        remaining: Qty(qty),
        tif: TimeInForce::GTC,
        timestamp: 0,
    }
}

fn engine() -> MatchingEngine {
    MatchingEngine::new(RiskEngine::new(RiskConfig::default()))
}

#[test]
fn test_bid_ask_match() {
    let mut e = engine();
    e.submit_order(make_order(1, Side::Bid, 100.0, 10)).unwrap();
    let trades = e.submit_order(make_order(2, Side::Ask, 100.0, 5)).unwrap();
    assert_eq!(trades.len(), 1);
    assert_eq!(trades[0].qty, Qty(5));
}

#[test]
fn test_no_cross_no_fill() {
    let mut e = engine();
    e.submit_order(make_order(1, Side::Bid, 99.0, 10)).unwrap();
    let trades = e.submit_order(make_order(2, Side::Ask, 101.0, 10)).unwrap();
    assert!(trades.is_empty());
}

#[test]
fn test_partial_fill() {
    let mut e = engine();
    e.submit_order(make_order(1, Side::Bid, 100.0, 5)).unwrap();
    let trades = e.submit_order(make_order(2, Side::Ask, 100.0, 10)).unwrap();
    assert_eq!(trades.len(), 1);
    assert_eq!(trades[0].qty, Qty(5));
    assert_eq!(e.book.best_ask(), Some(from_f64(100.0)));
}

#[test]
fn test_price_time_priority() {
    let mut e = engine();
    e.submit_order(make_order(1, Side::Ask, 100.0, 5)).unwrap();
    e.submit_order(make_order(2, Side::Ask, 100.0, 5)).unwrap();
    let trades = e.submit_order(make_order(3, Side::Bid, 100.0, 8)).unwrap();
    assert_eq!(trades.len(), 2);
    assert_eq!(trades[0].maker_id, OrderId(1));
    assert_eq!(trades[1].maker_id, OrderId(2));
    assert_eq!(trades[0].qty, Qty(5));
    assert_eq!(trades[1].qty, Qty(3));
}

#[test]
fn test_cancel_order() {
    let mut e = engine();
    e.submit_order(make_order(1, Side::Bid, 100.0, 10)).unwrap();
    let cancelled = e.cancel_order(OrderId(1)).unwrap();
    assert_eq!(cancelled.id, OrderId(1));
    assert!(e.book.best_bid().is_none());
}

#[test]
fn test_l2_snapshot() {
    let mut e = engine();
    e.submit_order(make_order(1, Side::Bid, 99.0, 10)).unwrap();
    e.submit_order(make_order(2, Side::Bid, 100.0, 5)).unwrap();
    e.submit_order(make_order(3, Side::Ask, 101.0, 8)).unwrap();
    e.submit_order(make_order(4, Side::Ask, 102.0, 3)).unwrap();
    let snap = e.book.l2_snapshot(2);
    assert_eq!(snap.len(), 4);
}

#[test]
fn test_market_order_consumes_liquidity() {
    let mut e = engine();
    e.submit_order(make_order(1, Side::Ask, 100.0, 10)).unwrap();
    let order = Order {
        id: OrderId(2),
        account: AccountId(1),
        side: Side::Bid,
        order_type: OrderType::Market,
        price: from_f64(999.0),
        qty: Qty(5),
        remaining: Qty(5),
        tif: TimeInForce::GTC,
        timestamp: 0,
    };
    let trades = e.submit_order(order).unwrap();
    assert_eq!(trades.len(), 1);
    assert_eq!(trades[0].qty, Qty(5));
}

#[test]
fn test_risk_rejects_high_notional() {
    let config = RiskConfig {
        max_notional: 1000 * PRICE_SCALE,
        ..Default::default()
    };
    let mut e = MatchingEngine::new(RiskEngine::new(config));
    let order = Order {
        id: OrderId(1),
        account: AccountId(1),
        side: Side::Bid,
        order_type: OrderType::Limit,
        price: from_f64(100.0),
        qty: Qty(20),
        remaining: Qty(20),
        tif: TimeInForce::GTC,
        timestamp: 0,
    };
    assert!(e.submit_order(order).is_err());
}

#[test]
fn test_ioc_partial_fill_no_rest() {
    let mut e = engine();
    e.submit_order(make_order(1, Side::Ask, 100.0, 5)).unwrap();
    let order = Order {
        id: OrderId(2),
        account: AccountId(1),
        side: Side::Bid,
        order_type: OrderType::IOC,
        price: from_f64(100.0),
        qty: Qty(10),
        remaining: Qty(10),
        tif: TimeInForce::GTC,
        timestamp: 0,
    };
    let trades = e.submit_order(order).unwrap();
    assert_eq!(trades.len(), 1);
    assert_eq!(trades[0].qty, Qty(5));
    assert!(e.book.best_bid().is_none());
}

#[test]
fn test_fok_full_fill_or_reject() {
    let mut e = engine();
    e.submit_order(make_order(1, Side::Ask, 100.0, 5)).unwrap();
    let order = Order {
        id: OrderId(2),
        account: AccountId(1),
        side: Side::Bid,
        order_type: OrderType::FOK,
        price: from_f64(100.0),
        qty: Qty(10),
        remaining: Qty(10),
        tif: TimeInForce::GTC,
        timestamp: 0,
    };
    assert!(e.submit_order(order).is_err());
}

#[test]
fn test_post_only_rejects_cross() {
    let mut e = engine();
    e.submit_order(make_order(1, Side::Ask, 100.0, 5)).unwrap();
    let order = Order {
        id: OrderId(2),
        account: AccountId(1),
        side: Side::Bid,
        order_type: OrderType::PostOnly,
        price: from_f64(100.0),
        qty: Qty(10),
        remaining: Qty(10),
        tif: TimeInForce::GTC,
        timestamp: 0,
    };
    assert!(e.submit_order(order).is_err());
}

fn make_order_acct(id: u64, acct: u64, side: Side, price: f64, qty: u64) -> Order {
    Order {
        id: OrderId(id),
        account: AccountId(acct),
        side,
        order_type: OrderType::Limit,
        price: from_f64(price),
        qty: Qty(qty),
        remaining: Qty(qty),
        tif: TimeInForce::GTC,
        timestamp: 0,
    }
}

#[test]
fn test_stp_cancel_passive() {
    let mut e = MatchingEngine::with_stp(RiskEngine::new(RiskConfig::default()), StpPolicy::CancelPassive);
    e.submit_order(make_order_acct(1, 1, Side::Bid, 100.0, 10)).unwrap();
    let trades = e.submit_order(make_order_acct(2, 1, Side::Ask, 100.0, 5)).unwrap();
    assert!(trades.is_empty());
    assert!(e.book.best_bid().is_none());
}

#[test]
fn test_stp_cancel_aggressive() {
    let mut e = MatchingEngine::with_stp(RiskEngine::new(RiskConfig::default()), StpPolicy::CancelAggressive);
    e.submit_order(make_order_acct(1, 1, Side::Bid, 100.0, 10)).unwrap();
    let trades = e.submit_order(make_order_acct(2, 1, Side::Ask, 100.0, 5)).unwrap();
    assert!(trades.is_empty());
    assert!(e.book.best_bid().is_some());
}

#[test]
fn test_stp_decrement_and_cancel() {
    let mut e = MatchingEngine::with_stp(RiskEngine::new(RiskConfig::default()), StpPolicy::DecrementAndCancel);
    e.submit_order(make_order_acct(1, 1, Side::Bid, 100.0, 10)).unwrap();
    let trades = e.submit_order(make_order_acct(2, 1, Side::Ask, 100.0, 10)).unwrap();
    let total_filled: u64 = trades.iter().map(|t| t.qty.0).sum();
    assert!(total_filled > 0 && total_filled < 10);
}

#[test]
fn test_l1_bbo() {
    let mut e = engine();
    e.submit_order(make_order(1, Side::Bid, 99.0, 10)).unwrap();
    e.submit_order(make_order(2, Side::Ask, 101.0, 8)).unwrap();
    let (bid, ask) = e.book.l1_bbo();
    assert_eq!(bid, Some((from_f64(99.0), Qty(10))));
    assert_eq!(ask, Some((from_f64(101.0), Qty(8))));
}

#[test]
fn test_l2_depth() {
    let mut e = engine();
    e.submit_order(make_order(1, Side::Bid, 99.0, 10)).unwrap();
    e.submit_order(make_order(2, Side::Bid, 100.0, 5)).unwrap();
    e.submit_order(make_order(3, Side::Ask, 101.0, 8)).unwrap();
    let (bids, asks) = e.book.l2_depth(2);
    assert_eq!(bids.len(), 2);
    assert_eq!(asks.len(), 1);
}

#[test]
fn test_l3_orders_at_price() {
    let mut e = engine();
    e.submit_order(make_order(1, Side::Bid, 100.0, 5)).unwrap();
    e.submit_order(make_order(2, Side::Bid, 100.0, 3)).unwrap();
    let orders = e.book.l3_orders_at(from_f64(100.0), Side::Bid);
    assert_eq!(orders.len(), 2);
    assert_eq!(orders[0].id, OrderId(1));
    assert_eq!(orders[1].id, OrderId(2));
}

#[test]
fn test_multi_asset_registry() {
    let mut reg = MatchingRegistry::new();
    let sym_a = Symbol(1);
    let sym_b = Symbol(2);
    reg.register(sym_a, engine());
    reg.register(sym_b, engine());

    reg.submit_order(sym_a, make_order(1, Side::Bid, 100.0, 10)).unwrap();
    reg.submit_order(sym_b, make_order(2, Side::Ask, 200.0, 5)).unwrap();

    let ea = reg.get(sym_a).unwrap();
    assert_eq!(ea.book.best_bid(), Some(from_f64(100.0)));
    let eb = reg.get(sym_b).unwrap();
    assert_eq!(eb.book.best_ask(), Some(from_f64(200.0)));

    reg.cancel_order(sym_a, OrderId(1));
    assert!(reg.get(sym_a).unwrap().book.best_bid().is_none());
    assert!(reg.get(sym_b).unwrap().book.best_ask().is_some());
}

#[test]
fn test_day_tif_rejects_after_session() {
    let mut e = MatchingEngine::with_session(RiskEngine::new(RiskConfig::default()), 100);
    let order = Order {
        id: OrderId(1),
        account: AccountId(1),
        side: Side::Bid,
        order_type: OrderType::Limit,
        price: from_f64(100.0),
        qty: Qty(10),
        remaining: Qty(10),
        tif: TimeInForce::DAY,
        timestamp: 0,
    };
    e.submit_order(order).unwrap();
    e.sequence = 100;
    let order2 = Order {
        id: OrderId(2),
        account: AccountId(1),
        side: Side::Bid,
        order_type: OrderType::Limit,
        price: from_f64(100.0),
        qty: Qty(10),
        remaining: Qty(10),
        tif: TimeInForce::DAY,
        timestamp: 0,
    };
    assert!(e.submit_order(order2).is_err());
}

#[test]
fn test_day_tif_expire_day_orders() {
    let mut e = MatchingEngine::with_session(RiskEngine::new(RiskConfig::default()), 50);
    let mut o1 = make_order(1, Side::Bid, 100.0, 10);
    o1.tif = TimeInForce::DAY;
    e.submit_order(o1).unwrap();
    let mut o2 = make_order(2, Side::Bid, 99.0, 5);
    o2.tif = TimeInForce::GTC;
    e.submit_order(o2).unwrap();

    e.session_end = 30;
    let expired = e.expire_day_orders();
    assert_eq!(expired, 1);
    assert!(e.book.best_bid() == Some(from_f64(99.0)));
}

fn typed_order(id: u64, side: Side, order_type: OrderType, price: f64, qty: u64) -> Order {
    Order { order_type, ..make_order(id, side, price, qty) }
}

#[test]
fn ask_taker_meets_the_highest_bid_first() {
    let mut e = engine();
    e.submit_order(make_order(1, Side::Bid, 99.0, 5)).unwrap();
    e.submit_order(make_order(2, Side::Bid, 101.0, 5)).unwrap();
    let trades = e.submit_order(make_order(3, Side::Ask, 100.0, 5)).unwrap();
    assert_eq!(trades.len(), 1);
    assert_eq!(trades[0].maker_id, OrderId(2));
    assert_eq!(trades[0].price, from_f64(101.0));
    assert_eq!(e.book.best_bid(), Some(from_f64(99.0)));
    assert!(e.book.best_ask().is_none());
}

#[test]
fn ask_taker_sweeps_bids_from_the_top_down() {
    let mut e = engine();
    e.submit_order(make_order(1, Side::Bid, 98.0, 5)).unwrap();
    e.submit_order(make_order(2, Side::Bid, 100.0, 5)).unwrap();
    e.submit_order(make_order(3, Side::Bid, 99.0, 5)).unwrap();
    let trades = e.submit_order(make_order(4, Side::Ask, 99.0, 12)).unwrap();
    assert_eq!(trades.len(), 2);
    assert_eq!(trades[0].maker_id, OrderId(2));
    assert_eq!(trades[1].maker_id, OrderId(3));
    assert_eq!(e.book.best_bid(), Some(from_f64(98.0)));
    assert_eq!(e.book.best_ask(), Some(from_f64(99.0)));
}

#[test]
fn rejected_fok_leaves_no_trace() {
    let mut e = engine();
    e.submit_order(make_order(1, Side::Ask, 100.0, 5)).unwrap();
    let trades_before = e.trades.len();
    assert!(e.submit_order(typed_order(2, Side::Bid, OrderType::FOK, 100.0, 10)).is_err());
    assert_eq!(e.book.l1_bbo().1, Some((from_f64(100.0), Qty(5))));
    assert!(e.book.l1_bbo().0.is_none());
    assert_eq!(e.trades.len(), trades_before);
    // a fillable FOK still fills completely
    let trades = e.submit_order(typed_order(3, Side::Bid, OrderType::FOK, 100.0, 5)).unwrap();
    assert_eq!(trades.len(), 1);
    assert_eq!(trades[0].qty, Qty(5));
    assert!(e.book.best_ask().is_none());
}

#[test]
fn crossing_post_only_is_rejected_before_matching() {
    let mut e = engine();
    e.submit_order(make_order(1, Side::Ask, 100.0, 5)).unwrap();
    assert!(e.submit_order(typed_order(2, Side::Bid, OrderType::PostOnly, 100.0, 10)).is_err());
    assert_eq!(e.book.l1_bbo(), (None, Some((from_f64(100.0), Qty(5)))));
    assert!(e.trades.is_empty());
    // a post-only bid below the ask rests
    assert!(e.submit_order(typed_order(3, Side::Bid, OrderType::PostOnly, 99.0, 10)).unwrap().is_empty());
    assert_eq!(e.book.best_bid(), Some(from_f64(99.0)));
}

#[test]
fn checked_submit_refuses_overflowing_orders() {
    let mut e = engine();
    let mut huge = make_order(1, Side::Bid, 100.0, 10);
    huge.qty = Qty(u64::MAX);
    huge.remaining = Qty(u64::MAX);
    assert!(!e.submit_is_defined(&huge));
    assert!(e.submit_order_checked(huge).is_none());
    assert!(e.book.best_bid().is_none());
    assert_eq!(e.sequence, 0);
    let ok = make_order(2, Side::Bid, 100.0, 10);
    assert!(e.submit_is_defined(&ok));
    assert!(e.submit_order_checked(ok).unwrap().unwrap().is_empty());
    assert_eq!(e.book.best_bid(), Some(from_f64(100.0)));
    assert!(e.order_count_fits());
}
