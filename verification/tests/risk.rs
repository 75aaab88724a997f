use matching_engine::risk::{RiskConfig, RiskEngine};
use matching_engine::types::{AccountId, Order, OrderId, OrderType, Price, Qty, RejectReason, RiskResult, Side, TimeInForce};

fn order(side: Side, order_type: OrderType, price: i64, qty: u64) -> Order {
    Order {
        id: OrderId(1),
        account: AccountId(7),
        side,
        order_type,
        price: Price(price),
        qty: Qty(qty),
        remaining: Qty(qty),
        tif: TimeInForce::GTC,
        timestamp: 0,
    }
}

fn rejected(r: RiskResult) -> Option<RejectReason> {
    match r {
        RiskResult::Approved => None,
        RiskResult::Rejected(reason) => Some(reason),
    }
}

#[test]
fn risk_notional_limit() {
    let config = RiskConfig { max_notional: 1000, ..Default::default() };
    let mut risk = RiskEngine::new(config);
    assert_eq!(rejected(risk.check_order(&order(Side::Bid, OrderType::Limit, 100, 10), None, None)), None);
    assert_eq!(
        rejected(risk.check_order(&order(Side::Bid, OrderType::Limit, 101, 10), None, None)),
        Some(RejectReason::MaxNotionalExceeded)
    );
}

#[test]
fn risk_position_limit() {
    let mut risk = RiskEngine::new(RiskConfig::default());
    assert_eq!(rejected(risk.check_order(&order(Side::Bid, OrderType::Limit, 1, 10_000), None, None)), None);
    assert_eq!(
        rejected(risk.check_order(&order(Side::Bid, OrderType::Limit, 1, 10_001), None, None)),
        Some(RejectReason::MaxPositionExceeded)
    );
    // A fill moves the position, and the limit applies to where it would go.
    risk.apply_fill(AccountId(7), Side::Bid, Qty(9_000));
    assert_eq!(risk.accounts.get(&7).unwrap().position, 9_000);
    assert_eq!(
        rejected(risk.check_order(&order(Side::Bid, OrderType::Limit, 1, 1_001), None, None)),
        Some(RejectReason::MaxPositionExceeded)
    );
    assert_eq!(rejected(risk.check_order(&order(Side::Ask, OrderType::Limit, 1, 19_000), None, None)), None);
}

#[test]
fn risk_fat_finger_around_mid() {
    let mut risk = RiskEngine::new(RiskConfig::default());
    let bid = Some(Price(9_900));
    let ask = Some(Price(10_100));
    // mid is 10_000; 5% either way is accepted
    assert_eq!(rejected(risk.check_order(&order(Side::Bid, OrderType::Limit, 10_500, 1), bid, ask)), None);
    assert_eq!(rejected(risk.check_order(&order(Side::Bid, OrderType::Limit, 9_500, 1), bid, ask)), None);
    assert_eq!(
        rejected(risk.check_order(&order(Side::Bid, OrderType::Limit, 10_501, 1), bid, ask)),
        Some(RejectReason::FatFingerPrice)
    );
    // market and IOC orders and one-sided books are not checked
    assert_eq!(rejected(risk.check_order(&order(Side::Bid, OrderType::Market, 20_000, 1), bid, ask)), None);
    assert_eq!(rejected(risk.check_order(&order(Side::Bid, OrderType::IOC, 20_000, 1), bid, ask)), None);
    assert_eq!(rejected(risk.check_order(&order(Side::Bid, OrderType::Limit, 20_000, 1), bid, None)), None);
}

#[test]
fn risk_margin_limit() {
    let config = RiskConfig { max_notional: 1000, margin_limit_bps: 0, ..Default::default() };
    let mut risk = RiskEngine::new(config);
    assert_eq!(
        rejected(risk.check_order(&order(Side::Bid, OrderType::Limit, 1, 1), None, None)),
        Some(RejectReason::MarginExceeded)
    );
}

#[test]
fn risk_short_selling() {
    let config = RiskConfig { allow_short: false, ..Default::default() };
    let mut risk = RiskEngine::new(config);
    assert_eq!(
        rejected(risk.check_order(&order(Side::Ask, OrderType::Limit, 1, 1), None, None)),
        Some(RejectReason::ShortNotAllowed)
    );
    risk.apply_fill(AccountId(7), Side::Bid, Qty(5));
    assert_eq!(rejected(risk.check_order(&order(Side::Ask, OrderType::Limit, 1, 1), None, None)), None);
}

#[test]
fn risk_check_leaves_state_unchanged() {
    let mut risk = RiskEngine::new(RiskConfig::default());
    risk.apply_fill(AccountId(7), Side::Ask, Qty(3));
    let before = risk.accounts.clone();
    let _ = risk.check_order(&order(Side::Bid, OrderType::Limit, 1, 1), None, None);
    let _ = risk.check_order(&order(Side::Bid, OrderType::Limit, 1, 1_000_000), None, None);
    assert_eq!(risk.accounts, before);
}
