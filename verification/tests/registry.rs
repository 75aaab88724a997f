use matching_engine::engine::MatchingEngine;
use matching_engine::registry::MatchingRegistry;
use matching_engine::risk::{RiskConfig, RiskEngine};
use matching_engine::types::{AccountId, Order, OrderId, OrderType, Price, Qty, RejectReason, Side, Symbol, TimeInForce};

fn bid(id: u64) -> Order {
    Order {
        id: OrderId(id),
        account: AccountId(1),
        side: Side::Bid,
        order_type: OrderType::Limit,
        price: Price(100),
        qty: Qty(5),
        remaining: Qty(5),
        tif: TimeInForce::GTC,
        timestamp: 0,
    }
}

fn engine() -> MatchingEngine {
    MatchingEngine::new(RiskEngine::new(RiskConfig::default()))
}

#[test]
fn registry_get_mut_changes_in_place() {
    let mut reg = MatchingRegistry::new();
    reg.register(Symbol(1), engine());
    reg.get_mut(Symbol(1)).unwrap().submit_order(bid(1)).unwrap();
    assert_eq!(reg.get(Symbol(1)).unwrap().book.best_bid(), Some(Price(100)));
    assert!(reg.get_mut(Symbol(2)).is_none());
}

#[test]
fn registry_unknown_symbol_and_replacement() {
    let mut reg = MatchingRegistry::new();
    assert_eq!(reg.submit_order(Symbol(9), bid(1)).unwrap_err(), RejectReason::MaxNotionalExceeded);
    assert!(reg.cancel_order(Symbol(9), OrderId(1)).is_none());
    reg.register(Symbol(9), engine());
    reg.submit_order(Symbol(9), bid(1)).unwrap();
    assert_eq!(reg.cancel_order(Symbol(9), OrderId(1)).unwrap().id, OrderId(1));
    reg.submit_order(Symbol(9), bid(2)).unwrap();
    reg.register(Symbol(9), engine());
    assert!(reg.get(Symbol(9)).unwrap().book.best_bid().is_none());
    assert_eq!(reg.symbols(), vec![Symbol(9)]);
}
