use matching_engine::types::{Price, Side};

#[test]
fn midpoint_rounds_toward_zero() {
    assert_eq!(Price::midpoint(Price(99), Price(101)), Price(100));
    assert_eq!(Price::midpoint(Price(100), Price(101)), Price(100));
    assert_eq!(Price::midpoint(Price(-3), Price(0)), Price(-1));
}

#[test]
fn opposite_sides() {
    assert_eq!(Side::Bid.opposite(), Side::Ask);
    assert_eq!(Side::Ask.opposite(), Side::Bid);
}

#[test]
fn prices_order_by_value() {
    assert!(Price(1) < Price(2));
    assert!(Price(-5) < Price(0));
}
