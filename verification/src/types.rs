//! Core value types of the matching engine: identifiers, fixed-point
//! prices, quantities, orders, trades and the risk verdicts.
use vstd::prelude::*;

verus! {

/// Prices are fixed-point integers with four decimal places.
pub const PRICE_SCALE: i64 = 10_000;

#[derive(Debug, Clone, Copy, PartialEq, Eq, Hash, Structural)]
pub struct Symbol(pub u32);

#[derive(Debug, Clone, Copy, PartialEq, Eq, Hash, Structural)]
pub struct OrderId(pub u64);

#[derive(Debug, Clone, Copy, PartialEq, Eq, Hash, Structural)]
pub struct AccountId(pub u64);

/// A fixed-point price (`PRICE_SCALE` units per whole currency unit),
/// ordered by its integer value.
#[derive(Debug, Clone, Copy, PartialEq, Eq, Hash, PartialOrd, Ord, Structural)]
pub struct Price(pub i64);

/// Integer division of `x` by two, rounding toward zero as Rust's `/` does.
pub open spec fn div2_toward_zero(x: int) -> int {
    if x >= 0 {
        x / 2
    } else {
        -((-x) / 2)
    }
}

impl Price {
    /// The midpoint of two prices, rounded toward zero.
    pub fn midpoint(a: Price, b: Price) -> (r: Price)
        requires
            i64::MIN <= a.0 + b.0 <= i64::MAX,
        ensures
            r.0 == div2_toward_zero(a.0 + b.0),
    {
        let s: i64 = a.0 + b.0;
        Price(s / 2)
    }
}

#[derive(Debug, Clone, Copy, PartialEq, Eq, Hash, Structural)]
pub struct Qty(pub u64);

#[derive(Debug, Clone, Copy, PartialEq, Eq, Hash, Structural)]
pub enum Side {
    Bid,
    Ask,
}

impl Side {
    pub fn opposite(self) -> (r: Side)
        ensures
            r == (if self == Side::Bid { Side::Ask } else { Side::Bid }),
    {
        match self {
            Side::Bid => Side::Ask,
            Side::Ask => Side::Bid,
        }
    }
}

#[derive(Debug, Clone, Copy, PartialEq, Eq, Hash, Structural)]
pub enum OrderType {
    Limit,
    Market,
    IOC,
    FOK,
    PostOnly,
}

#[derive(Debug, Clone, Copy, PartialEq, Eq, Hash, Structural)]
pub enum TimeInForce {
    GTC,
    DAY,
}

#[derive(Debug, Clone, Copy, PartialEq, Eq, Structural)]
pub struct Order {
    pub id: OrderId,
    pub account: AccountId,
    pub side: Side,
    pub order_type: OrderType,
    pub price: Price,
    pub qty: Qty,
    pub remaining: Qty,
    pub tif: TimeInForce,
    pub timestamp: u64,
}

#[derive(Debug, Clone, Copy, PartialEq, Eq, Structural)]
pub struct Trade {
    pub maker_id: OrderId,
    pub taker_id: OrderId,
    pub price: Price,
    pub qty: Qty,
    pub timestamp: u64,
}

#[derive(Debug, Clone, Copy, PartialEq, Eq, Structural)]
pub enum StpPolicy {
    CancelPassive,
    CancelAggressive,
    DecrementAndCancel,
}

#[derive(Debug, Clone, Copy, PartialEq, Eq, Structural)]
pub enum RiskResult {
    Approved,
    Rejected(RejectReason),
}

#[derive(Debug, Clone, Copy, PartialEq, Eq, Structural)]
pub enum RejectReason {
    MaxNotionalExceeded,
    MaxPositionExceeded,
    FatFingerPrice,
    MarginExceeded,
    ShortNotAllowed,
}

} // verus!
