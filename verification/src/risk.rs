//! Pre-trade risk checks: notional, position, fat-finger price, margin and
//! short-selling limits, plus per-account position tracking.
//!
//! Ratios (the fat-finger tolerance and the margin limit) are fixed-point
//! basis points: 10_000 stands for 1.0.
use vstd::prelude::*;
use std::collections::HashMap;
use crate::types::{Order, Price, Side, OrderType, RiskResult, RejectReason, AccountId, Qty, PRICE_SCALE, div2_toward_zero};

verus! {

broadcast use vstd::std_specs::hash::group_hash_axioms;

/// Basis points per unit ratio.
pub const BPS_SCALE: u64 = 10_000;

#[derive(Debug, Clone)]
pub struct RiskConfig {
    pub max_notional: i64,
    pub max_position: i64,
    /// Largest accepted distance from the mid price, relative to the mid,
    /// in basis points.
    pub fat_finger_bps: u64,
    /// Largest accepted margin use, relative to `max_notional`, in basis points.
    pub margin_limit_bps: u64,
    pub allow_short: bool,
}

impl Default for RiskConfig {
    fn default() -> (r: Self)
        ensures
            r.max_notional == 1_000_000 * PRICE_SCALE,
            r.max_position == 10_000,
            r.fat_finger_bps == 500,
            r.margin_limit_bps == 8_000,
            r.allow_short,
    {
        Self {
            max_notional: 1_000_000 * PRICE_SCALE,
            max_position: 10_000,
            fat_finger_bps: 500,
            margin_limit_bps: 8_000,
            allow_short: true,
        }
    }
}

#[derive(Debug, Clone, Copy, PartialEq, Eq, Structural)]
pub struct AccountRisk {
    pub position: i64,
    /// Margin already in use, in notional units.
    pub margin_used: i64,
}

impl Default for AccountRisk {
    fn default() -> (r: Self)
        ensures
            r.position == 0,
            r.margin_used == 0,
    {
        AccountRisk { position: 0, margin_used: 0 }
    }
}

/// Notional value of an order: price times quantity.
pub open spec fn notional(order: Order) -> int {
    order.price.0 * order.qty.0
}

/// Signed position change the order would cause if fully filled.
pub open spec fn position_delta(order: Order) -> int {
    match order.side {
        Side::Bid => order.qty.0 as int,
        Side::Ask => -(order.qty.0 as int),
    }
}

pub open spec fn abs_int(x: int) -> int {
    if x < 0 {
        -x
    } else {
        x
    }
}

pub open spec fn is_i64(x: int) -> bool {
    i64::MIN <= x <= i64::MAX
}

/// The mid price when both sides are quoted.
pub open spec fn spec_mid(best_bid: Option<Price>, best_ask: Option<Price>) -> Option<int> {
    match (best_bid, best_ask) {
        (Some(b), Some(a)) => Some(div2_toward_zero(b.0 + a.0)),
        _ => None,
    }
}

impl RiskConfig {
    pub open spec fn notional_ok(self, order: Order) -> bool {
        notional(order) <= self.max_notional
    }

    pub open spec fn position_ok(self, pos: int, order: Order) -> bool {
        abs_int(pos + position_delta(order)) <= self.max_position
    }

    /// Priced orders may not stray from the mid price by more than the
    /// tolerance; market and IOC orders, a one-sided book and a zero mid
    /// always pass, and so does a negative mid.
    pub open spec fn fat_finger_ok(self, order: Order, best_bid: Option<Price>, best_ask: Option<Price>) -> bool {
        if order.order_type == OrderType::Market || order.order_type == OrderType::IOC {
            true
        } else {
            match spec_mid(best_bid, best_ask) {
                None => true,
                Some(mid) => mid <= 0 || abs_int(order.price.0 - mid) * BPS_SCALE
                    <= self.fat_finger_bps * mid,
            }
        }
    }

    /// `(margin_used + notional / 10) / max_notional` must not exceed the
    /// margin limit; a zero `max_notional` admits only a negative numerator.
    pub open spec fn margin_ok(self, used: int, order: Order) -> bool {
        let t10 = 10 * used + notional(order);
        if self.max_notional > 0 {
            t10 * 1000 <= self.margin_limit_bps * self.max_notional
        } else if self.max_notional < 0 {
            t10 * 1000 >= self.margin_limit_bps * self.max_notional
        } else {
            t10 < 0
        }
    }

    pub open spec fn short_ok(self, pos: int, order: Order) -> bool {
        !(order.side == Side::Ask && pos <= 0 && !self.allow_short)
    }

    /// The verdict of the checks, applied in order, first failure wins.
    pub open spec fn check(self, pos: int, used: int, order: Order, best_bid: Option<Price>, best_ask: Option<Price>) -> RiskResult {
        if !self.notional_ok(order) {
            RiskResult::Rejected(RejectReason::MaxNotionalExceeded)
        } else if !self.position_ok(pos, order) {
            RiskResult::Rejected(RejectReason::MaxPositionExceeded)
        } else if !self.fat_finger_ok(order, best_bid, best_ask) {
            RiskResult::Rejected(RejectReason::FatFingerPrice)
        } else if !self.margin_ok(used, order) {
            RiskResult::Rejected(RejectReason::MarginExceeded)
        } else if !self.short_ok(pos, order) {
            RiskResult::Rejected(RejectReason::ShortNotAllowed)
        } else {
            RiskResult::Approved
        }
    }

    /// The checks stay within 64-bit arithmetic on the path they take.
    pub open spec fn check_defined(self, pos: int, order: Order, best_bid: Option<Price>, best_ask: Option<Price>) -> bool {
        &&& order.qty.0 <= i64::MAX
        &&& is_i64(notional(order))
        &&& self.notional_ok(order) ==> {
            &&& is_i64(pos + position_delta(order))
            &&& pos + position_delta(order) != i64::MIN
            &&& self.position_ok(pos, order) ==> {
                order.order_type != OrderType::Market && order.order_type != OrderType::IOC ==> match (best_bid, best_ask) {
                    (Some(b), Some(a)) => is_i64(b.0 + a.0) && {
                        let mid = div2_toward_zero(b.0 + a.0);
                        mid != 0 ==> is_i64(order.price.0 - mid) && order.price.0 - mid != i64::MIN
                    },
                    _ => true,
                }
            }
        }
    }
}

proof fn lemma_u64_times_i64_fits_i128(a: int, b: int)
    requires
        0 <= a <= u64::MAX,
        i64::MIN <= b <= i64::MAX,
    ensures
        i128::MIN <= a * b <= i128::MAX,
{
    assert(0 <= a * b <= u64::MAX * i64::MAX || (b < 0 && u64::MAX * i64::MIN <= a * b <= 0)) by (nonlinear_arith)
        requires
            0 <= a <= u64::MAX,
            i64::MIN <= b <= i64::MAX,
    ;
}

#[derive(Debug)]
pub struct RiskEngine {
    pub config: RiskConfig,
    pub accounts: HashMap<u64, AccountRisk>,
}

impl RiskEngine {
    /// The position of an account; accounts never filled hold none.
    pub open spec fn position(self, account: AccountId) -> int {
        if self.accounts@.contains_key(account.0) {
            self.accounts@[account.0].position as int
        } else {
            0
        }
    }

    pub open spec fn margin_used(self, account: AccountId) -> int {
        if self.accounts@.contains_key(account.0) {
            self.accounts@[account.0].margin_used as int
        } else {
            0
        }
    }

    pub open spec fn spec_check(self, order: Order, best_bid: Option<Price>, best_ask: Option<Price>) -> RiskResult {
        self.config.check(self.position(order.account), self.margin_used(order.account), order, best_bid, best_ask)
    }

    pub open spec fn check_defined(self, order: Order, best_bid: Option<Price>, best_ask: Option<Price>) -> bool {
        self.config.check_defined(self.position(order.account), order, best_bid, best_ask)
    }

    /// The account table after a fill of `qty` on `side`.
    pub open spec fn fill_accounts(self, account: AccountId, side: Side, qty: Qty) -> Map<u64, AccountRisk> {
        let pos = self.position(account);
        let new_pos = match side {
            Side::Bid => pos + qty.0,
            Side::Ask => pos - qty.0,
        };
        self.accounts@.insert(
            account.0,
            AccountRisk { position: new_pos as i64, margin_used: self.margin_used(account) as i64 },
        )
    }

    pub open spec fn fill_defined(self, account: AccountId, side: Side, qty: Qty) -> bool {
        &&& qty.0 <= i64::MAX
        &&& is_i64(
            match side {
                Side::Bid => self.position(account) + qty.0,
                Side::Ask => self.position(account) - qty.0,
            },
        )
    }

    pub fn new(config: RiskConfig) -> (r: Self)
        ensures
            r.config == config,
            r.accounts@ == Map::<u64, AccountRisk>::empty(),
    {
        Self { config, accounts: HashMap::new() }
    }

    fn account_state(&self, account: AccountId) -> (r: (i64, i64))
        ensures
            r.0 == self.position(account),
            r.1 == self.margin_used(account),
    {
        match self.accounts.get(&account.0) {
            Some(a) => (a.position, a.margin_used),
            None => (0, 0),
        }
    }

    /// The position of `account` (zero for an account never filled).
    pub fn position_of(&self, account: AccountId) -> (r: i64)
        ensures
            r == self.position(account),
    {
        self.account_state(account).0
    }

    /// Runs the checks in order and reports the first that fails.
    pub fn check_order(&mut self, order: &Order, best_bid: Option<Price>, best_ask: Option<Price>) -> (r: RiskResult)
        requires
            old(self).check_defined(*order, best_bid, best_ask),
        ensures
            r == old(self).spec_check(*order, best_bid, best_ask),
            *final(self) == *old(self),
    {
        self.verdict(order, best_bid, best_ask)
    }

    /// Whether the checks of `order` stay within 64-bit arithmetic (see
    /// `check_defined`).
    pub fn check_is_defined(&self, order: &Order, best_bid: Option<Price>, best_ask: Option<Price>) -> (r: bool)
        ensures
            r == self.check_defined(*order, best_bid, best_ask),
    {
        if order.qty.0 > 0x7fff_ffff_ffff_ffffu64 {
            return false;
        }
        let q: i128 = order.qty.0 as i128;
        let p: i128 = order.price.0 as i128;
        proof {
            lemma_u64_times_i64_fits_i128(q as int, p as int);
            assert(p * q == q * p) by (nonlinear_arith);
        }
        let n: i128 = p * q;
        if n < -0x8000_0000_0000_0000i128 || n > 0x7fff_ffff_ffff_ffffi128 {
            return false;
        }
        if n > self.config.max_notional as i128 {
            return true;
        }
        let (pos, _) = self.account_state(order.account);
        let np: i128 = match order.side {
            Side::Bid => pos as i128 + q,
            Side::Ask => pos as i128 - q,
        };
        if np <= -0x8000_0000_0000_0000i128 || np > 0x7fff_ffff_ffff_ffffi128 {
            return false;
        }
        let ap: i128 = if np < 0 { -np } else { np };
        if ap > self.config.max_position as i128 {
            return true;
        }
        match order.order_type {
            OrderType::Market | OrderType::IOC => {
                return true;
            },
            _ => {},
        }
        match (best_bid, best_ask) {
            (Some(b), Some(a)) => {
                let sum: i128 = b.0 as i128 + a.0 as i128;
                if sum < -0x8000_0000_0000_0000i128 || sum > 0x7fff_ffff_ffff_ffffi128 {
                    return false;
                }
                let mid: i128 = if sum >= 0 { sum / 2 } else { -((-sum) / 2) };
                if mid == 0 {
                    return true;
                }
                let d: i128 = p - mid;
                -0x8000_0000_0000_0000i128 < d && d <= 0x7fff_ffff_ffff_ffffi128
            },
            _ => true,
        }
    }

    /// The verdict of the checks on `order`, first failure wins.
    pub fn verdict(&self, order: &Order, best_bid: Option<Price>, best_ask: Option<Price>) -> (r: RiskResult)
        requires
            self.check_defined(*order, best_bid, best_ask),
        ensures
            r == self.spec_check(*order, best_bid, best_ask),
    {
        if !self.check_notional(order) {
            return self.rejected(RejectReason::MaxNotionalExceeded);
        }
        if !self.check_position(order) {
            return self.rejected(RejectReason::MaxPositionExceeded);
        }
        if !self.check_fat_finger(order, best_bid, best_ask) {
            return self.rejected(RejectReason::FatFingerPrice);
        }
        if !self.check_margin(order) {
            return self.rejected(RejectReason::MarginExceeded);
        }
        if !self.check_short(order) {
            return self.rejected(RejectReason::ShortNotAllowed);
        }
        RiskResult::Approved
    }

    fn rejected(&self, r: RejectReason) -> (res: RiskResult)
        ensures
            res == RiskResult::Rejected(r),
    {
        RiskResult::Rejected(r)
    }

    fn check_notional(&self, order: &Order) -> (r: bool)
        requires
            order.qty.0 <= i64::MAX,
            is_i64(notional(*order)),
        ensures
            r == self.config.notional_ok(*order),
    {
        let q: i64 = order.qty.0 as i64;
        let notional: i64 = order.price.0 * q;
        notional <= self.config.max_notional
    }

    fn check_position(&self, order: &Order) -> (r: bool)
        requires
            order.qty.0 <= i64::MAX,
            is_i64(self.position(order.account) + position_delta(*order)),
            self.position(order.account) + position_delta(*order) != i64::MIN,
        ensures
            r == self.config.position_ok(self.position(order.account), *order),
    {
        let (current_pos, _) = self.account_state(order.account);
        let q: i64 = order.qty.0 as i64;
        let delta: i64 = match order.side {
            Side::Bid => q,
            Side::Ask => -q,
        };
        let p: i64 = current_pos + delta;
        let a: i64 = if p < 0 { -p } else { p };
        a <= self.config.max_position
    }

    fn check_fat_finger(&self, order: &Order, best_bid: Option<Price>, best_ask: Option<Price>) -> (r: bool)
        requires
            order.order_type != OrderType::Market && order.order_type != OrderType::IOC ==> match (best_bid, best_ask) {
                (Some(b), Some(a)) => is_i64(b.0 + a.0) && {
                    let mid = div2_toward_zero(b.0 + a.0);
                    mid != 0 ==> is_i64(order.price.0 - mid) && order.price.0 - mid != i64::MIN
                },
                _ => true,
            },
        ensures
            r == self.config.fat_finger_ok(*order, best_bid, best_ask),
    {
        match order.order_type {
            OrderType::Market | OrderType::IOC => {
                return true;
            },
            _ => {},
        }
        let mid = match (best_bid, best_ask) {
            (Some(bid), Some(ask)) => Price::midpoint(bid, ask),
            _ => {
                return true;
            },
        };
        if mid.0 == 0 {
            return true;
        }
        if mid.0 < 0 {
            return true;
        }
        let d: i64 = order.price.0 - mid.0;
        let diff: i64 = if d < 0 { -d } else { d };
        proof {
            lemma_u64_times_i64_fits_i128(self.config.fat_finger_bps as int, mid.0 as int);
        }
        (diff as i128) * 10_000i128 <= (self.config.fat_finger_bps as i128) * (mid.0 as i128)
    }

    fn check_margin(&self, order: &Order) -> (r: bool)
        requires
            order.qty.0 <= i64::MAX,
            is_i64(notional(*order)),
        ensures
            r == self.config.margin_ok(self.margin_used(order.account), *order),
    {
        let (_, used) = self.account_state(order.account);
        let q: i64 = order.qty.0 as i64;
        let notional: i64 = order.price.0 * q;
        let t10: i128 = 10 * (used as i128) + (notional as i128);
        proof {
            lemma_u64_times_i64_fits_i128(self.config.margin_limit_bps as int, self.config.max_notional as int);
        }
        let lim: i128 = (self.config.margin_limit_bps as i128) * (self.config.max_notional as i128);
        if self.config.max_notional > 0 {
            t10 * 1000 <= lim
        } else if self.config.max_notional < 0 {
            t10 * 1000 >= lim
        } else {
            t10 < 0
        }
    }

    fn check_short(&self, order: &Order) -> (r: bool)
        ensures
            r == self.config.short_ok(self.position(order.account), *order),
    {
        match order.side {
            Side::Ask => {
                let (pos, _) = self.account_state(order.account);
                if pos <= 0 && !self.config.allow_short {
                    return false;
                }
            },
            Side::Bid => {},
        }
        true
    }

    /// Records a fill of `qty` for `account` on `side`.
    pub fn apply_fill(&mut self, account: AccountId, side: Side, qty: Qty)
        requires
            old(self).fill_defined(account, side, qty),
        ensures
            final(self).config == old(self).config,
            final(self).accounts@ == old(self).fill_accounts(account, side, qty),
    {
        let (pos, used) = self.account_state(account);
        let q: i64 = qty.0 as i64;
        let new_pos: i64 = match side {
            Side::Bid => pos + q,
            Side::Ask => pos - q,
        };
        self.accounts.insert(account.0, AccountRisk { position: new_pos, margin_used: used });
    }
}

} // verus!
