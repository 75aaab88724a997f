//! The matching engine: risk checks, matching, order-type rules
//! (market, IOC, FOK, post-only), day orders and the trade log.
use vstd::prelude::*;
use std::collections::VecDeque;
use crate::book::{OrderBook, BookModel, LevelModel, SideOutcome, live_side, orders_live, lemma_match_live, lemma_insert_live, lemma_cancel_live, copy_side, match_opposite, side_wf, sum_remaining, lemma_sum_push, lemma_sum_nonneg, PriceLevel, side_view, all_at_price};
use crate::risk::{RiskEngine, AccountRisk, RiskConfig};
use crate::types::{Order, OrderId, OrderType, Price, Qty, RejectReason, RiskResult, Side, StpPolicy, TimeInForce, Trade, AccountId};

verus! {

broadcast use vstd::std_specs::hash::group_hash_axioms;

pub struct MatchingEngine {
    pub book: OrderBook,
    pub risk: RiskEngine,
    pub sequence: u64,
    pub trades: Vec<Trade>,
    pub stp_policy: Option<StpPolicy>,
    pub session_end: u64,
}

/// The part of an engine's state that orders change.
#[verifier::ext_equal]
pub struct EngineModel {
    pub book: BookModel,
    pub accounts: Map<u64, AccountRisk>,
    pub sequence: u64,
    pub trades: Seq<Trade>,
}

/// The fixed parameters of an engine.
pub struct EngineParams {
    pub config: RiskConfig,
    pub stp_policy: Option<StpPolicy>,
    pub session_end: u64,
}

pub open spec fn account_position(accounts: Map<u64, AccountRisk>, a: AccountId) -> int {
    if accounts.contains_key(a.0) { accounts[a.0].position as int } else { 0 }
}

pub open spec fn account_margin(accounts: Map<u64, AccountRisk>, a: AccountId) -> int {
    if accounts.contains_key(a.0) { accounts[a.0].margin_used as int } else { 0 }
}

pub open spec fn fill_position(pos: int, side: Side, q: u64) -> int {
    match side {
        Side::Bid => pos + q,
        Side::Ask => pos - q,
    }
}

/// The account table after applying every trade's quantity, in order, to
/// one account and side.
pub open spec fn apply_fills(accounts: Map<u64, AccountRisk>, a: AccountId, side: Side, trades: Seq<Trade>) -> Map<u64, AccountRisk>
    decreases trades.len(),
{
    if trades.len() == 0 {
        accounts
    } else {
        let m = apply_fills(accounts, a, side, trades.drop_last());
        m.insert(
            a.0,
            AccountRisk {
                position: fill_position(account_position(m, a), side, trades.last().qty.0) as i64,
                margin_used: account_margin(m, a) as i64,
            },
        )
    }
}

/// Every step of `apply_fills` stays within `i64`.
pub open spec fn fills_defined(accounts: Map<u64, AccountRisk>, a: AccountId, side: Side, trades: Seq<Trade>) -> bool
    decreases trades.len(),
{
    if trades.len() == 0 {
        true
    } else {
        let m = apply_fills(accounts, a, side, trades.drop_last());
        &&& fills_defined(accounts, a, side, trades.drop_last())
        &&& trades.last().qty.0 <= i64::MAX
        &&& i64::MIN <= fill_position(account_position(m, a), side, trades.last().qty.0) <= i64::MAX
    }
}

pub open spec fn rests(t: OrderType) -> bool {
    t != OrderType::Market && t != OrderType::IOC && t != OrderType::FOK
}

pub open spec fn is_day_rejected(m: EngineModel, p: EngineParams, order: Order) -> bool {
    order.tif == TimeInForce::DAY && m.sequence >= p.session_end
}

pub open spec fn risk_verdict(m: EngineModel, p: EngineParams, order: Order) -> RiskResult {
    p.config.check(
        account_position(m.accounts, order.account),
        account_margin(m.accounts, order.account),
        order,
        m.book.best_bid(),
        m.book.best_ask(),
    )
}

/// The taker as matching sees it: stamped with the next sequence number.
pub open spec fn stamped(m: EngineModel, order: Order) -> Order {
    Order { timestamp: (m.sequence + 1) as u64, ..order }
}

pub open spec fn match_outcome(m: EngineModel, p: EngineParams, order: Order) -> crate::book::SideOutcome {
    match_opposite(m.book.opposite_of(order.side), stamped(m, order), p.stp_policy)
}

/// Whether `order` would trade on arrival: the best opposite price crosses
/// its limit.
pub open spec fn crosses_on_arrival(b: BookModel, order: Order) -> bool {
    match order.side {
        Side::Bid => b.best_ask() matches Some(p) && order.price.0 >= p.0,
        Side::Ask => b.best_bid() matches Some(p) && order.price.0 <= p.0,
    }
}

/// A fill-or-kill order that matching left short of its quantity.
pub open spec fn fok_short(order: Order, out: SideOutcome) -> bool {
    order.order_type == OrderType::FOK && order.qty.0 - out.taker.remaining.0 < order.qty.0
}

/// What submitting `order` does: the new state and the result.
///
/// A DAY order after the session end and an order that fails a risk check
/// change nothing. Otherwise the sequence advances. A post-only order that
/// would cross on arrival is rejected before matching. The order is then
/// matched; a fill-or-kill order that does not fill completely is rejected
/// and the book stays as it was. Otherwise a limit or post-only remainder
/// rests in the book, the fills are applied to the account's position and
/// appended to the trade log.
pub open spec fn submit(m: EngineModel, p: EngineParams, order: Order) -> (EngineModel, Result<Seq<Trade>, RejectReason>) {
    if is_day_rejected(m, p, order) {
        (m, Err(RejectReason::MaxNotionalExceeded))
    } else if risk_verdict(m, p, order) != RiskResult::Approved {
        (m, Err(risk_verdict(m, p, order)->Rejected_0))
    } else {
        let m1 = EngineModel { sequence: (m.sequence + 1) as u64, ..m };
        if order.order_type == OrderType::PostOnly && crosses_on_arrival(m.book, order) {
            (m1, Err(RejectReason::FatFingerPrice))
        } else {
            let out = match_outcome(m, p, order);
            if fok_short(order, out) {
                (m1, Err(RejectReason::MaxNotionalExceeded))
            } else {
                let book1 = m.book.with_opposite(order.side, out.levels);
                let unfilled = out.taker;
                let book2 = if unfilled.remaining.0 > 0 && rests(order.order_type) {
                    book1.insert(unfilled)
                } else {
                    book1
                };
                (
                    EngineModel {
                        book: book2,
                        accounts: apply_fills(m.accounts, order.account, order.side, out.trades),
                        trades: m.trades + out.trades,
                        ..m1
                    },
                    Ok(out.trades),
                )
            }
        }
    }
}

/// Submitting `order` stays within machine arithmetic: the risk checks,
/// the sequence counter, the FOK fill computation, the resting level's
/// aggregate and the position updates.
pub open spec fn submit_defined(m: EngineModel, p: EngineParams, order: Order) -> bool {
    is_day_rejected(m, p, order) || {
        &&& p.config.check_defined(account_position(m.accounts, order.account), order, m.book.best_bid(), m.book.best_ask())
        &&& risk_verdict(m, p, order) == RiskResult::Approved ==> {
            &&& m.sequence < u64::MAX
            &&& !(order.order_type == OrderType::PostOnly && crosses_on_arrival(m.book, order)) ==> {
                let out = match_outcome(m, p, order);
                let book1 = m.book.with_opposite(order.side, out.levels);
                &&& order.order_type == OrderType::FOK ==> out.taker.remaining.0 <= order.qty.0
                &&& !fok_short(order, out) ==> {
                    &&& out.taker.remaining.0 > 0 && rests(order.order_type) ==> book1.insert_fits(out.taker)
                    &&& fills_defined(m.accounts, order.account, order.side, out.trades)
                }
            }
        }
    }
}

/// Whether a resting order expires at the end of the session.
pub open spec fn expires(o: Order, session_end: u64) -> bool {
    o.tif == TimeInForce::DAY && o.timestamp < session_end
}

/// The orders of a queue that survive expiry, in queue order.
pub open spec fn surviving(orders: Seq<Order>, session_end: u64) -> Seq<Order>
    decreases orders.len(),
{
    if orders.len() == 0 {
        seq![]
    } else {
        let prev = surviving(orders.drop_last(), session_end);
        if expires(orders.last(), session_end) { prev } else { prev.push(orders.last()) }
    }
}

/// One side after expiry: levels keep their surviving orders with the
/// aggregate recomputed, and levels left empty disappear.
pub open spec fn expire_side(s: Seq<LevelModel>, session_end: u64) -> Seq<LevelModel>
    decreases s.len(),
{
    if s.len() == 0 {
        seq![]
    } else {
        let prev = expire_side(s.drop_last(), session_end);
        let kept = surviving(s.last().orders, session_end);
        if kept.len() > 0 {
            prev.push(LevelModel { price: s.last().price, orders: kept, total: sum_remaining(kept) })
        } else {
            prev
        }
    }
}

/// The number of resting orders on one side.
pub open spec fn count_orders(s: Seq<LevelModel>) -> int
    decreases s.len(),
{
    if s.len() == 0 {
        0
    } else {
        count_orders(s.drop_last()) + s.last().orders.len()
    }
}

/// The number of orders resting on one side, or `None` where it passes
/// `usize::MAX`.
fn count_side(levels: &Vec<PriceLevel>) -> (r: Option<usize>)
    ensures
        match r {
            Some(n) => n == count_orders(side_view(levels@)),
            None => count_orders(side_view(levels@)) > usize::MAX,
        },
{
    let ghost sv = side_view(levels@);
    let mut n: usize = 0;
    let mut k: usize = 0;
    proof {
        assert(sv.take(0) =~= Seq::<LevelModel>::empty());
    }
    while k < levels.len()
        invariant
            sv == side_view(levels@),
            k <= levels@.len(),
            n == count_orders(sv.take(k as int)),
        decreases levels@.len() - k,
    {
        let c = levels[k].orders.len();
        proof {
            assert(sv.take(k + 1).drop_last() =~= sv.take(k as int));
            assert(sv.take(k + 1).last() == levels@[k as int]@);
        }
        match n.checked_add(c) {
            Some(m) => {
                n = m;
            },
            None => {
                proof {
                    lemma_count_orders_prefix(sv, k + 1);
                }
                return None;
            },
        }
        k = k + 1;
    }
    proof {
        assert(sv.take(levels@.len() as int) =~= sv);
    }
    Some(n)
}

/// Whether applying the quantities of `trades`, in order, to the position
/// of `account` on `side` stays within `i64` (see `fills_defined`).
fn fills_fit(risk: &RiskEngine, account: AccountId, side: Side, trades: &Vec<Trade>) -> (r: bool)
    ensures
        r == fills_defined(risk.accounts@, account, side, trades@),
{
    let ghost acc = risk.accounts@;
    let mut pos: i64 = risk.position_of(account);
    let mut k: usize = 0;
    proof {
        assert(trades@.take(0) =~= Seq::<Trade>::empty());
    }
    while k < trades.len()
        invariant
            k <= trades@.len(),
            acc == risk.accounts@,
            fills_defined(acc, account, side, trades@.take(k as int)),
            pos == account_position(apply_fills(acc, account, side, trades@.take(k as int)), account),
        decreases trades@.len() - k,
    {
        let q = trades[k].qty.0;
        proof {
            let t = trades@.take(k + 1);
            assert(t.drop_last() =~= trades@.take(k as int));
            assert(t.last() == trades@[k as int]);
        }
        if q > 0x7fff_ffff_ffff_ffffu64 {
            proof {
                lemma_fills_defined_not_prefix(acc, account, side, trades@, k + 1);
            }
            return false;
        }
        let np: i128 = match side {
            Side::Bid => pos as i128 + q as i128,
            Side::Ask => pos as i128 - q as i128,
        };
        if np < -0x8000_0000_0000_0000i128 || np > 0x7fff_ffff_ffff_ffffi128 {
            proof {
                lemma_fills_defined_not_prefix(acc, account, side, trades@, k + 1);
            }
            return false;
        }
        pos = np as i64;
        k = k + 1;
    }
    proof {
        assert(trades@.take(trades@.len() as int) =~= trades@);
    }
    true
}

pub proof fn lemma_fills_defined_not_prefix(accounts: Map<u64, AccountRisk>, a: AccountId, side: Side, ts: Seq<Trade>, k: int)
    requires
        !fills_defined(accounts, a, side, ts.take(k)),
        0 <= k <= ts.len(),
    ensures
        !fills_defined(accounts, a, side, ts),
{
    if fills_defined(accounts, a, side, ts) {
        lemma_fills_defined_prefix(accounts, a, side, ts, k);
    }
}

impl MatchingEngine {
    pub open spec fn model(&self) -> EngineModel {
        EngineModel { book: self.book@, accounts: self.risk.accounts@, sequence: self.sequence, trades: self.trades@ }
    }

    pub open spec fn params(&self) -> EngineParams {
        EngineParams { config: self.risk.config, stp_policy: self.stp_policy, session_end: self.session_end }
    }

    /// The book is well formed and every resting order is on its side of
    /// the book with quantity left to trade.
    pub open spec fn wf(&self) -> bool {
        self.book.wf() && self.book@.live()
    }

    pub fn new(risk: RiskEngine) -> (r: Self)
        ensures
            r.wf(),
            r.book@.bids.len() == 0 && r.book@.asks.len() == 0,
            r.risk == risk,
            r.sequence == 0,
            r.trades@.len() == 0,
            r.stp_policy.is_none(),
            r.session_end == u64::MAX,
    {
        Self {
            book: OrderBook::new(),
            risk,
            sequence: 0,
            trades: Vec::with_capacity(256),
            stp_policy: None,
            session_end: u64::MAX,
        }
    }

    pub fn with_stp(risk: RiskEngine, policy: StpPolicy) -> (r: Self)
        ensures
            r.wf(),
            r.book@.bids.len() == 0 && r.book@.asks.len() == 0,
            r.risk == risk,
            r.sequence == 0,
            r.trades@.len() == 0,
            r.stp_policy == Some(policy),
            r.session_end == u64::MAX,
    {
        Self {
            book: OrderBook::new(),
            risk,
            sequence: 0,
            trades: Vec::with_capacity(256),
            stp_policy: Some(policy),
            session_end: u64::MAX,
        }
    }

    pub fn with_session(risk: RiskEngine, session_end: u64) -> (r: Self)
        ensures
            r.wf(),
            r.book@.bids.len() == 0 && r.book@.asks.len() == 0,
            r.risk == risk,
            r.sequence == 0,
            r.trades@.len() == 0,
            r.stp_policy.is_none(),
            r.session_end == session_end,
    {
        Self {
            book: OrderBook::new(),
            risk,
            sequence: 0,
            trades: Vec::with_capacity(256),
            stp_policy: None,
            session_end,
        }
    }
}


pub proof fn lemma_fills_defined_prefix(accounts: Map<u64, AccountRisk>, a: AccountId, side: Side, ts: Seq<Trade>, k: int)
    requires
        fills_defined(accounts, a, side, ts),
        0 <= k <= ts.len(),
    ensures
        fills_defined(accounts, a, side, ts.take(k)),
    decreases ts.len(),
{
    if k == ts.len() {
        assert(ts.take(k) =~= ts);
    } else {
        assert(ts.drop_last().take(k) =~= ts.take(k));
        lemma_fills_defined_prefix(accounts, a, side, ts.drop_last(), k);
    }
}

pub proof fn lemma_sum_prefix_le(s: Seq<Order>, k: int)
    requires
        0 <= k <= s.len(),
    ensures
        sum_remaining(s.take(k)) <= sum_remaining(s),
    decreases s.len(),
{
    if k < s.len() {
        assert(s =~= s.drop_last().push(s.last()));
        lemma_sum_push(s.drop_last(), s.last());
        assert(s.drop_last().take(k) =~= s.take(k));
        lemma_sum_prefix_le(s.drop_last(), k);
    } else {
        assert(s.take(k) =~= s);
    }
}

pub proof fn lemma_surviving(o: Seq<Order>, session_end: u64)
    ensures
        sum_remaining(surviving(o, session_end)) <= sum_remaining(o),
        surviving(o, session_end).len() <= o.len(),
    decreases o.len(),
{
    if o.len() > 0 {
        lemma_surviving(o.drop_last(), session_end);
        assert(o =~= o.drop_last().push(o.last()));
        lemma_sum_push(o.drop_last(), o.last());
        lemma_sum_push(surviving(o.drop_last(), session_end), o.last());
    }
}

pub proof fn lemma_count_orders_nonneg(s: Seq<LevelModel>)
    ensures
        count_orders(s) >= 0,
    decreases s.len(),
{
    if s.len() > 0 {
        lemma_count_orders_nonneg(s.drop_last());
    }
}

pub proof fn lemma_count_orders_prefix(s: Seq<LevelModel>, k: int)
    requires
        0 <= k <= s.len(),
    ensures
        count_orders(s.take(k)) <= count_orders(s),
    decreases s.len(),
{
    if k < s.len() {
        assert(s.drop_last().take(k) =~= s.take(k));
        lemma_count_orders_prefix(s.drop_last(), k);
    } else {
        assert(s.take(k) =~= s);
    }
}

/// The orders that survive expiry are exactly the queue's orders that do
/// not expire.
pub proof fn lemma_surviving_members(o: Seq<Order>, session_end: u64)
    ensures
        forall|k: int| 0 <= k < surviving(o, session_end).len() ==> !expires(#[trigger] surviving(o, session_end)[k], session_end),
        forall|k: int| 0 <= k < surviving(o, session_end).len() ==> o.contains(#[trigger] surviving(o, session_end)[k]),
        forall|m: int| 0 <= m < o.len() && !expires(o[m], session_end) ==> surviving(o, session_end).contains(#[trigger] o[m]),
    decreases o.len(),
{
    if o.len() > 0 {
        let d = o.drop_last();
        lemma_surviving_members(d, session_end);
        let prev = surviving(d, session_end);
        let out = surviving(o, session_end);
        assert forall|k: int| 0 <= k < out.len() implies o.contains(#[trigger] out[k]) by {
            if k < prev.len() {
                assert(out[k] == prev[k]);
                assert(d.contains(prev[k]));
                let m = choose|m: int| 0 <= m < d.len() && d[m] == prev[k];
                assert(o[m] == d[m]);
            } else {
                assert(out[k] == o[o.len() - 1]);
            }
        }
        assert forall|k: int| 0 <= k < out.len() implies !expires(#[trigger] out[k], session_end) by {
            if k < prev.len() {
                assert(out[k] == prev[k]);
            }
        }
        assert forall|m: int| 0 <= m < o.len() && !expires(o[m], session_end) implies out.contains(#[trigger] o[m]) by {
            if m < o.len() - 1 {
                assert(o[m] == d[m]);
                assert(prev.contains(d[m]));
                let k = choose|k: int| 0 <= k < prev.len() && prev[k] == d[m];
                assert(out[k] == prev[k]);
            } else {
                assert(out[out.len() - 1] == o[m]);
            }
        }
    }
}

pub proof fn lemma_expire_side(s: Seq<LevelModel>, session_end: u64)
    requires
        side_wf(s),
    ensures
        side_wf(expire_side(s, session_end)),
        s.len() > 0 ==> forall|j: int|
            0 <= j < expire_side(s, session_end).len() ==> #[trigger] expire_side(s, session_end)[j].price.0 <= s.last().price.0,
        count_orders(expire_side(s, session_end)) <= count_orders(s),
    decreases s.len(),
{
    if s.len() > 0 {
        let d = s.drop_last();
        assert(side_wf(d)) by {
            assert forall|i: int| 0 <= i < d.len() implies #[trigger] d[i].orders.len() > 0 by { assert(d[i] == s[i]); }
            assert forall|i: int| 0 <= i < d.len() implies #[trigger] d[i].total == sum_remaining(d[i].orders) by { assert(d[i] == s[i]); }
            assert forall|i: int| 0 <= i < d.len() implies #[trigger] d[i].total <= u64::MAX by { assert(d[i] == s[i]); }
            assert forall|i: int| 0 <= i < d.len() implies #[trigger] all_at_price(d[i].orders, d[i].price) by { assert(d[i] == s[i]); }
        }
        lemma_expire_side(d, session_end);
        let prev = expire_side(d, session_end);
        let l = s.last();
        let kept = surviving(l.orders, session_end);
        lemma_surviving(l.orders, session_end);
        assert(l == s[s.len() - 1]);
        assert(s[s.len() - 1].total == sum_remaining(s[s.len() - 1].orders));
        assert(s[s.len() - 1].total <= u64::MAX);
        lemma_sum_nonneg(kept);
        if d.len() > 0 {
            assert(d.last().price.0 < l.price.0);
        }
        let out = expire_side(s, session_end);
        if kept.len() > 0 {
            let nl = LevelModel { price: l.price, orders: kept, total: sum_remaining(kept) };
            assert(out == prev.push(nl));
            assert forall|i: int| 0 <= i < out.len() implies #[trigger] out[i].orders.len() > 0 by {
                if i < prev.len() { assert(out[i] == prev[i]); }
            }
            assert forall|i: int| 0 <= i < out.len() implies #[trigger] out[i].total == sum_remaining(out[i].orders) by {
                if i < prev.len() { assert(out[i] == prev[i]); }
            }
            assert forall|i: int| 0 <= i < out.len() implies #[trigger] out[i].total <= u64::MAX by {
                if i < prev.len() { assert(out[i] == prev[i]); }
            }
            assert forall|i: int| 0 <= i < out.len() implies #[trigger] all_at_price(out[i].orders, out[i].price) by {
                if i < prev.len() {
                    assert(out[i] == prev[i]);
                } else {
                    lemma_surviving_members(l.orders, session_end);
                    assert(all_at_price(l.orders, l.price));
                    assert forall|k: int| 0 <= k < kept.len() implies #[trigger] kept[k].price == l.price by {
                        assert(l.orders.contains(kept[k]));
                    }
                }
            }
            assert forall|i: int, j: int| 0 <= i < j < out.len() implies out[i].price.0 < out[j].price.0 by {
                assert(out[i] == prev[i]);
                if j < prev.len() { assert(out[j] == prev[j]); }
            }
            assert forall|j: int| 0 <= j < out.len() implies #[trigger] out[j].price.0 <= s.last().price.0 by {
                if j < prev.len() { assert(out[j] == prev[j]); }
            }
            assert(out.drop_last() =~= prev);
        } else {
            assert forall|j: int| 0 <= j < out.len() implies #[trigger] out[j].price.0 <= s.last().price.0 by {
                assert(out[j] == prev[j]);
            }
        }
    }
}

/// Expiry keeps a live side live: it only drops orders.
pub proof fn lemma_expire_live(s: Seq<LevelModel>, session_end: u64, side: Side)
    requires
        live_side(s, side),
    ensures
        live_side(expire_side(s, session_end), side),
    decreases s.len(),
{
    if s.len() > 0 {
        let d = s.drop_last();
        assert(live_side(d, side)) by {
            assert forall|i: int| 0 <= i < d.len() implies orders_live(#[trigger] d[i].orders, side) by {
                assert(d[i] == s[i]);
            }
        }
        lemma_expire_live(d, session_end, side);
        let o = s.last().orders;
        assert(orders_live(s[s.len() - 1].orders, side));
        let kept = surviving(o, session_end);
        lemma_surviving_members(o, session_end);
        assert(orders_live(kept, side)) by {
            assert forall|k: int| 0 <= k < kept.len() implies #[trigger] kept[k].remaining.0 > 0 && kept[k].side == side by {
                assert(o.contains(kept[k]));
                let m = choose|m: int| 0 <= m < o.len() && o[m] == kept[k];
                assert(o[m] == kept[k]);
            }
        }
        let prev = expire_side(d, session_end);
        let out = expire_side(s, session_end);
        if kept.len() > 0 {
            assert forall|i: int| 0 <= i < out.len() implies orders_live(#[trigger] out[i].orders, side) by {
                if i < prev.len() {
                    assert(out[i] == prev[i]);
                }
            }
        }
    }
}

/// Expires the day orders of one side, returning how many went.
fn expire_levels(levels: &mut Vec<PriceLevel>, session_end: u64) -> (expired: usize)
    requires
        side_wf(side_view(old(levels)@)),
        count_orders(side_view(old(levels)@)) <= usize::MAX,
    ensures
        side_view(final(levels)@) == expire_side(side_view(old(levels)@), session_end),
        expired == count_orders(side_view(old(levels)@)) - count_orders(side_view(final(levels)@)),
{
    let ghost sv = side_view(levels@);
    let mut result: Vec<PriceLevel> = Vec::new();
    let mut expired: usize = 0;
    let n = levels.len();
    let mut i: usize = 0;
    proof {
        assert(sv.take(0) =~= Seq::<LevelModel>::empty());
        lemma_count_orders_nonneg(sv);
    }
    while i < n
        invariant
            n == levels@.len(),
            sv == side_view(levels@),
            side_wf(sv),
            count_orders(sv) <= usize::MAX,
            i <= n,
            side_view(result@) == expire_side(sv.take(i as int), session_end),
            expired == count_orders(sv.take(i as int)) - count_orders(expire_side(sv.take(i as int), session_end)),
        decreases n - i,
    {
        let level = &levels[i];
        let ghost ords = level.orders@;
        proof {
            assert(sv[i as int] == level@);
            assert(sv[i as int].total == sum_remaining(ords));
            assert(sv[i as int].total <= u64::MAX);
        }
        let m = level.orders.len();
        let mut kept: VecDeque<Order> = VecDeque::new();
        let mut total: u64 = 0;
        let mut k: usize = 0;
        proof {
            assert(ords.take(0) =~= Seq::<Order>::empty());
        }
        while k < m
            invariant
                m == ords.len(),
                ords == level.orders@,
                k <= m,
                kept@ == surviving(ords.take(k as int), session_end),
                total == sum_remaining(kept@),
                sum_remaining(ords) <= u64::MAX,
            decreases m - k,
        {
            let o = level.orders[k];
            proof {
                assert(ords.take(k + 1).drop_last() =~= ords.take(k as int));
                assert(ords.take(k + 1).last() == o);
                lemma_surviving(ords.take(k + 1), session_end);
                lemma_sum_prefix_le(ords, k + 1);
            }
            let expiring = match o.tif {
                TimeInForce::DAY => o.timestamp < session_end,
                TimeInForce::GTC => false,
            };
            if !expiring {
                proof {
                    lemma_sum_push(kept@, o);
                }
                kept.push_back(o);
                total = total + o.remaining.0;
            }
            k = k + 1;
        }
        proof {
            assert(ords.take(m as int) =~= ords);
            lemma_surviving(ords, session_end);
            assert(sv.take(i + 1).drop_last() =~= sv.take(i as int));
            assert(sv.take(i + 1).last() == sv[i as int]);
            lemma_count_orders_prefix(sv, i + 1);
            lemma_count_orders_nonneg(expire_side(sv.take(i as int), session_end));
            lemma_expire_side(sv.take(i as int), session_end);
        }
        proof {
            let t1 = sv.take(i + 1);
            assert(t1.last().orders == ords);
            assert(count_orders(t1) == count_orders(sv.take(i as int)) + m);
            let prev = expire_side(sv.take(i as int), session_end);
            if kept@.len() > 0 {
                let nl = LevelModel { price: t1.last().price, orders: kept@, total: sum_remaining(kept@) };
                assert(expire_side(t1, session_end) == prev.push(nl));
                assert(prev.push(nl).drop_last() =~= prev);
                assert(count_orders(expire_side(t1, session_end)) == count_orders(prev) + kept@.len());
            } else {
                assert(expire_side(t1, session_end) == prev);
            }
        }
        expired = expired + (m - kept.len());
        if kept.len() > 0 {
            let ghost before = side_view(result@);
            result.push(PriceLevel { price: level.price, orders: kept, total_qty: Qty(total) });
            proof {
                assert(side_view(result@) =~= before.push(result@.last()@));
            }
        }
        i = i + 1;
    }
    proof {
        assert(sv.take(n as int) =~= sv);
    }
    *levels = result;
    expired
}

impl MatchingEngine {
    /// Submits an order: risk checks, matching, then the order type's rule
    /// (see `submit`).
    pub fn submit_order(&mut self, order: Order) -> (r: Result<Vec<Trade>, RejectReason>)
        requires
            old(self).wf(),
            submit_defined(old(self).model(), old(self).params(), order),
        ensures
            final(self).wf(),
            final(self).params() == old(self).params(),
            ({
                let (m2, res) = submit(old(self).model(), old(self).params(), order);
                &&& final(self).model() == m2
                &&& match r {
                    Ok(t) => res == Ok::<Seq<Trade>, RejectReason>(t@),
                    Err(e) => res == Err::<Seq<Trade>, RejectReason>(e),
                }
            }),
    {
        let ghost m0 = self.model();
        let ghost p0 = self.params();
        let is_day = match order.tif {
            TimeInForce::DAY => true,
            TimeInForce::GTC => false,
        };
        if is_day && self.sequence >= self.session_end {
            return Err(RejectReason::MaxNotionalExceeded);
        }
        let best_bid = self.book.best_bid();
        let best_ask = self.book.best_ask();
        match self.risk.check_order(&order, best_bid, best_ask) {
            RiskResult::Approved => {},
            RiskResult::Rejected(r) => {
                return Err(r);
            },
        }
        self.sequence = self.sequence + 1;
        let mut order = order;
        order.timestamp = self.sequence;
        let is_post_only = match order.order_type {
            OrderType::PostOnly => true,
            _ => false,
        };
        if is_post_only {
            let crosses_now = match order.side {
                Side::Bid => match best_ask {
                    Some(p) => order.price.0 >= p.0,
                    None => false,
                },
                Side::Ask => match best_bid {
                    Some(p) => order.price.0 <= p.0,
                    None => false,
                },
            };
            if crosses_now {
                return Err(RejectReason::FatFingerPrice);
            }
        }
        let is_fok = match order.order_type {
            OrderType::FOK => true,
            _ => false,
        };
        let saved: Vec<PriceLevel> = if is_fok {
            match order.side {
                Side::Bid => copy_side(&self.book.asks),
                Side::Ask => copy_side(&self.book.bids),
            }
        } else {
            Vec::new()
        };
        let mut unfilled = order;
        proof {
            lemma_match_live(self.book@, order, self.stp_policy);
        }
        let trades = self.book.match_order(&mut unfilled, self.stp_policy);
        if is_fok {
            let filled_qty = order.qty.0 - unfilled.remaining.0;
            if filled_qty < order.qty.0 {
                match order.side {
                    Side::Bid => {
                        self.book.asks = saved;
                    },
                    Side::Ask => {
                        self.book.bids = saved;
                    },
                }
                return Err(RejectReason::MaxNotionalExceeded);
            }
        }
        let resting = match order.order_type {
            OrderType::Market | OrderType::IOC | OrderType::FOK => false,
            _ => true,
        };
        if unfilled.remaining.0 > 0 && resting {
            proof {
                lemma_insert_live(self.book@, unfilled);
            }
            self.book.insert_order(unfilled);
        }
        let mut i: usize = 0;
        let ghost acc0 = self.risk.accounts@;
        let ghost book2 = self.book@;
        let ghost trades0 = self.trades@;
        proof {
            assert(trades@.take(0) =~= Seq::<Trade>::empty());
            assert(trades0 + trades@.take(0) =~= trades0);
        }
        while i < trades.len()
            invariant
                i <= trades@.len(),
                fills_defined(acc0, order.account, order.side, trades@),
                self.risk.accounts@ == apply_fills(acc0, order.account, order.side, trades@.take(i as int)),
                self.risk.config == old(self).risk.config,
                self.trades@ == trades0 + trades@.take(i as int),
                self.book.wf(),
                self.book@ == book2,
                self.stp_policy == old(self).stp_policy,
                self.session_end == old(self).session_end,
                self.sequence == m0.sequence + 1,
            decreases trades@.len() - i,
        {
            proof {
                assert(trades@.take(i + 1).drop_last() =~= trades@.take(i as int));
                assert(trades@.take(i + 1).last() == trades@[i as int]);
                lemma_fills_defined_prefix(acc0, order.account, order.side, trades@, i + 1);
            }
            let t = trades[i];
            self.risk.apply_fill(order.account, order.side, t.qty);
            self.trades.push(t);
            proof {
                assert(self.trades@ =~= trades0 + trades@.take(i + 1));
            }
            i = i + 1;
        }
        proof {
            assert(trades@.take(trades@.len() as int) =~= trades@);
        }
        Ok(trades)
    }

    /// Whether submitting `order` stays within machine arithmetic (see
    /// `submit_defined`): a dry run of the risk checks and of matching on a
    /// copy of the book.
    pub fn submit_is_defined(&self, order: &Order) -> (r: bool)
        requires
            self.wf(),
        ensures
            r == submit_defined(self.model(), self.params(), *order),
    {
        let is_day = match order.tif {
            TimeInForce::DAY => true,
            TimeInForce::GTC => false,
        };
        if is_day && self.sequence >= self.session_end {
            return true;
        }
        let best_bid = self.book.best_bid();
        let best_ask = self.book.best_ask();
        if !self.risk.check_is_defined(order, best_bid, best_ask) {
            return false;
        }
        match self.risk.verdict(order, best_bid, best_ask) {
            RiskResult::Approved => {},
            RiskResult::Rejected(_) => {
                return true;
            },
        }
        if self.sequence == u64::MAX {
            return false;
        }
        let crosses_now = match order.side {
            Side::Bid => match best_ask {
                Some(p) => order.price.0 >= p.0,
                None => false,
            },
            Side::Ask => match best_bid {
                Some(p) => order.price.0 <= p.0,
                None => false,
            },
        };
        let (is_fok, is_post_only, resting) = match order.order_type {
            OrderType::FOK => (true, false, false),
            OrderType::PostOnly => (false, true, true),
            OrderType::Limit => (false, false, true),
            OrderType::Market | OrderType::IOC => (false, false, false),
        };
        if is_post_only && crosses_now {
            return true;
        }
        let mut book = OrderBook { bids: copy_side(&self.book.bids), asks: copy_side(&self.book.asks) };
        let mut taker = *order;
        taker.timestamp = self.sequence + 1;
        let trades = book.match_order(&mut taker, self.stp_policy);
        if is_fok {
            if taker.remaining.0 > order.qty.0 {
                return false;
            }
            if taker.remaining.0 > 0 {
                return true;
            }
        }
        if taker.remaining.0 > 0 && resting && !book.can_insert(&taker) {
            return false;
        }
        fills_fit(&self.risk, order.account, order.side, &trades)
    }

    /// Submits `order` where that stays within machine arithmetic, as
    /// `submit_order` does; `None`, with nothing changed, where the
    /// arithmetic would overflow.
    pub fn submit_order_checked(&mut self, order: Order) -> (r: Option<Result<Vec<Trade>, RejectReason>>)
        requires
            old(self).wf(),
        ensures
            final(self).wf(),
            final(self).params() == old(self).params(),
            r is None <==> !submit_defined(old(self).model(), old(self).params(), order),
            r is None ==> final(self).model() == old(self).model(),
            r matches Some(x) ==> {
                let (m2, res) = submit(old(self).model(), old(self).params(), order);
                &&& final(self).model() == m2
                &&& match x {
                    Ok(t) => res == Ok::<Seq<Trade>, RejectReason>(t@),
                    Err(e) => res == Err::<Seq<Trade>, RejectReason>(e),
                }
            },
    {
        if !self.submit_is_defined(&order) {
            return None;
        }
        Some(self.submit_order(order))
    }

    /// Whether the number of resting orders fits in `usize`, as expiring
    /// day orders needs.
    pub fn order_count_fits(&self) -> (r: bool)
        ensures
            r == (count_orders(self.book@.bids) + count_orders(self.book@.asks) <= usize::MAX),
    {
        proof {
            lemma_count_orders_nonneg(self.book@.bids);
            lemma_count_orders_nonneg(self.book@.asks);
        }
        match (count_side(&self.book.bids), count_side(&self.book.asks)) {
            (Some(a), Some(b)) => a.checked_add(b).is_some(),
            _ => false,
        }
    }

    /// Expires every resting DAY order stamped before the session end and
    /// returns how many expired.
    pub fn expire_day_orders(&mut self) -> (expired: usize)
        requires
            old(self).wf(),
            count_orders(old(self).book@.bids) + count_orders(old(self).book@.asks) <= usize::MAX,
        ensures
            final(self).wf(),
            final(self).book@ == (BookModel {
                bids: expire_side(old(self).book@.bids, old(self).session_end),
                asks: expire_side(old(self).book@.asks, old(self).session_end),
            }),
            expired == count_orders(old(self).book@.bids) + count_orders(old(self).book@.asks)
                - count_orders(final(self).book@.bids) - count_orders(final(self).book@.asks),
            final(self).risk == old(self).risk,
            final(self).sequence == old(self).sequence,
            final(self).trades == old(self).trades,
            final(self).params() == old(self).params(),
    {
        proof {
            lemma_count_orders_nonneg(self.book@.bids);
            lemma_count_orders_nonneg(self.book@.asks);
            lemma_expire_side(self.book@.bids, self.session_end);
            lemma_expire_side(self.book@.asks, self.session_end);
            lemma_count_orders_nonneg(expire_side(self.book@.bids, self.session_end));
            lemma_count_orders_nonneg(expire_side(self.book@.asks, self.session_end));
            lemma_expire_live(self.book@.bids, self.session_end, Side::Bid);
            lemma_expire_live(self.book@.asks, self.session_end, Side::Ask);
        }
        let a = expire_levels(&mut self.book.bids, self.session_end);
        let b = expire_levels(&mut self.book.asks, self.session_end);
        a + b
    }

    /// Cancels a resting order by id.
    pub fn cancel_order(&mut self, id: OrderId) -> (r: Option<Order>)
        requires
            old(self).wf(),
        ensures
            final(self).wf(),
            (final(self).book@, r) == old(self).book@.cancel(id),
            final(self).risk == old(self).risk,
            final(self).sequence == old(self).sequence,
            final(self).trades == old(self).trades,
            final(self).params() == old(self).params(),
    {
        proof {
            lemma_cancel_live(self.book@, id);
        }
        self.book.cancel_order(id)
    }
}

} // verus!
