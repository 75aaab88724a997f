//! A price-time priority limit order book.
//!
//! Each side is a vector of price levels kept in strictly increasing price
//! order; each level is a FIFO queue of resting orders.
use std::collections::VecDeque;
use vstd::prelude::*;
use crate::types::{Order, Price, Qty, Side, OrderType, StpPolicy, Trade, OrderId, AccountId};

verus! {

const INITIAL_ORDERS_PER_LEVEL: usize = 16;

/// Top of book on one side: the level's price and its aggregate quantity.
pub type L1Level = (Price, Qty);
/// One aggregated level: price, aggregate quantity and number of orders.
pub type L2Level = (Price, Qty, usize);

#[derive(Debug, Clone)]
pub struct PriceLevel {
    pub price: Price,
    pub orders: VecDeque<Order>,
    pub total_qty: Qty,
}

/// Mathematical model of a price level.
#[verifier::ext_equal]
pub struct LevelModel {
    pub price: Price,
    pub orders: Seq<Order>,
    pub total: int,
}

impl View for PriceLevel {
    type V = LevelModel;

    open spec fn view(&self) -> LevelModel {
        LevelModel { price: self.price, orders: self.orders@, total: self.total_qty.0 as int }
    }
}

/// The model of one side of the book: its levels in ascending price order.
pub open spec fn side_view(levels: Seq<PriceLevel>) -> Seq<LevelModel> {
    levels.map_values(|l: PriceLevel| l@)
}

/// Sum of the remaining quantities of a queue of orders.
pub open spec fn sum_remaining(orders: Seq<Order>) -> int
    decreases orders.len(),
{
    if orders.len() == 0 {
        0
    } else {
        orders[0].remaining.0 + sum_remaining(orders.drop_first())
    }
}

/// Every order of a queue rests at price `p`.
pub open spec fn all_at_price(orders: Seq<Order>, p: Price) -> bool {
    forall|k: int| 0 <= k < orders.len() ==> #[trigger] orders[k].price == p
}

/// Invariant of each level of a side, whatever order the levels stand in:
/// no level is empty, every order rests at its level's price, and a level's
/// aggregate quantity is exactly what its orders still have resting.
pub open spec fn levels_wf(s: Seq<LevelModel>) -> bool {
    &&& forall|i: int| 0 <= i < s.len() ==> #[trigger] s[i].orders.len() > 0
    &&& forall|i: int| 0 <= i < s.len() ==> #[trigger] all_at_price(s[i].orders, s[i].price)
    &&& forall|i: int| 0 <= i < s.len() ==> #[trigger] s[i].total == sum_remaining(s[i].orders)
    &&& forall|i: int| 0 <= i < s.len() ==> #[trigger] s[i].total <= u64::MAX
}

/// Prices strictly increase along `s` (`asc`) or strictly decrease.
pub open spec fn ordered(s: Seq<LevelModel>, asc: bool) -> bool {
    forall|i: int, j: int| 0 <= i < j < s.len() ==> if asc { s[i].price.0 < s[j].price.0 } else { s[i].price.0 > s[j].price.0 }
}

/// Reversing a side keeps its levels well formed and turns its order around.
pub proof fn lemma_reverse_wf(s: Seq<LevelModel>, asc: bool)
    requires
        levels_wf(s),
        ordered(s, asc),
    ensures
        levels_wf(s.reverse()),
        ordered(s.reverse(), !asc),
{
    let r = s.reverse();
    assert forall|i: int| 0 <= i < r.len() implies #[trigger] r[i].orders.len() > 0 by {
        assert(r[i] == s[s.len() - 1 - i]);
    }
    assert forall|i: int| 0 <= i < r.len() implies #[trigger] all_at_price(r[i].orders, r[i].price) by {
        assert(r[i] == s[s.len() - 1 - i]);
    }
    assert forall|i: int| 0 <= i < r.len() implies #[trigger] r[i].total == sum_remaining(r[i].orders) by {
        assert(r[i] == s[s.len() - 1 - i]);
    }
    assert forall|i: int| 0 <= i < r.len() implies #[trigger] r[i].total <= u64::MAX by {
        assert(r[i] == s[s.len() - 1 - i]);
    }
    assert forall|i: int, j: int| 0 <= i < j < r.len() implies if !asc { r[i].price.0 < r[j].price.0 } else { r[i].price.0 > r[j].price.0 } by {
        assert(r[i] == s[s.len() - 1 - i]);
        assert(r[j] == s[s.len() - 1 - j]);
    }
}

/// Invariant of one side of the book: prices strictly increase, no level is
/// empty, every order rests at its level's price, and a level's aggregate
/// quantity is exactly what its orders still have resting.
pub open spec fn side_wf(s: Seq<LevelModel>) -> bool {
    &&& forall|i: int, j: int| 0 <= i < j < s.len() ==> s[i].price.0 < s[j].price.0
    &&& forall|i: int| 0 <= i < s.len() ==> #[trigger] s[i].orders.len() > 0
    &&& forall|i: int| 0 <= i < s.len() ==> #[trigger] all_at_price(s[i].orders, s[i].price)
    &&& forall|i: int| 0 <= i < s.len() ==> #[trigger] s[i].total == sum_remaining(s[i].orders)
    &&& forall|i: int| 0 <= i < s.len() ==> #[trigger] s[i].total <= u64::MAX
}

pub proof fn lemma_sum_nonneg(orders: Seq<Order>)
    ensures
        sum_remaining(orders) >= 0,
    decreases orders.len(),
{
    if orders.len() > 0 {
        lemma_sum_nonneg(orders.drop_first());
    }
}

pub proof fn lemma_sum_ge_elem(orders: Seq<Order>, k: int)
    requires
        0 <= k < orders.len(),
    ensures
        sum_remaining(orders) >= orders[k].remaining.0,
    decreases orders.len(),
{
    lemma_sum_nonneg(orders.drop_first());
    if k > 0 {
        lemma_sum_ge_elem(orders.drop_first(), k - 1);
    }
}

pub proof fn lemma_sum_push(orders: Seq<Order>, o: Order)
    ensures
        sum_remaining(orders.push(o)) == sum_remaining(orders) + o.remaining.0,
    decreases orders.len(),
{
    if orders.len() == 0 {
        assert(orders.push(o).drop_first() =~= Seq::<Order>::empty());
        assert(sum_remaining(Seq::<Order>::empty()) == 0);
    } else {
        assert(orders.push(o).drop_first() =~= orders.drop_first().push(o));
        lemma_sum_push(orders.drop_first(), o);
    }
}

pub proof fn lemma_sum_remove(orders: Seq<Order>, k: int)
    requires
        0 <= k < orders.len(),
    ensures
        sum_remaining(orders.remove(k)) == sum_remaining(orders) - orders[k].remaining.0,
    decreases orders.len(),
{
    if k == 0 {
        assert(orders.remove(0) =~= orders.drop_first());
    } else {
        assert(orders.remove(k).drop_first() =~= orders.drop_first().remove(k - 1));
        lemma_sum_remove(orders.drop_first(), k - 1);
    }
}

/// Whether a taker at its limit price crosses a level at `price`.
pub open spec fn crosses(taker: Order, price: Price) -> bool {
    match taker.side {
        Side::Bid => taker.price.0 >= price.0,
        Side::Ask => taker.price.0 <= price.0,
    }
}

pub open spec fn min_int(a: int, b: int) -> int {
    if a <= b {
        a
    } else {
        b
    }
}

pub open spec fn with_remaining(o: Order, r: int) -> Order {
    Order { remaining: Qty(r as u64), ..o }
}

pub open spec fn trade_of(maker: Order, taker: Order, q: int) -> Trade {
    Trade {
        maker_id: maker.id,
        taker_id: taker.id,
        price: maker.price,
        qty: Qty(q as u64),
        timestamp: taker.timestamp,
    }
}

/// What matching a taker against one level's queue leaves behind.
#[verifier::ext_equal]
pub struct QueueOutcome {
    pub orders: Seq<Order>,
    pub total: int,
    pub taker: Order,
    pub trades: Seq<Trade>,
}

/// Quantities in a self-trade decrement: `(max_fill, maker_fill)`.
pub open spec fn decrement_fills(maker: Order, taker: Order) -> (int, int) {
    let max_fill = min_int(maker.remaining.0 as int, taker.remaining.0 as int);
    let half = max_fill / 2;
    (max_fill, if half > 0 { half } else { max_fill })
}

/// Matching a taker against the FIFO queue of one price level, front first,
/// with optional self-trade prevention.
pub open spec fn match_queue(
    orders: Seq<Order>,
    total: int,
    taker: Order,
    stp: Option<StpPolicy>,
) -> QueueOutcome
    decreases orders.len(),
{
    if orders.len() == 0 || taker.remaining.0 == 0 {
        QueueOutcome { orders, total, taker, trades: seq![] }
    } else {
        let maker = orders[0];
        if stp is Some && maker.account == taker.account {
            match stp->0 {
                StpPolicy::CancelPassive => match_queue(
                    orders.drop_first(),
                    total - maker.remaining.0,
                    taker,
                    stp,
                ),
                StpPolicy::CancelAggressive => QueueOutcome {
                    orders,
                    total,
                    taker: with_remaining(taker, 0),
                    trades: seq![],
                },
                StpPolicy::DecrementAndCancel => {
                    let (max_fill, maker_fill) = decrement_fills(maker, taker);
                    QueueOutcome {
                        orders: orders.drop_first(),
                        total: total - maker.remaining.0,
                        taker: with_remaining(taker, 0),
                        trades: if maker_fill > 0 {
                            seq![trade_of(maker, taker, maker_fill)]
                        } else {
                            seq![]
                        },
                    }
                },
            }
        } else {
            let fill = min_int(maker.remaining.0 as int, taker.remaining.0 as int);
            let maker2 = with_remaining(maker, maker.remaining.0 - fill);
            let taker2 = with_remaining(taker, taker.remaining.0 - fill);
            let trade = trade_of(maker, taker, fill);
            if maker2.remaining.0 == 0 {
                let rest = match_queue(orders.drop_first(), total - fill, taker2, stp);
                QueueOutcome { trades: seq![trade] + rest.trades, ..rest }
            } else {
                QueueOutcome {
                    orders: orders.update(0, maker2),
                    total: total - fill,
                    taker: taker2,
                    trades: seq![trade],
                }
            }
        }
    }
}

/// What matching a taker against one side of the book leaves behind.
#[verifier::ext_equal]
pub struct SideOutcome {
    pub levels: Seq<LevelModel>,
    pub taker: Order,
    pub trades: Seq<Trade>,
}

/// Matching a taker against levels in the order given (`match_opposite`
/// gives them best price first). A non-crossing level stops a priced order
/// and is skipped by a market order; emptied levels disappear.
pub open spec fn match_side(levels: Seq<LevelModel>, taker: Order, stp: Option<StpPolicy>) -> SideOutcome
    decreases levels.len(),
{
    if levels.len() == 0 || taker.remaining.0 == 0 {
        SideOutcome { levels, taker, trades: seq![] }
    } else {
        let l = levels[0];
        if !crosses(taker, l.price) && taker.order_type != OrderType::Market {
            SideOutcome { levels, taker, trades: seq![] }
        } else if !crosses(taker, l.price) {
            let rest = match_side(levels.drop_first(), taker, stp);
            SideOutcome { levels: seq![l] + rest.levels, ..rest }
        } else {
            let q = match_queue(l.orders, l.total, taker, stp);
            let l2 = LevelModel { price: l.price, orders: q.orders, total: q.total };
            let rest = match_side(levels.drop_first(), q.taker, stp);
            SideOutcome {
                levels: (if q.orders.len() == 0 {
                    seq![]
                } else {
                    seq![l2]
                }) + rest.levels,
                taker: rest.taker,
                trades: q.trades + rest.trades,
            }
        }
    }
}

pub proof fn lemma_match_queue_wf(orders: Seq<Order>, total: int, taker: Order, stp: Option<StpPolicy>)
    requires
        total == sum_remaining(orders),
        total <= u64::MAX,
    ensures
        ({
            let q = match_queue(orders, total, taker, stp);
            &&& q.total == sum_remaining(q.orders)
            &&& q.total <= total
            &&& q.orders.len() <= orders.len()
            &&& q.taker.remaining.0 <= taker.remaining.0
            &&& q.orders.len() > 0 ==> q.taker.remaining.0 == 0
            &&& q.taker == with_remaining(taker, q.taker.remaining.0 as int)
        }),
    decreases orders.len(),
{
    lemma_sum_nonneg(orders);
    if orders.len() == 0 || taker.remaining.0 == 0 {
    } else {
        let maker = orders[0];
        lemma_sum_nonneg(orders.drop_first());
        if stp is Some && maker.account == taker.account {
            match stp->0 {
                StpPolicy::CancelPassive => {
                    lemma_match_queue_wf(orders.drop_first(), total - maker.remaining.0, taker, stp);
                },
                StpPolicy::CancelAggressive => {},
                StpPolicy::DecrementAndCancel => {},
            }
        } else {
            let fill = min_int(maker.remaining.0 as int, taker.remaining.0 as int);
            let maker2 = with_remaining(maker, maker.remaining.0 - fill);
            let taker2 = with_remaining(taker, taker.remaining.0 - fill);
            if maker2.remaining.0 == 0 {
                lemma_match_queue_wf(orders.drop_first(), total - fill, taker2, stp);
            } else {
                assert(orders.update(0, maker2).drop_first() =~= orders.drop_first());
            }
        }
    }
}

/// Matching only drops orders from the front of a queue or lowers the
/// front order's remaining quantity, so every order stays at its price.
pub proof fn lemma_match_queue_price(orders: Seq<Order>, total: int, taker: Order, stp: Option<StpPolicy>, p: Price)
    requires
        all_at_price(orders, p),
    ensures
        all_at_price(match_queue(orders, total, taker, stp).orders, p),
    decreases orders.len(),
{
    if orders.len() == 0 || taker.remaining.0 == 0 {
    } else {
        let maker = orders[0];
        assert(all_at_price(orders.drop_first(), p)) by {
            assert forall|k: int| 0 <= k < orders.drop_first().len() implies #[trigger] orders.drop_first()[k].price == p by {
                assert(orders.drop_first()[k] == orders[k + 1]);
            }
        }
        if stp is Some && maker.account == taker.account {
            match stp->0 {
                StpPolicy::CancelPassive => {
                    lemma_match_queue_price(orders.drop_first(), total - maker.remaining.0, taker, stp, p);
                },
                StpPolicy::CancelAggressive => {},
                StpPolicy::DecrementAndCancel => {},
            }
        } else {
            let fill = min_int(maker.remaining.0 as int, taker.remaining.0 as int);
            let maker2 = with_remaining(maker, maker.remaining.0 - fill);
            let taker2 = with_remaining(taker, taker.remaining.0 - fill);
            if maker2.remaining.0 == 0 {
                lemma_match_queue_price(orders.drop_first(), total - fill, taker2, stp, p);
            } else {
                let u = orders.update(0, maker2);
                assert forall|k: int| 0 <= k < u.len() implies #[trigger] u[k].price == p by {
                    if k > 0 { assert(u[k] == orders[k]); }
                }
            }
        }
    }
}

pub proof fn lemma_match_side_wf(levels: Seq<LevelModel>, taker: Order, stp: Option<StpPolicy>, asc: bool)
    requires
        levels_wf(levels),
        ordered(levels, asc),
    ensures
        ({
            let out = match_side(levels, taker, stp);
            &&& levels_wf(out.levels)
            &&& ordered(out.levels, asc)
            &&& levels.len() > 0 ==> forall|j: int|
                0 <= j < out.levels.len() ==> if asc {
                    out.levels[j].price.0 >= levels[0].price.0
                } else {
                    out.levels[j].price.0 <= levels[0].price.0
                }
            &&& out.taker.remaining.0 <= taker.remaining.0
            &&& out.taker == with_remaining(taker, out.taker.remaining.0 as int)
        }),
    decreases levels.len(),
{
    if levels.len() == 0 || taker.remaining.0 == 0 {
    } else {
        let l = levels[0];
        let rest_in = levels.drop_first();
        assert(levels_wf(rest_in) && ordered(rest_in, asc)) by {
            assert forall|i: int, j: int| 0 <= i < j < rest_in.len() implies
                if asc { rest_in[i].price.0 < rest_in[j].price.0 } else { rest_in[i].price.0 > rest_in[j].price.0 } by {
                assert(rest_in[i] == levels[i + 1]);
                assert(rest_in[j] == levels[j + 1]);
            }
            assert forall|i: int| 0 <= i < rest_in.len() implies #[trigger] rest_in[i].orders.len() > 0 by {
                assert(rest_in[i] == levels[i + 1]);
            }
            assert forall|i: int| 0 <= i < rest_in.len() implies #[trigger] all_at_price(rest_in[i].orders, rest_in[i].price) by {
                assert(rest_in[i] == levels[i + 1]);
            }
            assert forall|i: int| 0 <= i < rest_in.len() implies #[trigger] rest_in[i].total == sum_remaining(rest_in[i].orders) by {
                assert(rest_in[i] == levels[i + 1]);
            }
            assert forall|i: int| 0 <= i < rest_in.len() implies #[trigger] rest_in[i].total <= u64::MAX by {
                assert(rest_in[i] == levels[i + 1]);
            }
        }
        if !crosses(taker, l.price) && taker.order_type != OrderType::Market {
        } else if !crosses(taker, l.price) {
            lemma_match_side_wf(rest_in, taker, stp, asc);
            let rest = match_side(rest_in, taker, stp);
            let out = seq![l] + rest.levels;
            if rest_in.len() > 0 {
                assert(rest_in[0] == levels[1]);
            }
            assert forall|j: int| 0 <= j < out.len() implies #[trigger] out[j].orders.len() > 0 by {
                if j > 0 { assert(out[j] == rest.levels[j - 1]); }
            }
            assert forall|j: int| 0 <= j < out.len() implies #[trigger] out[j].total == sum_remaining(out[j].orders) by {
                if j > 0 { assert(out[j] == rest.levels[j - 1]); }
            }
            assert forall|j: int| 0 <= j < out.len() implies #[trigger] all_at_price(out[j].orders, out[j].price) by {
                if j > 0 { assert(out[j] == rest.levels[j - 1]); }
            }
            assert forall|j: int| 0 <= j < out.len() implies #[trigger] out[j].total <= u64::MAX by {
                if j > 0 { assert(out[j] == rest.levels[j - 1]); }
            }
            assert forall|i: int, j: int| 0 <= i < j < out.len() implies
                if asc { out[i].price.0 < out[j].price.0 } else { out[i].price.0 > out[j].price.0 } by {
                assert(out[j] == rest.levels[j - 1]);
                if i > 0 { assert(out[i] == rest.levels[i - 1]); }
            }
            assert forall|j: int| 0 <= j < out.len() implies
                if asc { out[j].price.0 >= levels[0].price.0 } else { out[j].price.0 <= levels[0].price.0 } by {
                if j > 0 { assert(out[j] == rest.levels[j - 1]); }
            }
        } else {
            assert(l == levels[0]);
            lemma_match_queue_wf(l.orders, l.total, taker, stp);
            lemma_match_queue_price(l.orders, l.total, taker, stp, l.price);
            let q = match_queue(l.orders, l.total, taker, stp);
            let l2 = LevelModel { price: l.price, orders: q.orders, total: q.total };
            lemma_match_side_wf(rest_in, q.taker, stp, asc);
            let rest = match_side(rest_in, q.taker, stp);
            let head: Seq<LevelModel> = if q.orders.len() == 0 { seq![] } else { seq![l2] };
            let out = head + rest.levels;
            if rest_in.len() > 0 {
                assert(rest_in[0] == levels[1]);
            }
            assert forall|j: int| 0 <= j < out.len() implies #[trigger] out[j].orders.len() > 0 by {
                if j >= head.len() { assert(out[j] == rest.levels[j - head.len()]); }
            }
            assert forall|j: int| 0 <= j < out.len() implies #[trigger] out[j].total == sum_remaining(out[j].orders) by {
                if j >= head.len() { assert(out[j] == rest.levels[j - head.len()]); }
            }
            assert forall|j: int| 0 <= j < out.len() implies #[trigger] all_at_price(out[j].orders, out[j].price) by {
                if j >= head.len() { assert(out[j] == rest.levels[j - head.len()]); }
            }
            assert forall|j: int| 0 <= j < out.len() implies #[trigger] out[j].total <= u64::MAX by {
                if j >= head.len() { assert(out[j] == rest.levels[j - head.len()]); }
            }
            assert forall|i: int, j: int| 0 <= i < j < out.len() implies
                if asc { out[i].price.0 < out[j].price.0 } else { out[i].price.0 > out[j].price.0 } by {
                assert(out[j] == rest.levels[j - head.len()]);
                if i >= head.len() { assert(out[i] == rest.levels[i - head.len()]); }
            }
            assert forall|j: int| 0 <= j < out.len() implies
                if asc { out[j].price.0 >= levels[0].price.0 } else { out[j].price.0 <= levels[0].price.0 } by {
                if j >= head.len() { assert(out[j] == rest.levels[j - head.len()]); }
            }
        }
    }
}

pub proof fn lemma_levels_wf_skip(s: Seq<LevelModel>, k: int)
    requires
        levels_wf(s),
        0 <= k <= s.len(),
    ensures
        levels_wf(s.skip(k)),
{
    let t = s.skip(k);
    assert forall|i: int| 0 <= i < t.len() implies #[trigger] t[i].orders.len() > 0 by {
        assert(t[i] == s[i + k]);
    }
    assert forall|i: int| 0 <= i < t.len() implies #[trigger] all_at_price(t[i].orders, t[i].price) by {
        assert(t[i] == s[i + k]);
    }
    assert forall|i: int| 0 <= i < t.len() implies #[trigger] t[i].total == sum_remaining(t[i].orders) by {
        assert(t[i] == s[i + k]);
    }
    assert forall|i: int| 0 <= i < t.len() implies #[trigger] t[i].total <= u64::MAX by {
        assert(t[i] == s[i + k]);
    }
}

fn min_u64(a: u64, b: u64) -> (r: u64)
    ensures
        r == min_int(a as int, b as int),
{
    if a <= b {
        a
    } else {
        b
    }
}

/// Matches `taker` against the queue of `level`, front first.
fn match_queue_exec(level: &mut PriceLevel, taker: &mut Order, stp: Option<StpPolicy>) -> (trades: Vec<Trade>)
    requires
        old(level).total_qty.0 == sum_remaining(old(level).orders@),
    ensures
        ({
            let q = match_queue(old(level).orders@, old(level).total_qty.0 as int, *old(taker), stp);
            &&& final(level).orders@ == q.orders
            &&& final(level).total_qty.0 == q.total
            &&& final(level).price == old(level).price
            &&& *final(taker) == q.taker
            &&& trades@ == q.trades
        }),
{
    let mut trades: Vec<Trade> = Vec::new();
    let ghost q0 = match_queue(old(level).orders@, old(level).total_qty.0 as int, *old(taker), stp);
    loop
        invariant
            q0 == match_queue(old(level).orders@, old(level).total_qty.0 as int, *old(taker), stp),
            level.price == old(level).price,
            level.total_qty.0 == sum_remaining(level.orders@),
            ({
                let r = match_queue(level.orders@, level.total_qty.0 as int, *taker, stp);
                q0 == QueueOutcome { trades: trades@ + r.trades, ..r }
            }),
        decreases level.orders.len(),
    {
        if level.orders.len() == 0 || taker.remaining.0 == 0 {
            assert(trades@ + Seq::<Trade>::empty() =~= trades@);
            return trades;
        }
        let maker = level.orders[0];
        proof {
            lemma_sum_ge_elem(level.orders@, 0);
            lemma_sum_remove(level.orders@, 0);
            assert(level.orders@.remove(0) =~= level.orders@.drop_first());
        }
        let same_account = match stp {
            Some(_) => maker.account.0 == taker.account.0,
            None => false,
        };
        if same_account {
            match stp {
                Some(StpPolicy::CancelPassive) => {
                    level.orders.pop_front();
                    level.total_qty = Qty(level.total_qty.0 - maker.remaining.0);
                },
                Some(StpPolicy::CancelAggressive) => {
                    taker.remaining = Qty(0);
                    assert(trades@ + Seq::<Trade>::empty() =~= trades@);
                    return trades;
                },
                _ => {
                    let ghost t0 = *taker;
                    let max_fill = min_u64(maker.remaining.0, taker.remaining.0);
                    let half = max_fill / 2;
                    let maker_fill = if half > 0 {
                        half
                    } else {
                        max_fill
                    };
                    if maker_fill > 0 {
                        trades.push(
                            Trade {
                                maker_id: maker.id,
                                taker_id: taker.id,
                                price: maker.price,
                                qty: Qty(maker_fill),
                                timestamp: taker.timestamp,
                            },
                        );
                    }
                    level.orders.pop_front();
                    level.total_qty = Qty(level.total_qty.0 - maker.remaining.0);
                    taker.remaining = Qty(0);
                    assert(trades@ + Seq::<Trade>::empty() =~= trades@);
                    return trades;
                },
            }
        } else {
            let ghost t0 = *taker;
            let fill = min_u64(maker.remaining.0, taker.remaining.0);
            let m2 = Order { remaining: Qty(maker.remaining.0 - fill), ..maker };
            taker.remaining = Qty(taker.remaining.0 - fill);
            trades.push(
                Trade {
                    maker_id: maker.id,
                    taker_id: taker.id,
                    price: maker.price,
                    qty: Qty(fill),
                    timestamp: taker.timestamp,
                },
            );
            level.total_qty = Qty(level.total_qty.0 - fill);
            if m2.remaining.0 == 0 {
                level.orders.pop_front();
                proof {
                    let r = match_queue(level.orders@, level.total_qty.0 as int, *taker, stp);
                    assert(trades@ + r.trades =~= trades@.drop_last() + (seq![trade_of(maker, t0, fill as int)] + r.trades));
                }
            } else {
                level.orders.pop_front();
                level.orders.push_front(m2);
                assert(trades@ + Seq::<Trade>::empty() =~= trades@);
                return trades;
            }
        }
    }
}

/// Matches `taker` against levels in the order they stand in the vector.
fn match_side_exec(levels: &mut Vec<PriceLevel>, taker: &mut Order, stp: Option<StpPolicy>) -> (trades: Vec<Trade>)
    requires
        levels_wf(side_view(old(levels)@)),
    ensures
        ({
            let out = match_side(side_view(old(levels)@), *old(taker), stp);
            &&& side_view(final(levels)@) == out.levels
            &&& *final(taker) == out.taker
            &&& trades@ == out.trades
        }),
{
    let mut trades: Vec<Trade> = Vec::new();
    let mut i: usize = 0;
    let ghost out0 = match_side(side_view(old(levels)@), *old(taker), stp);
    proof {
        assert(side_view(levels@).skip(0) =~= side_view(levels@));
        assert(side_view(levels@).take(0) =~= Seq::<LevelModel>::empty());
    }
    loop
        invariant
            out0 == match_side(side_view(old(levels)@), *old(taker), stp),
            i <= levels.len(),
            levels_wf(side_view(levels@).skip(i as int)),
            ({
                let r = match_side(side_view(levels@).skip(i as int), *taker, stp);
                out0 == SideOutcome {
                    levels: side_view(levels@).take(i as int) + r.levels,
                    taker: r.taker,
                    trades: trades@ + r.trades,
                }
            }),
        decreases levels.len() - i,
    {
        let ghost sv = side_view(levels@);
        if i >= levels.len() || taker.remaining.0 == 0 {
            proof {
                assert(sv.take(i as int) + sv.skip(i as int) =~= sv);
                assert(trades@ + Seq::<Trade>::empty() =~= trades@);
            }
            return trades;
        }
        let lp = levels[i].price;
        let crossing = match taker.side {
            Side::Bid => taker.price.0 >= lp.0,
            Side::Ask => taker.price.0 <= lp.0,
        };
        proof {
            assert(sv.skip(i as int)[0] == levels@[i as int]@);
            assert(sv.skip(i as int).drop_first() =~= sv.skip(i + 1));
        }
        let is_market = match taker.order_type {
            OrderType::Market => true,
            _ => false,
        };
        if !crossing && !is_market {
            proof {
                assert(sv.take(i as int) + sv.skip(i as int) =~= sv);
                assert(trades@ + Seq::<Trade>::empty() =~= trades@);
            }
            return trades;
        }
        if !crossing {
            proof {
                assert(sv.take(i + 1) =~= sv.take(i as int) + seq![sv[i as int]]);
                lemma_levels_wf_skip(sv.skip(i as int), 1);
                assert(sv.skip(i as int).skip(1) =~= sv.skip(i + 1));
            }
            i = i + 1;
        } else {
            proof {
                assert(sv.skip(i as int)[0].total == sum_remaining(sv.skip(i as int)[0].orders));
                lemma_levels_wf_skip(sv.skip(i as int), 1);
                assert(sv.skip(i as int).skip(1) =~= sv.skip(i + 1));
            }
            let ghost t0 = *taker;
            let mut level = levels.remove(i);
            proof {
                assert(side_view(levels@) =~= sv.remove(i as int));
                assert(side_view(levels@).take(i as int) =~= sv.take(i as int));
                assert(side_view(levels@).skip(i as int) =~= sv.skip(i + 1));
            }
            let ghost tr0 = trades@;
            let mut qt = match_queue_exec(&mut level, taker, stp);
            let ghost qts = qt@;
            trades.append(&mut qt);
            if level.orders.len() > 0 {
                let ghost before = side_view(levels@);
                levels.insert(i, level);
                proof {
                    assert(side_view(levels@) =~= before.insert(i as int, level@));
                    assert(side_view(levels@).take(i + 1) =~= sv.take(i as int) + seq![level@]);
                    assert(side_view(levels@).skip(i + 1) =~= sv.skip(i + 1));
                }
                i = i + 1;
            }
            proof {
                assert(trades@ =~= tr0 + qts);
                let rest = match_side(side_view(levels@).skip(i as int), *taker, stp);
                assert(tr0 + (qts + rest.trades) =~= trades@ + rest.trades);
                if level.orders@.len() > 0 {
                    assert(sv.take((i - 1) as int) + (seq![level@] + rest.levels) =~= side_view(levels@).take(i as int) + rest.levels);
                } else {
                    assert(sv.take(i as int) + (Seq::<LevelModel>::empty() + rest.levels) =~= side_view(levels@).take(i as int) + rest.levels);
                }
            }
        }
    }
}

/// The opposite side's levels in the order a taker on `side` meets them,
/// best price first: asks from the lowest up for a bid, bids from the
/// highest down for an ask.
pub open spec fn best_first(s: Seq<LevelModel>, side: Side) -> Seq<LevelModel> {
    match side {
        Side::Bid => s,
        Side::Ask => s.reverse(),
    }
}

/// Matching a taker against the opposite side, best price first; the side
/// comes back in its own ascending order.
pub open spec fn match_opposite(s: Seq<LevelModel>, taker: Order, stp: Option<StpPolicy>) -> SideOutcome {
    let out = match_side(best_first(s, taker.side), taker, stp);
    SideOutcome { levels: best_first(out.levels, taker.side), ..out }
}

pub proof fn lemma_side_view_reverse(v: Seq<PriceLevel>)
    ensures
        side_view(v.reverse()) == side_view(v).reverse(),
{
    assert(side_view(v.reverse()) =~= side_view(v).reverse());
}

/// Reverses the order of the levels of `v`.
fn reverse_levels(v: &mut Vec<PriceLevel>)
    ensures
        final(v)@ == old(v)@.reverse(),
{
    let mut src: Vec<PriceLevel> = Vec::new();
    std::mem::swap(&mut src, v);
    let ghost s0 = src@;
    while src.len() > 0
        invariant
            s0 == old(v)@,
            src@ == s0.take(src@.len() as int),
            v@.len() + src@.len() == s0.len(),
            forall|k: int| 0 <= k < v@.len() ==> #[trigger] v@[k] == s0[s0.len() - 1 - k],
        decreases src.len(),
    {
        let ghost n = src@.len();
        let l = src.pop().unwrap();
        proof {
            assert(l == s0[n - 1]);
            assert(src@ =~= s0.take(n - 1));
        }
        v.push(l);
    }
    assert(v@ =~= s0.reverse());
}

/// A copy of a level.
pub(crate) fn copy_level(l: &PriceLevel) -> (r: PriceLevel)
    ensures
        r@ == l@,
{
    let n = l.orders.len();
    let mut orders: VecDeque<Order> = VecDeque::with_capacity(n);
    let mut k: usize = 0;
    while k < n
        invariant
            n == l.orders@.len(),
            k <= n,
            orders@ == l.orders@.take(k as int),
        decreases n - k,
    {
        orders.push_back(l.orders[k]);
        k = k + 1;
        assert(orders@ =~= l.orders@.take(k as int));
    }
    assert(orders@ =~= l.orders@);
    PriceLevel { price: l.price, orders, total_qty: l.total_qty }
}

/// A copy of a side of the book.
pub(crate) fn copy_side(levels: &Vec<PriceLevel>) -> (r: Vec<PriceLevel>)
    ensures
        side_view(r@) == side_view(levels@),
{
    let n = levels.len();
    let mut out: Vec<PriceLevel> = Vec::with_capacity(n);
    let mut k: usize = 0;
    while k < n
        invariant
            n == levels@.len(),
            k <= n,
            out@.len() == k,
            forall|j: int| 0 <= j < k ==> #[trigger] out@[j]@ == levels@[j]@,
        decreases n - k,
    {
        out.push(copy_level(&levels[k]));
        k = k + 1;
    }
    assert(side_view(out@) =~= side_view(levels@));
    out
}

/// Every order of a queue is on `side` of the market and still has
/// quantity to trade.
pub open spec fn orders_live(o: Seq<Order>, side: Side) -> bool {
    forall|k: int| #![trigger o[k]] 0 <= k < o.len() ==> o[k].remaining.0 > 0 && o[k].side == side
}

/// Every order resting on a side of the book is on that side of the
/// market and still has quantity to trade.
pub open spec fn live_side(s: Seq<LevelModel>, side: Side) -> bool {
    forall|i: int| 0 <= i < s.len() ==> orders_live(#[trigger] s[i].orders, side)
}

/// Matching a queue of live orders leaves live orders, and every trade it
/// makes has a positive quantity.
pub proof fn lemma_queue_live(orders: Seq<Order>, total: int, taker: Order, stp: Option<StpPolicy>, side: Side)
    requires
        orders_live(orders, side),
    ensures
        ({
            let q = match_queue(orders, total, taker, stp);
            &&& orders_live(q.orders, side)
            &&& forall|i: int| 0 <= i < q.trades.len() ==> (#[trigger] q.trades[i]).qty.0 > 0
        }),
    decreases orders.len(),
{
    if orders.len() == 0 || taker.remaining.0 == 0 {
    } else {
        let maker = orders[0];
        let d = orders.drop_first();
        assert(orders_live(d, side)) by {
            assert forall|k: int| 0 <= k < d.len() implies #[trigger] d[k].remaining.0 > 0 && d[k].side == side by {
                assert(d[k] == orders[k + 1]);
            }
        }
        assert(maker.remaining.0 > 0);
        if stp is Some && maker.account == taker.account {
            match stp->0 {
                StpPolicy::CancelPassive => {
                    lemma_queue_live(d, total - maker.remaining.0, taker, stp, side);
                },
                StpPolicy::CancelAggressive => {},
                StpPolicy::DecrementAndCancel => {},
            }
        } else {
            let fill = min_int(maker.remaining.0 as int, taker.remaining.0 as int);
            let maker2 = with_remaining(maker, maker.remaining.0 - fill);
            let taker2 = with_remaining(taker, taker.remaining.0 - fill);
            let q = match_queue(orders, total, taker, stp);
            if maker2.remaining.0 == 0 {
                lemma_queue_live(d, total - fill, taker2, stp, side);
                let rest = match_queue(d, total - fill, taker2, stp);
                assert forall|i: int| 0 <= i < q.trades.len() implies (#[trigger] q.trades[i]).qty.0 > 0 by {
                    if i > 0 {
                        assert(q.trades[i] == rest.trades[i - 1]);
                    }
                }
            } else {
                let u = orders.update(0, maker2);
                assert forall|k: int| 0 <= k < u.len() implies #[trigger] u[k].remaining.0 > 0 && u[k].side == side by {
                    if k > 0 {
                        assert(u[k] == orders[k]);
                    }
                }
            }
        }
    }
}

/// Matching levels of live orders leaves live levels, and every trade it
/// makes has a positive quantity.
pub proof fn lemma_side_live(levels: Seq<LevelModel>, taker: Order, stp: Option<StpPolicy>, side: Side)
    requires
        live_side(levels, side),
    ensures
        ({
            let out = match_side(levels, taker, stp);
            &&& live_side(out.levels, side)
            &&& forall|i: int| 0 <= i < out.trades.len() ==> (#[trigger] out.trades[i]).qty.0 > 0
        }),
    decreases levels.len(),
{
    if levels.len() == 0 || taker.remaining.0 == 0 {
    } else {
        let l = levels[0];
        let rest_in = levels.drop_first();
        assert(live_side(rest_in, side)) by {
            assert forall|i: int| 0 <= i < rest_in.len() implies orders_live(#[trigger] rest_in[i].orders, side) by {
                assert(rest_in[i] == levels[i + 1]);
            }
        }
        assert(orders_live(levels[0].orders, side));
        let out = match_side(levels, taker, stp);
        if !crosses(taker, l.price) && taker.order_type != OrderType::Market {
        } else if !crosses(taker, l.price) {
            lemma_side_live(rest_in, taker, stp, side);
            let rest = match_side(rest_in, taker, stp);
            assert forall|i: int| 0 <= i < out.levels.len() implies orders_live(#[trigger] out.levels[i].orders, side) by {
                if i > 0 {
                    assert(out.levels[i] == rest.levels[i - 1]);
                }
            }
        } else {
            lemma_queue_live(l.orders, l.total, taker, stp, side);
            let q = match_queue(l.orders, l.total, taker, stp);
            lemma_side_live(rest_in, q.taker, stp, side);
            let rest = match_side(rest_in, q.taker, stp);
            let l2 = LevelModel { price: l.price, orders: q.orders, total: q.total };
            let head: Seq<LevelModel> = if q.orders.len() == 0 { seq![] } else { seq![l2] };
            assert(out.levels == head + rest.levels);
            assert forall|i: int| 0 <= i < out.levels.len() implies orders_live(#[trigger] out.levels[i].orders, side) by {
                if i >= head.len() {
                    assert(out.levels[i] == rest.levels[i - head.len()]);
                }
            }
            assert forall|i: int| 0 <= i < out.trades.len() implies (#[trigger] out.trades[i]).qty.0 > 0 by {
                if i < q.trades.len() {
                    assert(out.trades[i] == q.trades[i]);
                } else {
                    assert(out.trades[i] == rest.trades[i - q.trades.len()]);
                }
            }
        }
    }
}

pub proof fn lemma_live_reverse(s: Seq<LevelModel>, side: Side)
    requires
        live_side(s, side),
    ensures
        live_side(s.reverse(), side),
{
    assert forall|i: int| 0 <= i < s.reverse().len() implies orders_live(#[trigger] s.reverse()[i].orders, side) by {
        assert(s.reverse()[i] == s[s.len() - 1 - i]);
    }
}

/// Mathematical model of the whole book.
#[verifier::ext_equal]
pub struct BookModel {
    pub bids: Seq<LevelModel>,
    pub asks: Seq<LevelModel>,
}

#[derive(Debug)]
pub struct OrderBook {
    pub bids: Vec<PriceLevel>,
    pub asks: Vec<PriceLevel>,
}

impl View for OrderBook {
    type V = BookModel;

    open spec fn view(&self) -> BookModel {
        BookModel { bids: side_view(self.bids@), asks: side_view(self.asks@) }
    }
}

impl BookModel {
    pub open spec fn wf(self) -> bool {
        side_wf(self.bids) && side_wf(self.asks)
    }

    /// Every resting order is on the side of the book it rests on and still
    /// has quantity to trade.
    pub open spec fn live(self) -> bool {
        live_side(self.bids, Side::Bid) && live_side(self.asks, Side::Ask)
    }

    /// The levels a taker on `side` trades against.
    pub open spec fn opposite_of(self, side: Side) -> Seq<LevelModel> {
        match side {
            Side::Bid => self.asks,
            Side::Ask => self.bids,
        }
    }

    /// The book with the side opposite to `side` replaced.
    pub open spec fn with_opposite(self, side: Side, levels: Seq<LevelModel>) -> BookModel {
        match side {
            Side::Bid => BookModel { asks: levels, ..self },
            Side::Ask => BookModel { bids: levels, ..self },
        }
    }
}

impl OrderBook {
    pub open spec fn wf(&self) -> bool {
        self@.wf()
    }

    /// Whether resting `o` keeps the aggregate quantity of its price level
    /// within `u64`.
    pub fn can_insert(&self, o: &Order) -> (r: bool)
        ensures
            r == self@.insert_fits(*o),
    {
        let levels = match o.side {
            Side::Bid => &self.bids,
            Side::Ask => &self.asks,
        };
        let i = find_lower_bound(levels, o.price);
        if i < levels.len() && levels[i].price.0 == o.price.0 {
            proof {
                assert(side_view(levels@)[i as int] == levels@[i as int]@);
            }
            levels[i].total_qty.0 <= u64::MAX - o.remaining.0
        } else {
            proof {
                if i < levels.len() {
                    assert(side_view(levels@)[i as int] == levels@[i as int]@);
                }
            }
            true
        }
    }

    /// Matches `taker` against the opposite side, best price first (asks
    /// from the lowest up for a bid, bids from the highest down for an
    /// ask), recording one trade per fill.
    pub fn match_order(&mut self, taker: &mut Order, stp_policy: Option<StpPolicy>) -> (trades: Vec<Trade>)
        requires
            old(self).wf(),
        ensures
            final(self).wf(),
            ({
                let out = match_opposite(old(self)@.opposite_of(old(taker).side), *old(taker), stp_policy);
                &&& final(self)@ == old(self)@.with_opposite(old(taker).side, out.levels)
                &&& *final(taker) == out.taker
                &&& trades@ == out.trades
            }),
    {
        match taker.side {
            Side::Bid => {
                proof {
                    lemma_match_side_wf(self@.asks, *taker, stp_policy, true);
                }
                match_side_exec(&mut self.asks, taker, stp_policy)
            },
            Side::Ask => {
                let ghost b0 = self@.bids;
                let ghost t0 = *taker;
                proof {
                    lemma_reverse_wf(b0, true);
                    lemma_match_side_wf(b0.reverse(), *taker, stp_policy, false);
                }
                reverse_levels(&mut self.bids);
                proof {
                    lemma_side_view_reverse(old(self).bids@);
                }
                let trades = match_side_exec(&mut self.bids, taker, stp_policy);
                let ghost mid = self.bids@;
                reverse_levels(&mut self.bids);
                proof {
                    lemma_side_view_reverse(mid);
                    let out = match_side(b0.reverse(), t0, stp_policy);
                    assert(out.levels.reverse().reverse() =~= out.levels);
                    lemma_reverse_wf(out.levels, false);
                }
                trades
            },
        }
    }
}


/// The number of leading levels priced below `p`; on a sorted side this is
/// where a level at `p` stands or would be inserted.
pub open spec fn lower_bound(s: Seq<LevelModel>, p: Price) -> int
    decreases s.len(),
{
    if s.len() == 0 || s[0].price.0 >= p.0 {
        0
    } else {
        1 + lower_bound(s.drop_first(), p)
    }
}

pub proof fn lemma_lower_bound(s: Seq<LevelModel>, p: Price)
    ensures
        0 <= lower_bound(s, p) <= s.len(),
        forall|j: int| 0 <= j < lower_bound(s, p) ==> #[trigger] s[j].price.0 < p.0,
        lower_bound(s, p) < s.len() ==> s[lower_bound(s, p)].price.0 >= p.0,
    decreases s.len(),
{
    if s.len() == 0 || s[0].price.0 >= p.0 {
    } else {
        lemma_lower_bound(s.drop_first(), p);
        assert forall|j: int| 0 <= j < lower_bound(s, p) implies #[trigger] s[j].price.0 < p.0 by {
            if j > 0 {
                assert(s[j] == s.drop_first()[j - 1]);
            }
        }
    }
}

/// Whether `s` holds a level at exactly price `p`.
pub open spec fn has_level(s: Seq<LevelModel>, p: Price) -> bool {
    lower_bound(s, p) < s.len() && s[lower_bound(s, p)].price == p
}

/// The side after appending `o` to the back of the queue at its price,
/// creating the level in price order when there is none.
pub open spec fn insert_side(s: Seq<LevelModel>, o: Order) -> Seq<LevelModel> {
    let k = lower_bound(s, o.price);
    if has_level(s, o.price) {
        s.update(
            k,
            LevelModel {
                price: s[k].price,
                orders: s[k].orders.push(o),
                total: s[k].total + o.remaining.0,
            },
        )
    } else {
        s.insert(k, LevelModel { price: o.price, orders: seq![o], total: o.remaining.0 as int })
    }
}

/// Inserting `o` keeps the level's aggregate quantity within `u64`.
pub open spec fn insert_fits(s: Seq<LevelModel>, o: Order) -> bool {
    has_level(s, o.price) ==> s[lower_bound(s, o.price)].total + o.remaining.0 <= u64::MAX
}

pub proof fn lemma_insert_side_wf(s: Seq<LevelModel>, o: Order)
    requires
        side_wf(s),
        insert_fits(s, o),
    ensures
        side_wf(insert_side(s, o)),
{
    lemma_lower_bound(s, o.price);
    let k = lower_bound(s, o.price);
    let t = insert_side(s, o);
    if has_level(s, o.price) {
        lemma_sum_push(s[k].orders, o);
        assert forall|i: int| 0 <= i < t.len() implies #[trigger] t[i].total == sum_remaining(t[i].orders) by {
            if i != k {
                assert(t[i] == s[i]);
            }
        }
        assert forall|i: int| 0 <= i < t.len() implies #[trigger] all_at_price(t[i].orders, t[i].price) by {
            if i != k {
                assert(t[i] == s[i]);
            } else {
                assert(all_at_price(s[k].orders, s[k].price));
                assert(s[k].price == o.price);
                assert forall|m: int| 0 <= m < t[k].orders.len() implies #[trigger] t[k].orders[m].price == t[k].price by {
                    if m < s[k].orders.len() {
                        assert(t[k].orders[m] == s[k].orders[m]);
                        assert(s[k].orders[m].price == s[k].price);
                    }
                }
            }
        }
        assert forall|i: int| 0 <= i < t.len() implies #[trigger] t[i].orders.len() > 0 by {
            if i != k {
                assert(t[i] == s[i]);
            }
        }
        assert forall|i: int| 0 <= i < t.len() implies #[trigger] t[i].total <= u64::MAX by {
            if i != k {
                assert(t[i] == s[i]);
            }
        }
    } else {
        let nl = LevelModel { price: o.price, orders: seq![o], total: o.remaining.0 as int };
        assert(seq![o].drop_first() =~= Seq::<Order>::empty());
        assert(sum_remaining(Seq::<Order>::empty()) == 0);
        assert(sum_remaining(seq![o]) == o.remaining.0);
        assert forall|i: int| 0 <= i < t.len() implies #[trigger] t[i].total == sum_remaining(t[i].orders) by {
            if i < k {
                assert(t[i] == s[i]);
            } else if i > k {
                assert(t[i] == s[i - 1]);
            }
        }
        assert forall|i: int| 0 <= i < t.len() implies #[trigger] all_at_price(t[i].orders, t[i].price) by {
            if i < k {
                assert(t[i] == s[i]);
            } else if i > k {
                assert(t[i] == s[i - 1]);
            }
        }
        assert forall|i: int| 0 <= i < t.len() implies #[trigger] t[i].orders.len() > 0 by {
            if i < k {
                assert(t[i] == s[i]);
            } else if i > k {
                assert(t[i] == s[i - 1]);
            }
        }
        assert forall|i: int| 0 <= i < t.len() implies #[trigger] t[i].total <= u64::MAX by {
            if i < k {
                assert(t[i] == s[i]);
            } else if i > k {
                assert(t[i] == s[i - 1]);
            }
        }
        assert forall|i: int, j: int| 0 <= i < j < t.len() implies t[i].price.0 < t[j].price.0 by {
            if k < s.len() {
                assert(s[k].price.0 > o.price.0);
            }
            if i < k {
                assert(t[i] == s[i]);
            } else if i > k {
                assert(t[i] == s[i - 1]);
            }
            if j < k {
                assert(t[j] == s[j]);
            } else if j > k {
                assert(t[j] == s[j - 1]);
                if j - 1 > k {
                    assert(s[k].price.0 < s[j - 1].price.0);
                }
            }
        }
    }
}

/// Finds where a level at `p` stands or would be inserted.
fn find_lower_bound(levels: &Vec<PriceLevel>, p: Price) -> (i: usize)
    ensures
        i == lower_bound(side_view(levels@), p),
{
    let ghost sv = side_view(levels@);
    let mut i: usize = 0;
    proof {
        assert(sv.skip(0) =~= sv);
    }
    while i < levels.len() && levels[i].price.0 < p.0
        invariant
            i <= levels.len(),
            sv == side_view(levels@),
            lower_bound(sv, p) == i + lower_bound(sv.skip(i as int), p),
        decreases levels.len() - i,
    {
        proof {
            assert(sv.skip(i as int)[0] == levels@[i as int]@);
            assert(sv.skip(i as int).drop_first() =~= sv.skip(i + 1));
        }
        i = i + 1;
    }
    proof {
        if i < levels.len() {
            assert(sv.skip(i as int)[0] == levels@[i as int]@);
        }
    }
    i
}

fn insert_into_side(levels: &mut Vec<PriceLevel>, order: Order)
    requires
        insert_fits(side_view(old(levels)@), order),
    ensures
        side_view(final(levels)@) == insert_side(side_view(old(levels)@), order),
{
    let ghost sv = side_view(levels@);
    proof {
        lemma_lower_bound(sv, order.price);
    }
    let i = find_lower_bound(levels, order.price);
    if i < levels.len() && levels[i].price.0 == order.price.0 {
        let mut level = levels.remove(i);
        level.orders.push_back(order);
        level.total_qty = Qty(level.total_qty.0 + order.remaining.0);
        levels.insert(i, level);
        proof {
            assert(side_view(levels@) =~= insert_side(sv, order));
        }
    } else {
        let mut orders: VecDeque<Order> = VecDeque::with_capacity(INITIAL_ORDERS_PER_LEVEL);
        orders.push_back(order);
        levels.insert(i, PriceLevel { price: order.price, orders, total_qty: order.remaining });
        proof {
            assert(side_view(levels@) =~= insert_side(sv, order));
        }
    }
}

/// Index of the first order with id `id` in a queue, or -1.
pub open spec fn queue_find(orders: Seq<Order>, id: OrderId) -> int
    decreases orders.len(),
{
    if orders.len() == 0 {
        -1
    } else if orders[0].id == id {
        0
    } else {
        let r = queue_find(orders.drop_first(), id);
        if r < 0 {
            -1
        } else {
            r + 1
        }
    }
}

pub proof fn lemma_queue_find(orders: Seq<Order>, id: OrderId)
    ensures
        -1 <= queue_find(orders, id) < orders.len(),
        queue_find(orders, id) >= 0 ==> orders[queue_find(orders, id)].id == id,
        forall|j: int| 0 <= j < orders.len() && (queue_find(orders, id) < 0 || j < queue_find(orders, id))
            ==> #[trigger] orders[j].id != id,
    decreases orders.len(),
{
    if orders.len() > 0 && orders[0].id != id {
        lemma_queue_find(orders.drop_first(), id);
        assert forall|j: int| 0 <= j < orders.len() && (queue_find(orders, id) < 0 || j < queue_find(orders, id))
            implies #[trigger] orders[j].id != id by {
            if j > 0 {
                assert(orders[j] == orders.drop_first()[j - 1]);
            }
        }
    }
}

/// Index of the first level holding an order with id `id`, or -1.
pub open spec fn side_find(s: Seq<LevelModel>, id: OrderId) -> int
    decreases s.len(),
{
    if s.len() == 0 {
        -1
    } else if queue_find(s[0].orders, id) >= 0 {
        0
    } else {
        let r = side_find(s.drop_first(), id);
        if r < 0 {
            -1
        } else {
            r + 1
        }
    }
}

pub proof fn lemma_side_find(s: Seq<LevelModel>, id: OrderId)
    ensures
        -1 <= side_find(s, id) < s.len(),
        side_find(s, id) >= 0 ==> queue_find(s[side_find(s, id)].orders, id) >= 0,
        forall|j: int| 0 <= j < s.len() && (side_find(s, id) < 0 || j < side_find(s, id))
            ==> queue_find(#[trigger] s[j].orders, id) < 0,
    decreases s.len(),
{
    if s.len() > 0 && queue_find(s[0].orders, id) < 0 {
        lemma_side_find(s.drop_first(), id);
        assert forall|j: int| 0 <= j < s.len() && (side_find(s, id) < 0 || j < side_find(s, id))
            implies queue_find(#[trigger] s[j].orders, id) < 0 by {
            if j > 0 {
                assert(s[j] == s.drop_first()[j - 1]);
            }
        }
    }
}

/// The side after removing the first order with id `id`, and that order.
pub open spec fn cancel_side(s: Seq<LevelModel>, id: OrderId) -> (Seq<LevelModel>, Option<Order>) {
    let i = side_find(s, id);
    if i < 0 {
        (s, None)
    } else {
        let l = s[i];
        let k = queue_find(l.orders, id);
        let o = l.orders[k];
        let l2 = LevelModel { price: l.price, orders: l.orders.remove(k), total: l.total - o.remaining.0 };
        (if l2.orders.len() == 0 { s.remove(i) } else { s.update(i, l2) }, Some(o))
    }
}

pub proof fn lemma_cancel_side_wf(s: Seq<LevelModel>, id: OrderId)
    requires
        side_wf(s),
    ensures
        side_wf(cancel_side(s, id).0),
{
    lemma_side_find(s, id);
    let i = side_find(s, id);
    if i >= 0 {
        let l = s[i];
        lemma_queue_find(l.orders, id);
        let k = queue_find(l.orders, id);
        let o = l.orders[k];
        lemma_sum_remove(l.orders, k);
        let t = cancel_side(s, id).0;
        if l.orders.remove(k).len() == 0 {
            assert forall|a: int| 0 <= a < t.len() implies #[trigger] t[a].total == sum_remaining(t[a].orders) by {
                if a < i { assert(t[a] == s[a]); } else { assert(t[a] == s[a + 1]); }
            }
            assert forall|a: int| 0 <= a < t.len() implies #[trigger] t[a].orders.len() > 0 by {
                if a < i { assert(t[a] == s[a]); } else { assert(t[a] == s[a + 1]); }
            }
            assert forall|a: int| 0 <= a < t.len() implies #[trigger] all_at_price(t[a].orders, t[a].price) by {
                if a < i { assert(t[a] == s[a]); } else { assert(t[a] == s[a + 1]); }
            }
            assert forall|a: int| 0 <= a < t.len() implies #[trigger] t[a].total <= u64::MAX by {
                if a < i { assert(t[a] == s[a]); } else { assert(t[a] == s[a + 1]); }
            }
            assert forall|a: int, b: int| 0 <= a < b < t.len() implies t[a].price.0 < t[b].price.0 by {
                if a < i { assert(t[a] == s[a]); } else { assert(t[a] == s[a + 1]); }
                if b < i { assert(t[b] == s[b]); } else { assert(t[b] == s[b + 1]); }
            }
        } else {
            assert forall|a: int| 0 <= a < t.len() implies #[trigger] t[a].total == sum_remaining(t[a].orders) by {
                if a != i { assert(t[a] == s[a]); }
            }
            assert forall|a: int| 0 <= a < t.len() implies #[trigger] t[a].orders.len() > 0 by {
                if a != i { assert(t[a] == s[a]); }
            }
            assert forall|a: int| 0 <= a < t.len() implies #[trigger] all_at_price(t[a].orders, t[a].price) by {
                if a != i {
                    assert(t[a] == s[a]);
                } else {
                    let r = l.orders.remove(k);
                    assert(all_at_price(s[i].orders, s[i].price));
                    assert forall|m: int| 0 <= m < r.len() implies #[trigger] r[m].price == l.price by {
                        if m < k { assert(r[m] == l.orders[m]); } else { assert(r[m] == l.orders[m + 1]); }
                    }
                }
            }
            assert forall|a: int| 0 <= a < t.len() implies #[trigger] t[a].total <= u64::MAX by {
                if a != i { assert(t[a] == s[a]); }
            }
        }
    }
}

/// Locates the first order with id `id`: its level and queue position.
#[verifier::loop_isolation(false)]
fn find_order(levels: &Vec<PriceLevel>, id: OrderId) -> (r: Option<(usize, usize)>)
    ensures
        ({
            let sv = side_view(levels@);
            match r {
                Some((i, k)) => side_find(sv, id) == i && 0 <= i < sv.len() && queue_find(sv[i as int].orders, id) == k
                    && 0 <= k < sv[i as int].orders.len(),
                None => side_find(sv, id) < 0,
            }
        }),
{
    let ghost sv = side_view(levels@);
    proof {
        lemma_side_find(sv, id);
    }
    let mut i: usize = 0;
    while i < levels.len()
        invariant
            sv == side_view(levels@),
            i <= levels.len(),
            forall|j: int| 0 <= j < i ==> queue_find(#[trigger] sv[j].orders, id) < 0,
            -1 <= side_find(sv, id) < sv.len(),
            side_find(sv, id) >= 0 ==> queue_find(sv[side_find(sv, id)].orders, id) >= 0,
            forall|j: int| 0 <= j < sv.len() && (side_find(sv, id) < 0 || j < side_find(sv, id))
                ==> queue_find(#[trigger] sv[j].orders, id) < 0,
        decreases levels.len() - i,
    {
        let ghost ords = levels@[i as int].orders@;
        proof {
            lemma_queue_find(ords, id);
            assert(sv[i as int].orders == ords);
        }
        let mut k: usize = 0;
        let n = levels[i].orders.len();
        while k < n
            invariant
                n == ords.len(),
                ords == levels@[i as int].orders@,
                i < levels.len(),
                k <= n,
                forall|j: int| 0 <= j < k ==> #[trigger] ords[j].id != id,
            decreases n - k,
        {
            if levels[i].orders[k].id.0 == id.0 {
                proof {
                    if queue_find(ords, id) < 0 || queue_find(ords, id) > k {
                        assert(ords[k as int].id != id);
                    }
                    if queue_find(ords, id) < k {
                        assert(ords[queue_find(ords, id)].id != id);
                    }
                    if side_find(sv, id) < 0 || side_find(sv, id) > i {
                        assert(queue_find(sv[i as int].orders, id) < 0);
                    }
                    if side_find(sv, id) < i {
                        assert(queue_find(sv[side_find(sv, id)].orders, id) < 0);
                    }
                }
                return Some((i, k));
            }
            k = k + 1;
        }
        proof {
            if queue_find(ords, id) >= 0 {
                assert(ords[queue_find(ords, id)].id == id);
            }
        }
        i = i + 1;
    }
    proof {
        if side_find(sv, id) >= 0 {
            assert(queue_find(sv[side_find(sv, id)].orders, id) < 0);
        }
    }
    None
}

fn cancel_in_side(levels: &mut Vec<PriceLevel>, id: OrderId) -> (r: Option<Order>)
    requires
        side_wf(side_view(old(levels)@)),
    ensures
        (side_view(final(levels)@), r) == cancel_side(side_view(old(levels)@), id),
{
    let ghost sv = side_view(levels@);
    match find_order(levels, id) {
        None => None,
        Some((i, k)) => {
            let ghost ords = sv[i as int].orders;
            proof {
                lemma_sum_remove(ords, k as int);
                lemma_sum_ge_elem(ords, k as int);
                assert(levels@[i as int]@ == sv[i as int]);
                assert(sv[i as int].total == sum_remaining(sv[i as int].orders));
            }
            let mut level = levels.remove(i);
            let order = level.orders.remove(k).unwrap();
            level.total_qty = Qty(level.total_qty.0 - order.remaining.0);
            if level.orders.len() > 0 {
                levels.insert(i, level);
            }
            proof {
                assert(side_view(levels@) =~= cancel_side(sv, id).0);
            }
            Some(order)
        },
    }
}

/// One aggregated level as `l2_depth` reports it.
pub open spec fn level_summary(l: LevelModel) -> (Price, Qty, usize) {
    (l.price, Qty(l.total as u64), l.orders.len() as usize)
}

impl BookModel {
    pub open spec fn best_bid(self) -> Option<Price> {
        if self.bids.len() > 0 {
            Some(self.bids.last().price)
        } else {
            None
        }
    }

    pub open spec fn best_ask(self) -> Option<Price> {
        if self.asks.len() > 0 {
            Some(self.asks[0].price)
        } else {
            None
        }
    }

    pub open spec fn side(self, side: Side) -> Seq<LevelModel> {
        match side {
            Side::Bid => self.bids,
            Side::Ask => self.asks,
        }
    }

    pub open spec fn with_side(self, side: Side, levels: Seq<LevelModel>) -> BookModel {
        match side {
            Side::Bid => BookModel { bids: levels, ..self },
            Side::Ask => BookModel { asks: levels, ..self },
        }
    }

    /// The book after resting `o` at the back of its price level.
    pub open spec fn insert(self, o: Order) -> BookModel {
        self.with_side(o.side, insert_side(self.side(o.side), o))
    }

    pub open spec fn insert_fits(self, o: Order) -> bool {
        insert_fits(self.side(o.side), o)
    }

    /// The book after removing the first order with id `id`, searching the
    /// bids (lowest price first) before the asks, and the removed order.
    pub open spec fn cancel(self, id: OrderId) -> (BookModel, Option<Order>) {
        let (b, rb) = cancel_side(self.bids, id);
        if rb is Some {
            (BookModel { bids: b, ..self }, rb)
        } else {
            let (a, ra) = cancel_side(self.asks, id);
            (BookModel { asks: a, ..self }, ra)
        }
    }
}

/// A matching pass on a live book leaves it live and trades only positive
/// quantities; the taker keeps everything but its remaining quantity,
/// which does not grow.
pub proof fn lemma_match_live(b: BookModel, taker: Order, stp: Option<StpPolicy>)
    requires
        b.wf(),
        b.live(),
    ensures
        ({
            let out = match_opposite(b.opposite_of(taker.side), taker, stp);
            &&& b.with_opposite(taker.side, out.levels).live()
            &&& forall|i: int| 0 <= i < out.trades.len() ==> (#[trigger] out.trades[i]).qty.0 > 0
            &&& out.taker == with_remaining(taker, out.taker.remaining.0 as int)
            &&& out.taker.remaining.0 <= taker.remaining.0
        }),
{
    match taker.side {
        Side::Bid => {
            lemma_side_live(b.asks, taker, stp, Side::Ask);
            lemma_match_side_wf(b.asks, taker, stp, true);
        },
        Side::Ask => {
            lemma_live_reverse(b.bids, Side::Bid);
            lemma_side_live(b.bids.reverse(), taker, stp, Side::Bid);
            lemma_reverse_wf(b.bids, true);
            lemma_match_side_wf(b.bids.reverse(), taker, stp, false);
            let o = match_side(b.bids.reverse(), taker, stp);
            lemma_live_reverse(o.levels, Side::Bid);
        },
    }
}

/// Inserting an order that still has quantity keeps a live book live.
pub proof fn lemma_insert_live(b: BookModel, o: Order)
    requires
        b.live(),
        o.remaining.0 > 0,
    ensures
        b.insert(o).live(),
{
    let s = b.side(o.side);
    let t = insert_side(s, o);
    let k = lower_bound(s, o.price);
    lemma_lower_bound(s, o.price);
    assert(live_side(s, o.side));
    assert forall|i: int| 0 <= i < t.len() implies orders_live(#[trigger] t[i].orders, o.side) by {
        if has_level(s, o.price) {
            if i == k {
                assert(orders_live(s[k].orders, o.side));
                let q = s[k].orders.push(o);
                assert forall|m: int| 0 <= m < q.len() implies #[trigger] q[m].remaining.0 > 0 && q[m].side == o.side by {
                    if m < s[k].orders.len() {
                        assert(q[m] == s[k].orders[m]);
                    }
                }
            } else {
                assert(t[i] == s[i]);
            }
        } else {
            if i < k {
                assert(t[i] == s[i]);
            } else if i > k {
                assert(t[i] == s[i - 1]);
            } else {
                assert(t[i].orders == seq![o]);
            }
        }
    }
}

/// Cancelling an order keeps a live side live.
pub proof fn lemma_cancel_side_live(s: Seq<LevelModel>, id: OrderId, side: Side)
    requires
        live_side(s, side),
    ensures
        live_side(cancel_side(s, id).0, side),
{
    let i = side_find(s, id);
    lemma_side_find(s, id);
    if i >= 0 {
        let l = s[i];
        let k = queue_find(l.orders, id);
        lemma_queue_find(l.orders, id);
        let r = l.orders.remove(k);
        assert(orders_live(l.orders, side));
        assert(orders_live(r, side)) by {
            assert forall|m: int| 0 <= m < r.len() implies #[trigger] r[m].remaining.0 > 0 && r[m].side == side by {
                if m < k {
                    assert(r[m] == l.orders[m]);
                } else {
                    assert(r[m] == l.orders[m + 1]);
                }
            }
        }
        let t = cancel_side(s, id).0;
        assert forall|j: int| 0 <= j < t.len() implies orders_live(#[trigger] t[j].orders, side) by {
            if r.len() == 0 {
                if j < i {
                    assert(t[j] == s[j]);
                } else {
                    assert(t[j] == s[j + 1]);
                }
            } else if j != i {
                assert(t[j] == s[j]);
            }
        }
    }
}

/// Cancelling an order keeps a live book live.
pub proof fn lemma_cancel_live(b: BookModel, id: OrderId)
    requires
        b.live(),
    ensures
        b.cancel(id).0.live(),
{
    lemma_cancel_side_live(b.bids, id, Side::Bid);
    lemma_cancel_side_live(b.asks, id, Side::Ask);
}

impl OrderBook {
    pub fn new() -> (r: Self)
        ensures
            r@.bids.len() == 0,
            r@.asks.len() == 0,
            r.wf(),
    {
        OrderBook { bids: Vec::new(), asks: Vec::new() }
    }

    /// The highest bid price.
    pub fn best_bid(&self) -> (r: Option<Price>)
        ensures
            r == self@.best_bid(),
    {
        if self.bids.len() > 0 {
            Some(self.bids[self.bids.len() - 1].price)
        } else {
            None
        }
    }

    /// The lowest ask price.
    pub fn best_ask(&self) -> (r: Option<Price>)
        ensures
            r == self@.best_ask(),
    {
        if self.asks.len() > 0 {
            Some(self.asks[0].price)
        } else {
            None
        }
    }

    /// Top of book: best bid and best ask with their aggregate quantity.
    pub fn l1_bbo(&self) -> (r: (Option<L1Level>, Option<L1Level>))
        ensures
            r.0 == (if self@.bids.len() > 0 {
                Some((self@.bids.last().price, Qty(self@.bids.last().total as u64)))
            } else {
                None
            }),
            r.1 == (if self@.asks.len() > 0 {
                Some((self@.asks[0].price, Qty(self@.asks[0].total as u64)))
            } else {
                None
            }),
            self.wf() && self@.bids.len() > 0 ==> r.0.unwrap().1.0 == sum_remaining(self@.bids.last().orders),
            self.wf() && self@.asks.len() > 0 ==> r.1.unwrap().1.0 == sum_remaining(self@.asks[0].orders),
    {
        let bid = if self.bids.len() > 0 {
            let l = &self.bids[self.bids.len() - 1];
            Some((l.price, l.total_qty))
        } else {
            None
        };
        let ask = if self.asks.len() > 0 {
            let l = &self.asks[0];
            Some((l.price, l.total_qty))
        } else {
            None
        };
        (bid, ask)
    }

    /// Price-level aggregation: up to `depth` bid levels from the highest
    /// price down and up to `depth` ask levels from the lowest price up.
    pub fn l2_depth(&self, depth: usize) -> (r: (Vec<L2Level>, Vec<L2Level>))
        ensures
            r.0@.len() == min_int(depth as int, self@.bids.len() as int),
            forall|j: int| 0 <= j < r.0@.len()
                ==> #[trigger] r.0@[j] == level_summary(self@.bids[self@.bids.len() - 1 - j]),
            r.1@.len() == min_int(depth as int, self@.asks.len() as int),
            forall|j: int| 0 <= j < r.1@.len() ==> #[trigger] r.1@[j] == level_summary(self@.asks[j]),
            self.wf() ==> forall|j: int| 0 <= j < r.0@.len()
                ==> (#[trigger] r.0@[j]).1.0 == sum_remaining(self@.bids[self@.bids.len() - 1 - j].orders),
            self.wf() ==> forall|j: int| 0 <= j < r.1@.len()
                ==> (#[trigger] r.1@[j]).1.0 == sum_remaining(self@.asks[j].orders),
            forall|j: int| 0 <= j < r.0@.len()
                ==> (#[trigger] r.0@[j]).2 == self@.bids[self@.bids.len() - 1 - j].orders.len(),
            forall|j: int| 0 <= j < r.1@.len() ==> (#[trigger] r.1@[j]).2 == self@.asks[j].orders.len(),
    {
        let mut bids: Vec<L2Level> = Vec::new();
        let nb = self.bids.len();
        let mut j: usize = 0;
        while j < depth && j < nb
            invariant
                nb == self.bids@.len(),
                j <= nb,
                j <= depth,
                bids@.len() == j,
                forall|t: int| 0 <= t < j ==> #[trigger] bids@[t] == level_summary(self@.bids[nb - 1 - t]),
                forall|t: int| 0 <= t < j ==> (#[trigger] bids@[t]).2 == self@.bids[nb - 1 - t].orders.len(),
            decreases nb - j,
        {
            let l = &self.bids[nb - 1 - j];
            bids.push((l.price, l.total_qty, l.orders.len()));
            j = j + 1;
        }
        let mut asks: Vec<L2Level> = Vec::new();
        let na = self.asks.len();
        let mut j: usize = 0;
        while j < depth && j < na
            invariant
                na == self.asks@.len(),
                j <= na,
                j <= depth,
                asks@.len() == j,
                forall|t: int| 0 <= t < j ==> #[trigger] asks@[t] == level_summary(self@.asks[t]),
                forall|t: int| 0 <= t < j ==> (#[trigger] asks@[t]).2 == self@.asks[t].orders.len(),
            decreases na - j,
        {
            let l = &self.asks[j];
            asks.push((l.price, l.total_qty, l.orders.len()));
            j = j + 1;
        }
        (bids, asks)
    }

    /// Order-by-order view of the level at `price` on `side`, in queue order.
    pub fn l3_orders_at(&self, price: Price, side: Side) -> (r: Vec<&Order>)
        ensures
            ({
                let s = self@.side(side);
                &&& has_level(s, price) ==> r@.len() == s[lower_bound(s, price)].orders.len()
                    && forall|j: int| 0 <= j < r@.len()
                        ==> *#[trigger] r@[j] == s[lower_bound(s, price)].orders[j]
                &&& !has_level(s, price) ==> r@.len() == 0
            }),
    {
        let levels = match side {
            Side::Bid => &self.bids,
            Side::Ask => &self.asks,
        };
        let i = find_lower_bound(levels, price);
        let mut r: Vec<&Order> = Vec::new();
        if i < levels.len() && levels[i].price.0 == price.0 {
            let level = &levels[i];
            let n = level.orders.len();
            let mut k: usize = 0;
            while k < n
                invariant
                    n == level.orders@.len(),
                    k <= n,
                    r@.len() == k,
                    forall|j: int| 0 <= j < k ==> *#[trigger] r@[j] == level.orders@[j],
                decreases n - k,
            {
                r.push(&level.orders[k]);
                k = k + 1;
            }
        }
        r
    }

    /// Rests `order` at the back of the queue at its price on its side.
    pub fn insert_order(&mut self, order: Order)
        requires
            old(self).wf(),
            old(self)@.insert_fits(order),
        ensures
            final(self).wf(),
            final(self)@ == old(self)@.insert(order),
    {
        proof {
            lemma_insert_side_wf(self@.side(order.side), order);
        }
        match order.side {
            Side::Bid => insert_into_side(&mut self.bids, order),
            Side::Ask => insert_into_side(&mut self.asks, order),
        }
    }

    /// Removes the first order with id `id` (bids searched before asks,
    /// lower prices first, queue order within a level).
    pub fn cancel_order(&mut self, id: OrderId) -> (r: Option<Order>)
        requires
            old(self).wf(),
        ensures
            final(self).wf(),
            (final(self)@, r) == old(self)@.cancel(id),
    {
        proof {
            lemma_cancel_side_wf(self@.bids, id);
            lemma_cancel_side_wf(self@.asks, id);
        }
        let r = cancel_in_side(&mut self.bids, id);
        if r.is_some() {
            return r;
        }
        cancel_in_side(&mut self.asks, id)
    }

    /// Like `cancel_order`, also returning the cancelled order's account.
    pub fn cancel_order_with_account(&mut self, id: OrderId) -> (r: Option<(Order, AccountId)>)
        requires
            old(self).wf(),
        ensures
            final(self).wf(),
            final(self)@ == old(self)@.cancel(id).0,
            r == (match old(self)@.cancel(id).1 {
                Some(o) => Some((o, o.account)),
                None => None,
            }),
    {
        match self.cancel_order(id) {
            Some(order) => {
                let account = order.account;
                Some((order, account))
            },
            None => None,
        }
    }

    /// `l2_depth`'s bid levels followed by its ask levels.
    pub fn l2_snapshot(&self, depth: usize) -> (r: Vec<(Price, Qty, usize)>)
        ensures
            ({
                let nb = min_int(depth as int, self@.bids.len() as int);
                let na = min_int(depth as int, self@.asks.len() as int);
                &&& r@.len() == nb + na
                &&& forall|j: int| 0 <= j < nb ==> #[trigger] r@[j] == level_summary(self@.bids[self@.bids.len() - 1 - j])
                &&& forall|j: int| nb <= j < nb + na ==> #[trigger] r@[j] == level_summary(self@.asks[j - nb])
            }),
    {
        let (bids, mut asks) = self.l2_depth(depth);
        let mut result = bids;
        result.append(&mut asks);
        result
    }
}

impl Default for OrderBook {
    fn default() -> (r: Self)
        ensures
            r@.bids.len() == 0,
            r@.asks.len() == 0,
    {
        Self::new()
    }
}

} // verus!
