//! Properties of the order book, the engine and the log that hold for
//! every input: what matching may and may not do, what a cancel undoes,
//! what expiry keeps, and what a log gives back.
use vstd::prelude::*;
use crate::book::{
    BookModel, LevelModel, match_side, match_queue, crosses, side_wf, lemma_match_side_wf, all_at_price, sum_remaining, with_remaining,
    min_int, lemma_match_queue_wf, lower_bound, lemma_lower_bound, has_level, insert_side,
    insert_fits, queue_find, side_find, lemma_side_find, cancel_side, lemma_insert_side_wf, lemma_queue_find,
    lemma_cancel_side_wf, lemma_sum_remove, levels_wf, ordered, best_first, match_opposite, lemma_reverse_wf,
    lemma_levels_wf_skip, lemma_match_live,
};
use crate::types::{Order, OrderType, StpPolicy, Trade, Price, Side, RejectReason, RiskResult};
use crate::svm::{SvmModel, SvmStep, SvmOutcome, SvmError, spec_op, svm_run, svm_init};
use crate::engine::{expire_side, expires, surviving, lemma_surviving_members, count_orders, EngineModel, EngineParams, submit, match_outcome, stamped, crosses_on_arrival, is_day_rejected, risk_verdict};
use crate::wal::{WalEvent, event_bytes, sealed, log_bytes, wal_events, decode_event, lemma_event_roundtrip};

verus! {

/// The total quantity of a sequence of trades.
pub open spec fn traded_qty(trades: Seq<Trade>) -> int
    decreases trades.len(),
{
    if trades.len() == 0 {
        0
    } else {
        trades[0].qty.0 + traded_qty(trades.drop_first())
    }
}

/// The quantity resting on one side of the book.
pub open spec fn resting_qty(levels: Seq<LevelModel>) -> int
    decreases levels.len(),
{
    if levels.len() == 0 {
        0
    } else {
        sum_remaining(levels[0].orders) + resting_qty(levels.drop_first())
    }
}

proof fn lemma_traded_qty_nonneg(trades: Seq<Trade>)
    ensures
        traded_qty(trades) >= 0,
    decreases trades.len(),
{
    if trades.len() > 0 {
        lemma_traded_qty_nonneg(trades.drop_first());
    }
}

pub proof fn lemma_traded_qty_concat(a: Seq<Trade>, b: Seq<Trade>)
    ensures
        traded_qty(a + b) == traded_qty(a) + traded_qty(b),
    decreases a.len(),
{
    if a.len() == 0 {
        assert(a + b =~= b);
    } else {
        assert((a + b).drop_first() =~= a.drop_first() + b);
        lemma_traded_qty_concat(a.drop_first(), b);
    }
}

proof fn lemma_resting_qty_cons(l: LevelModel, rest: Seq<LevelModel>)
    ensures
        resting_qty(seq![l] + rest) == sum_remaining(l.orders) + resting_qty(rest),
{
    assert((seq![l] + rest).drop_first() =~= rest);
}

/// Trades out of one queue whose orders all rest at `p` are all at `p`.
proof fn lemma_queue_trades_at(orders: Seq<Order>, total: int, taker: Order, stp: Option<StpPolicy>, p: Price)
    requires
        all_at_price(orders, p),
    ensures
        forall|i: int| 0 <= i < match_queue(orders, total, taker, stp).trades.len()
            ==> (#[trigger] match_queue(orders, total, taker, stp).trades[i]).price == p,
    decreases orders.len(),
{
    if orders.len() == 0 || taker.remaining.0 == 0 {
    } else {
        let maker = orders[0];
        assert(maker.price == p);
        assert(all_at_price(orders.drop_first(), p)) by {
            assert forall|k: int| 0 <= k < orders.drop_first().len() implies #[trigger] orders.drop_first()[k].price == p by {
                assert(orders.drop_first()[k] == orders[k + 1]);
            }
        }
        if stp is Some && maker.account == taker.account {
            match stp->0 {
                StpPolicy::CancelPassive => {
                    lemma_queue_trades_at(orders.drop_first(), total - maker.remaining.0, taker, stp, p);
                },
                StpPolicy::CancelAggressive => {},
                StpPolicy::DecrementAndCancel => {},
            }
        } else {
            let fill = min_int(maker.remaining.0 as int, taker.remaining.0 as int);
            let maker2 = with_remaining(maker, maker.remaining.0 - fill);
            let taker2 = with_remaining(taker, taker.remaining.0 - fill);
            if maker2.remaining.0 == 0 {
                lemma_queue_trades_at(orders.drop_first(), total - fill, taker2, stp, p);
                let rest = match_queue(orders.drop_first(), total - fill, taker2, stp);
                let all = match_queue(orders, total, taker, stp).trades;
                assert forall|i: int| 0 <= i < all.len() implies (#[trigger] all[i]).price == p by {
                    if i > 0 {
                        assert(all[i] == rest.trades[i - 1]);
                    }
                }
            }
        }
    }
}

/// A matching pass never trades through the taker's limit: every trade is
/// at a price the taker's limit crosses, so a bid never pays more than its
/// limit and an ask never sells for less. Market orders are held to their
/// price the same way (they skip the levels it does not cross).
pub proof fn law_trades_respect_limit(levels: Seq<LevelModel>, taker: Order, stp: Option<StpPolicy>)
    requires
        levels_wf(levels),
    ensures
        forall|i: int| 0 <= i < match_side(levels, taker, stp).trades.len()
            ==> crosses(taker, (#[trigger] match_side(levels, taker, stp).trades[i]).price),
    decreases levels.len(),
{
    if levels.len() == 0 || taker.remaining.0 == 0 {
    } else {
        let l = levels[0];
        let rest_in = levels.drop_first();
        lemma_levels_wf_skip(levels, 1);
        assert(levels.skip(1) =~= rest_in);
        let out = match_side(levels, taker, stp);
        if !crosses(taker, l.price) && taker.order_type != OrderType::Market {
        } else if !crosses(taker, l.price) {
            law_trades_respect_limit(rest_in, taker, stp);
        } else {
            assert(all_at_price(levels[0].orders, levels[0].price));
            lemma_queue_trades_at(l.orders, l.total, taker, stp, l.price);
            lemma_match_queue_wf(l.orders, l.total, taker, stp);
            let q = match_queue(l.orders, l.total, taker, stp);
            law_trades_respect_limit(rest_in, q.taker, stp);
            let rest = match_side(rest_in, q.taker, stp);
            assert(out.trades == q.trades + rest.trades);
            assert forall|i: int| 0 <= i < out.trades.len() implies crosses(taker, (#[trigger] out.trades[i]).price) by {
                if i < q.trades.len() {
                    assert(out.trades[i] == q.trades[i]);
                } else {
                    assert(out.trades[i] == rest.trades[i - q.trades.len()]);
                    assert(crosses(q.taker, rest.trades[i - q.trades.len()].price));
                }
            }
        }
    }
}

/// Without self-trade prevention, one queue conserves quantity: what the
/// taker gives up is traded, and the queue loses exactly what is traded.
proof fn lemma_queue_conserves(orders: Seq<Order>, total: int, taker: Order)
    ensures
        ({
            let q = match_queue(orders, total, taker, None);
            &&& traded_qty(q.trades) + q.taker.remaining.0 == taker.remaining.0
            &&& sum_remaining(q.orders) + traded_qty(q.trades) == sum_remaining(orders)
        }),
    decreases orders.len(),
{
    if orders.len() == 0 || taker.remaining.0 == 0 {
    } else {
        let maker = orders[0];
        let fill = min_int(maker.remaining.0 as int, taker.remaining.0 as int);
        let maker2 = with_remaining(maker, maker.remaining.0 - fill);
        let taker2 = with_remaining(taker, taker.remaining.0 - fill);
        let q = match_queue(orders, total, taker, None);
        let trade_seq = q.trades;
        assert(maker2.remaining.0 == maker.remaining.0 - fill);
        assert(taker2.remaining.0 == taker.remaining.0 - fill);
        assert(sum_remaining(orders) == maker.remaining.0 + sum_remaining(orders.drop_first()));
        if maker2.remaining.0 == 0 {
            lemma_queue_conserves(orders.drop_first(), total - fill, taker2);
            let rest = match_queue(orders.drop_first(), total - fill, taker2, None);
            assert(trade_seq[0].qty.0 == fill);
            assert(trade_seq.drop_first() =~= rest.trades);
            assert(traded_qty(trade_seq) == fill + traded_qty(rest.trades));
            assert(q.orders == rest.orders);
            assert(q.taker == rest.taker);
        } else {
            let u = orders.update(0, maker2);
            assert(u.drop_first() =~= orders.drop_first());
            assert(q.orders == u);
            assert(sum_remaining(u) == maker2.remaining.0 + sum_remaining(orders.drop_first()));
            assert(trade_seq[0].qty.0 == fill);
            assert(trade_seq.len() == 1);
            assert(trade_seq.drop_first() =~= Seq::<Trade>::empty());
            assert(traded_qty(Seq::<Trade>::empty()) == 0);
            assert(traded_qty(trade_seq) == fill);
            assert(q.taker == taker2);
        }
    }
}

/// Without self-trade prevention a matching pass conserves quantity: the
/// traded quantity plus what the taker has left is what it brought, and
/// the opposite side loses exactly the traded quantity.
pub proof fn law_matching_conserves_quantity(levels: Seq<LevelModel>, taker: Order)
    ensures
        ({
            let out = match_side(levels, taker, None);
            &&& traded_qty(out.trades) + out.taker.remaining.0 == taker.remaining.0
            &&& resting_qty(out.levels) + traded_qty(out.trades) == resting_qty(levels)
        }),
    decreases levels.len(),
{
    if levels.len() == 0 || taker.remaining.0 == 0 {
    } else {
        let l = levels[0];
        let rest_in = levels.drop_first();
        let out = match_side(levels, taker, None);
        if !crosses(taker, l.price) && taker.order_type != OrderType::Market {
        } else if !crosses(taker, l.price) {
            law_matching_conserves_quantity(rest_in, taker);
            let rest = match_side(rest_in, taker, None);
            lemma_resting_qty_cons(l, rest.levels);
        } else {
            lemma_queue_conserves(l.orders, l.total, taker);
            let q = match_queue(l.orders, l.total, taker, None);
            law_matching_conserves_quantity(rest_in, q.taker);
            let rest = match_side(rest_in, q.taker, None);
            lemma_traded_qty_concat(q.trades, rest.trades);
            let l2 = LevelModel { price: l.price, orders: q.orders, total: q.total };
            if q.orders.len() == 0 {
                assert(Seq::<LevelModel>::empty() + rest.levels =~= rest.levels);
            } else {
                lemma_resting_qty_cons(l2, rest.levels);
            }
        }
    }
}

proof fn lemma_queue_find_push(orders: Seq<Order>, o: Order)
    requires
        queue_find(orders, o.id) < 0,
    ensures
        queue_find(orders.push(o), o.id) == orders.len(),
    decreases orders.len(),
{
    if orders.len() == 0 {
        assert(orders.push(o)[0] == o);
    } else {
        assert(orders.push(o)[0] == orders[0]);
        assert(orders.push(o).drop_first() =~= orders.drop_first().push(o));
        lemma_queue_find_push(orders.drop_first(), o);
    }
}

proof fn lemma_side_find_at(t: Seq<LevelModel>, id: crate::types::OrderId, k: int)
    requires
        0 <= k < t.len(),
        forall|j: int| 0 <= j < k ==> queue_find(#[trigger] t[j].orders, id) < 0,
        queue_find(t[k].orders, id) >= 0,
    ensures
        side_find(t, id) == k,
    decreases k,
{
    if k > 0 {
        assert(queue_find(t[0].orders, id) < 0);
        let d = t.drop_first();
        assert forall|j: int| 0 <= j < k - 1 implies queue_find(#[trigger] d[j].orders, id) < 0 by {
            assert(d[j] == t[j + 1]);
        }
        assert(d[k - 1] == t[k]);
        lemma_side_find_at(d, id, k - 1);
    }
}

/// On one side: cancelling an order just inserted, whose id no other order
/// has, gives back the side as it was, and the order.
proof fn lemma_side_insert_cancel(s: Seq<LevelModel>, o: Order)
    requires
        side_wf(s),
        insert_fits(s, o),
        side_find(s, o.id) < 0,
    ensures
        cancel_side(insert_side(s, o), o.id) == (s, Some(o)),
{
    lemma_lower_bound(s, o.price);
    lemma_side_find(s, o.id);
    let k = lower_bound(s, o.price);
    let t = insert_side(s, o);
    if has_level(s, o.price) {
        assert(queue_find(s[k].orders, o.id) < 0);
        lemma_queue_find_push(s[k].orders, o);
        assert forall|j: int| 0 <= j < k implies queue_find(#[trigger] t[j].orders, o.id) < 0 by {
            assert(t[j] == s[j]);
        }
        lemma_side_find_at(t, o.id, k);
        let n = s[k].orders.len() as int;
        assert(t[k].orders[n] == o);
        assert(s[k].orders.push(o).remove(n) =~= s[k].orders);
        let l2 = LevelModel { price: t[k].price, orders: t[k].orders.remove(n), total: t[k].total - o.remaining.0 };
        assert(l2 == s[k]);
        assert(t.update(k, l2) =~= s);
    } else {
        assert forall|j: int| 0 <= j < k implies queue_find(#[trigger] t[j].orders, o.id) < 0 by {
            assert(t[j] == s[j]);
        }
        assert(t[k].orders == seq![o]);
        assert(queue_find(seq![o], o.id) == 0);
        lemma_side_find_at(t, o.id, k);
        assert(seq![o].remove(0) =~= Seq::<Order>::empty());
        assert(t.remove(k) =~= s);
    }
}

/// Cancelling an order right after resting it undoes the insert: when no
/// resting order has its id, the book comes back exactly as it was and the
/// cancel returns the order.
pub proof fn law_cancel_undoes_insert(b: BookModel, o: Order)
    requires
        b.wf(),
        b.insert_fits(o),
        b.cancel(o.id).1 is None,
    ensures
        b.insert(o).cancel(o.id) == (b, Some(o)),
{
    lemma_side_find(b.bids, o.id);
    lemma_side_find(b.asks, o.id);
    assert(side_find(b.bids, o.id) < 0);
    assert(side_find(b.asks, o.id) < 0);
    lemma_side_insert_cancel(b.side(o.side), o);
    match o.side {
        crate::types::Side::Bid => {
            assert(b.insert(o).cancel(o.id).0 =~= b);
        },
        crate::types::Side::Ask => {
            assert(b.insert(o).cancel(o.id).0 =~= b);
        },
    }
}

/// Whether `o` rests in a level at price `p` of `levels`.
pub open spec fn rests_at(levels: Seq<LevelModel>, o: Order, p: Price) -> bool {
    exists|j: int| #![trigger levels[j]] 0 <= j < levels.len() && levels[j].price == p && levels[j].orders.contains(o)
}

proof fn lemma_expiry_removes(s: Seq<LevelModel>, session_end: u64)
    ensures
        forall|i: int, k: int| 0 <= i < expire_side(s, session_end).len() && 0 <= k < expire_side(s, session_end)[i].orders.len()
            ==> !expires(#[trigger] expire_side(s, session_end)[i].orders[k], session_end),
    decreases s.len(),
{
    if s.len() > 0 {
        let d = s.drop_last();
        lemma_expiry_removes(d, session_end);
        let prev = expire_side(d, session_end);
        let l = s.last();
        let kept = surviving(l.orders, session_end);
        lemma_surviving_members(l.orders, session_end);
        let out = expire_side(s, session_end);
        assert forall|i: int, k: int| 0 <= i < out.len() && 0 <= k < out[i].orders.len()
            implies !expires(#[trigger] out[i].orders[k], session_end) by {
            if i < prev.len() {
                assert(out[i] == prev[i]);
            } else {
                assert(out[i].orders == kept);
                assert(kept[k] == out[i].orders[k]);
            }
        }
    }
}

proof fn lemma_expiry_keeps(s: Seq<LevelModel>, session_end: u64)
    ensures
        forall|i: int, k: int| 0 <= i < s.len() && 0 <= k < s[i].orders.len() && !expires(#[trigger] s[i].orders[k], session_end)
            ==> rests_at(expire_side(s, session_end), s[i].orders[k], s[i].price),
    decreases s.len(),
{
    if s.len() > 0 {
        let d = s.drop_last();
        lemma_expiry_keeps(d, session_end);
        let prev = expire_side(d, session_end);
        let l = s.last();
        let kept = surviving(l.orders, session_end);
        lemma_surviving_members(l.orders, session_end);
        let out = expire_side(s, session_end);
        let nl = LevelModel { price: l.price, orders: kept, total: sum_remaining(kept) };
        assert forall|i: int, k: int| 0 <= i < s.len() && 0 <= k < s[i].orders.len()
            && !expires(#[trigger] s[i].orders[k], session_end) implies rests_at(out, s[i].orders[k], s[i].price) by {
            if i < s.len() - 1 {
                assert(s[i] == d[i]);
                assert(d[i].orders[k] == s[i].orders[k]);
                assert(rests_at(prev, d[i].orders[k], d[i].price));
                let j = choose|j: int| #![trigger prev[j]] 0 <= j < prev.len() && prev[j].price == d[i].price
                    && prev[j].orders.contains(d[i].orders[k]);
                assert(out[j] == prev[j]);
            } else {
                assert(s[i] == l);
                assert(kept.contains(l.orders[k]));
                assert(out == prev.push(nl));
                assert(out[prev.len() as int] == nl);
            }
        }
    }
}

proof fn lemma_expiry_invents_nothing(s: Seq<LevelModel>, session_end: u64)
    ensures
        forall|i: int, k: int| 0 <= i < expire_side(s, session_end).len() && 0 <= k < expire_side(s, session_end)[i].orders.len()
            ==> rests_at(s, #[trigger] expire_side(s, session_end)[i].orders[k], expire_side(s, session_end)[i].price),
    decreases s.len(),
{
    if s.len() > 0 {
        let d = s.drop_last();
        lemma_expiry_invents_nothing(d, session_end);
        let prev = expire_side(d, session_end);
        let l = s.last();
        let kept = surviving(l.orders, session_end);
        lemma_surviving_members(l.orders, session_end);
        let out = expire_side(s, session_end);
        assert forall|i: int, k: int| 0 <= i < out.len() && 0 <= k < out[i].orders.len()
            implies rests_at(s, #[trigger] out[i].orders[k], out[i].price) by {
            if i < prev.len() {
                assert(out[i] == prev[i]);
                assert(out[i].orders[k] == prev[i].orders[k]);
                assert(rests_at(d, prev[i].orders[k], prev[i].price));
                let j = choose|j: int| #![trigger d[j]] 0 <= j < d.len() && d[j].price == prev[i].price
                    && d[j].orders.contains(prev[i].orders[k]);
                assert(s[j] == d[j]);
            } else {
                assert(out[i].orders == kept);
                assert(out[i].price == l.price);
                assert(kept[k] == out[i].orders[k]);
                assert(l.orders.contains(kept[k]));
                assert(s[s.len() - 1] == l);
            }
        }
    }
}

/// Expiry removes exactly the DAY orders stamped before the session end:
/// none of them is left resting, every other order still rests at the same
/// price, and no order appears that was not resting before.
pub proof fn law_expiry_keeps_exactly_live_orders(s: Seq<LevelModel>, session_end: u64)
    ensures
        ({
            let out = expire_side(s, session_end);
            &&& forall|i: int, k: int| 0 <= i < out.len() && 0 <= k < out[i].orders.len()
                ==> !expires(#[trigger] out[i].orders[k], session_end)
            &&& forall|i: int, k: int| 0 <= i < s.len() && 0 <= k < s[i].orders.len()
                && !expires(#[trigger] s[i].orders[k], session_end) ==> rests_at(out, s[i].orders[k], s[i].price)
            &&& forall|i: int, k: int| 0 <= i < out.len() && 0 <= k < out[i].orders.len()
                ==> rests_at(s, #[trigger] out[i].orders[k], out[i].price)
        }),
{
    lemma_expiry_removes(s, session_end);
    lemma_expiry_keeps(s, session_end);
    lemma_expiry_invents_nothing(s, session_end);
}

proof fn lemma_event_bytes_len(e: WalEvent)
    ensures
        event_bytes(e).len() == 80,
{
}

/// The slot of each event sits at its position in the log bytes.
proof fn lemma_log_bytes_slots(events: Seq<WalEvent>)
    ensures
        log_bytes(events).len() == events.len() * 80,
        forall|i: int| 0 <= i < events.len() ==> #[trigger] log_bytes(events).subrange(i * 80, i * 80 + 80)
            == event_bytes(events[i]),
    decreases events.len(),
{
    if events.len() > 0 {
        let d = events.drop_last();
        lemma_log_bytes_slots(d);
        lemma_event_bytes_len(events.last());
        let b = log_bytes(events);
        assert(b == log_bytes(d) + event_bytes(events.last()));
        assert forall|i: int| 0 <= i < events.len() implies #[trigger] b.subrange(i * 80, i * 80 + 80)
            == event_bytes(events[i]) by {
            if i < d.len() {
                assert(b.subrange(i * 80, i * 80 + 80) =~= log_bytes(d).subrange(i * 80, i * 80 + 80));
                assert(events[i] == d[i]);
            } else {
                assert(b.subrange(i * 80, i * 80 + 80) =~= event_bytes(events.last()));
            }
        }
    }
}

/// Whether the 80 bytes at `pos` are the slot of the sealed event `e`.
#[verifier::opaque]
spec fn slot_holds(data: Seq<u8>, pos: int, e: WalEvent) -> bool {
    data.subrange(pos, pos + 80) == event_bytes(e) && sealed(e)
}

/// A slot holding a sealed event reads back as that event, and reading
/// goes on after it.
proof fn lemma_read_one(data: Seq<u8>, pos: int, e: WalEvent)
    requires
        0 <= pos,
        pos + 80 <= data.len(),
        slot_holds(data, pos, e),
    ensures
        wal_events(data, pos) == seq![e] + wal_events(data, pos + 80),
{
    reveal(slot_holds);
    lemma_event_roundtrip(e);
}

/// Reading slot after slot from `pos` over the slots of sealed events
/// gives those events.
proof fn lemma_read_slots(data: Seq<u8>, pos: int, events: Seq<WalEvent>)
    requires
        0 <= pos,
        data.len() == pos + events.len() * 80,
        forall|i: int| 0 <= i < events.len() ==> slot_holds(data, pos + i * 80, #[trigger] events[i]),
    ensures
        wal_events(data, pos) == events,
    decreases events.len(),
{
    if events.len() == 0 {
        assert(wal_events(data, pos) =~= events);
    } else {
        assert(slot_holds(data, pos + 0 * 80, events[0]));
        assert(pos + 0 * 80 == pos);
        lemma_read_one(data, pos, events[0]);
        let rest = events.drop_first();
        assert forall|i: int| 0 <= i < rest.len() implies slot_holds(data, pos + 80 + i * 80, #[trigger] rest[i]) by {
            assert(rest[i] == events[i + 1]);
            assert(slot_holds(data, pos + (i + 1) * 80, events[i + 1]));
            assert(pos + (i + 1) * 80 == pos + 80 + i * 80);
        }
        lemma_read_slots(data, pos + 80, rest);
        assert(seq![events[0]] + rest =~= events);
    }
}

/// A log reads back what was written to it: after any header, the slots of
/// sealed events (every event the constructors make is sealed) are read
/// back as exactly those events, in order.
pub proof fn law_log_reads_back_events(header: Seq<u8>, events: Seq<WalEvent>)
    requires
        forall|i: int| 0 <= i < events.len() ==> sealed(#[trigger] events[i]),
    ensures
        wal_events(header + log_bytes(events), header.len() as int) == events,
{
    lemma_log_bytes_slots(events);
    let data = header + log_bytes(events);
    let pos = header.len() as int;
    assert forall|i: int| 0 <= i < events.len() implies slot_holds(data, pos + i * 80, #[trigger] events[i]) by {
        reveal(slot_holds);
        assert(data.subrange(pos + i * 80, pos + i * 80 + 80) =~= log_bytes(events).subrange(i * 80, i * 80 + 80));
    }
    lemma_read_slots(data, pos, events);
}

/// The resting orders a taker meets, in the order a matching pass visits
/// them: levels in the order given (up to the first one a priced order
/// does not cross; a market order passes over those), and each level's
/// queue oldest first.
pub open spec fn visit_order(levels: Seq<LevelModel>, taker: Order) -> Seq<Order>
    decreases levels.len(),
{
    if levels.len() == 0 {
        seq![]
    } else if !crosses(taker, levels[0].price) && taker.order_type != OrderType::Market {
        seq![]
    } else if !crosses(taker, levels[0].price) {
        visit_order(levels.drop_first(), taker)
    } else {
        levels[0].orders + visit_order(levels.drop_first(), taker)
    }
}

/// Without self-trade prevention, one queue trades front first: the i-th
/// trade is against the i-th order, each filled completely except where
/// the taker ran out.
proof fn lemma_queue_fifo(orders: Seq<Order>, total: int, taker: Order)
    ensures
        ({
            let q = match_queue(orders, total, taker, None);
            &&& q.trades.len() <= orders.len()
            &&& forall|i: int| 0 <= i < q.trades.len() ==> (#[trigger] q.trades[i]).maker_id == orders[i].id
            &&& forall|i: int| 0 <= i < q.trades.len() ==> (#[trigger] q.trades[i]).price == orders[i].price
            &&& forall|i: int| 0 <= i < q.trades.len() ==> (#[trigger] q.trades[i]).qty.0 == orders[i].remaining.0
                || (i == q.trades.len() - 1 && q.taker.remaining.0 == 0)
            &&& q.orders.len() == 0 ==> q.trades.len() == orders.len()
            &&& q.orders.len() > 0 ==> q.taker.remaining.0 == 0
            &&& q.taker.side == taker.side && q.taker.price == taker.price && q.taker.order_type == taker.order_type
        }),
    decreases orders.len(),
{
    if orders.len() == 0 || taker.remaining.0 == 0 {
    } else {
        let maker = orders[0];
        let fill = min_int(maker.remaining.0 as int, taker.remaining.0 as int);
        let maker2 = with_remaining(maker, maker.remaining.0 - fill);
        let taker2 = with_remaining(taker, taker.remaining.0 - fill);
        let q = match_queue(orders, total, taker, None);
        if maker2.remaining.0 == 0 {
            lemma_queue_fifo(orders.drop_first(), total - fill, taker2);
            let rest = match_queue(orders.drop_first(), total - fill, taker2, None);
            assert(q.trades == seq![q.trades[0]] + rest.trades);
            assert forall|i: int| 0 <= i < q.trades.len() implies (#[trigger] q.trades[i]).maker_id == orders[i].id by {
                if i > 0 {
                    assert(q.trades[i] == rest.trades[i - 1]);
                    assert(orders.drop_first()[i - 1] == orders[i]);
                }
            }
            assert forall|i: int| 0 <= i < q.trades.len() implies (#[trigger] q.trades[i]).price == orders[i].price by {
                if i > 0 {
                    assert(q.trades[i] == rest.trades[i - 1]);
                    assert(orders.drop_first()[i - 1] == orders[i]);
                }
            }
            assert forall|i: int| 0 <= i < q.trades.len() implies (#[trigger] q.trades[i]).qty.0 == orders[i].remaining.0
                || (i == q.trades.len() - 1 && q.taker.remaining.0 == 0) by {
                if i > 0 {
                    assert(q.trades[i] == rest.trades[i - 1]);
                    assert(orders.drop_first()[i - 1] == orders[i]);
                }
            }
        } else {
            assert(q.trades.len() == 1);
        }
    }
}

/// Without self-trade prevention, a matching pass over levels trades
/// against the resting orders in the order it visits them, and every order
/// before the last one traded is filled completely.
proof fn lemma_visit_fifo(levels: Seq<LevelModel>, taker: Order)
    ensures
        ({
            let out = match_side(levels, taker, None);
            let v = visit_order(levels, taker);
            &&& out.trades.len() <= v.len()
            &&& forall|i: int| 0 <= i < out.trades.len() ==> (#[trigger] out.trades[i]).maker_id == v[i].id
            &&& forall|i: int| 0 <= i < out.trades.len() ==> (#[trigger] out.trades[i]).price == v[i].price
            &&& forall|i: int| 0 <= i < out.trades.len() - 1 ==> (#[trigger] out.trades[i]).qty.0 == v[i].remaining.0
        }),
    decreases levels.len(),
{
    if levels.len() == 0 || taker.remaining.0 == 0 {
    } else {
        let l = levels[0];
        let rest_in = levels.drop_first();
        let out = match_side(levels, taker, None);
        let v = visit_order(levels, taker);
        if !crosses(taker, l.price) && taker.order_type != OrderType::Market {
        } else if !crosses(taker, l.price) {
            lemma_visit_fifo(rest_in, taker);
        } else {
            lemma_queue_fifo(l.orders, l.total, taker);
            let q = match_queue(l.orders, l.total, taker, None);
            lemma_visit_fifo(rest_in, q.taker);
            let rest = match_side(rest_in, q.taker, None);
            assert(visit_order(rest_in, q.taker) == visit_order(rest_in, taker)) by {
                lemma_visit_order_taker(rest_in, q.taker, taker);
            }
            let vr = visit_order(rest_in, taker);
            assert(v == l.orders + vr);
            assert(out.trades == q.trades + rest.trades);
            let n = q.trades.len();
            if rest.trades.len() > 0 {
                assert(q.taker.remaining.0 > 0);
                assert(q.orders.len() == 0);
                assert(n == l.orders.len());
            }
            assert forall|i: int| 0 <= i < out.trades.len() implies (#[trigger] out.trades[i]).maker_id == v[i].id by {
                if i < n {
                    assert(out.trades[i] == q.trades[i]);
                    assert(v[i] == l.orders[i]);
                } else {
                    assert(out.trades[i] == rest.trades[i - n]);
                    assert(v[i] == vr[i - n]);
                }
            }
            assert forall|i: int| 0 <= i < out.trades.len() implies (#[trigger] out.trades[i]).price == v[i].price by {
                if i < n {
                    assert(out.trades[i] == q.trades[i]);
                    assert(v[i] == l.orders[i]);
                } else {
                    assert(out.trades[i] == rest.trades[i - n]);
                    assert(v[i] == vr[i - n]);
                }
            }
            assert forall|i: int| 0 <= i < out.trades.len() - 1 implies (#[trigger] out.trades[i]).qty.0 == v[i].remaining.0 by {
                if i < n {
                    assert(out.trades[i] == q.trades[i]);
                    assert(v[i] == l.orders[i]);
                    if i == n - 1 && q.taker.remaining.0 == 0 {
                        assert(rest.trades.len() == 0);
                    }
                } else {
                    assert(out.trades[i] == rest.trades[i - n]);
                    assert(v[i] == vr[i - n]);
                }
            }
        }
    }
}

/// On levels ordered by price, the orders a pass visits come in that
/// price order, none before the first level's price.
proof fn lemma_visit_prices(levels: Seq<LevelModel>, taker: Order, asc: bool)
    requires
        levels_wf(levels),
        ordered(levels, asc),
    ensures
        ({
            let v = visit_order(levels, taker);
            &&& forall|i: int, j: int| 0 <= i < j < v.len() ==>
                if asc { v[i].price.0 <= v[j].price.0 } else { v[i].price.0 >= v[j].price.0 }
            &&& levels.len() > 0 ==> forall|i: int| 0 <= i < v.len() ==>
                if asc { v[i].price.0 >= levels[0].price.0 } else { v[i].price.0 <= levels[0].price.0 }
        }),
    decreases levels.len(),
{
    if levels.len() > 0 {
        let l = levels[0];
        let rest = levels.drop_first();
        lemma_levels_wf_skip(levels, 1);
        assert(levels.skip(1) =~= rest);
        assert(ordered(rest, asc)) by {
            assert forall|i: int, j: int| 0 <= i < j < rest.len() implies
                if asc { rest[i].price.0 < rest[j].price.0 } else { rest[i].price.0 > rest[j].price.0 } by {
                assert(rest[i] == levels[i + 1]);
                assert(rest[j] == levels[j + 1]);
            }
        }
        lemma_visit_prices(rest, taker, asc);
        let v = visit_order(levels, taker);
        let vr = visit_order(rest, taker);
        if rest.len() > 0 {
            assert(rest[0] == levels[1]);
        } else {
            assert(vr.len() == 0);
        }
        if !crosses(taker, l.price) && taker.order_type != OrderType::Market {
        } else if !crosses(taker, l.price) {
            assert(v == vr);
        } else {
            assert(all_at_price(levels[0].orders, levels[0].price));
            let n = l.orders.len() as int;
            assert(v == l.orders + vr);
            assert forall|i: int, j: int| 0 <= i < j < v.len() implies
                if asc { v[i].price.0 <= v[j].price.0 } else { v[i].price.0 >= v[j].price.0 } by {
                if j < n {
                    assert(v[i] == l.orders[i]);
                    assert(v[j] == l.orders[j]);
                } else if i < n {
                    assert(v[i] == l.orders[i]);
                    assert(v[j] == vr[j - n]);
                } else {
                    assert(v[i] == vr[i - n]);
                    assert(v[j] == vr[j - n]);
                }
            }
            assert forall|i: int| 0 <= i < v.len() implies
                if asc { v[i].price.0 >= levels[0].price.0 } else { v[i].price.0 <= levels[0].price.0 } by {
                if i < n {
                    assert(v[i] == l.orders[i]);
                } else {
                    assert(v[i] == vr[i - n]);
                }
            }
        }
    }
}

/// Price-time priority: without self-trade prevention, a taker meets the
/// opposite side best price first (asks from the lowest up for a bid, bids
/// from the highest down for an ask) and, at one price, the oldest order
/// first; it trades against the orders in that order, each at the price
/// the resting order stands at, and every order before the last one traded
/// is filled completely.
pub proof fn law_price_time_priority(b: BookModel, taker: Order)
    requires
        b.wf(),
    ensures
        ({
            let out = match_opposite(b.opposite_of(taker.side), taker, None);
            let v = visit_order(best_first(b.opposite_of(taker.side), taker.side), taker);
            &&& out.trades.len() <= v.len()
            &&& forall|i: int| 0 <= i < out.trades.len() ==> (#[trigger] out.trades[i]).maker_id == v[i].id
            &&& forall|i: int| 0 <= i < out.trades.len() ==> (#[trigger] out.trades[i]).price == v[i].price
            &&& forall|i: int| 0 <= i < out.trades.len() - 1 ==> (#[trigger] out.trades[i]).qty.0 == v[i].remaining.0
            &&& forall|i: int, j: int| 0 <= i < j < v.len() ==> match taker.side {
                Side::Bid => v[i].price.0 <= v[j].price.0,
                Side::Ask => v[i].price.0 >= v[j].price.0,
            }
        }),
{
    let bf = best_first(b.opposite_of(taker.side), taker.side);
    lemma_visit_fifo(bf, taker);
    match taker.side {
        Side::Bid => {
            lemma_visit_prices(bf, taker, true);
        },
        Side::Ask => {
            lemma_reverse_wf(b.bids, true);
            lemma_visit_prices(bf, taker, false);
        },
    }
}

/// A pass that leaves the taker something to trade has met every crossing
/// level: when crossing levels come first, none of the levels left crosses.
proof fn lemma_match_side_stops(levels: Seq<LevelModel>, taker: Order, stp: Option<StpPolicy>)
    requires
        levels_wf(levels),
        forall|i: int, j: int| 0 <= i < j < levels.len() && crosses(taker, #[trigger] levels[j].price)
            ==> crosses(taker, #[trigger] levels[i].price),
    ensures
        ({
            let out = match_side(levels, taker, stp);
            out.taker.remaining.0 > 0 ==> forall|j: int| 0 <= j < out.levels.len()
                ==> !crosses(taker, #[trigger] out.levels[j].price)
        }),
    decreases levels.len(),
{
    if levels.len() == 0 || taker.remaining.0 == 0 {
    } else {
        let l = levels[0];
        let rest_in = levels.drop_first();
        lemma_levels_wf_skip(levels, 1);
        assert(levels.skip(1) =~= rest_in);
        let out = match_side(levels, taker, stp);
        if !crosses(taker, l.price) && taker.order_type != OrderType::Market {
            assert forall|j: int| 0 <= j < out.levels.len() implies !crosses(taker, #[trigger] out.levels[j].price) by {
                if j > 0 && crosses(taker, levels[j].price) {
                    assert(crosses(taker, levels[0].price));
                }
            }
        } else {
            assert forall|i: int, j: int| 0 <= i < j < rest_in.len() && crosses(taker, #[trigger] rest_in[j].price)
                implies crosses(taker, #[trigger] rest_in[i].price) by {
                assert(rest_in[i] == levels[i + 1]);
                assert(rest_in[j] == levels[j + 1]);
            }
            if !crosses(taker, l.price) {
                lemma_match_side_stops(rest_in, taker, stp);
                let rest = match_side(rest_in, taker, stp);
                assert forall|j: int| 0 <= j < out.levels.len() && out.taker.remaining.0 > 0
                    implies !crosses(taker, #[trigger] out.levels[j].price) by {
                    if j > 0 {
                        assert(out.levels[j] == rest.levels[j - 1]);
                    }
                }
            } else {
                lemma_match_queue_wf(l.orders, l.total, taker, stp);
                let q = match_queue(l.orders, l.total, taker, stp);
                if q.orders.len() == 0 {
                    assert forall|i: int, j: int| 0 <= i < j < rest_in.len() && crosses(q.taker, #[trigger] rest_in[j].price)
                        implies crosses(q.taker, #[trigger] rest_in[i].price) by {
                        assert(crosses(taker, rest_in[j].price));
                    }
                    lemma_match_side_stops(rest_in, q.taker, stp);
                    let rest = match_side(rest_in, q.taker, stp);
                    assert(out.levels =~= rest.levels);
                    assert forall|j: int| 0 <= j < out.levels.len() && out.taker.remaining.0 > 0
                        implies !crosses(taker, #[trigger] out.levels[j].price) by {
                        assert(!crosses(q.taker, rest.levels[j].price));
                    }
                }
            }
        }
    }
}

proof fn lemma_resting_qty_concat(a: Seq<LevelModel>, b: Seq<LevelModel>)
    ensures
        resting_qty(a + b) == resting_qty(a) + resting_qty(b),
    decreases a.len(),
{
    if a.len() == 0 {
        assert(a + b =~= b);
    } else {
        assert((a + b).drop_first() =~= a.drop_first() + b);
        lemma_resting_qty_concat(a.drop_first(), b);
    }
}

proof fn lemma_resting_qty_reverse(s: Seq<LevelModel>)
    ensures
        resting_qty(s.reverse()) == resting_qty(s),
    decreases s.len(),
{
    if s.len() > 0 {
        lemma_resting_qty_reverse(s.drop_first());
        assert(s.reverse() =~= s.drop_first().reverse() + seq![s[0]]);
        lemma_resting_qty_concat(s.drop_first().reverse(), seq![s[0]]);
        lemma_resting_qty_cons(s[0], Seq::<LevelModel>::empty());
        assert(seq![s[0]] + Seq::<LevelModel>::empty() =~= seq![s[0]]);
        assert(resting_qty(Seq::<LevelModel>::empty()) == 0);
    }
}

/// The visiting order depends on the taker's side, price and type only.
proof fn lemma_visit_order_taker(levels: Seq<LevelModel>, a: Order, b: Order)
    requires
        a.side == b.side,
        a.price == b.price,
        a.order_type == b.order_type,
    ensures
        visit_order(levels, a) == visit_order(levels, b),
    decreases levels.len(),
{
    if levels.len() > 0 {
        lemma_visit_order_taker(levels.drop_first(), a, b);
    }
}

/// A fill-or-kill order that is accepted is filled in full: without
/// self-trade prevention, the trades it returns add up to its quantity.
pub proof fn law_fok_accepted_fills_completely(m: EngineModel, p: EngineParams, order: Order)
    requires
        order.order_type == OrderType::FOK,
        order.remaining == order.qty,
        p.stp_policy is None,
        submit(m, p, order).1 is Ok,
    ensures
        traded_qty(submit(m, p, order).1->Ok_0) == order.qty.0,
{
    let out = match_outcome(m, p, order);
    law_matching_conserves_quantity(best_first(m.book.opposite_of(order.side), order.side), stamped(m, order));
    assert(out.taker.remaining.0 == 0);
}

/// A post-only order that is accepted has not traded: it returns no trades
/// and the trade log does not grow.
pub proof fn law_post_only_accepted_never_trades(m: EngineModel, p: EngineParams, order: Order)
    requires
        order.order_type == OrderType::PostOnly,
        submit(m, p, order).1 is Ok,
    ensures
        submit(m, p, order).1->Ok_0.len() == 0,
        submit(m, p, order).0.trades == m.trades,
{
    let levels = best_first(m.book.opposite_of(order.side), order.side);
    let t = stamped(m, order);
    assert(!crosses_on_arrival(m.book, order));
    if levels.len() > 0 && t.remaining.0 > 0 {
        match order.side {
            Side::Bid => {
                assert(levels[0] == m.book.asks[0]);
            },
            Side::Ask => {
                assert(levels[0] == m.book.bids[m.book.bids.len() - 1]);
            },
        }
        assert(!crosses(t, levels[0].price));
    }
    assert(m.trades + Seq::<Trade>::empty() =~= m.trades);
}

/// A post-only order that would cross on arrival is rejected before it
/// meets the book: it trades nothing and rests nowhere.
pub proof fn law_post_only_crossing_rejected(m: EngineModel, p: EngineParams, order: Order)
    requires
        order.order_type == OrderType::PostOnly,
        !is_day_rejected(m, p, order),
        risk_verdict(m, p, order) == RiskResult::Approved,
        crosses_on_arrival(m.book, order),
    ensures
        submit(m, p, order).1 == Err::<Seq<Trade>, RejectReason>(RejectReason::FatFingerPrice),
        submit(m, p, order).0.book == m.book,
{
}

/// A rejected order leaves no trace: whatever the reason (a DAY order after
/// the session end, a failed risk check, a post-only order that would
/// cross, a fill-or-kill order that cannot fill completely), the book, the
/// accounts and the trade log are as they were.
pub proof fn law_rejection_leaves_no_trace(m: EngineModel, p: EngineParams, order: Order)
    requires
        submit(m, p, order).1 is Err,
    ensures
        submit(m, p, order).0.book == m.book,
        submit(m, p, order).0.accounts == m.accounts,
        submit(m, p, order).0.trades == m.trades,
{
}

/// Every trade out of one queue names the taker and carries its timestamp.
proof fn lemma_queue_trades_name_taker(orders: Seq<Order>, total: int, taker: Order, stp: Option<StpPolicy>)
    ensures
        forall|i: int| 0 <= i < match_queue(orders, total, taker, stp).trades.len() ==> {
            let t = #[trigger] match_queue(orders, total, taker, stp).trades[i];
            t.taker_id == taker.id && t.timestamp == taker.timestamp
        },
        match_queue(orders, total, taker, stp).taker.id == taker.id,
        match_queue(orders, total, taker, stp).taker.timestamp == taker.timestamp,
    decreases orders.len(),
{
    if orders.len() == 0 || taker.remaining.0 == 0 {
    } else {
        let maker = orders[0];
        if stp is Some && maker.account == taker.account {
            match stp->0 {
                StpPolicy::CancelPassive => {
                    lemma_queue_trades_name_taker(orders.drop_first(), total - maker.remaining.0, taker, stp);
                },
                StpPolicy::CancelAggressive => {},
                StpPolicy::DecrementAndCancel => {},
            }
        } else {
            let fill = min_int(maker.remaining.0 as int, taker.remaining.0 as int);
            let maker2 = with_remaining(maker, maker.remaining.0 - fill);
            let taker2 = with_remaining(taker, taker.remaining.0 - fill);
            if maker2.remaining.0 == 0 {
                lemma_queue_trades_name_taker(orders.drop_first(), total - fill, taker2, stp);
                let rest = match_queue(orders.drop_first(), total - fill, taker2, stp);
                let all = match_queue(orders, total, taker, stp).trades;
                assert forall|i: int| 0 <= i < all.len() implies #[trigger] all[i].taker_id == taker.id
                    && all[i].timestamp == taker.timestamp by {
                    if i > 0 {
                        assert(all[i] == rest.trades[i - 1]);
                    }
                }
            }
        }
    }
}

/// Every trade of a matching pass names the taker and carries its timestamp.
proof fn lemma_side_trades_name_taker(levels: Seq<LevelModel>, taker: Order, stp: Option<StpPolicy>)
    ensures
        forall|i: int| 0 <= i < match_side(levels, taker, stp).trades.len() ==> {
            let t = #[trigger] match_side(levels, taker, stp).trades[i];
            t.taker_id == taker.id && t.timestamp == taker.timestamp
        },
    decreases levels.len(),
{
    if levels.len() == 0 || taker.remaining.0 == 0 {
    } else {
        let l = levels[0];
        let rest_in = levels.drop_first();
        let out = match_side(levels, taker, stp);
        if !crosses(taker, l.price) && taker.order_type != OrderType::Market {
        } else if !crosses(taker, l.price) {
            lemma_side_trades_name_taker(rest_in, taker, stp);
        } else {
            lemma_queue_trades_name_taker(l.orders, l.total, taker, stp);
            let q = match_queue(l.orders, l.total, taker, stp);
            lemma_side_trades_name_taker(rest_in, q.taker, stp);
            let rest = match_side(rest_in, q.taker, stp);
            assert(out.trades == q.trades + rest.trades);
            assert forall|i: int| 0 <= i < out.trades.len() implies #[trigger] out.trades[i].taker_id == taker.id
                && out.trades[i].timestamp == taker.timestamp by {
                if i < q.trades.len() {
                    assert(out.trades[i] == q.trades[i]);
                } else {
                    assert(out.trades[i] == rest.trades[i - q.trades.len()]);
                }
            }
        }
    }
}

/// One matching pass on a well-formed book, as `OrderBook::match_order`
/// does it: every trade names the taker, carries its timestamp and is at a
/// price its limit crosses; the taker's own side is untouched; the book
/// stays well formed, and on a live book (every resting order on its side
/// with quantity left) it stays live and every trade has a positive
/// quantity; a taker left with quantity has met every crossing
/// order, so nothing left on the opposite side crosses its limit; and
/// without self-trade prevention the traded quantity is exactly what the
/// taker gave up and what the opposite side lost.
#[verifier::spinoff_prover]
#[verifier::rlimit(50)]
pub proof fn law_match_order(b: BookModel, taker: Order, stp: Option<StpPolicy>)
    requires
        b.wf(),
    ensures
        ({
            let out = match_opposite(b.opposite_of(taker.side), taker, stp);
            let b2 = b.with_opposite(taker.side, out.levels);
            &&& forall|i: int| 0 <= i < out.trades.len() ==> {
                let t = #[trigger] out.trades[i];
                &&& t.taker_id == taker.id
                &&& t.timestamp == taker.timestamp
                &&& crosses(taker, t.price)
            }
            &&& b2.side(taker.side) == b.side(taker.side)
            &&& b2.wf()
            &&& b.live() ==> b2.live()
            &&& b.live() ==> forall|i: int| 0 <= i < out.trades.len() ==> (#[trigger] out.trades[i]).qty.0 > 0
            &&& out.taker.remaining.0 > 0 ==> forall|j: int| 0 <= j < b2.opposite_of(taker.side).len()
                ==> !crosses(taker, #[trigger] b2.opposite_of(taker.side)[j].price)
            &&& stp is None ==> traded_qty(out.trades) == taker.remaining.0 - out.taker.remaining.0
            &&& stp is None ==> resting_qty(b2.opposite_of(taker.side)) == resting_qty(b.opposite_of(taker.side))
                - traded_qty(out.trades)
        }),
{
    if b.live() {
        lemma_match_live(b, taker, stp);
    }
    let opp = b.opposite_of(taker.side);
    let bf = best_first(opp, taker.side);
    let asc = match taker.side {
        Side::Bid => true,
        Side::Ask => false,
    };
    if taker.side == Side::Ask {
        lemma_reverse_wf(opp, true);
    }
    assert(levels_wf(bf) && ordered(bf, asc));
    law_trades_respect_limit(bf, taker, stp);
    lemma_side_trades_name_taker(bf, taker, stp);
    law_matching_conserves_quantity(bf, taker);
    lemma_match_side_wf(bf, taker, stp, asc);
    assert forall|i: int, j: int| 0 <= i < j < bf.len() && crosses(taker, #[trigger] bf[j].price)
        implies crosses(taker, #[trigger] bf[i].price) by {
    }
    lemma_match_side_stops(bf, taker, stp);
    let o = match_side(bf, taker, stp);
    let out = match_opposite(opp, taker, stp);
    assert forall|i: int| 0 <= i < out.trades.len() implies {
        let t = #[trigger] out.trades[i];
        &&& t.taker_id == taker.id
        &&& t.timestamp == taker.timestamp
        &&& crosses(taker, t.price)
    } by {
        assert(crosses(taker, o.trades[i].price));
    }
    if taker.side == Side::Ask {
        lemma_reverse_wf(o.levels, false);
        assert(o.levels.reverse().reverse() =~= o.levels);
        lemma_resting_qty_reverse(opp);
        lemma_resting_qty_reverse(o.levels);
        assert(opp.reverse().reverse() =~= opp);
        assert forall|j: int| 0 <= j < out.levels.len() && out.taker.remaining.0 > 0
            implies !crosses(taker, #[trigger] out.levels[j].price) by {
            assert(out.levels[j] == o.levels[o.levels.len() - 1 - j]);
        }
    }
}

/// The number of orders of a queue that expire.
pub open spec fn expiring_in(orders: Seq<Order>, session_end: u64) -> int
    decreases orders.len(),
{
    if orders.len() == 0 {
        0
    } else {
        expiring_in(orders.drop_last(), session_end) + if expires(orders.last(), session_end) { 1int } else { 0 }
    }
}

/// The number of resting orders of one side that expire.
pub open spec fn expiring_on(s: Seq<LevelModel>, session_end: u64) -> int
    decreases s.len(),
{
    if s.len() == 0 {
        0
    } else {
        expiring_on(s.drop_last(), session_end) + expiring_in(s.last().orders, session_end)
    }
}

proof fn lemma_surviving_len(o: Seq<Order>, session_end: u64)
    ensures
        surviving(o, session_end).len() == o.len() - expiring_in(o, session_end),
    decreases o.len(),
{
    if o.len() > 0 {
        lemma_surviving_len(o.drop_last(), session_end);
    }
}

/// Expiry removes exactly as many orders from a side as it has expiring
/// ones, so `expire_day_orders` returns the number of resting DAY orders
/// stamped before the session end.
pub proof fn law_expiry_count(s: Seq<LevelModel>, session_end: u64)
    ensures
        count_orders(s) - count_orders(expire_side(s, session_end)) == expiring_on(s, session_end),
    decreases s.len(),
{
    if s.len() > 0 {
        let d = s.drop_last();
        law_expiry_count(d, session_end);
        lemma_surviving_len(s.last().orders, session_end);
        let prev = expire_side(d, session_end);
        let kept = surviving(s.last().orders, session_end);
        if kept.len() > 0 {
            let nl = LevelModel { price: s.last().price, orders: kept, total: sum_remaining(kept) };
            assert(expire_side(s, session_end) == prev.push(nl));
            assert(prev.push(nl).drop_last() =~= prev);
        }
    }
}

/// The level at price `p` of a side, if there is one.
pub open spec fn level_at(s: Seq<LevelModel>, p: Price) -> Option<LevelModel> {
    if has_level(s, p) {
        Some(s[lower_bound(s, p)])
    } else {
        None
    }
}

/// On a sorted side, the level holding price `p` is the one `level_at` finds.
proof fn lemma_level_index(t: Seq<LevelModel>, p: Price, j: int)
    requires
        side_wf(t),
        0 <= j < t.len(),
        t[j].price == p,
    ensures
        has_level(t, p),
        lower_bound(t, p) == j,
{
    lemma_lower_bound(t, p);
    let lb = lower_bound(t, p);
    if j < lb {
        assert(t[j].price.0 < p.0);
    }
    if j > lb {
        assert(t[lb].price.0 < t[j].price.0);
    }
}

/// Resting an order appends it to the back of the queue at its price (the
/// level is created when there is none, and its aggregate grows by the
/// order's remaining quantity); every level at another price stays as it
/// was.
pub proof fn law_insert_appends_to_its_level(s: Seq<LevelModel>, o: Order)
    requires
        side_wf(s),
        insert_fits(s, o),
    ensures
        level_at(insert_side(s, o), o.price) == Some(
            match level_at(s, o.price) {
                Some(l) => LevelModel { price: l.price, orders: l.orders.push(o), total: l.total + o.remaining.0 },
                None => LevelModel { price: o.price, orders: seq![o], total: o.remaining.0 as int },
            },
        ),
        forall|p: Price| p != o.price ==> #[trigger] level_at(insert_side(s, o), p) == level_at(s, p),
{
    lemma_insert_side_wf(s, o);
    lemma_lower_bound(s, o.price);
    let k = lower_bound(s, o.price);
    let t = insert_side(s, o);
    if has_level(s, o.price) {
        assert(t[k].price == o.price);
        lemma_level_index(t, o.price, k);
    } else {
        assert(t[k].price == o.price);
        lemma_level_index(t, o.price, k);
    }
    assert forall|p: Price| p != o.price implies #[trigger] level_at(t, p) == level_at(s, p) by {
        if has_level(s, p) {
            lemma_lower_bound(s, p);
            let j = lower_bound(s, p);
            let jt = if has_level(s, o.price) || j < k { j } else { j + 1 };
            if has_level(s, o.price) {
                assert(j != k);
            }
            assert(t[jt] == s[j]);
            lemma_level_index(t, p, jt);
        } else if has_level(t, p) {
            let jt = lower_bound(t, p);
            lemma_lower_bound(t, p);
            if has_level(s, o.price) {
                assert(jt != k);
                assert(t[jt] == s[jt]);
                lemma_level_index(s, p, jt);
            } else {
                assert(jt != k);
                let j = if jt < k { jt } else { jt - 1 };
                assert(t[jt] == s[j]);
                lemma_level_index(s, p, j);
            }
        }
    }
}

proof fn lemma_resting_update(s: Seq<LevelModel>, i: int, l2: LevelModel)
    requires
        0 <= i < s.len(),
    ensures
        resting_qty(s.update(i, l2)) == resting_qty(s) - sum_remaining(s[i].orders) + sum_remaining(l2.orders),
    decreases s.len(),
{
    if i > 0 {
        assert(s.update(i, l2).drop_first() =~= s.drop_first().update(i - 1, l2));
        lemma_resting_update(s.drop_first(), i - 1, l2);
    } else {
        assert(s.update(0, l2).drop_first() =~= s.drop_first());
    }
}

proof fn lemma_resting_remove(s: Seq<LevelModel>, i: int)
    requires
        0 <= i < s.len(),
    ensures
        resting_qty(s.remove(i)) == resting_qty(s) - sum_remaining(s[i].orders),
    decreases s.len(),
{
    if i > 0 {
        assert(s.remove(i).drop_first() =~= s.drop_first().remove(i - 1));
        lemma_resting_remove(s.drop_first(), i - 1);
    } else {
        assert(s.remove(0) =~= s.drop_first());
    }
}

/// Whether some resting order of a side has id `id`.
pub open spec fn rests_with_id(s: Seq<LevelModel>, id: crate::types::OrderId) -> bool {
    exists|i: int, k: int| 0 <= i < s.len() && 0 <= k < s[i].orders.len() && (#[trigger] s[i].orders[k]).id == id
}

/// Cancelling on one side: when no order has the id nothing changes;
/// otherwise an order with that id leaves and the side's resting quantity
/// drops by exactly its remainder.
proof fn lemma_cancel_side_law(s: Seq<LevelModel>, id: crate::types::OrderId)
    requires
        side_wf(s),
    ensures
        (cancel_side(s, id).1 is None) == !rests_with_id(s, id),
        cancel_side(s, id).1 is None ==> cancel_side(s, id).0 == s,
        cancel_side(s, id).1 matches Some(o) ==> o.id == id && resting_qty(cancel_side(s, id).0) == resting_qty(s)
            - o.remaining.0,
{
    lemma_side_find(s, id);
    let i = side_find(s, id);
    if i < 0 {
        if rests_with_id(s, id) {
            let (a, k) = choose|a: int, k: int| 0 <= a < s.len() && 0 <= k < s[a].orders.len() && (#[trigger] s[a].orders[k]).id == id;
            assert(queue_find(s[a].orders, id) < 0);
            lemma_queue_find(s[a].orders, id);
            assert(s[a].orders[k].id != id);
        }
    } else {
        let l = s[i];
        lemma_queue_find(l.orders, id);
        let k = queue_find(l.orders, id);
        assert(l.orders[k].id == id);
        assert(rests_with_id(s, id));
        lemma_sum_remove(l.orders, k);
        let o = l.orders[k];
        let l2 = LevelModel { price: l.price, orders: l.orders.remove(k), total: l.total - o.remaining.0 };
        if l2.orders.len() == 0 {
            lemma_resting_remove(s, i);
            assert(sum_remaining(l2.orders) == 0);
        } else {
            lemma_resting_update(s, i, l2);
        }
    }
}

/// A cancel on a well-formed book: it finds nothing exactly when no resting
/// order has the id, and then changes nothing; otherwise it returns an
/// order with that id, the book stays well formed, and the resting quantity
/// of the book drops by exactly that order's remainder.
pub proof fn law_cancel(b: BookModel, id: crate::types::OrderId)
    requires
        b.wf(),
    ensures
        (b.cancel(id).1 is None) == (!rests_with_id(b.bids, id) && !rests_with_id(b.asks, id)),
        b.cancel(id).1 is None ==> b.cancel(id).0 == b,
        b.cancel(id).0.wf(),
        b.cancel(id).1 matches Some(o) ==> o.id == id && resting_qty(b.cancel(id).0.bids) + resting_qty(b.cancel(id).0.asks)
            == resting_qty(b.bids) + resting_qty(b.asks) - o.remaining.0,
{
    lemma_cancel_side_law(b.bids, id);
    lemma_cancel_side_law(b.asks, id);
    lemma_cancel_side_wf(b.bids, id);
    lemma_cancel_side_wf(b.asks, id);
    assert(BookModel { bids: b.bids, ..b } =~= b);
    assert(BookModel { asks: b.asks, ..b } =~= b);
}

/// `s` with `g` units of gas left.
pub open spec fn with_gas(s: SvmModel, g: u64) -> SvmModel {
    SvmModel { gas: g, ..s }
}

/// One register-machine instruction neither reads nor changes the gas left.
proof fn lemma_svm_op_gas(code: Seq<u8>, op: u8, s: SvmModel, g: u64)
    ensures
        match spec_op(code, op, s) {
            SvmStep::Next(x) => x.gas == s.gas && spec_op(code, op, with_gas(s, g)) == SvmStep::Next(with_gas(x, g)),
            SvmStep::Stop(x) => x.gas == s.gas && spec_op(code, op, with_gas(s, g)) == SvmStep::Stop(with_gas(x, g)),
            SvmStep::Error(e) => spec_op(code, op, with_gas(s, g)) == SvmStep::Error(e),
            SvmStep::Crash => spec_op(code, op, with_gas(s, g)) is Crash,
        },
{
    let t = with_gas(s, g);
    match spec_op(code, op, s) {
        SvmStep::Next(x) => {
            assert(spec_op(code, op, t)->Next_0 =~= with_gas(x, g));
        },
        SvmStep::Stop(x) => {
            assert(spec_op(code, op, t)->Stop_0 =~= with_gas(x, g));
        },
        _ => {},
    }
}

/// Running with `extra` more gas ends the same way, with `extra` more gas
/// left, unless the shorter run ran out of gas.
proof fn lemma_svm_more_gas(code: Seq<u8>, s: SvmModel, extra: u64)
    requires
        s.gas + extra <= u64::MAX,
    ensures
        svm_run(code, s) matches SvmOutcome::Done(f) ==> svm_run(code, with_gas(s, (s.gas + extra) as u64))
            == SvmOutcome::Done(with_gas(f, (f.gas + extra) as u64)),
        svm_run(code, s) matches SvmOutcome::Error(e) ==> (e != SvmError::OutOfGas ==> svm_run(
            code,
            with_gas(s, (s.gas + extra) as u64),
        ) == SvmOutcome::Error(e)),
        svm_run(code, s) is Crash ==> svm_run(code, with_gas(s, (s.gas + extra) as u64)) is Crash,
    decreases s.gas,
{
    let t = with_gas(s, (s.gas + extra) as u64);
    if s.pc < 0 || s.pc >= code.len() {
        assert(with_gas(s, (s.gas + extra) as u64) == t);
    } else if s.gas == 0 {
    } else {
        let op = code[s.pc];
        let s1 = SvmModel { pc: s.pc + 1, gas: (s.gas - 1) as u64, ..s };
        let t1 = SvmModel { pc: t.pc + 1, gas: (t.gas - 1) as u64, ..t };
        assert(t1 == with_gas(s1, (s1.gas + extra) as u64));
        lemma_svm_op_gas(code, op, s1, (s1.gas + extra) as u64);
        match spec_op(code, op, s1) {
            SvmStep::Next(x) => {
                let n = SvmModel { gas: s1.gas, ..x };
                lemma_svm_more_gas(code, n, extra);
                assert(SvmModel { gas: t1.gas, ..with_gas(x, (s1.gas + extra) as u64) } == with_gas(n, (n.gas + extra) as u64));
            },
            SvmStep::Stop(x) => {
                assert(with_gas(x, (s1.gas + extra) as u64) == with_gas(x, (x.gas + extra) as u64));
            },
            _ => {},
        }
    }
}

/// A run that finishes having used `used` gas runs out of gas on any
/// smaller budget.
proof fn lemma_svm_less_gas(code: Seq<u8>, s: SvmModel, g: u64)
    requires
        svm_run(code, s) is Done,
        g < s.gas - svm_run(code, s)->Done_0.gas,
    ensures
        svm_run(code, with_gas(s, g)) == SvmOutcome::Error(SvmError::OutOfGas),
    decreases s.gas,
{
    let t = with_gas(s, g);
    if s.pc < 0 || s.pc >= code.len() {
    } else if g == 0 {
    } else {
        let op = code[s.pc];
        let s1 = SvmModel { pc: s.pc + 1, gas: (s.gas - 1) as u64, ..s };
        let t1 = SvmModel { pc: t.pc + 1, gas: (t.gas - 1) as u64, ..t };
        assert(t1 == with_gas(s1, (g - 1) as u64));
        lemma_svm_op_gas(code, op, s1, (g - 1) as u64);
        match spec_op(code, op, s1) {
            SvmStep::Next(x) => {
                let n = SvmModel { gas: s1.gas, ..x };
                lemma_svm_less_gas(code, n, (g - 1) as u64);
                assert(SvmModel { gas: t1.gas, ..with_gas(x, (g - 1) as u64) } == with_gas(n, (g - 1) as u64));
            },
            _ => {},
        }
    }
}

/// The gas a register-machine run uses does not depend on the budget: a
/// run that finishes within `g` finishes the same way within any larger
/// budget `g2`, using the same gas, and any budget below the gas it used
/// runs out of gas. So the gas used is the least budget that suffices.
pub proof fn law_svm_gas_used_is_least(code: Seq<u8>, journal: crate::journal::StateJournal, g: u64, g2: u64, h: u64)
    requires
        svm_run(code, svm_init(journal, g)) is Done,
    ensures
        ({
            let f = svm_run(code, svm_init(journal, g))->Done_0;
            &&& f.gas <= g
            &&& g <= g2 ==> svm_run(code, svm_init(journal, g2)) == SvmOutcome::Done(
                with_gas(f, (f.gas + (g2 - g)) as u64),
            )
            &&& h < g - f.gas ==> svm_run(code, svm_init(journal, h)) == SvmOutcome::Error(SvmError::OutOfGas)
        }),
{
    let s = svm_init(journal, g);
    lemma_svm_run_gas_le(code, s);
    if g <= g2 {
        lemma_svm_more_gas(code, s, (g2 - g) as u64);
        assert(with_gas(s, (g + (g2 - g)) as u64) =~= svm_init(journal, g2));
    }
    if h < g - svm_run(code, s)->Done_0.gas {
        lemma_svm_less_gas(code, s, h);
        assert(with_gas(s, h) =~= svm_init(journal, h));
    }
}

/// A finished run has no more gas left than it started with.
proof fn lemma_svm_run_gas_le(code: Seq<u8>, s: SvmModel)
    ensures
        svm_run(code, s) matches SvmOutcome::Done(f) ==> f.gas <= s.gas,
    decreases s.gas,
{
    if s.pc < 0 || s.pc >= code.len() {
    } else if s.gas == 0 {
    } else {
        let op = code[s.pc];
        let s1 = SvmModel { pc: s.pc + 1, gas: (s.gas - 1) as u64, ..s };
        lemma_svm_op_gas(code, op, s1, s1.gas);
        match spec_op(code, op, s1) {
            SvmStep::Next(x) => {
                lemma_svm_run_gas_le(code, SvmModel { gas: s1.gas, ..x });
            },
            _ => {},
        }
    }
}

/// How a register-machine run may change account data: every account that
/// had data still has some, and an account whose data changed has an
/// address ending in twelve zero bytes and eight bytes of data.
pub open spec fn account_change_ok(
    before: spec_fn(Seq<u8>) -> Option<Seq<u8>>,
    after: spec_fn(Seq<u8>) -> Option<Seq<u8>>,
) -> bool {
    forall|a: Seq<u8>|
        #![trigger after(a)]
        (before(a) is Some ==> after(a) is Some) && (after(a) != before(a) ==> a.subrange(8, 20) == Seq::new(
            12,
            |i: int| 0u8,
        ) && after(a) is Some && after(a)->0.len() == 8)
}

proof fn lemma_svm_op_accounts(code: Seq<u8>, op: u8, s: SvmModel)
    ensures
        spec_op(code, op, s) matches SvmStep::Next(x) ==> account_change_ok(s.accounts, x.accounts),
        spec_op(code, op, s) matches SvmStep::Stop(x) ==> account_change_ok(s.accounts, x.accounts),
{
    if op == 0x13 {
        match spec_op(code, op, s) {
            SvmStep::Next(x) => {
                assert forall|a: Seq<u8>| #![trigger (x.accounts)(a)] ((s.accounts)(a) is Some ==> (x.accounts)(a) is Some)
                    && ((x.accounts)(a) != (s.accounts)(a) ==> a.subrange(8, 20) == Seq::new(12, |i: int| 0u8)
                    && (x.accounts)(a) is Some && (x.accounts)(a)->0.len() == 8) by {
                    if (x.accounts)(a) != (s.accounts)(a) {
                        assert(a.subrange(8, 20) =~= Seq::new(12, |i: int| 0u8));
                    }
                }
            },
            _ => {},
        }
    } else {
        match spec_op(code, op, s) {
            SvmStep::Next(x) => {
                assert(x.accounts == s.accounts);
            },
            SvmStep::Stop(x) => {
                assert(x.accounts == s.accounts);
            },
            _ => {},
        }
    }
}

proof fn lemma_account_change_trans(
    a: spec_fn(Seq<u8>) -> Option<Seq<u8>>,
    b: spec_fn(Seq<u8>) -> Option<Seq<u8>>,
    c: spec_fn(Seq<u8>) -> Option<Seq<u8>>,
)
    requires
        account_change_ok(a, b),
        account_change_ok(b, c),
    ensures
        account_change_ok(a, c),
{
    assert forall|x: Seq<u8>| #![trigger c(x)] (a(x) is Some ==> c(x) is Some) && (c(x) != a(x) ==> x.subrange(8, 20)
        == Seq::new(12, |i: int| 0u8) && c(x) is Some && c(x)->0.len() == 8) by {
        assert(b(x) == b(x));
        assert(c(x) == c(x));
    }
}

proof fn lemma_svm_run_accounts(code: Seq<u8>, s: SvmModel)
    ensures
        svm_run(code, s) matches SvmOutcome::Done(f) ==> account_change_ok(s.accounts, f.accounts),
    decreases s.gas,
{
    if s.pc < 0 || s.pc >= code.len() {
        assert forall|x: Seq<u8>| #![trigger (s.accounts)(x)] true by {}
    } else if s.gas == 0 {
    } else {
        let op = code[s.pc];
        let s1 = SvmModel { pc: s.pc + 1, gas: (s.gas - 1) as u64, ..s };
        lemma_svm_op_accounts(code, op, s1);
        lemma_svm_op_gas(code, op, s1, s1.gas);
        match spec_op(code, op, s1) {
            SvmStep::Next(x) => {
                let n = SvmModel { gas: s1.gas, ..x };
                lemma_svm_run_accounts(code, n);
                if svm_run(code, n) is Done {
                    lemma_account_change_trans(s.accounts, x.accounts, svm_run(code, n)->Done_0.accounts);
                }
            },
            _ => {},
        }
    }
}

/// What a register-machine run may do to the journal's account data: only
/// WRITE_ACCOUNT writes, storing a register's eight bytes at the address a
/// register names (its eight bytes then twelve zero bytes), and no
/// account's data is ever removed. (`svm_execute` also leaves the storage
/// writes and the gas deductions as they were.)
pub proof fn law_svm_account_writes(code: Seq<u8>, journal: crate::journal::StateJournal, g: u64)
    requires
        svm_run(code, svm_init(journal, g)) is Done,
    ensures
        account_change_ok(
            |a: Seq<u8>| journal.account_of(a),
            svm_run(code, svm_init(journal, g))->Done_0.accounts,
        ),
{
    lemma_svm_run_accounts(code, svm_init(journal, g));
}

} // verus!
