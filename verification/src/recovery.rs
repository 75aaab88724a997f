//! Rebuilding engine state by replaying a write-ahead log.
use vstd::prelude::*;
use crate::book::BookModel;
use crate::engine::{MatchingEngine, EngineModel, EngineParams, submit, submit_defined, expire_side, count_orders};
use crate::risk::{RiskEngine, RiskConfig};
use crate::types::{Order, OrderId, AccountId, Side, OrderType, Price, Qty, TimeInForce};
use crate::wal::{WalEvent, WalReader, WalReadError, EventType, wal_events, header_ok, lemma_wal_events_len, written_slots, WAL_MAGIC, EVENT_SIZE, HEADER_SIZE};
use crate::bytes::u32_le_at;

verus! {

pub struct Recovery;

#[derive(Debug, Clone, Copy, PartialEq, Eq, Structural)]
pub enum RecoveryError {
    /// The log does not start with the magic number.
    InvalidHeader,
    /// The log ended inside its header or a slot.
    UnexpectedEof,
}

/// The order an insertion event describes: side 0 is a bid, order types
/// 0 to 3 are limit, market, IOC and FOK, anything else post-only; it is a
/// good-till-cancel order stamped with the event's sequence number.
pub open spec fn event_order(e: WalEvent) -> Order {
    Order {
        id: OrderId(e.order_id),
        account: AccountId(e.account_id),
        side: if e.side == 0 { Side::Bid } else { Side::Ask },
        order_type: if e.order_type == 0 {
            OrderType::Limit
        } else if e.order_type == 1 {
            OrderType::Market
        } else if e.order_type == 2 {
            OrderType::IOC
        } else if e.order_type == 3 {
            OrderType::FOK
        } else {
            OrderType::PostOnly
        },
        price: Price(e.price),
        qty: Qty(e.qty),
        remaining: Qty(e.qty),
        tif: TimeInForce::GTC,
        timestamp: e.sequence_id,
    }
}

/// The state replay carries: the engine state and its session end.
pub struct ReplayState {
    pub m: EngineModel,
    pub session_end: u64,
}

pub open spec fn replay_params(config: RiskConfig, session_end: u64) -> EngineParams {
    EngineParams { config, stp_policy: None, session_end }
}

/// Applying one event: an insertion is submitted (a rejection is ignored),
/// a cancellation cancels, a session end moves the session end to the
/// event's sequence number and expires day orders; other events do nothing.
pub open spec fn apply_event(st: ReplayState, config: RiskConfig, e: WalEvent) -> ReplayState {
    if e.event_type == EventType::INSERT {
        ReplayState { m: submit(st.m, replay_params(config, st.session_end), event_order(e)).0, ..st }
    } else if e.event_type == EventType::CANCEL {
        ReplayState { m: EngineModel { book: st.m.book.cancel(OrderId(e.order_id)).0, ..st.m }, ..st }
    } else if e.event_type == EventType::SESSION_END {
        ReplayState {
            m: EngineModel {
                book: BookModel {
                    bids: expire_side(st.m.book.bids, e.sequence_id),
                    asks: expire_side(st.m.book.asks, e.sequence_id),
                },
                ..st.m
            },
            session_end: e.sequence_id,
        }
    } else {
        st
    }
}

/// Applying one event stays within machine arithmetic.
pub open spec fn event_defined(st: ReplayState, config: RiskConfig, e: WalEvent) -> bool {
    if e.event_type == EventType::INSERT {
        submit_defined(st.m, replay_params(config, st.session_end), event_order(e))
    } else if e.event_type == EventType::SESSION_END {
        count_orders(st.m.book.bids) + count_orders(st.m.book.asks) <= usize::MAX
    } else {
        true
    }
}

/// Applying the events in order.
pub open spec fn replay(st: ReplayState, config: RiskConfig, events: Seq<WalEvent>) -> ReplayState
    decreases events.len(),
{
    if events.len() == 0 {
        st
    } else {
        replay(apply_event(st, config, events[0]), config, events.drop_first())
    }
}

pub open spec fn replay_defined(st: ReplayState, config: RiskConfig, events: Seq<WalEvent>) -> bool
    decreases events.len(),
{
    events.len() == 0 || (event_defined(st, config, events[0]) && replay_defined(
        apply_event(st, config, events[0]),
        config,
        events.drop_first(),
    ))
}

/// The state replay starts from: an empty book, the risk engine's
/// accounts, no trades, and an open session.
pub open spec fn initial_state(risk: RiskEngine) -> ReplayState {
    ReplayState {
        m: EngineModel {
            book: BookModel { bids: seq![], asks: seq![] },
            accounts: risk.accounts@,
            sequence: 0,
            trades: seq![],
        },
        session_end: u64::MAX,
    }
}

fn order_of(e: &WalEvent) -> (o: Order)
    ensures
        o == event_order(*e),
{
    Order {
        id: OrderId(e.order_id),
        account: AccountId(e.account_id),
        side: if e.side == 0 { Side::Bid } else { Side::Ask },
        order_type: if e.order_type == 0 {
            OrderType::Limit
        } else if e.order_type == 1 {
            OrderType::Market
        } else if e.order_type == 2 {
            OrderType::IOC
        } else if e.order_type == 3 {
            OrderType::FOK
        } else {
            OrderType::PostOnly
        },
        price: Price(e.price),
        qty: Qty(e.qty),
        remaining: Qty(e.qty),
        tif: TimeInForce::GTC,
        timestamp: e.sequence_id,
    }
}

impl Recovery {
    /// Replays the log in `reader` onto a fresh engine over `risk` where
    /// every event stays within machine arithmetic; `Ok(None)` where some
    /// event would overflow.
    pub fn replay_log_checked(reader: WalReader, risk: RiskEngine) -> (r: Result<Option<MatchingEngine>, RecoveryError>)
        requires
            reader.fresh(),
        ensures
            reader.data().len() < 8 ==> r == Err::<Option<MatchingEngine>, RecoveryError>(RecoveryError::UnexpectedEof),
            reader.data().len() >= 8 && !header_ok(reader.data()) ==> r == Err::<Option<MatchingEngine>, RecoveryError>(
                RecoveryError::InvalidHeader,
            ),
            reader.data().len() >= 8 && header_ok(reader.data()) ==> (r matches Ok(x) && (x is None <==> !replay_defined(
                initial_state(risk),
                risk.config,
                wal_events(reader.data(), 8),
            ))),
            reader.data().len() >= 8 && header_ok(reader.data()) ==> (r matches Ok(Some(engine)) ==> {
                let fin = replay(initial_state(risk), risk.config, wal_events(reader.data(), 8));
                &&& engine.wf()
                &&& engine.model() == fin.m
                &&& engine.session_end == fin.session_end
                &&& engine.risk.config == risk.config
                &&& engine.stp_policy.is_none()
            }),
    {
        let mut rd = reader;
        let ghost data = rd.data();
        let ghost config = risk.config;
        let ghost st0 = initial_state(risk);
        match rd.read_header() {
            Err(_) => {
                return Err(RecoveryError::UnexpectedEof);
            },
            Ok(false) => {
                return Err(RecoveryError::InvalidHeader);
            },
            Ok(true) => {},
        }
        let mut engine = MatchingEngine::new(risk);
        let ghost fin = replay(st0, config, wal_events(data, 8));
        proof {
            assert(engine.model() =~= st0.m);
        }
        loop
            invariant
                rd.wf(),
                data == reader.data(),
                header_ok(data),
                fin == replay(st0, config, wal_events(data, 8)),
                st0 == initial_state(risk),
                config == risk.config,
                rd.data() == data,
                rd.cursor() == rd.pos(),
                rd.pos() >= 8,
                engine.wf(),
                engine.risk.config == config,
                engine.stp_policy.is_none(),
                fin == replay(
                    ReplayState { m: engine.model(), session_end: engine.session_end },
                    config,
                    wal_events(data, rd.pos()),
                ),
                replay_defined(st0, config, wal_events(data, 8)) == replay_defined(
                    ReplayState { m: engine.model(), session_end: engine.session_end },
                    config,
                    wal_events(data, rd.pos()),
                ),
            decreases data.len() - rd.pos(),
        {
            let ghost st = ReplayState { m: engine.model(), session_end: engine.session_end };
            let ghost p = rd.pos();
            let ev = rd.next_event();
            let event = match ev {
                Ok(Some(e)) => e,
                Ok(None) => {
                    return Ok(Some(engine));
                },
                Err(_) => {
                    return Err(RecoveryError::UnexpectedEof);
                },
            };
            proof {
                assert(wal_events(data, p) == seq![event] + wal_events(data, p + 80));
                assert(wal_events(data, p)[0] == event);
                assert(wal_events(data, p).drop_first() =~= wal_events(data, p + 80));
            }
            if event.event_type == EventType::INSERT {
                let order = order_of(&event);
                if !engine.submit_is_defined(&order) {
                    return Ok(None);
                }
                let _ = engine.submit_order(order);
            } else if event.event_type == EventType::CANCEL {
                engine.cancel_order(OrderId(event.order_id));
            } else if event.event_type == EventType::SESSION_END {
                if !engine.order_count_fits() {
                    return Ok(None);
                }
                engine.session_end = event.sequence_id;
                engine.expire_day_orders();
            }
            proof {
                assert(ReplayState { m: engine.model(), session_end: engine.session_end } == apply_event(st, config, event));
            }
        }
    }

    /// Replays the log in `reader` onto a fresh engine over `risk`.
    pub fn replay_log(reader: WalReader, risk: RiskEngine) -> (r: Result<MatchingEngine, RecoveryError>)
        requires
            reader.fresh(),
            reader.data().len() >= 8 && header_ok(reader.data()) ==> replay_defined(
                initial_state(risk),
                risk.config,
                wal_events(reader.data(), 8),
            ),
        ensures
            reader.data().len() < 8 ==> r == Err::<MatchingEngine, RecoveryError>(RecoveryError::UnexpectedEof),
            reader.data().len() >= 8 && !header_ok(reader.data()) ==> r == Err::<MatchingEngine, RecoveryError>(
                RecoveryError::InvalidHeader,
            ),
            reader.data().len() >= 8 && header_ok(reader.data()) ==> (r matches Ok(engine) && {
                let fin = replay(initial_state(risk), risk.config, wal_events(reader.data(), 8));
                &&& engine.wf()
                &&& engine.model() == fin.m
                &&& engine.session_end == fin.session_end
                &&& engine.risk.config == risk.config
                &&& engine.stp_policy.is_none()
            }),
    {
        match Self::replay_log_checked(reader, risk) {
            Ok(x) => Ok(x.unwrap()),
            Err(e) => Err(e),
        }
    }

    /// Counts the events of a log: `(valid, corrupted)`, where `valid` is
    /// the number of events read before the first slot that does not read
    /// as one, and `corrupted` the number of whole slots after them that
    /// hold data; slots never written (all zero) are not counted.
    pub fn count_log_events(reader: WalReader) -> (r: Result<(u64, u64), RecoveryError>)
        requires
            reader.fresh(),
        ensures
            reader.data().len() < 8 ==> r == Err::<(u64, u64), RecoveryError>(RecoveryError::UnexpectedEof),
            reader.data().len() >= 8 && !header_ok(reader.data()) ==> r == Ok::<(u64, u64), RecoveryError>((0, 0)),
            reader.data().len() >= 8 && header_ok(reader.data()) ==> {
                let valid = wal_events(reader.data(), 8).len();
                r == Ok::<(u64, u64), RecoveryError>(
                    (valid as u64, written_slots(reader.data(), valid as int, (reader.data().len() - 8) / 80) as u64),
                )
            },
    {
        let mut rd = reader;
        let ghost data = rd.data();
        match rd.read_header() {
            Err(_) => {
                return Err(RecoveryError::UnexpectedEof);
            },
            Ok(false) => {
                return Ok((0, 0));
            },
            Ok(true) => {},
        }
        let file_size = rd.data_len();
        let mut valid: u64 = 0;
        proof {
            lemma_wal_events_len(data, 8);
        }
        loop
            invariant
                rd.wf(),
                data == reader.data(),
                header_ok(data),
                rd.data() == data,
                data.len() >= 8,
                file_size == data.len(),
                rd.cursor() == rd.pos(),
                rd.pos() >= 8,
                rd.pos() == 8 + 80 * valid,
                wal_events(data, 8).len() == valid + wal_events(data, rd.pos()).len(),
                wal_events(data, rd.pos()).len() <= (data.len() - rd.pos()) / 80,
            decreases data.len() - rd.pos(),
        {
            let ghost p = rd.pos();
            proof {
                lemma_wal_events_len(data, p);
            }
            match rd.next_event() {
                Ok(Some(e)) => {
                    proof {
                        assert(wal_events(data, p) == seq![e] + wal_events(data, p + 80));
                        lemma_wal_events_len(data, p + 80);
                    }
                    valid = valid + 1;
                },
                Ok(None) => {
                    proof {
                        assert(wal_events(data, p).len() == 0);
                        assert((data.len() - 8) / 80 >= valid) by (nonlinear_arith)
                            requires
                                p == 8 + 80 * valid,
                                p <= data.len(),
                        ;
                    }
                    let total_slots = (file_size - HEADER_SIZE) / (EVENT_SIZE as u64);
                    let mut corrupted: u64 = 0;
                    let mut k: u64 = valid;
                    while k < total_slots
                        invariant
                            rd.wf(),
                            rd.data() == data,
                            file_size == data.len(),
                            data.len() >= 8,
                            total_slots == (data.len() - 8) / 80,
                            valid <= k <= total_slots,
                            corrupted == written_slots(data, valid as int, k as int),
                            corrupted <= k - valid,
                        decreases total_slots - k,
                    {
                        proof {
                            assert(8 + 80 * (k + 1) <= data.len()) by (nonlinear_arith)
                                requires
                                    k < total_slots,
                                    total_slots == (data.len() - 8) / 80,
                                    data.len() >= 8,
                            ;
                        }
                        if !rd.slot_is_blank(k) {
                            corrupted = corrupted + 1;
                        }
                        k = k + 1;
                    }
                    return Ok((valid, corrupted));
                },
                Err(_) => {
                    return Err(RecoveryError::UnexpectedEof);
                },
            }
        }
    }
}

} // verus!
