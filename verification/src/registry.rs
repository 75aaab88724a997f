//! One matching engine per symbol.
use vstd::prelude::*;
use crate::engine::{MatchingEngine, submit, submit_defined};
use crate::types::{Order, OrderId, RejectReason, Symbol, Trade};

verus! {

/// Engines keyed by symbol; each symbol is registered at most once and
/// symbols are listed in registration order.
pub struct MatchingRegistry {
    symbols: Vec<Symbol>,
    engines: Vec<MatchingEngine>,
}

impl MatchingRegistry {
    pub closed spec fn symbol_seq(self) -> Seq<Symbol> {
        self.symbols@
    }

    pub closed spec fn engine_seq(self) -> Seq<MatchingEngine> {
        self.engines@
    }

    /// Registered symbols are distinct and each has an engine.
    pub open spec fn wf(self) -> bool {
        &&& self.symbol_seq().len() == self.engine_seq().len()
        &&& forall|i: int, j: int|
            0 <= i < j < self.symbol_seq().len() ==> self.symbol_seq()[i] != self.symbol_seq()[j]
    }

    /// Every registered engine keeps its book well formed.
    pub open spec fn engines_wf(self) -> bool {
        forall|i: int| 0 <= i < self.engine_seq().len() ==> #[trigger] self.engine_seq()[i].wf()
    }

    /// Position of `symbol` among the registered symbols, or -1.
    pub open spec fn index_of(self, symbol: Symbol) -> int {
        if exists|i: int| 0 <= i < self.symbol_seq().len() && self.symbol_seq()[i] == symbol {
            choose|i: int| 0 <= i < self.symbol_seq().len() && self.symbol_seq()[i] == symbol
        } else {
            -1
        }
    }

    pub open spec fn engine_of(self, symbol: Symbol) -> Option<MatchingEngine> {
        if self.index_of(symbol) >= 0 {
            Some(self.engine_seq()[self.index_of(symbol)])
        } else {
            None
        }
    }

    fn find(&self, symbol: Symbol) -> (r: Option<usize>)
        requires
            self.wf(),
        ensures
            match r {
                Some(i) => i == self.index_of(symbol) && 0 <= i < self.symbol_seq().len(),
                None => self.index_of(symbol) == -1,
            },
    {
        let mut i: usize = 0;
        while i < self.symbols.len()
            invariant
                self.wf(),
                i <= self.symbols@.len(),
                forall|j: int| 0 <= j < i ==> self.symbols@[j] != symbol,
            decreases self.symbols@.len() - i,
        {
            if self.symbols[i].0 == symbol.0 {
                proof {
                    assert(self.symbol_seq()[i as int] == symbol);
                    assert(0 <= i < self.symbol_seq().len() && self.symbol_seq()[i as int] == symbol);
                    let k = self.index_of(symbol);
                    assert(0 <= k < self.symbol_seq().len() && self.symbol_seq()[k] == symbol);
                    if k != i {
                        assert(self.symbol_seq()[k] == self.symbol_seq()[i as int]);
                    }
                }
                return Some(i);
            }
            i = i + 1;
        }
        None
    }

    pub fn new() -> (r: Self)
        ensures
            r.wf(),
            r.engines_wf(),
            r.symbol_seq().len() == 0,
    {
        Self { symbols: Vec::new(), engines: Vec::new() }
    }

    /// The engine registered under `symbol`, for changing it in place.
    pub fn get_mut(&mut self, symbol: Symbol) -> (r: Option<&mut MatchingEngine>)
        requires
            old(self).wf(),
        ensures
            final(self).symbol_seq() == old(self).symbol_seq(),
            old(self).index_of(symbol) < 0 ==> r is None && final(self).engine_seq() == old(self).engine_seq(),
            old(self).index_of(symbol) >= 0 ==> (r matches Some(e) && *e == old(self).engine_seq()[old(self).index_of(symbol)]
                && final(self).engine_seq() == old(self).engine_seq().update(old(self).index_of(symbol), *final(e))),
    {
        match self.find(symbol) {
            Some(i) => Some(&mut self.engines[i]),
            None => None,
        }
    }

    /// Registers `engine` under `symbol`, replacing any engine registered
    /// under it before.
    pub fn register(&mut self, symbol: Symbol, engine: MatchingEngine)
        requires
            old(self).wf(),
        ensures
            final(self).wf(),
            final(self).engine_of(symbol) == Some(engine),
            forall|s: Symbol| s != symbol ==> final(self).engine_of(s) == old(self).engine_of(s),
            old(self).index_of(symbol) >= 0 ==> final(self).symbol_seq() == old(self).symbol_seq(),
            old(self).index_of(symbol) < 0 ==> final(self).symbol_seq() == old(self).symbol_seq().push(symbol),
            old(self).engines_wf() && engine.wf() ==> final(self).engines_wf(),
    {
        match self.find(symbol) {
            Some(i) => {
                self.engines.set(i, engine);
                proof {
                    assert forall|s: Symbol| s != symbol implies final(self).engine_of(s) == old(self).engine_of(s) by {
                        if old(self).index_of(s) >= 0 {
                            let k = old(self).index_of(s);
                            assert(self.symbol_seq()[k] == s);
                        }
                        if self.index_of(s) >= 0 {
                            let k = self.index_of(s);
                            assert(old(self).symbol_seq()[k] == s);
                        }
                    }
                }
            },
            None => {
                self.symbols.push(symbol);
                self.engines.push(engine);
                proof {
                    let n = old(self).symbol_seq().len() as int;
                    assert(self.symbol_seq()[n] == symbol);
                    assert(self.index_of(symbol) == n);
                    assert forall|s: Symbol| s != symbol implies final(self).engine_of(s) == old(self).engine_of(s) by {
                        if old(self).index_of(s) >= 0 {
                            let k = old(self).index_of(s);
                            assert(self.symbol_seq()[k] == s);
                        }
                        if self.index_of(s) >= 0 {
                            let k = self.index_of(s);
                            assert(k != n);
                            assert(old(self).symbol_seq()[k] == s);
                        }
                    }
                }
            },
        }
    }

    pub fn get(&self, symbol: Symbol) -> (r: Option<&MatchingEngine>)
        requires
            self.wf(),
        ensures
            match r {
                Some(e) => self.engine_of(symbol) == Some(*e),
                None => self.engine_of(symbol).is_none(),
            },
    {
        match self.find(symbol) {
            Some(i) => Some(&self.engines[i]),
            None => None,
        }
    }

    /// Submits `order` to the engine of `symbol`; an unknown symbol is
    /// rejected with `MaxNotionalExceeded`.
    #[verifier::spinoff_prover]
    #[verifier::rlimit(40)]
    pub fn submit_order(&mut self, symbol: Symbol, order: Order) -> (r: Result<Vec<Trade>, RejectReason>)
        requires
            old(self).wf(),
            old(self).engines_wf(),
            old(self).engine_of(symbol) matches Some(e) ==> submit_defined(e.model(), e.params(), order),
        ensures
            final(self).wf(),
            final(self).engines_wf(),
            final(self).symbol_seq() == old(self).symbol_seq(),
            forall|s: Symbol| s != symbol ==> final(self).engine_of(s) == old(self).engine_of(s),
            match old(self).engine_of(symbol) {
                None => r == Err::<Vec<Trade>, RejectReason>(RejectReason::MaxNotionalExceeded) && final(self).engine_of(symbol).is_none(),
                Some(e) => {
                    let (m2, res) = submit(e.model(), e.params(), order);
                    &&& final(self).engine_of(symbol) matches Some(e2) && e2.model() == m2 && e2.params() == e.params()
                    &&& match r {
                        Ok(t) => res == Ok::<Seq<Trade>, RejectReason>(t@),
                        Err(x) => res == Err::<Seq<Trade>, RejectReason>(x),
                    }
                },
            },
    {
        match self.find(symbol) {
            None => Err(RejectReason::MaxNotionalExceeded),
            Some(i) => {
                proof {
                    assert(self.engine_seq()[i as int].wf());
                }
                let mut engine = self.engines.remove(i);
                let r = engine.submit_order(order);
                self.engines.insert(i, engine);
                proof {
                    assert(self.engine_seq() =~= old(self).engine_seq().update(i as int, engine));
                    assert forall|j: int| 0 <= j < self.engine_seq().len() implies #[trigger] self.engine_seq()[j].wf() by {
                        if j != i {
                            assert(self.engine_seq()[j] == old(self).engine_seq()[j]);
                        }
                    }
                }
                r
            },
        }
    }

    /// Cancels order `id` in the engine of `symbol`.
    pub fn cancel_order(&mut self, symbol: Symbol, id: OrderId) -> (r: Option<Order>)
        requires
            old(self).wf(),
            old(self).engines_wf(),
        ensures
            final(self).wf(),
            final(self).engines_wf(),
            final(self).symbol_seq() == old(self).symbol_seq(),
            forall|s: Symbol| s != symbol ==> final(self).engine_of(s) == old(self).engine_of(s),
            match old(self).engine_of(symbol) {
                None => r.is_none() && final(self).engine_of(symbol).is_none(),
                Some(e) => final(self).engine_of(symbol) matches Some(e2) && (e2.book@, r) == e.book@.cancel(id)
                    && e2.risk == e.risk && e2.sequence == e.sequence && e2.trades == e.trades && e2.params() == e.params(),
            },
    {
        match self.find(symbol) {
            None => None,
            Some(i) => {
                proof {
                    assert(self.engine_seq()[i as int].wf());
                }
                let mut engine = self.engines.remove(i);
                let r = engine.cancel_order(id);
                self.engines.insert(i, engine);
                proof {
                    assert(self.engine_seq() =~= old(self).engine_seq().update(i as int, engine));
                    assert forall|j: int| 0 <= j < self.engine_seq().len() implies #[trigger] self.engine_seq()[j].wf() by {
                        if j != i {
                            assert(self.engine_seq()[j] == old(self).engine_seq()[j]);
                        }
                    }
                }
                r
            },
        }
    }

    /// The registered symbols, in registration order.
    pub fn symbols(&self) -> (r: Vec<Symbol>)
        ensures
            r@ == self.symbol_seq(),
    {
        let mut r: Vec<Symbol> = Vec::new();
        let mut i: usize = 0;
        while i < self.symbols.len()
            invariant
                i <= self.symbols@.len(),
                r@ == self.symbols@.take(i as int),
            decreases self.symbols@.len() - i,
        {
            r.push(self.symbols[i]);
            proof {
                assert(r@ =~= self.symbols@.take(i + 1));
            }
            i = i + 1;
        }
        proof {
            assert(self.symbols@.take(i as int) =~= self.symbols@);
        }
        r
    }
}

impl Default for MatchingRegistry {
    fn default() -> (r: Self)
        ensures
            r.wf(),
            r.symbol_seq().len() == 0,
    {
        Self::new()
    }
}

} // verus!
