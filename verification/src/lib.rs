//! An order-matching engine with pre-trade risk checks and a write-ahead
//! log, a transaction decoder with signature recovery, a state journal, and
//! two contract machines: a 256-bit stack machine and a register machine.
pub mod bytes;
pub mod types;
pub mod book;
pub mod risk;
pub mod engine;
pub mod registry;
pub mod decoder;
pub mod journal;
pub mod svm;
pub mod wal;
pub mod recovery;
pub mod pipeline;
pub mod signature;
pub mod word;
pub mod opcodes;
pub mod state;
pub mod interpreter;
pub mod properties;
pub mod semantics;
pub mod program;

pub use book::OrderBook;
pub use engine::MatchingEngine;
pub use pipeline::SpscRing;
pub use recovery::Recovery;
pub use registry::MatchingRegistry;
pub use risk::{RiskConfig, RiskEngine};
pub use types::{
    AccountId, Order, OrderId, OrderType, Price, Qty, RejectReason, RiskResult, Side, StpPolicy, Symbol, TimeInForce,
    Trade, PRICE_SCALE,
};
pub use wal::{WalEvent, WalReader};
pub use interpreter::{execute, execute_checked, ExecutionContext, ExecutionResult};
pub use state::{ExecMode, ExecutionError, ExecutionState};
pub use svm::{svm_execute, svm_execute_checked, SvmError, SvmResult};
pub use decoder::{decode_transaction, DecodeError, EngineRouter, ExecutionEngine, Transaction, TxHeader};
pub use signature::verify_signature;
pub use journal::{StateJournal, StorageKey};
