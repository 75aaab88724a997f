//! The stack machine for contract bytecode: 256-bit words, a byte memory,
//! storage in the journal and static gas per instruction.
//!
//! `evm_run` is the meaning of a run; `execute` carries it out.
use vstd::prelude::*;
use vstd::arithmetic::power::pow;
use crate::word::{
    Word, word_modulus, from_val, word_of, bool_word, ones_word, add_mod, sub_mod, mul_mod, shl_word, shr_word,
    and_word, or_word, xor_word, not_word, be_word_at, be_bytes, lemma_zero_val, lemma_small_val, lemma_from_val,
    lemma_val_bound, pow_overflows,
    wrapping_add, wrapping_sub, wrapping_mul, checked_sum, checked_product, quotient, remainder, power, shift_left,
    shift_right, less_than,
};
use crate::state::{ExecutionState, ExecutionError, ExecMode, STACK_LIMIT};
use crate::opcodes::{gas_cost, spec_gas_cost};
use crate::journal::{StateJournal, Address, StorageKey};
use crate::signature::{sha256, spec_sha256};
use crate::svm::grow;
use crate::bytes::copy_range;

verus! {

pub struct ExecutionContext {
    pub code: Vec<u8>,
    pub sender: Address,
    pub value: u128,
    pub journal: StateJournal,
}

#[derive(Debug)]
pub struct ExecutionResult {
    pub success: bool,
    pub gas_used: u64,
    pub output: Vec<u8>,
    pub journal: StateJournal,
}

/// Mathematical model of a running machine.
#[verifier::ext_equal]
pub struct EvmModel {
    /// The operand stack, top last.
    pub stack: Seq<Word>,
    pub memory: Seq<u8>,
    pub pc: int,
    pub gas: u64,
    /// Storage by (address, slot).
    pub storage: spec_fn((Seq<u8>, Seq<u8>)) -> Option<Seq<u8>>,
}

/// The result of one instruction.
pub enum EvmStep {
    Next(EvmModel),
    Error(ExecutionError),
    /// The instruction panics (a word that must fit 64 bits does not, an
    /// addition or multiplication overflows, memory would pass the end of
    /// the address space).
    Crash,
}

/// The result of a run: success flag, output and final state; an error; or
/// a panic.
pub enum EvmOutcome {
    Done(bool, Seq<u8>, EvmModel),
    Error(ExecutionError),
    Crash,
}

/// The word `i` places below the top of the stack.
pub open spec fn top(s: EvmModel, i: int) -> Word {
    s.stack[s.stack.len() - 1 - i]
}

/// `s` with its top `n` words removed.
pub open spec fn popped(s: EvmModel, n: int) -> EvmModel {
    EvmModel { stack: s.stack.take(s.stack.len() - n), ..s }
}

pub open spec fn push_step(s: EvmModel, w: Word) -> EvmStep {
    if s.stack.len() >= STACK_LIMIT {
        EvmStep::Error(ExecutionError::StackOverflow)
    } else {
        EvmStep::Next(EvmModel { stack: s.stack.push(w), ..s })
    }
}

/// The address a word names: its low 64 bits as a machine address.
pub open spec fn offset_of(w: Word) -> usize {
    w.l0 as usize
}

/// SIGNEXTEND: extends the sign bit of byte `b` (counted from the low end)
/// of `x` over the higher bytes.
pub open spec fn sign_extend(b: Word, x: Word) -> Word {
    if b.val() < 32 {
        let k = b.l0 as nat;
        let bit = shl_word(word_of(1), 8 * k + 7);
        if !and_word(x, bit).spec_is_zero() {
            or_word(x, shl_word(ones_word(), 8 * k + 8))
        } else {
            and_word(x, shr_word(ones_word(), (248 - 8 * k) as nat))
        }
    } else {
        x
    }
}

/// BYTE: byte `i` of `x` counted from the high end; `None` where the word
/// shifted down does not fit 64 bits.
pub open spec fn byte_result(i: Word, x: Word) -> Option<Word> {
    if i.val() < 32 {
        let y = shr_word(x, (248 - 8 * i.l0) as nat);
        if y.spec_fits_u64() {
            Some(word_of(y.l0 & 0xff))
        } else {
            None
        }
    } else {
        Some(word_of(0))
    }
}

/// SHL and SHR (SAR shifts like SHR); `None` where the shift does not fit
/// a machine word.
pub open spec fn shift_result(op: u8, shift: Word, v: Word) -> Option<Word> {
    if !shift.spec_fits_u64() || shift.l0 > usize::MAX {
        None
    } else if op == 0x1b {
        Some(shl_word(v, shift.l0 as nat))
    } else {
        Some(shr_word(v, shift.l0 as nat))
    }
}

/// The word a two-operand instruction pushes for top `a` and next `b`.
/// Signed variants compute as their unsigned counterparts.
pub open spec fn binary_result(op: u8, a: Word, b: Word) -> Option<Word> {
    if op == 0x01 {
        Some(add_mod(a, b))
    } else if op == 0x02 {
        Some(mul_mod(a, b))
    } else if op == 0x03 {
        Some(sub_mod(a, b))
    } else if op == 0x04 || op == 0x05 {
        Some(if b.spec_is_zero() { word_of(0) } else { from_val(a.val() / b.val()) })
    } else if op == 0x06 || op == 0x07 {
        Some(if b.spec_is_zero() { word_of(0) } else { from_val(a.val() % b.val()) })
    } else if op == 0x0a {
        if pow(a.val() as int, b.val()) < word_modulus() {
            Some(from_val(pow(a.val() as int, b.val()) as nat))
        } else {
            None
        }
    } else if op == 0x0b {
        Some(sign_extend(a, b))
    } else if op == 0x10 || op == 0x12 {
        Some(bool_word(a.val() < b.val()))
    } else if op == 0x11 || op == 0x13 {
        Some(bool_word(a.val() > b.val()))
    } else if op == 0x14 {
        Some(bool_word(a == b))
    } else if op == 0x16 {
        Some(and_word(a, b))
    } else if op == 0x17 {
        Some(or_word(a, b))
    } else if op == 0x18 {
        Some(xor_word(a, b))
    } else if op == 0x1a {
        byte_result(a, b)
    } else {
        shift_result(op, a, b)
    }
}

/// ADDMOD and MULMOD; `None` where the sum or product passes 2^256.
pub open spec fn ternary_result(op: u8, a: Word, b: Word, m: Word) -> Option<Word> {
    if m.spec_is_zero() {
        Some(word_of(0))
    } else if op == 0x08 {
        if a.val() + b.val() < word_modulus() {
            Some(from_val((a.val() + b.val()) % m.val()))
        } else {
            None
        }
    } else {
        if a.val() * b.val() < word_modulus() {
            Some(from_val((a.val() * b.val()) % m.val()))
        } else {
            None
        }
    }
}

pub open spec fn is_arith(op: u8) -> bool {
    (0x01 <= op <= 0x0b) || (0x10 <= op <= 0x1d)
}

pub open spec fn is_memory(op: u8) -> bool {
    op == 0x20 || (0x50 <= op <= 0x53)
}

pub open spec fn is_storage(op: u8) -> bool {
    op == 0x54 || op == 0x55
}

pub open spec fn is_flow(op: u8) -> bool {
    0x56 <= op <= 0x5b
}

pub open spec fn is_stack(op: u8) -> bool {
    0x60 <= op <= 0xa4
}

/// The instructions after which the machine goes on.
pub open spec fn is_continuing(op: u8) -> bool {
    is_arith(op) || is_memory(op) || is_storage(op) || is_flow(op) || is_stack(op)
}

/// Arithmetic, comparison and bitwise instructions: pop the operands, push
/// the result.
#[verifier::opaque]
pub open spec fn arith_step(op: u8, s: EvmModel) -> EvmStep {
    let n = s.stack.len();
    if op == 0x15 || op == 0x19 {
        if n < 1 {
            EvmStep::Error(ExecutionError::StackUnderflow)
        } else {
            let a = top(s, 0);
            push_step(popped(s, 1), if op == 0x15 { bool_word(a.spec_is_zero()) } else { not_word(a) })
        }
    } else if op == 0x08 || op == 0x09 {
        if n < 3 {
            EvmStep::Error(ExecutionError::StackUnderflow)
        } else {
            match ternary_result(op, top(s, 0), top(s, 1), top(s, 2)) {
                Some(w) => push_step(popped(s, 3), w),
                None => EvmStep::Crash,
            }
        }
    } else {
        if n < 2 {
            EvmStep::Error(ExecutionError::StackUnderflow)
        } else {
            match binary_result(op, top(s, 0), top(s, 1)) {
                Some(w) => push_step(popped(s, 2), w),
                None => EvmStep::Crash,
            }
        }
    }
}

/// SHA3 (hashing memory with SHA-256), POP, MLOAD, MSTORE, MSTORE8.
#[verifier::opaque]
pub open spec fn memory_step(op: u8, s: EvmModel) -> EvmStep {
    let n = s.stack.len();
    if op == 0x50 {
        if n < 1 {
            EvmStep::Error(ExecutionError::StackUnderflow)
        } else {
            EvmStep::Next(popped(s, 1))
        }
    } else if n < 1 {
        EvmStep::Error(ExecutionError::StackUnderflow)
    } else if !top(s, 0).spec_fits_u64() {
        EvmStep::Crash
    } else if op == 0x51 {
        let off = offset_of(top(s, 0));
        if off + 32 > usize::MAX {
            EvmStep::Crash
        } else {
            let mem = grow(s.memory, off + 32);
            push_step(EvmModel { memory: mem, ..popped(s, 1) }, be_word_at(mem, off as int))
        }
    } else if n < 2 {
        EvmStep::Error(ExecutionError::StackUnderflow)
    } else if op == 0x20 {
        if !top(s, 1).spec_fits_u64() {
            EvmStep::Crash
        } else {
            let off = offset_of(top(s, 0));
            let size = offset_of(top(s, 1));
            if off + size > usize::MAX {
                EvmStep::Crash
            } else {
                let mem = grow(s.memory, off + size);
                let digest = spec_sha256(mem.subrange(off as int, off + size));
                push_step(EvmModel { memory: mem, ..popped(s, 2) }, be_word_at(digest, 0))
            }
        }
    } else if op == 0x52 {
        let off = offset_of(top(s, 0));
        if off + 32 > usize::MAX {
            EvmStep::Crash
        } else {
            let mem = grow(s.memory, off + 32);
            EvmStep::Next(
                EvmModel { memory: mem.take(off as int) + be_bytes(top(s, 1)) + mem.skip(off + 32), ..popped(s, 2) },
            )
        }
    } else {
        let off = offset_of(top(s, 0));
        if off + 1 > usize::MAX || !top(s, 1).spec_fits_u64() {
            EvmStep::Crash
        } else {
            let mem = grow(s.memory, off + 1);
            EvmStep::Next(EvmModel { memory: mem.update(off as int, top(s, 1).l0 as u8), ..popped(s, 2) })
        }
    }
}

/// SLOAD and SSTORE on the sender's storage; slots and values are the
/// big-endian bytes of words, and unwritten slots read as zero.
#[verifier::opaque]
pub open spec fn storage_step(op: u8, sender: Seq<u8>, s: EvmModel) -> EvmStep {
    let n = s.stack.len();
    if n < 1 {
        EvmStep::Error(ExecutionError::StackUnderflow)
    } else if op == 0x54 {
        let v = match (s.storage)((sender, be_bytes(top(s, 0)))) {
            Some(v) => v,
            None => Seq::new(32, |i: int| 0u8),
        };
        push_step(popped(s, 1), be_word_at(v, 0))
    } else if n < 2 {
        EvmStep::Error(ExecutionError::StackUnderflow)
    } else {
        let key = (sender, be_bytes(top(s, 0)));
        let v = be_bytes(top(s, 1));
        EvmStep::Next(
            EvmModel {
                storage: |k: (Seq<u8>, Seq<u8>)| if k == key { Some(v) } else { (s.storage)(k) },
                ..popped(s, 2)
            },
        )
    }
}

/// Whether `d` is in the code and holds JUMPDEST.
pub open spec fn valid_dest(code: Seq<u8>, d: int) -> bool {
    d < code.len() && code[d] == 0x5b
}

/// JUMP, JUMPI, PC, MSIZE, GAS, JUMPDEST; `s.pc` is already past the opcode.
#[verifier::opaque]
pub open spec fn flow_step(op: u8, code: Seq<u8>, s: EvmModel) -> EvmStep {
    let n = s.stack.len();
    if op == 0x58 {
        push_step(s, word_of((s.pc - 1) as u64))
    } else if op == 0x59 {
        push_step(s, word_of(s.memory.len() as u64))
    } else if op == 0x5a {
        push_step(s, word_of(s.gas))
    } else if op == 0x5b {
        EvmStep::Next(s)
    } else if n < 1 {
        EvmStep::Error(ExecutionError::StackUnderflow)
    } else if !top(s, 0).spec_fits_u64() {
        EvmStep::Crash
    } else if op == 0x56 {
        let d = offset_of(top(s, 0));
        if valid_dest(code, d as int) {
            EvmStep::Next(EvmModel { pc: d as int, ..popped(s, 1) })
        } else {
            EvmStep::Error(ExecutionError::InvalidJumpDest(d as u16))
        }
    } else if n < 2 {
        EvmStep::Error(ExecutionError::StackUnderflow)
    } else {
        let d = offset_of(top(s, 0));
        if top(s, 1).spec_is_zero() {
            EvmStep::Next(popped(s, 2))
        } else if valid_dest(code, d as int) {
            EvmStep::Next(EvmModel { pc: d as int, ..popped(s, 2) })
        } else {
            EvmStep::Error(ExecutionError::InvalidJumpDest(d as u16))
        }
    }
}

/// PUSH1-PUSH32, DUP1-DUP16, SWAP1-SWAP16, LOG0-LOG4 (which only pop);
/// `s.pc` is already past the opcode.
#[verifier::opaque]
pub open spec fn stack_step(op: u8, code: Seq<u8>, s: EvmModel) -> EvmStep {
    let len = s.stack.len();
    if op <= 0x7f {
        let n = op - 0x5f;
        if s.pc + n > code.len() {
            EvmStep::Error(ExecutionError::UnexpectedEOF(n as usize, (code.len() - s.pc) as usize))
        } else {
            let bytes = Seq::new((32 - n) as nat, |i: int| 0u8) + code.subrange(s.pc, s.pc + n);
            push_step(EvmModel { pc: s.pc + n, ..s }, be_word_at(bytes, 0))
        }
    } else if op <= 0x8f {
        let n = op - 0x80;
        if len <= n {
            EvmStep::Error(ExecutionError::StackUnderflow)
        } else {
            push_step(s, top(s, n))
        }
    } else if op <= 0x9f {
        let n = op - 0x8f;
        if len <= n {
            EvmStep::Error(ExecutionError::StackUnderflow)
        } else {
            EvmStep::Next(EvmModel { stack: s.stack.update(len - 1, top(s, n)).update(len - 1 - n, top(s, 0)), ..s })
        }
    } else {
        let n = op - 0xa0;
        if len < 1 {
            EvmStep::Error(ExecutionError::StackUnderflow)
        } else if !top(s, 0).spec_fits_u64() {
            EvmStep::Crash
        } else if len < 2 {
            EvmStep::Error(ExecutionError::StackUnderflow)
        } else if !top(s, 1).spec_fits_u64() {
            EvmStep::Crash
        } else if len < 2 + n {
            EvmStep::Error(ExecutionError::StackUnderflow)
        } else {
            EvmStep::Next(popped(s, 2 + n))
        }
    }
}

/// RETURN: memory from the offset on top for the size below it.
#[verifier::opaque]
pub open spec fn return_outcome(s: EvmModel) -> EvmOutcome {
    let n = s.stack.len();
    if n < 1 {
        EvmOutcome::Error(ExecutionError::StackUnderflow)
    } else if !top(s, 0).spec_fits_u64() {
        EvmOutcome::Crash
    } else if n < 2 {
        EvmOutcome::Error(ExecutionError::StackUnderflow)
    } else if !top(s, 1).spec_fits_u64() {
        EvmOutcome::Crash
    } else {
        let off = offset_of(top(s, 0));
        let size = offset_of(top(s, 1));
        if off + size > usize::MAX {
            EvmOutcome::Crash
        } else {
            let mem = grow(s.memory, off + size);
            EvmOutcome::Done(true, mem.subrange(off as int, off + size), EvmModel { memory: mem, ..popped(s, 2) })
        }
    }
}

/// One instruction that lets the machine go on.
pub open spec fn spec_op(code: Seq<u8>, sender: Seq<u8>, op: u8, s: EvmModel) -> EvmStep {
    if is_arith(op) {
        arith_step(op, s)
    } else if is_memory(op) {
        memory_step(op, s)
    } else if is_storage(op) {
        storage_step(op, sender, s)
    } else if is_flow(op) {
        flow_step(op, code, s)
    } else {
        stack_step(op, code, s)
    }
}

/// Runs `code` for `sender` from state `s`: fetch, charge the instruction's
/// gas, execute; until STOP, RETURN, REVERT, the end of the code, an error
/// or a panic.
pub open spec fn evm_run(code: Seq<u8>, sender: Seq<u8>, s: EvmModel) -> EvmOutcome
    decreases s.gas,
{
    if s.pc < 0 || s.pc >= code.len() {
        EvmOutcome::Done(true, seq![], s)
    } else {
        let op = code[s.pc];
        if s.gas < spec_gas_cost(op) {
            EvmOutcome::Error(ExecutionError::OutOfGas)
        } else {
            let s1 = EvmModel { pc: s.pc + 1, gas: (s.gas - spec_gas_cost(op)) as u64, ..s };
            if op == 0x00 {
                EvmOutcome::Done(true, seq![], s1)
            } else if op == 0xf3 {
                return_outcome(s1)
            } else if op == 0xfd {
                EvmOutcome::Done(false, seq![], s1)
            } else if !is_continuing(op) {
                EvmOutcome::Error(ExecutionError::InvalidOpcode(op))
            } else {
                match spec_op(code, sender, op, s1) {
                    EvmStep::Next(s2) => evm_run(code, sender, EvmModel { gas: s1.gas, ..s2 }),
                    EvmStep::Error(e) => EvmOutcome::Error(e),
                    EvmStep::Crash => EvmOutcome::Crash,
                }
            }
        }
    }
}

/// The state a run starts from.
pub open spec fn evm_init(journal: StateJournal, gas_limit: u64) -> EvmModel {
    EvmModel {
        stack: seq![],
        memory: seq![],
        pc: 0,
        gas: gas_limit,
        storage: |k: (Seq<u8>, Seq<u8>)| journal.write_of(k),
    }
}

/// The model of an executing machine and its journal.
pub open spec fn model_of(st: ExecutionState, j: StateJournal) -> EvmModel {
    EvmModel {
        stack: st.stack@,
        memory: st.memory@,
        pc: st.pc as int,
        gas: st.gas_remaining,
        storage: |k: (Seq<u8>, Seq<u8>)| j.write_of(k),
    }
}

fn bool_to_word(b: bool) -> (r: Word)
    ensures
        r == bool_word(b),
{
    Word::from_u64(if b { 1 } else { 0 })
}

fn sign_extend_word(b: Word, x: Word) -> (r: Word)
    ensures
        r == sign_extend(b, x),
{
    if less_than(b, Word::from_u64(32)) {
        proof {
            lemma_small_val(b);
        }
        let k = b.l0;
        let bit = shift_left(Word::from_u64(1), k * 8 + 7);
        if !x.and(bit).is_zero() {
            x.or(shift_left(Word::ones(), k * 8 + 8))
        } else {
            x.and(shift_right(Word::ones(), 248 - k * 8))
        }
    } else {
        x
    }
}

fn binary_value(op: u8, a: Word, b: Word) -> (r: Word)
    requires
        is_arith(op),
        op != 0x08 && op != 0x09 && op != 0x15 && op != 0x19,
        binary_result(op, a, b) is Some,
    ensures
        binary_result(op, a, b) == Some(r),
{
    if op == 0x01 {
        wrapping_add(a, b)
    } else if op == 0x02 {
        wrapping_mul(a, b)
    } else if op == 0x03 {
        wrapping_sub(a, b)
    } else if op == 0x04 || op == 0x05 {
        if b.is_zero() {
            Word::zero()
        } else {
            proof {
                lemma_zero_val(b);
            }
            quotient(a, b)
        }
    } else if op == 0x06 || op == 0x07 {
        if b.is_zero() {
            Word::zero()
        } else {
            proof {
                lemma_zero_val(b);
            }
            remainder(a, b)
        }
    } else if op == 0x0a {
        power(a, b)
    } else if op == 0x0b {
        sign_extend_word(a, b)
    } else if op == 0x10 || op == 0x12 {
        bool_to_word(less_than(a, b))
    } else if op == 0x11 || op == 0x13 {
        bool_to_word(less_than(b, a))
    } else if op == 0x14 {
        bool_to_word(a == b)
    } else if op == 0x16 {
        a.and(b)
    } else if op == 0x17 {
        a.or(b)
    } else if op == 0x18 {
        a.xor(b)
    } else if op == 0x1a {
        if less_than(a, Word::from_u64(32)) {
            proof {
                lemma_small_val(a);
            }
            let y = shift_right(b, 248 - a.l0 * 8);
            Word::from_u64(y.as_u64() & 0xff)
        } else {
            Word::zero()
        }
    } else {
        let shift = a.as_u64();
        if op == 0x1b {
            shift_left(b, shift)
        } else {
            shift_right(b, shift)
        }
    }
}

fn ternary_value(op: u8, a: Word, b: Word, m: Word) -> (r: Word)
    requires
        op == 0x08 || op == 0x09,
        ternary_result(op, a, b, m) is Some,
    ensures
        ternary_result(op, a, b, m) == Some(r),
{
    if m.is_zero() {
        return Word::zero();
    }
    proof {
        lemma_zero_val(m);
    }
    if op == 0x08 {
        let s = checked_sum(a, b);
        proof {
            lemma_from_val(a.val() + b.val());
        }
        remainder(s, m)
    } else {
        let p = checked_product(a, b);
        proof {
            lemma_from_val(a.val() * b.val());
        }
        remainder(p, m)
    }
}

/// Executes an arithmetic, comparison or bitwise instruction.
fn exec_arith(op: u8, st: &mut ExecutionState, Ghost(j): Ghost<StateJournal>) -> (r: Result<(), ExecutionError>)
    requires
        is_arith(op),
        !(arith_step(op, model_of(*old(st), j)) is Crash),
    ensures
        final(st).gas_remaining == old(st).gas_remaining,
        match arith_step(op, model_of(*old(st), j)) {
            EvmStep::Next(s2) => r == Ok::<(), ExecutionError>(()) && model_of(*final(st), j) == s2,
            EvmStep::Error(e) => r == Err::<(), ExecutionError>(e),
            EvmStep::Crash => false,
        },
{
    let ghost m = model_of(*st, j);
    proof {
        reveal(arith_step);
    }
    if op == 0x15 || op == 0x19 {
        let a = st.pop()?;
        let v = if op == 0x15 { bool_to_word(a.is_zero()) } else { a.not() };
        st.push(v)?;
        assert(model_of(*st, j) =~= arith_step(op, m)->Next_0);
        Ok(())
    } else if op == 0x08 || op == 0x09 {
        let a = st.pop()?;
        let b = st.pop()?;
        let md = st.pop()?;
        let v = ternary_value(op, a, b, md);
        st.push(v)?;
        assert(model_of(*st, j) =~= arith_step(op, m)->Next_0);
        Ok(())
    } else {
        let a = st.pop()?;
        let b = st.pop()?;
        let v = binary_value(op, a, b);
        st.push(v)?;
        assert(model_of(*st, j) =~= arith_step(op, m)->Next_0);
        Ok(())
    }
}

/// Pops a word that must fit 64 bits and gives it as a machine address.
fn pop_offset(st: &mut ExecutionState) -> (r: Result<usize, ExecutionError>)
    requires
        old(st).stack@.len() > 0 ==> old(st).stack@.last().spec_fits_u64(),
    ensures
        final(st).same_but_stack(*old(st)),
        old(st).stack@.len() == 0 ==> r == Err::<usize, ExecutionError>(ExecutionError::StackUnderflow),
        old(st).stack@.len() > 0 ==> r == Ok::<usize, ExecutionError>(offset_of(old(st).stack@.last()))
            && final(st).stack@ == old(st).stack@.drop_last(),
{
    let w = st.pop()?;
    Ok(w.as_u64() as usize)
}

/// Overwrites `mem[offset..offset + bytes.len()]` with `bytes`.
fn write_bytes(mem: &mut Vec<u8>, offset: usize, bytes: &[u8])
    requires
        offset + bytes@.len() <= old(mem)@.len(),
    ensures
        final(mem)@ == old(mem)@.take(offset as int) + bytes@ + old(mem)@.skip(offset + bytes@.len()),
{
    let ghost m0 = mem@;
    let n = bytes.len();
    let total = mem.len();
    let mut k: usize = 0;
    while k < n
        invariant
            k <= n,
            total == m0.len(),
            n == bytes@.len(),
            offset + n <= m0.len(),
            mem@.len() == m0.len(),
            forall|j: int| 0 <= j < m0.len() && !(offset <= j < offset + k) ==> mem@[j] == m0[j],
            forall|j: int| offset <= j < offset + k ==> mem@[j] == bytes@[j - offset],
        decreases n - k,
    {
        mem.set(offset + k, bytes[k]);
        k = k + 1;
    }
    assert(mem@ =~= m0.take(offset as int) + bytes@ + m0.skip(offset + n));
}

/// Executes SHA3, POP, MLOAD, MSTORE or MSTORE8.
fn exec_memory(op: u8, st: &mut ExecutionState, Ghost(j): Ghost<StateJournal>) -> (r: Result<(), ExecutionError>)
    requires
        is_memory(op),
        !(memory_step(op, model_of(*old(st), j)) is Crash),
    ensures
        final(st).gas_remaining == old(st).gas_remaining,
        match memory_step(op, model_of(*old(st), j)) {
            EvmStep::Next(s2) => r == Ok::<(), ExecutionError>(()) && model_of(*final(st), j) == s2,
            EvmStep::Error(e) => r == Err::<(), ExecutionError>(e),
            EvmStep::Crash => false,
        },
{
    let ghost m = model_of(*st, j);
    proof {
        reveal(memory_step);
    }
    if op == 0x50 {
        st.pop()?;
        assert(model_of(*st, j) =~= memory_step(op, m)->Next_0);
        return Ok(());
    }
    let offset = pop_offset(st)?;
    if op == 0x51 {
        st.ensure_memory(offset, 32);
        let w = Word::from_be_slice(st.memory.as_slice(), offset);
        st.push(w)?;
        assert(model_of(*st, j) =~= memory_step(op, m)->Next_0);
        return Ok(());
    }
    if op == 0x20 {
        let size = pop_offset(st)?;
        st.ensure_memory(offset, size);
        let data = copy_range(st.memory.as_slice(), offset, offset + size);
        let digest = sha256(data.as_slice());
        let w = Word::from_be_slice(digest.as_slice(), 0);
        st.push(w)?;
        assert(model_of(*st, j) =~= memory_step(op, m)->Next_0);
        return Ok(());
    }
    let val = st.pop()?;
    if op == 0x52 {
        st.ensure_memory(offset, 32);
        let bytes = val.to_be_vec();
        write_bytes(&mut st.memory, offset, bytes.as_slice());
    } else {
        st.ensure_memory(offset, 1);
        let b = val.as_u64() as u8;
        st.memory.set(offset, b);
    }
    assert(model_of(*st, j) =~= memory_step(op, m)->Next_0);
    Ok(())
}

/// Executes SLOAD or SSTORE on `sender`'s storage in `journal`.
fn exec_storage(op: u8, sender: &Address, st: &mut ExecutionState, journal: &mut StateJournal) -> (r: Result<
    (),
    ExecutionError,
>)
    requires
        is_storage(op),
    ensures
        final(st).gas_remaining == old(st).gas_remaining,
        final(journal).gas_seq() == old(journal).gas_seq(),
        final(journal).accounts_seq() == old(journal).accounts_seq(),
        match storage_step(op, sender@, model_of(*old(st), *old(journal))) {
            EvmStep::Next(s2) => r == Ok::<(), ExecutionError>(()) && model_of(*final(st), *final(journal)) == s2,
            EvmStep::Error(e) => r == Err::<(), ExecutionError>(e),
            EvmStep::Crash => false,
        },
{
    let ghost m = model_of(*st, *journal);
    proof {
        reveal(storage_step);
    }
    let slot_val = st.pop()?;
    let slot = slot_val.to_be_array();
    if op == 0x54 {
        let key = StorageKey { address: *sender, slot };
        let val: [u8; 32] = match journal.storage_value(&key) {
            Some(v) => v,
            None => {
                let z = [0u8; 32];
                assert(z@ =~= Seq::new(32, |i: int| 0u8));
                z
            },
        };
        let w = Word::from_be_slice(&val, 0);
        st.push(w)?;
        assert(model_of(*st, *journal) =~= storage_step(op, sender@, m)->Next_0);
        Ok(())
    } else {
        let val = st.pop()?;
        let value_bytes = val.to_be_array();
        journal.record_write(*sender, slot, value_bytes);
        proof {
            let s2 = storage_step(op, sender@, m)->Next_0;
            assert(model_of(*st, *journal).storage =~= s2.storage);
            assert(model_of(*st, *journal) =~= s2);
        }
        Ok(())
    }
}

/// Executes JUMP, JUMPI, PC, MSIZE, GAS or JUMPDEST.
fn exec_flow(op: u8, code: &[u8], st: &mut ExecutionState, Ghost(j): Ghost<StateJournal>) -> (r: Result<
    (),
    ExecutionError,
>)
    requires
        is_flow(op),
        old(st).pc >= 1,
        !(flow_step(op, code@, model_of(*old(st), j)) is Crash),
    ensures
        final(st).gas_remaining == old(st).gas_remaining,
        match flow_step(op, code@, model_of(*old(st), j)) {
            EvmStep::Next(s2) => r == Ok::<(), ExecutionError>(()) && model_of(*final(st), j) == s2,
            EvmStep::Error(e) => r == Err::<(), ExecutionError>(e),
            EvmStep::Crash => false,
        },
{
    let ghost m = model_of(*st, j);
    proof {
        reveal(flow_step);
    }
    if op == 0x58 || op == 0x59 || op == 0x5a {
        let v = if op == 0x58 {
            (st.pc - 1) as u64
        } else if op == 0x59 {
            st.memory.len() as u64
        } else {
            st.gas_remaining
        };
        st.push(Word::from_u64(v))?;
        assert(model_of(*st, j) =~= flow_step(op, code@, m)->Next_0);
        return Ok(());
    }
    if op == 0x5b {
        assert(model_of(*st, j) =~= flow_step(op, code@, m)->Next_0);
        return Ok(());
    }
    let dest = pop_offset(st)?;
    if op == 0x56 {
        if dest >= code.len() || code[dest] != 0x5b {
            return Err(ExecutionError::InvalidJumpDest(dest as u16));
        }
        st.pc = dest;
        assert(model_of(*st, j) =~= flow_step(op, code@, m)->Next_0);
        return Ok(());
    }
    let cond = st.pop()?;
    if !cond.is_zero() {
        if dest >= code.len() || code[dest] != 0x5b {
            return Err(ExecutionError::InvalidJumpDest(dest as u16));
        }
        st.pc = dest;
    }
    assert(model_of(*st, j) =~= flow_step(op, code@, m)->Next_0);
    Ok(())
}

/// The 32 bytes of a PUSH: zeros, then the `n` immediate bytes at `code[pc..]`.
fn push_bytes(code: &[u8], pc: usize, n: usize) -> (r: Vec<u8>)
    requires
        n <= 32,
        pc + n <= code@.len(),
    ensures
        r@ == Seq::new((32 - n) as nat, |i: int| 0u8) + code@.subrange(pc as int, pc + n),
{
    let len = code.len();
    assert(pc + n <= len);
    let mut r: Vec<u8> = Vec::new();
    let mut k: usize = n;
    while k < 32
        invariant
            n <= k <= 32,
            r@ == Seq::new((k - n) as nat, |i: int| 0u8),
        decreases 32 - k,
    {
        r.push(0u8);
        k = k + 1;
        proof {
            assert(r@ =~= Seq::new((k - n) as nat, |i: int| 0u8));
        }
    }
    let mut i: usize = pc;
    while i < pc + n
        invariant
            pc <= i <= pc + n,
            pc + n <= len,
            len == code@.len(),
            r@ == Seq::new((32 - n) as nat, |i: int| 0u8) + code@.subrange(pc as int, i as int),
        decreases pc + n - i,
    {
        r.push(code[i]);
        i = i + 1;
        proof {
            assert(r@ =~= Seq::new((32 - n) as nat, |i: int| 0u8) + code@.subrange(pc as int, i as int));
        }
    }
    r
}

/// Executes PUSH, DUP, SWAP or LOG.
fn exec_stack(op: u8, code: &[u8], st: &mut ExecutionState, Ghost(j): Ghost<StateJournal>) -> (r: Result<
    (),
    ExecutionError,
>)
    requires
        is_stack(op),
        old(st).pc <= code@.len() <= isize::MAX,
        !(stack_step(op, code@, model_of(*old(st), j)) is Crash),
    ensures
        final(st).gas_remaining == old(st).gas_remaining,
        match stack_step(op, code@, model_of(*old(st), j)) {
            EvmStep::Next(s2) => r == Ok::<(), ExecutionError>(()) && model_of(*final(st), j) == s2,
            EvmStep::Error(e) => r == Err::<(), ExecutionError>(e),
            EvmStep::Crash => false,
        },
{
    let ghost m = model_of(*st, j);
    proof {
        reveal(stack_step);
    }
    if op <= 0x7f {
        let n = (op - 0x5f) as usize;
        if st.pc + n > code.len() {
            return Err(ExecutionError::UnexpectedEOF(n, code.len() - st.pc));
        }
        let bytes = push_bytes(code, st.pc, n);
        st.pc = st.pc + n;
        st.push(Word::from_be_slice(bytes.as_slice(), 0))?;
        assert(model_of(*st, j) =~= stack_step(op, code@, m)->Next_0);
        return Ok(());
    }
    if op <= 0x8f {
        let n = (op - 0x80) as usize;
        let v = st.peek(n)?;
        st.push(v)?;
        assert(model_of(*st, j) =~= stack_step(op, code@, m)->Next_0);
        return Ok(());
    }
    if op <= 0x9f {
        let n = (op - 0x8f) as usize;
        let a = st.peek(0)?;
        let b = st.peek(n)?;
        let t = st.stack.len() - 1;
        st.stack.set(t, b);
        st.stack.set(t - n, a);
        assert(model_of(*st, j) =~= stack_step(op, code@, m)->Next_0);
        return Ok(());
    }
    let n = (op - 0xa0) as usize;
    let _offset = pop_offset(st)?;
    let _size = pop_offset(st)?;
    let ghost len2 = st.stack@.len();
    let ghost st2 = *st;
    let mut k: usize = 0;
    while k < n
        invariant
            k <= n,
            n <= 4,
            m == model_of(*old(st), j),
            len2 + 2 == m.stack.len(),
            k <= len2,
            st.stack@ == m.stack.take(len2 - k),
            st.same_but_stack(st2),
            st2.memory@ == m.memory,
            st2.pc == m.pc,
            st2.gas_remaining == m.gas,
            stack_step(op, code@, m) == (if len2 < n {
                EvmStep::Error(ExecutionError::StackUnderflow)
            } else {
                EvmStep::Next(popped(m, 2 + n))
            }),
        decreases n - k,
    {
        st.pop()?;
        k = k + 1;
        assert(st.stack@ =~= m.stack.take(len2 - k));
    }
    assert(model_of(*st, j) =~= stack_step(op, code@, m)->Next_0);
    Ok(())
}

/// Executes RETURN: the output bytes.
fn exec_return(st: &mut ExecutionState, Ghost(j): Ghost<StateJournal>) -> (r: Result<Vec<u8>, ExecutionError>)
    requires
        !(return_outcome(model_of(*old(st), j)) is Crash),
    ensures
        final(st).gas_remaining == old(st).gas_remaining,
        match return_outcome(model_of(*old(st), j)) {
            EvmOutcome::Done(_, out, s2) => r matches Ok(o) && o@ == out && model_of(*final(st), j) == s2,
            EvmOutcome::Error(e) => r == Err::<Vec<u8>, ExecutionError>(e),
            EvmOutcome::Crash => false,
        },
{
    let ghost m = model_of(*st, j);
    proof {
        reveal(return_outcome);
    }
    let offset = pop_offset(st)?;
    let size = pop_offset(st)?;
    st.ensure_memory(offset, size);
    let out = copy_range(st.memory.as_slice(), offset, offset + size);
    assert(model_of(*st, j) =~= return_outcome(m)->Done_2);
    Ok(out)
}

/// Whether `a + b` reaches 2^256.
fn sum_overflows(a: Word, b: Word) -> (r: bool)
    ensures
        r == (a.val() + b.val() >= word_modulus()),
{
    let s = wrapping_add(a, b);
    proof {
        lemma_val_bound(a);
        lemma_val_bound(b);
        let t = a.val() + b.val();
        if t >= word_modulus() {
            vstd::arithmetic::div_mod::lemma_mod_sub_multiples_vanish(t as int, word_modulus() as int);
            vstd::arithmetic::div_mod::lemma_small_mod((t - word_modulus()) as nat, word_modulus());
        } else {
            vstd::arithmetic::div_mod::lemma_small_mod(t, word_modulus());
        }
        lemma_from_val(t % word_modulus());
    }
    less_than(s, a)
}

/// Whether `a * b` reaches 2^256.
fn product_overflows(a: Word, b: Word) -> (r: bool)
    ensures
        r == (a.val() * b.val() >= word_modulus()),
{
    if a.is_zero() {
        proof {
            lemma_zero_val(a);
        }
        return false;
    }
    proof {
        lemma_zero_val(a);
        lemma_from_val((word_modulus() - 1) as nat / a.val());
    }
    let q = quotient(Word::ones(), a);
    proof {
        let m1 = (word_modulus() - 1) as int;
        let x = a.val() as int;
        let y = b.val() as int;
        assert(ones_word().val() == m1);
        let qv = m1 / x;
        assert(q.val() == qv);
        vstd::arithmetic::div_mod::lemma_fundamental_div_mod(m1, x);
        vstd::arithmetic::div_mod::lemma_mod_bound(m1, x);
        let rm = m1 % x;
        assert(m1 == x * qv + rm);
        if y <= qv {
            assert(x * y <= x * qv) by (nonlinear_arith)
                requires
                    x > 0,
                    y <= qv,
            ;
        } else {
            assert(x * y >= x * qv + x) by (nonlinear_arith)
                requires
                    x > 0,
                    y >= qv + 1,
            ;
        }
    }
    less_than(q, b)
}

/// Whether the arithmetic instruction `op` panics on the stack of `st`.
fn arith_crashes(op: u8, st: &ExecutionState, Ghost(j): Ghost<StateJournal>) -> (r: bool)
    requires
        is_arith(op),
    ensures
        r == (arith_step(op, model_of(*st, j)) is Crash),
{
    proof {
        reveal(arith_step);
    }
    let n = st.stack.len();
    if op == 0x15 || op == 0x19 {
        false
    } else if op == 0x08 || op == 0x09 {
        if n < 3 {
            return false;
        }
        let a = st.stack[n - 1];
        let b = st.stack[n - 2];
        let m = st.stack[n - 3];
        if m.is_zero() {
            false
        } else if op == 0x08 {
            sum_overflows(a, b)
        } else {
            product_overflows(a, b)
        }
    } else {
        if n < 2 {
            return false;
        }
        let a = st.stack[n - 1];
        let b = st.stack[n - 2];
        if op == 0x0a {
            pow_overflows(a, b)
        } else if op == 0x1a {
            if less_than(a, Word::from_u64(32)) {
                proof {
                    lemma_small_val(a);
                }
                let y = shift_right(b, 248 - a.l0 * 8);
                !y.fits_u64()
            } else {
                false
            }
        } else if op == 0x1b || op == 0x1c || op == 0x1d {
            !a.fits_u64() || (a.l0 as u128) > (usize::MAX as u128)
        } else {
            false
        }
    }
}

/// Whether the memory instruction `op` panics on the stack of `st`: an
/// address or size that does not fit 64 bits, or a range that passes the
/// machine's addresses.
fn memory_crashes(op: u8, st: &ExecutionState, Ghost(j): Ghost<StateJournal>) -> (r: bool)
    requires
        is_memory(op),
    ensures
        r == (memory_step(op, model_of(*st, j)) is Crash),
{
    proof {
        reveal(memory_step);
    }
    let n = st.stack.len();
    if op == 0x50 || n < 1 {
        return false;
    }
    let w0 = st.stack[n - 1];
    if !w0.fits_u64() {
        return true;
    }
    let off = w0.l0 as usize;
    if op == 0x51 {
        return off > usize::MAX - 32;
    }
    if n < 2 {
        return false;
    }
    let w1 = st.stack[n - 2];
    if op == 0x20 {
        if !w1.fits_u64() {
            return true;
        }
        let size = w1.l0 as usize;
        off > usize::MAX - size
    } else if op == 0x52 {
        off > usize::MAX - 32
    } else {
        off == usize::MAX || !w1.fits_u64()
    }
}

/// Whether a jump instruction panics: its destination does not fit 64 bits.
fn flow_crashes(op: u8, st: &ExecutionState, Ghost(code): Ghost<Seq<u8>>, Ghost(j): Ghost<StateJournal>) -> (r: bool)
    requires
        is_flow(op),
    ensures
        r == (flow_step(op, code, model_of(*st, j)) is Crash),
{
    proof {
        reveal(flow_step);
    }
    let n = st.stack.len();
    if op == 0x58 || op == 0x59 || op == 0x5a || op == 0x5b || n < 1 {
        false
    } else {
        !st.stack[n - 1].fits_u64()
    }
}

/// Whether a stack instruction panics: a LOG whose offset or size does not
/// fit 64 bits.
fn stack_crashes(op: u8, st: &ExecutionState, Ghost(code): Ghost<Seq<u8>>, Ghost(j): Ghost<StateJournal>) -> (r: bool)
    requires
        is_stack(op),
    ensures
        r == (stack_step(op, code, model_of(*st, j)) is Crash),
{
    proof {
        reveal(stack_step);
    }
    let n = st.stack.len();
    if op <= 0x9f || n < 1 {
        false
    } else if !st.stack[n - 1].fits_u64() {
        true
    } else if n < 2 {
        false
    } else {
        !st.stack[n - 2].fits_u64()
    }
}

/// Whether RETURN panics: an offset or size that does not fit 64 bits, or
/// a range that passes the machine's addresses.
fn return_crashes(st: &ExecutionState, Ghost(j): Ghost<StateJournal>) -> (r: bool)
    ensures
        r == (return_outcome(model_of(*st, j)) is Crash),
{
    proof {
        reveal(return_outcome);
    }
    let n = st.stack.len();
    if n < 1 {
        return false;
    }
    let w0 = st.stack[n - 1];
    if !w0.fits_u64() {
        return true;
    }
    if n < 2 {
        return false;
    }
    let w1 = st.stack[n - 2];
    if !w1.fits_u64() {
        return true;
    }
    let off = w0.l0 as usize;
    let size = w1.l0 as usize;
    off > usize::MAX - size
}

/// Runs `ctx.code` for `ctx.sender` on a fresh machine with `gas_limit`
/// gas. `None` where the run reaches an instruction that panics (an
/// address, size or shift that does not fit the machine, or ADDMOD, MULMOD
/// or EXP passing 2^256); otherwise as `execute`.
pub fn execute_checked(ctx: ExecutionContext, gas_limit: u64) -> (r: Option<Result<ExecutionResult, ExecutionError>>)
    requires
        ctx.code@.len() <= isize::MAX,
    ensures
        match evm_run(ctx.code@, ctx.sender@, evm_init(ctx.journal, gas_limit)) {
            EvmOutcome::Done(success, output, s) => r matches Some(Ok(res)) && {
                &&& res.success == success
                &&& res.output@ == output
                &&& res.gas_used == gas_limit - s.gas
                &&& forall|k: (Seq<u8>, Seq<u8>)| #[trigger] res.journal.write_of(k) == (s.storage)(k)
                &&& res.journal.gas_seq() == ctx.journal.gas_seq()
                &&& res.journal.accounts_seq() == ctx.journal.accounts_seq()
            },
            EvmOutcome::Error(e) => r == Some(Err::<ExecutionResult, ExecutionError>(e)),
            EvmOutcome::Crash => r is None,
        },
{
    let mut state = ExecutionState::new(ExecMode::Evm, gas_limit);
    let ghost j0 = ctx.journal;
    let ghost out0 = evm_run(ctx.code@, ctx.sender@, evm_init(j0, gas_limit));
    let mut journal = ctx.journal;
    let code = ctx.code;
    let sender = ctx.sender;
    proof {
        assert(model_of(state, journal) =~= evm_init(j0, gas_limit));
    }
    loop
        invariant
            j0 == ctx.journal,
            code@ == ctx.code@,
            sender == ctx.sender,
            out0 == evm_run(ctx.code@, ctx.sender@, evm_init(ctx.journal, gas_limit)),
            out0 == evm_run(code@, sender@, model_of(state, journal)),
            code@.len() <= isize::MAX,
            state.gas_remaining <= gas_limit,
            journal.gas_seq() == j0.gas_seq(),
            journal.accounts_seq() == j0.accounts_seq(),
        decreases state.gas_remaining,
    {
        let ghost m = model_of(state, journal);
        if state.pc >= code.len() {
            return Some(Ok(
                ExecutionResult {
                    success: true,
                    gas_used: gas_limit - state.gas_remaining,
                    output: Vec::new(),
                    journal,
                },
            ));
        }
        let op = code[state.pc];
        state.pc = state.pc + 1;
        if let Err(e) = state.deduct_gas(gas_cost(op)) {
            return Some(Err(e));
        }
        let ghost s1 = model_of(state, journal);
        assert(s1 == EvmModel { pc: m.pc + 1, gas: (m.gas - spec_gas_cost(op)) as u64, ..m });
        if op == 0x00 || op == 0xfd {
            return Some(Ok(
                ExecutionResult {
                    success: op == 0x00,
                    gas_used: gas_limit - state.gas_remaining,
                    output: Vec::new(),
                    journal,
                },
            ));
        }
        if op == 0xf3 {
            if return_crashes(&state, Ghost(journal)) {
                return None;
            }
            let output = match exec_return(&mut state, Ghost(journal)) {
                Ok(o) => o,
                Err(e) => {
                    return Some(Err(e));
                },
            };
            proof {
                reveal(return_outcome);
            }
            return Some(Ok(ExecutionResult { success: true, gas_used: gas_limit - state.gas_remaining, output, journal }));
        }
        let step = if (0x01 <= op && op <= 0x0b) || (0x10 <= op && op <= 0x1d) {
            if arith_crashes(op, &state, Ghost(journal)) {
                return None;
            }
            exec_arith(op, &mut state, Ghost(journal))
        } else if op == 0x20 || (0x50 <= op && op <= 0x53) {
            if memory_crashes(op, &state, Ghost(journal)) {
                return None;
            }
            exec_memory(op, &mut state, Ghost(journal))
        } else if op == 0x54 || op == 0x55 {
            exec_storage(op, &sender, &mut state, &mut journal)
        } else if 0x56 <= op && op <= 0x5b {
            if flow_crashes(op, &state, Ghost(code@), Ghost(journal)) {
                return None;
            }
            exec_flow(op, code.as_slice(), &mut state, Ghost(journal))
        } else if 0x60 <= op && op <= 0xa4 {
            if stack_crashes(op, &state, Ghost(code@), Ghost(journal)) {
                return None;
            }
            exec_stack(op, code.as_slice(), &mut state, Ghost(journal))
        } else {
            return Some(Err(ExecutionError::InvalidOpcode(op)));
        };
        if let Err(e) = step {
            return Some(Err(e));
        }
        proof {
            let s2 = spec_op(code@, sender@, op, s1)->Next_0;
            assert(model_of(state, journal) =~= EvmModel { gas: s1.gas, ..s2 });
        }
    }
}

/// Runs `ctx.code` for `ctx.sender` on a fresh machine with `gas_limit`
/// gas. The result says whether the run succeeded (STOP, RETURN or the end
/// of the code) or reverted, the gas used, the RETURN output and the
/// journal with the storage writes made.
pub fn execute(ctx: ExecutionContext, gas_limit: u64) -> (r: Result<ExecutionResult, ExecutionError>)
    requires
        ctx.code@.len() <= isize::MAX,
        !(evm_run(ctx.code@, ctx.sender@, evm_init(ctx.journal, gas_limit)) is Crash),
    ensures
        match evm_run(ctx.code@, ctx.sender@, evm_init(ctx.journal, gas_limit)) {
            EvmOutcome::Done(success, output, s) => r matches Ok(res) && {
                &&& res.success == success
                &&& res.output@ == output
                &&& res.gas_used == gas_limit - s.gas
                &&& forall|k: (Seq<u8>, Seq<u8>)| #[trigger] res.journal.write_of(k) == (s.storage)(k)
                &&& res.journal.gas_seq() == ctx.journal.gas_seq()
                &&& res.journal.accounts_seq() == ctx.journal.accounts_seq()
            },
            EvmOutcome::Error(e) => r == Err::<ExecutionResult, ExecutionError>(e),
            EvmOutcome::Crash => false,
        },
{
    execute_checked(ctx, gas_limit).unwrap()
}

} // verus!
