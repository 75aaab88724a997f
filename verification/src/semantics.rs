//! What the instructions of both machines, the risk rules, fills, resting
//! orders and the log's slot layout and order-type codes mean, stated in
//! plain arithmetic over their inputs rather than through the models the
//! code is checked against.
use vstd::prelude::*;
use vstd::arithmetic::power::pow;
use vstd::arithmetic::power2::pow2;
use crate::svm::{SvmModel, SvmStep, SvmOutcome, spec_op, svm_run, svm_init};
use crate::journal::StateJournal;
use crate::bytes::{u64_le_bytes, u64_be_at, u64_be_bytes};
use crate::interpreter::{EvmModel, EvmStep, arith_step, stack_step, memory_step, storage_step, flow_step, return_outcome};
use crate::state::ExecutionError;
use crate::word::{Word, lemma_from_val, lemma_val_bound, lemma_zero_val, be_word_at, be_bytes};
use crate::state::STACK_LIMIT;
use crate::types::{Order, OrderId, AccountId, Side, OrderType, Price, Qty, RiskResult, RejectReason, TimeInForce, Trade};
use crate::risk::{RiskConfig, RiskEngine};
use crate::engine::{EngineModel, EngineParams, submit, submit_defined, apply_fills, fills_defined, account_position,
    match_outcome, fok_short};
use crate::properties::{traded_qty, lemma_traded_qty_concat, level_at, law_insert_appends_to_its_level, law_match_order};
use crate::book::{LevelModel, with_remaining, lemma_match_side_wf, lemma_reverse_wf};
use crate::wal::{WalEvent, event_bytes, zeros};
use crate::bytes::{u64_le_at, lemma_u64_roundtrip, u32_le_bytes};
use crate::recovery::event_order;

verus! {

/// Register arithmetic. For ADD, SUB, MUL, DIV, AND, OR and XOR
/// (`op rd rs1 rs2`, every operand byte naming one of the 13 registers),
/// the instruction sets `rd` to the operation applied to `rs1` and `rs2`,
/// wrapping modulo 2^64 (division by zero gives zero), moves past its three
/// operand bytes, and changes nothing else.
pub proof fn law_svm_register_arith(code: Seq<u8>, op: u8, s: SvmModel)
    requires
        0x03 <= op <= 0x09,
        s.regs.len() == 13,
        0 <= s.pc,
        s.pc + 3 <= code.len(),
        code[s.pc] < 13,
        code[s.pc + 1] < 13,
        code[s.pc + 2] < 13,
    ensures
        ({
            let rd = code[s.pc] as int;
            let a = s.regs[code[s.pc + 1] as int];
            let b = s.regs[code[s.pc + 2] as int];
            let r = spec_op(code, op, s);
            &&& r is Next
            &&& r->Next_0.pc == s.pc + 3
            &&& r->Next_0.gas == s.gas
            &&& r->Next_0.memory == s.memory
            &&& r->Next_0.accounts == s.accounts
            &&& r->Next_0.regs.len() == 13
            &&& forall|i: int| 0 <= i < 13 && i != rd ==> r->Next_0.regs[i] == s.regs[i]
            &&& op == 0x03 ==> r->Next_0.regs[rd] as int == (a + b) % 0x1_0000_0000_0000_0000
            &&& op == 0x04 ==> r->Next_0.regs[rd] as int == (a - b) % 0x1_0000_0000_0000_0000
            &&& op == 0x05 ==> r->Next_0.regs[rd] as int == (a * b) % 0x1_0000_0000_0000_0000
            &&& op == 0x06 ==> r->Next_0.regs[rd] as int == (if b == 0 { 0 } else { a / b })
            &&& op == 0x07 ==> r->Next_0.regs[rd] == a & b
            &&& op == 0x08 ==> r->Next_0.regs[rd] == a | b
            &&& op == 0x09 ==> r->Next_0.regs[rd] == a ^ b
        }),
{
}

/// MOV and NOT (`op rd rs`): `rd` gets `rs` (MOV) or its bitwise complement
/// (NOT); the instruction moves past its two operand bytes and changes
/// nothing else.
pub proof fn law_svm_mov_not(code: Seq<u8>, op: u8, s: SvmModel)
    requires
        op == 0x01 || op == 0x0a,
        s.regs.len() == 13,
        0 <= s.pc,
        s.pc + 2 <= code.len(),
        code[s.pc] < 13,
        code[s.pc + 1] < 13,
    ensures
        ({
            let rd = code[s.pc] as int;
            let a = s.regs[code[s.pc + 1] as int];
            let r = spec_op(code, op, s);
            &&& r is Next
            &&& r->Next_0.pc == s.pc + 2
            &&& r->Next_0.gas == s.gas
            &&& r->Next_0.memory == s.memory
            &&& r->Next_0.accounts == s.accounts
            &&& r->Next_0.regs.len() == 13
            &&& forall|i: int| 0 <= i < 13 && i != rd ==> r->Next_0.regs[i] == s.regs[i]
            &&& op == 0x01 ==> r->Next_0.regs[rd] == a
            &&& op == 0x0a ==> r->Next_0.regs[rd] == !a
        }),
{
}

/// The value of eight bytes read little-endian.
pub open spec fn le_value(b: Seq<u8>, i: int) -> int {
    b[i] + 0x100 * b[i + 1] + 0x1_0000 * b[i + 2] + 0x100_0000 * b[i + 3] + 0x1_0000_0000 * b[i + 4]
        + 0x100_0000_0000 * b[i + 5] + 0x1_0000_0000_0000 * b[i + 6] + 0x100_0000_0000_0000 * b[i + 7]
}

proof fn lemma_le_bytes_value(b0: u8, b1: u8, b2: u8, b3: u8, b4: u8, b5: u8, b6: u8, b7: u8)
    ensures
        ((b0 as u64) | ((b1 as u64) << 8u64) | ((b2 as u64) << 16u64) | ((b3 as u64) << 24u64)
            | ((b4 as u64) << 32u64) | ((b5 as u64) << 40u64) | ((b6 as u64) << 48u64) | ((b7 as u64) << 56u64))
            == b0 as u64 + 0x100 * (b1 as u64) + 0x1_0000 * (b2 as u64) + 0x100_0000 * (b3 as u64)
            + 0x1_0000_0000 * (b4 as u64) + 0x100_0000_0000 * (b5 as u64) + 0x1_0000_0000_0000 * (b6 as u64)
            + 0x100_0000_0000_0000 * (b7 as u64),
{
    assert(((b0 as u64) | ((b1 as u64) << 8u64) | ((b2 as u64) << 16u64) | ((b3 as u64) << 24u64)
        | ((b4 as u64) << 32u64) | ((b5 as u64) << 40u64) | ((b6 as u64) << 48u64) | ((b7 as u64) << 56u64))
        == b0 as u64 + 0x100 * (b1 as u64) + 0x1_0000 * (b2 as u64) + 0x100_0000 * (b3 as u64)
        + 0x1_0000_0000 * (b4 as u64) + 0x100_0000_0000 * (b5 as u64) + 0x1_0000_0000_0000 * (b6 as u64)
        + 0x100_0000_0000_0000 * (b7 as u64)) by (bit_vector);
}

/// MOV_IMM (`0x02 rd imm64`): `rd` gets the eight bytes after the register
/// byte read little-endian; the instruction moves past its nine operand
/// bytes and changes nothing else.
pub proof fn law_svm_mov_imm(code: Seq<u8>, s: SvmModel)
    requires
        s.regs.len() == 13,
        0 <= s.pc,
        s.pc + 9 <= code.len(),
        code[s.pc] < 13,
    ensures
        ({
            let rd = code[s.pc] as int;
            let r = spec_op(code, 0x02, s);
            &&& r is Next
            &&& r->Next_0.pc == s.pc + 9
            &&& r->Next_0.gas == s.gas
            &&& r->Next_0.memory == s.memory
            &&& r->Next_0.accounts == s.accounts
            &&& r->Next_0.regs.len() == 13
            &&& forall|i: int| 0 <= i < 13 && i != rd ==> r->Next_0.regs[i] == s.regs[i]
            &&& r->Next_0.regs[rd] as int == le_value(code, s.pc + 1)
        }),
{
    let p = s.pc + 1;
    lemma_le_bytes_value(code[p], code[p + 1], code[p + 2], code[p + 3], code[p + 4], code[p + 5], code[p + 6], code[p + 7]);
}

/// The eight bytes of `x`, least significant first.
pub open spec fn le_bytes8(x: u64) -> Seq<u8> {
    seq![
        (x % 0x100) as u8,
        ((x / 0x100) % 0x100) as u8,
        ((x / 0x1_0000) % 0x100) as u8,
        ((x / 0x100_0000) % 0x100) as u8,
        ((x / 0x1_0000_0000) % 0x100) as u8,
        ((x / 0x100_0000_0000) % 0x100) as u8,
        ((x / 0x1_0000_0000_0000) % 0x100) as u8,
        ((x / 0x100_0000_0000_0000) % 0x100) as u8,
    ]
}

proof fn lemma_le_bytes8(x: u64)
    ensures
        u64_le_bytes(x) == le_bytes8(x),
{
    assert((x as u8) == ((x % 0x100) as u8)) by (bit_vector);
    assert(((x >> 8u64) as u8) == (((x / 0x100) % 0x100) as u8)) by (bit_vector);
    assert(((x >> 16u64) as u8) == (((x / 0x1_0000) % 0x100) as u8)) by (bit_vector);
    assert(((x >> 24u64) as u8) == (((x / 0x100_0000) % 0x100) as u8)) by (bit_vector);
    assert(((x >> 32u64) as u8) == (((x / 0x1_0000_0000) % 0x100) as u8)) by (bit_vector);
    assert(((x >> 40u64) as u8) == (((x / 0x100_0000_0000) % 0x100) as u8)) by (bit_vector);
    assert(((x >> 48u64) as u8) == (((x / 0x1_0000_0000_0000) % 0x100) as u8)) by (bit_vector);
    assert(((x >> 56u64) as u8) == (((x / 0x100_0000_0000_0000) % 0x100) as u8)) by (bit_vector);
    assert(u64_le_bytes(x) =~= le_bytes8(x));
}

/// The 20-byte account address a register value names: its eight bytes,
/// least significant first, then twelve zero bytes.
pub open spec fn address_of(x: u64) -> Seq<u8> {
    le_bytes8(x) + Seq::new(12, |i: int| 0u8)
}

/// WRITE_ACCOUNT (`0x13 ar rs`): the account at the address register `ar`
/// names gets the eight bytes of `rs`, least significant first; every
/// other account, the registers and memory stay; the instruction moves
/// past its two operand bytes.
pub proof fn law_svm_write_account(code: Seq<u8>, s: SvmModel)
    requires
        s.regs.len() == 13,
        0 <= s.pc,
        s.pc + 2 <= code.len(),
        code[s.pc] < 13,
        code[s.pc + 1] < 13,
    ensures
        ({
            let x = s.regs[code[s.pc] as int];
            let v = s.regs[code[s.pc + 1] as int];
            let r = spec_op(code, 0x13, s);
            &&& r is Next
            &&& r->Next_0.pc == s.pc + 2
            &&& r->Next_0.gas == s.gas
            &&& r->Next_0.regs == s.regs
            &&& r->Next_0.memory == s.memory
            &&& forall|a: Seq<u8>| #[trigger] (r->Next_0.accounts)(a)
                == if a == address_of(x) { Some(le_bytes8(v)) } else { (s.accounts)(a) }
        }),
{
    let x = s.regs[code[s.pc] as int];
    let v = s.regs[code[s.pc + 1] as int];
    lemma_le_bytes8(x);
    lemma_le_bytes8(v);
}

/// READ_ACCOUNT (`0x12 rd ar`): `rd` gets the first eight bytes of the data
/// of the account the address register `ar` names, read little-endian and
/// padded with zeros, or zero for an account never written; nothing else
/// changes and the instruction moves past its two operand bytes.
pub proof fn law_svm_read_account(code: Seq<u8>, s: SvmModel)
    requires
        s.regs.len() == 13,
        0 <= s.pc,
        s.pc + 2 <= code.len(),
        code[s.pc] < 13,
        code[s.pc + 1] < 13,
    ensures
        ({
            let rd = code[s.pc] as int;
            let x = s.regs[code[s.pc + 1] as int];
            let r = spec_op(code, 0x12, s);
            &&& r is Next
            &&& r->Next_0.pc == s.pc + 2
            &&& r->Next_0.gas == s.gas
            &&& r->Next_0.memory == s.memory
            &&& r->Next_0.accounts == s.accounts
            &&& r->Next_0.regs.len() == 13
            &&& forall|i: int| 0 <= i < 13 && i != rd ==> r->Next_0.regs[i] == s.regs[i]
            &&& r->Next_0.regs[rd] as int == match (s.accounts)(address_of(x)) {
                Some(d) => le_value(Seq::new(8, |k: int| if k < d.len() { d[k] } else { 0u8 }), 0),
                None => 0,
            }
        }),
{
    let x = s.regs[code[s.pc + 1] as int];
    lemma_le_bytes8(x);
    match (s.accounts)(address_of(x)) {
        Some(d) => {
            let b = Seq::new(8, |k: int| if k < d.len() { d[k] } else { 0u8 });
            lemma_le_bytes_value(b[0], b[1], b[2], b[3], b[4], b[5], b[6], b[7]);
        },
        None => {},
    }
}

/// The byte of memory `mem` at `k`; zero past its end.
pub open spec fn mem_byte(mem: Seq<u8>, k: int) -> u8 {
    if 0 <= k < mem.len() { mem[k] } else { 0 }
}

/// LOAD (`0x10 rd ar`) and STORE (`0x11 ar rs`) with an address `off`
/// from `ar` that leaves room for eight bytes: LOAD sets `rd` to the eight
/// memory bytes at `off` read little-endian (zero past the end of memory);
/// STORE writes the eight bytes of `rs`, least significant first, at `off`.
/// Memory grows with zero bytes to cover `off + 8` and keeps every other
/// byte; the instruction moves past its two operand bytes.
#[verifier::spinoff_prover]
#[verifier::rlimit(60)]
pub proof fn law_svm_load_store(code: Seq<u8>, op: u8, s: SvmModel)
    requires
        op == 0x10 || op == 0x11,
        s.regs.len() == 13,
        0 <= s.pc,
        s.pc + 2 <= code.len(),
        code[s.pc] < 13,
        code[s.pc + 1] < 13,
        ({
            let ar = if op == 0x10 { code[s.pc + 1] } else { code[s.pc] };
            (s.regs[ar as int] as usize) as int + 8 <= usize::MAX
        }),
    ensures
        ({
            let ar = if op == 0x10 { code[s.pc + 1] } else { code[s.pc] };
            let off = (s.regs[ar as int] as usize) as int;
            let r = spec_op(code, op, s);
            let mem2 = r->Next_0.memory;
            &&& r is Next
            &&& r->Next_0.pc == s.pc + 2
            &&& r->Next_0.gas == s.gas
            &&& r->Next_0.accounts == s.accounts
            &&& mem2.len() == if s.memory.len() >= off + 8 { s.memory.len() as int } else { off + 8 }
            &&& op == 0x10 ==> {
                let rd = code[s.pc] as int;
                &&& r->Next_0.regs.len() == 13
                &&& forall|i: int| 0 <= i < 13 && i != rd ==> r->Next_0.regs[i] == s.regs[i]
                &&& r->Next_0.regs[rd] as int == le_value(Seq::new(8, |i: int| mem_byte(s.memory, off + i)), 0)
                &&& forall|k: int| 0 <= k < mem2.len() ==> mem2[k] == mem_byte(s.memory, k)
            }
            &&& op == 0x11 ==> {
                let v = s.regs[code[s.pc + 1] as int];
                &&& r->Next_0.regs == s.regs
                &&& forall|k: int| 0 <= k < mem2.len() ==> mem2[k] == if off <= k < off + 8 {
                    le_bytes8(v)[k - off]
                } else {
                    mem_byte(s.memory, k)
                }
            }
        }),
{
    let ar = if op == 0x10 { code[s.pc + 1] } else { code[s.pc] };
    let off = (s.regs[ar as int] as usize) as int;
    let mem = crate::svm::grow(s.memory, off + 8);
    assert forall|k: int| 0 <= k < mem.len() implies mem[k] == mem_byte(s.memory, k) by {}
    if op == 0x10 {
        let b = Seq::new(8, |i: int| mem_byte(s.memory, off + i));
        assert(b[0] == mem[off] && b[1] == mem[off + 1] && b[2] == mem[off + 2] && b[3] == mem[off + 3]);
        assert(b[4] == mem[off + 4] && b[5] == mem[off + 5] && b[6] == mem[off + 6] && b[7] == mem[off + 7]);
        lemma_le_bytes_value(b[0], b[1], b[2], b[3], b[4], b[5], b[6], b[7]);
    } else {
        let v = s.regs[code[s.pc + 1] as int];
        lemma_le_bytes8(v);
    }
}

/// A signed 16-bit offset stored little-endian at `code[i..i + 2]`.
pub open spec fn offset16(code: Seq<u8>, i: int) -> int {
    let u = code[i] + 0x100 * code[i + 1];
    if u >= 0x8000 { u - 0x1_0000 } else { u }
}

/// Where a relative jump from `p` by `off` lands: targets before the start
/// of the code wrap around the machine's address space.
pub open spec fn landing(p: int, off: int) -> int {
    if p + off < 0 { p + off + usize::MAX + 1 } else { p + off }
}

proof fn lemma_u16_value(b0: u8, b1: u8)
    ensures
        ((b0 as u16) | ((b1 as u16) << 8u16)) == b0 as u16 + 0x100 * (b1 as u16),
{
    assert(((b0 as u16) | ((b1 as u16) << 8u16)) == b0 as u16 + 0x100 * (b1 as u16)) by (bit_vector);
}

/// Control flow of the register machine. HALT stops with the state as it
/// is. JMP (`0x20 off16`) moves to the address after its operand plus the
/// signed little-endian offset; JZ and JNZ (`op rs off16`) do the same when
/// `rs` is zero (JZ) or not zero (JNZ) and otherwise move past their
/// operands; RET jumps to the address in `r0`. Nothing else changes.
pub proof fn law_svm_control(code: Seq<u8>, op: u8, s: SvmModel)
    requires
        op == 0x00 || op == 0x20 || op == 0x21 || op == 0x22 || op == 0x30,
        s.regs.len() == 13,
        0 <= s.pc,
        s.pc + 3 <= code.len(),
        code[s.pc] < 13,
    ensures
        ({
            let r = spec_op(code, op, s);
            &&& op == 0x00 ==> r == SvmStep::Stop(s)
            &&& op == 0x20 ==> r == SvmStep::Next(SvmModel { pc: landing(s.pc + 2, offset16(code, s.pc)), ..s })
            &&& (op == 0x21 || op == 0x22) ==> {
                let c = s.regs[code[s.pc] as int];
                let taken = if op == 0x21 { c == 0 } else { c != 0 };
                r == SvmStep::Next(SvmModel {
                    pc: if taken { landing(s.pc + 3, offset16(code, s.pc + 1)) } else { s.pc + 3 },
                    ..s
                })
            }
            &&& op == 0x30 ==> r == SvmStep::Next(SvmModel { pc: (s.regs[0] as usize) as int, ..s })
        }),
{
    lemma_u16_value(code[s.pc], code[s.pc + 1]);
    lemma_u16_value(code[s.pc + 1], code[s.pc + 2]);
}

/// SHL and SHR (`op rd rs imm8`): for a shift below 64, `rd` gets `rs`
/// shifted left (bits past 64 dropped) or right by the immediate byte; the
/// instruction moves past its three operand bytes and changes nothing else.
pub proof fn law_svm_shift(code: Seq<u8>, op: u8, s: SvmModel)
    requires
        op == 0x0b || op == 0x0c,
        s.regs.len() == 13,
        0 <= s.pc,
        s.pc + 3 <= code.len(),
        code[s.pc] < 13,
        code[s.pc + 1] < 13,
        code[s.pc + 2] < 64,
    ensures
        ({
            let rd = code[s.pc] as int;
            let a = s.regs[code[s.pc + 1] as int];
            let sh = code[s.pc + 2] as u64;
            let r = spec_op(code, op, s);
            &&& r is Next
            &&& r->Next_0.pc == s.pc + 3
            &&& r->Next_0.gas == s.gas
            &&& r->Next_0.memory == s.memory
            &&& r->Next_0.accounts == s.accounts
            &&& r->Next_0.regs.len() == 13
            &&& forall|i: int| 0 <= i < 13 && i != rd ==> r->Next_0.regs[i] == s.regs[i]
            &&& op == 0x0b ==> r->Next_0.regs[rd] == a << sh
            &&& op == 0x0c ==> r->Next_0.regs[rd] == a >> sh
        }),
{
}

pub open spec fn word_modulus_value() -> int {
    0x1_0000_0000_0000_0000_0000_0000_0000_0000_0000_0000_0000_0000_0000_0000_0000_0000int
}

/// Two-operand arithmetic of the stack machine. ADD, MUL, SUB, DIV, MOD,
/// LT, GT, EQ, AND, OR and XOR (SDIV, SMOD, SLT and SGT compute as their
/// unsigned counterparts) pop the top word `a` and the word `b` below
/// it and push one word: `a + b`, `a * b`, `a - b` modulo 2^256, `a / b`
/// and `a % b` (zero for a zero divisor), 1 or 0 for `a < b`, `a > b`,
/// `a == b`, and the limb-wise bitwise operation. Nothing else changes.
#[verifier::spinoff_prover]
#[verifier::rlimit(60)]
pub proof fn law_evm_binary(op: u8, s: EvmModel)
    requires
        op == 0x01 || op == 0x02 || op == 0x03 || op == 0x04 || op == 0x05 || op == 0x06 || op == 0x07
            || op == 0x10 || op == 0x11 || op == 0x12 || op == 0x13 || op == 0x14 || op == 0x16 || op == 0x17
            || op == 0x18,
        2 <= s.stack.len() <= STACK_LIMIT,
    ensures
        ({
            let n = s.stack.len() as int;
            let a = s.stack[n - 1];
            let b = s.stack[n - 2];
            let r = arith_step(op, s);
            let w = r->Next_0.stack[n - 2];
            &&& r is Next
            &&& r->Next_0 == EvmModel { stack: s.stack.take(n - 2).push(w), ..s }
            &&& op == 0x01 ==> w.val() == (a.val() as int + b.val() as int) % word_modulus_value()
            &&& op == 0x02 ==> w.val() == (a.val() as int * b.val() as int) % word_modulus_value()
            &&& op == 0x03 ==> w.val() == (a.val() as int - b.val() as int) % word_modulus_value()
            &&& (op == 0x04 || op == 0x05) ==> w.val() == (if b.val() == 0 { 0 } else { a.val() / b.val() })
            &&& (op == 0x06 || op == 0x07) ==> w.val() == (if b.val() == 0 { 0 } else { a.val() % b.val() })
            &&& (op == 0x10 || op == 0x12) ==> w.val() == (if a.val() < b.val() { 1int } else { 0 })
            &&& (op == 0x11 || op == 0x13) ==> w.val() == (if a.val() > b.val() { 1int } else { 0 })
            &&& op == 0x14 ==> w.val() == (if a == b { 1int } else { 0 })
            &&& op == 0x16 ==> w == Word { l0: a.l0 & b.l0, l1: a.l1 & b.l1, l2: a.l2 & b.l2, l3: a.l3 & b.l3 }
            &&& op == 0x17 ==> w == Word { l0: a.l0 | b.l0, l1: a.l1 | b.l1, l2: a.l2 | b.l2, l3: a.l3 | b.l3 }
            &&& op == 0x18 ==> w == Word { l0: a.l0 ^ b.l0, l1: a.l1 ^ b.l1, l2: a.l2 ^ b.l2, l3: a.l3 ^ b.l3 }
        }),
{
    reveal(arith_step);
    let n = s.stack.len() as int;
    let a = s.stack[n - 1];
    let b = s.stack[n - 2];
    lemma_val_bound(a);
    lemma_val_bound(b);
    lemma_zero_val(b);
    let m = word_modulus_value();
    if op == 0x01 {
        lemma_from_val(((a.val() as int + b.val() as int) % m) as nat);
    } else if op == 0x02 {
        lemma_from_val(((a.val() as int * b.val() as int) % m) as nat);
    } else if op == 0x03 {
        lemma_from_val(((a.val() as int - b.val() as int) % m) as nat);
    } else if op == 0x04 || op == 0x05 {
        if b.val() != 0 {
            assert(a.val() / b.val() <= a.val()) by (nonlinear_arith)
                requires
                    b.val() > 0,
            ;
            lemma_from_val(a.val() / b.val());
        }
    } else if op == 0x06 || op == 0x07 {
        if b.val() != 0 {
            assert(a.val() % b.val() < b.val()) by (nonlinear_arith)
                requires
                    b.val() > 0,
            ;
            lemma_from_val(a.val() % b.val());
        }
    }
    let r = arith_step(op, s);
    assert(r->Next_0.stack =~= s.stack.take(n - 2).push(r->Next_0.stack[n - 2]));
}

proof fn lemma_pow_nonneg(x: int, e: nat)
    requires
        x >= 0,
    ensures
        pow(x, e) >= 0,
    decreases e,
{
    reveal(pow);
    if e > 0 {
        lemma_pow_nonneg(x, (e - 1) as nat);
        assert(x * pow(x, (e - 1) as nat) >= 0) by (nonlinear_arith)
            requires
                x >= 0,
                pow(x, (e - 1) as nat) >= 0,
        ;
    }
}

/// EXP, SHL, SHR and SAR pop the top word `a` and the word `b` below it.
/// EXP pushes `a` to the power `b` and panics where that reaches 2^256;
/// SHL pushes `b` shifted left by `a` bits modulo 2^256, SHR and SAR `b`
/// shifted right by `a` bits (SAR as SHR), each panicking where the shift
/// does not fit a machine word. Nothing else changes.
#[verifier::spinoff_prover]
#[verifier::rlimit(60)]
pub proof fn law_evm_exp_shift(op: u8, s: EvmModel)
    requires
        op == 0x0a || op == 0x1b || op == 0x1c || op == 0x1d,
        2 <= s.stack.len() <= STACK_LIMIT,
    ensures
        ({
            let n = s.stack.len() as int;
            let a = s.stack[n - 1];
            let b = s.stack[n - 2];
            let r = arith_step(op, s);
            let w = r->Next_0.stack[n - 2];
            let fits = a.l1 == 0 && a.l2 == 0 && a.l3 == 0 && a.l0 <= usize::MAX;
            &&& op == 0x0a ==> (pow(a.val() as int, b.val()) < word_modulus_value() <==> r is Next)
            &&& op == 0x0a && r is Next ==> w.val() == pow(a.val() as int, b.val())
            &&& op != 0x0a ==> (fits <==> r is Next)
            &&& op == 0x1b && r is Next ==> w.val() == (b.val() as int * pow2(a.l0 as nat) as int) % word_modulus_value()
            &&& (op == 0x1c || op == 0x1d) && r is Next ==> w.val() == b.val() / pow2(a.l0 as nat)
            &&& !(r is Next) ==> r is Crash
            &&& r is Next ==> r->Next_0 == EvmModel { stack: s.stack.take(n - 2).push(w), ..s }
        }),
{
    reveal(arith_step);
    let n = s.stack.len() as int;
    let a = s.stack[n - 1];
    let b = s.stack[n - 2];
    lemma_val_bound(a);
    lemma_val_bound(b);
    let m = word_modulus_value();
    if op == 0x0a {
        if pow(a.val() as int, b.val()) < m {
            lemma_pow_nonneg(a.val() as int, b.val());
            lemma_from_val(pow(a.val() as int, b.val()) as nat);
        }
    } else if a.l1 == 0 && a.l2 == 0 && a.l3 == 0 && a.l0 <= usize::MAX {
        vstd::arithmetic::power2::lemma_pow2_pos(a.l0 as nat);
        if op == 0x1b {
            lemma_from_val(((b.val() as int * pow2(a.l0 as nat) as int) % m) as nat);
        } else {
            assert(b.val() / pow2(a.l0 as nat) <= b.val()) by (nonlinear_arith)
                requires
                    pow2(a.l0 as nat) > 0,
            ;
            lemma_from_val(b.val() / pow2(a.l0 as nat));
        }
    }
    let r = arith_step(op, s);
    if r is Next {
        assert(r->Next_0.stack =~= s.stack.take(n - 2).push(r->Next_0.stack[n - 2]));
    }
}

/// ISZERO and NOT pop the top word/// ISZERO and NOT pop the top word and push 1 or 0 for whether it is zero,
/// or its limb-wise complement; nothing else changes.
pub proof fn law_evm_unary(op: u8, s: EvmModel)
    requires
        op == 0x15 || op == 0x19,
        1 <= s.stack.len() <= STACK_LIMIT,
    ensures
        ({
            let n = s.stack.len() as int;
            let a = s.stack[n - 1];
            let r = arith_step(op, s);
            let w = r->Next_0.stack[n - 1];
            &&& r is Next
            &&& r->Next_0 == EvmModel { stack: s.stack.take(n - 1).push(w), ..s }
            &&& op == 0x15 ==> w.val() == (if a.val() == 0 { 1int } else { 0 })
            &&& op == 0x19 ==> w == Word { l0: !a.l0, l1: !a.l1, l2: !a.l2, l3: !a.l3 }
        }),
{
    reveal(arith_step);
    let n = s.stack.len() as int;
    lemma_zero_val(s.stack[n - 1]);
    let r = arith_step(op, s);
    assert(r->Next_0.stack =~= s.stack.take(n - 1).push(r->Next_0.stack[n - 1]));
}

/// DUP1 to DUP16 (`0x80 + k`): on a stack deeper than `k`, pushes a copy of
/// the word `k` places below the top; nothing else changes.
pub proof fn law_evm_dup(op: u8, code: Seq<u8>, s: EvmModel)
    requires
        0x80 <= op <= 0x8f,
        (op - 0x80) < s.stack.len() < STACK_LIMIT,
    ensures
        stack_step(op, code, s) == EvmStep::Next(
            EvmModel { stack: s.stack.push(s.stack[s.stack.len() - 1 - (op - 0x80)]), ..s },
        ),
{
    reveal(stack_step);
}

/// SWAP1 to SWAP16 (`0x8f + k`): on a stack deeper than `k`, exchanges the
/// top word with the word `k` places below it; nothing else changes.
pub proof fn law_evm_swap(op: u8, code: Seq<u8>, s: EvmModel)
    requires
        0x90 <= op <= 0x9f,
        (op - 0x8f) < s.stack.len(),
    ensures
        ({
            let n = s.stack.len() as int;
            let k = (op - 0x8f) as int;
            let r = stack_step(op, code, s);
            &&& r is Next
            &&& r->Next_0 == EvmModel { stack: r->Next_0.stack, ..s }
            &&& r->Next_0.stack.len() == n
            &&& r->Next_0.stack[n - 1] == s.stack[n - 1 - k]
            &&& r->Next_0.stack[n - 1 - k] == s.stack[n - 1]
            &&& forall|i: int| 0 <= i < n && i != n - 1 && i != n - 1 - k ==> r->Next_0.stack[i] == s.stack[i]
        }),
{
    reveal(stack_step);
}

/// POP drops the top word; nothing else changes.
pub proof fn law_evm_pop(s: EvmModel)
    requires
        s.stack.len() >= 1,
    ensures
        memory_step(0x50, s) == EvmStep::Next(EvmModel { stack: s.stack.take(s.stack.len() - 1), ..s }),
{
    reveal(memory_step);
}

/// The distance between two prices.
pub open spec fn price_distance(p: int, q: int) -> int {
    if p >= q { p - q } else { q - p }
}

/// The mid price of a two-sided book: half the sum, rounded toward zero.
pub open spec fn mid_of(bid: int, ask: int) -> int {
    if bid + ask >= 0 { (bid + ask) / 2 } else { -((-(bid + ask)) / 2) }
}

/// The pre-trade risk verdict, check by check, first failure wins:
/// price times quantity above `max_notional`; the position after a full
/// fill (plus the quantity for a bid, minus it for an ask) further than
/// `max_position` from zero; for a priced order (not market, not IOC) on a
/// two-sided book with a positive mid `m`, a price further than
/// `fat_finger_bps` basis points of `m` from `m`, in either direction;
/// margin use `10 * used + notional` over `max_notional` above
/// `margin_limit_bps` tenths of a basis point; an ask from a flat or short
/// account where shorting is off.
#[verifier::spinoff_prover]
#[verifier::rlimit(60)]
pub proof fn law_risk_verdict(c: RiskConfig, pos: int, used: int, order: Order, best_bid: Option<Price>, best_ask: Option<Price>)
    ensures
        ({
            let notional = order.price.0 * order.qty.0;
            let after = if order.side == Side::Bid { pos + order.qty.0 } else { pos - order.qty.0 };
            let priced = order.order_type != OrderType::Market && order.order_type != OrderType::IOC;
            let price_ok = match (best_bid, best_ask) {
                (Some(b), Some(a)) => {
                    let m = mid_of(b.0 as int, a.0 as int);
                    m <= 0 || price_distance(order.price.0 as int, m) * 10_000 <= c.fat_finger_bps * m
                },
                _ => true,
            };
            let t10 = 10 * used + notional;
            let margin_ok = if c.max_notional > 0 {
                t10 * 1000 <= c.margin_limit_bps * c.max_notional
            } else if c.max_notional < 0 {
                t10 * 1000 >= c.margin_limit_bps * c.max_notional
            } else {
                t10 < 0
            };
            let short_ok = !(order.side == Side::Ask && pos <= 0 && !c.allow_short);
            c.check(pos, used, order, best_bid, best_ask) == if notional > c.max_notional {
                RiskResult::Rejected(RejectReason::MaxNotionalExceeded)
            } else if price_distance(after, 0) > c.max_position {
                RiskResult::Rejected(RejectReason::MaxPositionExceeded)
            } else if priced && !price_ok {
                RiskResult::Rejected(RejectReason::FatFingerPrice)
            } else if !margin_ok {
                RiskResult::Rejected(RejectReason::MarginExceeded)
            } else if !short_ok {
                RiskResult::Rejected(RejectReason::ShortNotAllowed)
            } else {
                RiskResult::Approved
            }
        }),
{
}

/// The fat-finger check is symmetric about the mid: on a two-sided book
/// with a positive mid `m`, a priced order at `m + d` and one at `m - d`
/// get the same verdict, whatever else they share.
pub proof fn law_fat_finger_symmetric(c: RiskConfig, pos: int, used: int, order: Order, b: Price, a: Price, d: int)
    requires
        mid_of(b.0 as int, a.0 as int) > 0,
        i64::MIN <= mid_of(b.0 as int, a.0 as int) + d <= i64::MAX,
        i64::MIN <= mid_of(b.0 as int, a.0 as int) - d <= i64::MAX,
    ensures
        ({
            let m = mid_of(b.0 as int, a.0 as int);
            let up = Order { price: Price((m + d) as i64), ..order };
            let down = Order { price: Price((m - d) as i64), ..order };
            c.fat_finger_ok(up, Some(b), Some(a)) == c.fat_finger_ok(down, Some(b), Some(a))
        }),
{
}

/// Fills move the position by what was traded: after an accepted order,
/// the submitting account's position is its old position plus the traded
/// quantity for a bid and minus it for an ask, and no other account's
/// position changes.
#[verifier::spinoff_prover]
#[verifier::rlimit(60)]
pub proof fn law_fills_move_position(m: EngineModel, p: EngineParams, order: Order)
    requires
        submit_defined(m, p, order),
        submit(m, p, order).1 is Ok,
    ensures
        ({
            let t = submit(m, p, order).1->Ok_0;
            let m2 = submit(m, p, order).0;
            &&& account_position(m2.accounts, order.account) == account_position(m.accounts, order.account)
                + if order.side == Side::Bid { traded_qty(t) } else { -traded_qty(t) }
            &&& forall|x: AccountId| x.0 != order.account.0
                ==> account_position(m2.accounts, x) == account_position(m.accounts, x)
        }),
{
    let out = match_outcome(m, p, order);
    assert(!fok_short(order, out));
    lemma_apply_fills_position(m.accounts, order.account, order.side, out.trades);
}

proof fn lemma_apply_fills_position(acc: Map<u64, crate::risk::AccountRisk>, a: AccountId, side: Side, ts: Seq<Trade>)
    requires
        fills_defined(acc, a, side, ts),
    ensures
        account_position(apply_fills(acc, a, side, ts), a) == account_position(acc, a)
            + if side == Side::Bid { traded_qty(ts) } else { -traded_qty(ts) },
        forall|x: AccountId| x.0 != a.0
            ==> account_position(apply_fills(acc, a, side, ts), x) == account_position(acc, x),
    decreases ts.len(),
{
    if ts.len() > 0 {
        let d = ts.drop_last();
        lemma_apply_fills_position(acc, a, side, d);
        lemma_traded_qty_concat(d, seq![ts.last()]);
        assert(d + seq![ts.last()] =~= ts);
        assert(seq![ts.last()].drop_first() =~= Seq::<Trade>::empty());
        assert(traded_qty(Seq::<Trade>::empty()) == 0);
        assert(seq![ts.last()][0] == ts.last());
        assert(traded_qty(seq![ts.last()]) == ts.last().qty.0 + traded_qty(seq![ts.last()].drop_first()));
    }
}

/// A fill on the risk engine moves the account's position by the quantity,
/// up for a bid and down for an ask.
pub proof fn law_fill_accounts(r: RiskEngine, account: AccountId, side: Side, qty: Qty)
    requires
        r.fill_defined(account, side, qty),
    ensures
        r.fill_accounts(account, side, qty).contains_key(account.0),
        r.fill_accounts(account, side, qty)[account.0].position == r.position(account)
            + if side == Side::Bid { qty.0 as int } else { -(qty.0 as int) },
{
}

/// The order an insertion event replays as: the log's order-type codes are
/// 0 limit, 1 market, 2 IOC, 3 fill-or-kill and anything else post-only;
/// side 0 is a bid and anything else an ask; id, account, price and
/// quantity are the event's, the whole quantity is open, the order is
/// good-till-cancel and stamped with the event's sequence number.
pub proof fn law_event_order(e: WalEvent)
    ensures
        ({
            let o = event_order(e);
            &&& e.order_type == 0 ==> o.order_type == OrderType::Limit
            &&& e.order_type == 1 ==> o.order_type == OrderType::Market
            &&& e.order_type == 2 ==> o.order_type == OrderType::IOC
            &&& e.order_type == 3 ==> o.order_type == OrderType::FOK
            &&& e.order_type >= 4 ==> o.order_type == OrderType::PostOnly
            &&& (e.side == 0 <==> o.side == Side::Bid)
            &&& o.id == OrderId(e.order_id)
            &&& o.account == AccountId(e.account_id)
            &&& o.price == Price(e.price)
            &&& o.qty == Qty(e.qty)
            &&& o.remaining == o.qty
            &&& o.tif == TimeInForce::GTC
            &&& o.timestamp == e.sequence_id
        }),
{
}

/// The value of the `n` bytes at `b[i..i + n]` read big-endian.
pub open spec fn be_value(b: Seq<u8>, i: int, n: nat) -> int
    decreases n,
{
    if n == 0 {
        0
    } else {
        be_value(b, i, (n - 1) as nat) * 256 + b[i + n - 1]
    }
}

proof fn lemma_be_bytes_value(b0: u8, b1: u8, b2: u8, b3: u8, b4: u8, b5: u8, b6: u8, b7: u8)
    ensures
        (((b0 as u64) << 56u64) | ((b1 as u64) << 48u64) | ((b2 as u64) << 40u64) | ((b3 as u64) << 32u64)
            | ((b4 as u64) << 24u64) | ((b5 as u64) << 16u64) | ((b6 as u64) << 8u64) | (b7 as u64))
            == 0x100_0000_0000_0000 * (b0 as u64) + 0x1_0000_0000_0000 * (b1 as u64) + 0x100_0000_0000 * (b2 as u64)
            + 0x1_0000_0000 * (b3 as u64) + 0x100_0000 * (b4 as u64) + 0x1_0000 * (b5 as u64) + 0x100 * (b6 as u64)
            + b7 as u64,
{
    assert((((b0 as u64) << 56u64) | ((b1 as u64) << 48u64) | ((b2 as u64) << 40u64) | ((b3 as u64) << 32u64)
        | ((b4 as u64) << 24u64) | ((b5 as u64) << 16u64) | ((b6 as u64) << 8u64) | (b7 as u64))
        == 0x100_0000_0000_0000 * (b0 as u64) + 0x1_0000_0000_0000 * (b1 as u64) + 0x100_0000_0000 * (b2 as u64)
        + 0x1_0000_0000 * (b3 as u64) + 0x100_0000 * (b4 as u64) + 0x1_0000 * (b5 as u64) + 0x100 * (b6 as u64)
        + b7 as u64) by (bit_vector);
}

proof fn lemma_be_value_u64(b: Seq<u8>, i: int)
    requires
        0 <= i,
        i + 8 <= b.len(),
    ensures
        u64_be_at(b, i) as int == be_value(b, i, 8),
{
    reveal_with_fuel(be_value, 9);
    lemma_be_bytes_value(b[i], b[i + 1], b[i + 2], b[i + 3], b[i + 4], b[i + 5], b[i + 6], b[i + 7]);
}

proof fn lemma_be_value_split(b: Seq<u8>, i: int, m: nat, k: nat)
    ensures
        be_value(b, i, m + k) == be_value(b, i, m) * pow(256, k) + be_value(b, i + m, k),
    decreases k,
{
    reveal(pow);
    if k > 0 {
        lemma_be_value_split(b, i, m, (k - 1) as nat);
        let x = be_value(b, i, m);
        let p = pow(256, (k - 1) as nat);
        assert(be_value(b, i, m + k) == be_value(b, i, (m + k - 1) as nat) * 256 + b[i + m + k - 1]);
        assert(be_value(b, i + m, k) == be_value(b, i + m, (k - 1) as nat) * 256 + b[i + m + k - 1]);
        assert((x * p + be_value(b, i + m, (k - 1) as nat)) * 256 == x * (256 * p) + be_value(b, i + m, (k - 1) as nat) * 256)
            by (nonlinear_arith);
    }
}

proof fn lemma_pow256_8()
    ensures
        pow(256, 8) == 0x1_0000_0000_0000_0000int,
{
    reveal_with_fuel(pow, 9);
}

/// The value of a word read from 32 big-endian bytes is the bytes' value.
proof fn lemma_word_be_value(b: Seq<u8>, i: int)
    requires
        0 <= i,
        i + 32 <= b.len(),
    ensures
        be_word_at(b, i).val() == be_value(b, i, 32),
{
    lemma_be_value_u64(b, i);
    lemma_be_value_u64(b, i + 8);
    lemma_be_value_u64(b, i + 16);
    lemma_be_value_u64(b, i + 24);
    lemma_pow256_8();
    lemma_be_value_split(b, i, 8, 8);
    lemma_be_value_split(b, i, 16, 8);
    lemma_be_value_split(b, i, 24, 8);
}

proof fn lemma_u64_be_roundtrip(x: u64)
    ensures
        u64_be_at(u64_be_bytes(x), 0) == x,
{
    let b = u64_be_bytes(x);
    assert((((((x >> 56u64) as u8) as u64) << 56u64) | ((((x >> 48u64) as u8) as u64) << 48u64)
        | ((((x >> 40u64) as u8) as u64) << 40u64) | ((((x >> 32u64) as u8) as u64) << 32u64)
        | ((((x >> 24u64) as u8) as u64) << 24u64) | ((((x >> 16u64) as u8) as u64) << 16u64)
        | ((((x >> 8u64) as u8) as u64) << 8u64) | ((x as u8) as u64)) == x) by (bit_vector);
}

/// Reading back the 32 big-endian bytes of a word gives the word.
pub proof fn lemma_word_roundtrip(w: Word)
    ensures
        be_word_at(be_bytes(w), 0) == w,
{
    let b = be_bytes(w);
    lemma_u64_be_roundtrip(w.l3);
    lemma_u64_be_roundtrip(w.l2);
    lemma_u64_be_roundtrip(w.l1);
    lemma_u64_be_roundtrip(w.l0);
    assert(b.subrange(0, 8) =~= u64_be_bytes(w.l3));
    assert(b.subrange(8, 16) =~= u64_be_bytes(w.l2));
    assert(b.subrange(16, 24) =~= u64_be_bytes(w.l1));
    assert(b.subrange(24, 32) =~= u64_be_bytes(w.l0));
    assert(u64_be_at(b, 0) == u64_be_at(u64_be_bytes(w.l3), 0));
    assert(u64_be_at(b, 8) == u64_be_at(u64_be_bytes(w.l2), 0));
    assert(u64_be_at(b, 16) == u64_be_at(u64_be_bytes(w.l1), 0));
    assert(u64_be_at(b, 24) == u64_be_at(u64_be_bytes(w.l0), 0));
}

/// A word's bytes are its value written big-endian in 32 bytes.
pub proof fn law_word_bytes(w: Word)
    ensures
        be_bytes(w).len() == 32,
        be_value(be_bytes(w), 0, 32) == w.val(),
{
    lemma_word_roundtrip(w);
    lemma_word_be_value(be_bytes(w), 0);
}

proof fn lemma_be_value_congr(b: Seq<u8>, i: int, c: Seq<u8>, j: int, n: nat)
    requires
        forall|m: int| i <= m < i + n ==> #[trigger] b[m] == c[m - i + j],
    ensures
        be_value(b, i, n) == be_value(c, j, n),
    decreases n,
{
    if n > 0 {
        lemma_be_value_congr(b, i, c, j, (n - 1) as nat);
        assert(b[i + n - 1] == c[j + n - 1]);
    }
}

proof fn lemma_be_word_congr(b: Seq<u8>, i: int, c: Seq<u8>, j: int)
    requires
        0 <= i,
        i + 32 <= b.len(),
        0 <= j,
        j + 32 <= c.len(),
        forall|m: int| i <= m < i + 32 ==> #[trigger] b[m] == c[m - i + j],
    ensures
        be_word_at(b, i) == be_word_at(c, j),
{
    assert(b[i] == c[j] && b[i + 1] == c[j + 1] && b[i + 2] == c[j + 2] && b[i + 3] == c[j + 3]);
    assert(b[i + 4] == c[j + 4] && b[i + 5] == c[j + 5] && b[i + 6] == c[j + 6] && b[i + 7] == c[j + 7]);
    assert(b[i + 8] == c[j + 8] && b[i + 9] == c[j + 9] && b[i + 10] == c[j + 10] && b[i + 11] == c[j + 11]);
    assert(b[i + 12] == c[j + 12] && b[i + 13] == c[j + 13] && b[i + 14] == c[j + 14] && b[i + 15] == c[j + 15]);
    assert(b[i + 16] == c[j + 16] && b[i + 17] == c[j + 17] && b[i + 18] == c[j + 18] && b[i + 19] == c[j + 19]);
    assert(b[i + 20] == c[j + 20] && b[i + 21] == c[j + 21] && b[i + 22] == c[j + 22] && b[i + 23] == c[j + 23]);
    assert(b[i + 24] == c[j + 24] && b[i + 25] == c[j + 25] && b[i + 26] == c[j + 26] && b[i + 27] == c[j + 27]);
    assert(b[i + 28] == c[j + 28] && b[i + 29] == c[j + 29] && b[i + 30] == c[j + 30] && b[i + 31] == c[j + 31]);
}

/// The memory a stack-machine instruction leaves after touching
/// `off..off + n`: grown with zeros to cover the range, every old byte kept.
pub open spec fn covers(mem2: Seq<u8>, mem: Seq<u8>, end: int) -> bool {
    &&& mem2.len() == if mem.len() >= end { mem.len() as int } else { end }
}

/// MLOAD pops an address `off` and pushes the word whose value is the 32
/// memory bytes at `off` read big-endian (zero past the end of memory);
/// memory grows with zeros to cover them. MSTORE pops `off` and a word `v`
/// and writes the 32 bytes of `v`, most significant first, at `off`, so
/// that they read back as `v`; MSTORE8 writes the low byte of `v` at
/// `off`. Every other byte of memory stays; pc, gas and storage do not
/// change.
#[verifier::spinoff_prover]
#[verifier::rlimit(60)]
pub proof fn law_evm_memory(op: u8, s: EvmModel)
    requires
        op == 0x51 || op == 0x52 || op == 0x53,
        (if op == 0x51 { 1int } else { 2 }) <= s.stack.len() <= STACK_LIMIT,
        ({
            let t = s.stack[s.stack.len() - 1];
            t.l1 == 0 && t.l2 == 0 && t.l3 == 0 && (t.l0 as usize) as int + 32 <= usize::MAX
        }),
        op == 0x53 ==> s.stack[s.stack.len() - 2].val() < 0x1_0000_0000_0000_0000,
    ensures
        ({
            let n = s.stack.len() as int;
            let off = (s.stack[n - 1].l0 as usize) as int;
            let r = memory_step(op, s);
            let mem2 = r->Next_0.memory;
            &&& r is Next
            &&& r->Next_0.pc == s.pc && r->Next_0.gas == s.gas && r->Next_0.storage == s.storage
            &&& op == 0x51 ==> {
                let w = r->Next_0.stack[n - 1];
                &&& r->Next_0.stack == s.stack.take(n - 1).push(w)
                &&& w.val() == be_value(Seq::new(32, |k: int| mem_byte(s.memory, off + k)), 0, 32)
                &&& covers(mem2, s.memory, off + 32)
                &&& forall|k: int| 0 <= k < mem2.len() ==> mem2[k] == mem_byte(s.memory, k)
            }
            &&& op == 0x52 ==> {
                let v = s.stack[n - 2];
                &&& r->Next_0.stack == s.stack.take(n - 2)
                &&& covers(mem2, s.memory, off + 32)
                &&& forall|k: int| 0 <= k < mem2.len() && !(off <= k < off + 32) ==> mem2[k] == mem_byte(s.memory, k)
                &&& be_value(mem2, off, 32) == v.val()
                &&& be_word_at(mem2, off) == v
            }
            &&& op == 0x53 ==> {
                let v = s.stack[n - 2];
                &&& r->Next_0.stack == s.stack.take(n - 2)
                &&& covers(mem2, s.memory, off + 1)
                &&& forall|k: int| 0 <= k < mem2.len() && k != off ==> mem2[k] == mem_byte(s.memory, k)
                &&& mem2[off] as int == v.val() % 256
            }
        }),
{
    reveal(memory_step);
    let n = s.stack.len() as int;
    let off = (s.stack[n - 1].l0 as usize) as int;
    let r = memory_step(op, s);
    if op == 0x51 {
        let mem = crate::svm::grow(s.memory, off + 32);
        let b = Seq::new(32, |k: int| mem_byte(s.memory, off + k));
        lemma_word_be_value(mem, off);
        lemma_be_value_congr(mem, off, b, 0, 32);
        assert(r->Next_0.stack =~= s.stack.take(n - 1).push(r->Next_0.stack[n - 1]));
    } else if op == 0x52 {
        let v = s.stack[n - 2];
        let mem2 = r->Next_0.memory;
        let bb = be_bytes(v);
        assert forall|m: int| off <= m < off + 32 implies #[trigger] mem2[m] == bb[m - off + 0] by {}
        lemma_be_word_congr(mem2, off, bb, 0);
        lemma_word_roundtrip(v);
        law_word_bytes(v);
        lemma_be_value_congr(mem2, off, bb, 0, 32);
        assert(r->Next_0.stack =~= s.stack.take(n - 2));
    } else {
        let v = s.stack[n - 2];
        lemma_small_val_u8(v);
        assert(r->Next_0.stack =~= s.stack.take(n - 2));
    }
}

proof fn lemma_small_val_u8(v: Word)
    requires
        v.val() < 0x1_0000_0000_0000_0000,
    ensures
        v.l1 == 0 && v.l2 == 0 && v.l3 == 0,
        (v.l0 as u8) as int == v.val() % 256,
{
    crate::word::lemma_small_val(v);
    let x = v.l0;
    assert((x as u8) as u64 == x % 256) by (bit_vector);
}

/// SLOAD and SSTORE on the sender's storage: after SSTORE of `v` at slot
/// `k`, SLOAD of `k` gives `v` back and SLOAD of any other slot gives what
/// it gave before; a slot never written reads as zero. SSTORE pops both
/// words and changes nothing else.
#[verifier::spinoff_prover]
#[verifier::rlimit(60)]
pub proof fn law_evm_storage(sender: Seq<u8>, s: EvmModel, k2: Word)
    requires
        2 <= s.stack.len() <= STACK_LIMIT,
    ensures
        ({
            let n = s.stack.len() as int;
            let key = s.stack[n - 1];
            let v = s.stack[n - 2];
            let r = storage_step(0x55, sender, s);
            let s1 = r->Next_0;
            let load_after = storage_step(0x54, sender, EvmModel { stack: s1.stack.push(k2), ..s1 });
            let load_before = storage_step(0x54, sender, EvmModel { stack: s1.stack.push(k2), ..s });
            &&& r is Next
            &&& s1 == EvmModel { stack: s.stack.take(n - 2), storage: s1.storage, ..s }
            &&& load_after is Next
            &&& load_after->Next_0.stack.last() == if k2 == key { v } else { load_before->Next_0.stack.last() }
            &&& (s.storage)((sender, be_bytes(k2))) is None ==> load_before->Next_0.stack.last().val() == 0
        }),
{
    reveal(storage_step);
    let n = s.stack.len() as int;
    let key = s.stack[n - 1];
    let v = s.stack[n - 2];
    lemma_word_roundtrip(v);
    lemma_word_roundtrip(key);
    lemma_word_roundtrip(k2);
    let s1 = storage_step(0x55, sender, s)->Next_0;
    assert(s1.stack =~= s.stack.take(n - 2));
    if (s.storage)((sender, be_bytes(k2))) is None {
        let z = Seq::new(32, |i: int| 0u8);
        reveal_with_fuel(be_value, 33);
        lemma_word_be_value(z, 0);
        assert(be_value(z, 0, 32) == 0) by {
            lemma_be_value_zero(z, 32);
        }
    }
}

proof fn lemma_be_value_zero(z: Seq<u8>, n: nat)
    requires
        n <= z.len(),
        forall|i: int| 0 <= i < n ==> z[i] == 0,
    ensures
        be_value(z, 0, n) == 0,
    decreases n,
{
    if n > 0 {
        lemma_be_value_zero(z, (n - 1) as nat);
    }
}

/// PC, MSIZE and GAS push the address of the instruction, the size of
/// memory and the gas left; JUMPDEST does nothing; JUMP pops a destination
/// and moves there when the code holds JUMPDEST at it (otherwise the run
/// fails with an invalid jump destination); JUMPI pops a destination and a
/// condition and jumps only when the condition is not zero.
#[verifier::spinoff_prover]
#[verifier::rlimit(60)]
pub proof fn law_evm_flow(op: u8, code: Seq<u8>, s: EvmModel)
    requires
        0x56 <= op <= 0x5b,
        s.stack.len() < STACK_LIMIT,
        op == 0x58 ==> 1 <= s.pc <= 0x1_0000_0000_0000_0000,
        op == 0x59 ==> s.memory.len() <= u64::MAX,
        (op == 0x56 || op == 0x57) ==> s.stack.len() >= 2 && s.stack[s.stack.len() - 1].l1 == 0
            && s.stack[s.stack.len() - 1].l2 == 0 && s.stack[s.stack.len() - 1].l3 == 0,
    ensures
        ({
            let n = s.stack.len() as int;
            let r = flow_step(op, code, s);
            let d = (s.stack[n - 1].l0 as usize) as int;
            let valid = d < code.len() && code[d] == 0x5b;
            &&& op == 0x58 ==> r is Next && r->Next_0 == EvmModel { stack: s.stack.push(r->Next_0.stack[n]), ..s }
                && r->Next_0.stack[n].val() == s.pc - 1
            &&& op == 0x59 ==> r is Next && r->Next_0 == EvmModel { stack: s.stack.push(r->Next_0.stack[n]), ..s }
                && r->Next_0.stack[n].val() == s.memory.len()
            &&& op == 0x5a ==> r is Next && r->Next_0 == EvmModel { stack: s.stack.push(r->Next_0.stack[n]), ..s }
                && r->Next_0.stack[n].val() == s.gas
            &&& op == 0x5b ==> r == EvmStep::Next(s)
            &&& op == 0x56 ==> r == if valid {
                EvmStep::Next(EvmModel { pc: d, stack: s.stack.take(n - 1), ..s })
            } else {
                EvmStep::Error(ExecutionError::InvalidJumpDest(d as u16))
            }
            &&& op == 0x57 ==> r == if s.stack[n - 2].val() == 0 {
                EvmStep::Next(EvmModel { stack: s.stack.take(n - 2), ..s })
            } else if valid {
                EvmStep::Next(EvmModel { pc: d, stack: s.stack.take(n - 2), ..s })
            } else {
                EvmStep::Error(ExecutionError::InvalidJumpDest(d as u16))
            }
        }),
{
    reveal(flow_step);
    let n = s.stack.len() as int;
    if n >= 2 {
        lemma_zero_val(s.stack[n - 2]);
    }
    let r = flow_step(op, code, s);
    if op == 0x58 || op == 0x59 || op == 0x5a {
        assert(r->Next_0.stack =~= s.stack.push(r->Next_0.stack[n]));
    }
    if op == 0x56 {
        assert(s.stack.take(n - 1) =~= s.stack.take(s.stack.len() - 1));
    }
}

/// RETURN pops an address `off` and a size and ends the run successfully
/// with the `size` memory bytes at `off` as output (zero past the end of
/// memory).
pub proof fn law_evm_return(s: EvmModel)
    requires
        2 <= s.stack.len(),
        ({
            let n = s.stack.len() as int;
            let a = s.stack[n - 1];
            let b = s.stack[n - 2];
            a.l1 == 0 && a.l2 == 0 && a.l3 == 0 && b.l1 == 0 && b.l2 == 0 && b.l3 == 0
                && (a.l0 as usize) as int + (b.l0 as usize) as int <= usize::MAX
        }),
    ensures
        ({
            let n = s.stack.len() as int;
            let off = (s.stack[n - 1].l0 as usize) as int;
            let size = (s.stack[n - 2].l0 as usize) as int;
            let r = return_outcome(s);
            &&& r is Done
            &&& r->Done_0
            &&& r->Done_1 == Seq::new(size as nat, |k: int| mem_byte(s.memory, off + k))
        }),
{
    reveal(return_outcome);
    let n = s.stack.len() as int;
    let off = (s.stack[n - 1].l0 as usize) as int;
    let size = (s.stack[n - 2].l0 as usize) as int;
    let r = return_outcome(s);
    assert(r->Done_1 =~= Seq::new(size as nat, |k: int| mem_byte(s.memory, off + k)));
}

/// PUSH1 to PUSH32 (`0x5f + n`): with `n` bytes of code after the opcode,
/// pushes the word whose value is those bytes read big-endian and moves
/// past them; nothing else changes.
#[verifier::spinoff_prover]
#[verifier::rlimit(60)]
pub proof fn law_evm_push(op: u8, code: Seq<u8>, s: EvmModel)
    requires
        0x60 <= op <= 0x7f,
        0 <= s.pc,
        s.pc + (op - 0x5f) <= code.len(),
        s.stack.len() < STACK_LIMIT,
    ensures
        ({
            let n = (op - 0x5f) as nat;
            let len = s.stack.len() as int;
            let r = stack_step(op, code, s);
            &&& r is Next
            &&& r->Next_0 == EvmModel { stack: s.stack.push(r->Next_0.stack[len]), pc: s.pc + n, ..s }
            &&& r->Next_0.stack[len].val() == be_value(code, s.pc, n)
        }),
{
    reveal(stack_step);
    let n = (op - 0x5f) as nat;
    let len = s.stack.len() as int;
    let bytes = Seq::new((32 - n) as nat, |i: int| 0u8) + code.subrange(s.pc, s.pc + n);
    lemma_word_be_value(bytes, 0);
    lemma_be_value_split(bytes, 0, (32 - n) as nat, n);
    lemma_be_value_zero(bytes, (32 - n) as nat);
    lemma_be_value_congr(bytes, 32 - n, code, s.pc, n);
    let r = stack_step(op, code, s);
    assert(r->Next_0.stack =~= s.stack.push(r->Next_0.stack[len]));
}

/// The value of the four bytes at `b[i..i + 4]` read little-endian.
pub open spec fn le_value4(b: Seq<u8>, i: int) -> int {
    b[i] + 0x100 * b[i + 1] + 0x1_0000 * b[i + 2] + 0x100_0000 * b[i + 3]
}

proof fn lemma_le8_value(x: u64)
    ensures
        u64_le_bytes(x).len() == 8,
        le_value(u64_le_bytes(x), 0) == x,
{
    let b = u64_le_bytes(x);
    lemma_le_bytes_value(b[0], b[1], b[2], b[3], b[4], b[5], b[6], b[7]);
    assert(b.subrange(0, 8) =~= b);
    lemma_u64_roundtrip(x, b, 0);
}

proof fn lemma_le4_value(x: u32)
    ensures
        u32_le_bytes(x).len() == 4,
        le_value4(u32_le_bytes(x), 0) == x,
{
    assert((x as u8) as u32 + 0x100 * (((x >> 8u32) as u8) as u32) + 0x1_0000 * (((x >> 16u32) as u8) as u32)
        + 0x100_0000 * (((x >> 24u32) as u8) as u32) == x) by (bit_vector);
}

proof fn lemma_le_at(b: Seq<u8>, i: int, c: Seq<u8>)
    requires
        0 <= i,
        i + c.len() <= b.len(),
        c.len() >= 4,
        forall|m: int| i <= m < i + c.len() ==> #[trigger] b[m] == c[m - i],
    ensures
        le_value4(b, i) == le_value4(c, 0),
        c.len() >= 8 ==> le_value(b, i) == le_value(c, 0),
{
    assert(b[i] == c[0] && b[i + 1] == c[1] && b[i + 2] == c[2] && b[i + 3] == c[3]);
    if c.len() >= 8 {
        assert(b[i + 4] == c[4] && b[i + 5] == c[5] && b[i + 6] == c[6] && b[i + 7] == c[7]);
    }
}

/// The 80-byte slot of a log event: sequence number at 0, timestamp at 8,
/// event type at 16, order id at 24, account at 32, symbol at 40, price
/// (two's complement) at 48, quantity at 56, side at 64, order type at 68
/// and checksum at 72, each little-endian; the padding bytes are zero.
#[verifier::spinoff_prover]
#[verifier::rlimit(60)]
pub proof fn law_event_layout(e: WalEvent)
    ensures
        ({
            let b = event_bytes(e);
            &&& b.len() == 80
            &&& le_value(b, 0) == e.sequence_id
            &&& le_value(b, 8) == e.timestamp_ns
            &&& le_value4(b, 16) == e.event_type
            &&& le_value(b, 24) == e.order_id
            &&& le_value(b, 32) == e.account_id
            &&& le_value4(b, 40) == e.symbol_id
            &&& le_value(b, 48) == e.price as u64
            &&& le_value(b, 56) == e.qty
            &&& le_value4(b, 64) == e.side
            &&& le_value4(b, 68) == e.order_type
            &&& le_value4(b, 72) == e.crc32
            &&& forall|k: int| (20 <= k < 24 || 44 <= k < 48 || 76 <= k < 80) ==> #[trigger] b[k] == 0
        }),
{
    let b = event_bytes(e);
    let p0 = u64_le_bytes(e.sequence_id);
    let p1 = u64_le_bytes(e.timestamp_ns);
    let p2 = u32_le_bytes(e.event_type);
    let p3 = u64_le_bytes(e.order_id);
    let p4 = u64_le_bytes(e.account_id);
    let p5 = u32_le_bytes(e.symbol_id);
    let p6 = u64_le_bytes(e.price as u64);
    let p7 = u64_le_bytes(e.qty);
    let p8 = u32_le_bytes(e.side);
    let p9 = u32_le_bytes(e.order_type);
    let p10 = u32_le_bytes(e.crc32);
    lemma_le8_value(e.sequence_id);
    lemma_le8_value(e.timestamp_ns);
    lemma_le4_value(e.event_type);
    lemma_le8_value(e.order_id);
    lemma_le8_value(e.account_id);
    lemma_le4_value(e.symbol_id);
    lemma_le8_value(e.price as u64);
    lemma_le8_value(e.qty);
    lemma_le4_value(e.side);
    lemma_le4_value(e.order_type);
    lemma_le4_value(e.crc32);
    assert(b =~= p0 + p1 + p2 + zeros(4) + p3 + p4 + p5 + zeros(4) + p6 + p7 + p8 + p9 + p10 + zeros(4));
    assert forall|m: int| 0 <= m < 8 implies #[trigger] b[m] == p0[m - 0] by {}
    assert forall|m: int| 8 <= m < 16 implies #[trigger] b[m] == p1[m - 8] by {}
    assert forall|m: int| 16 <= m < 20 implies #[trigger] b[m] == p2[m - 16] by {}
    assert forall|m: int| 24 <= m < 32 implies #[trigger] b[m] == p3[m - 24] by {}
    assert forall|m: int| 32 <= m < 40 implies #[trigger] b[m] == p4[m - 32] by {}
    assert forall|m: int| 40 <= m < 44 implies #[trigger] b[m] == p5[m - 40] by {}
    assert forall|m: int| 48 <= m < 56 implies #[trigger] b[m] == p6[m - 48] by {}
    assert forall|m: int| 56 <= m < 64 implies #[trigger] b[m] == p7[m - 56] by {}
    assert forall|m: int| 64 <= m < 68 implies #[trigger] b[m] == p8[m - 64] by {}
    assert forall|m: int| 68 <= m < 72 implies #[trigger] b[m] == p9[m - 68] by {}
    assert forall|m: int| 72 <= m < 76 implies #[trigger] b[m] == p10[m - 72] by {}
    lemma_le_at(b, 0, p0);
    lemma_le_at(b, 8, p1);
    lemma_le_at(b, 16, p2);
    lemma_le_at(b, 24, p3);
    lemma_le_at(b, 32, p4);
    lemma_le_at(b, 40, p5);
    lemma_le_at(b, 48, p6);
    lemma_le_at(b, 56, p7);
    lemma_le_at(b, 64, p8);
    lemma_le_at(b, 68, p9);
    lemma_le_at(b, 72, p10);
}

/// What an accepted order leaves on its own side of the book. A market,
/// IOC or fill-or-kill order, and any order that filled completely, rests
/// nothing: its side is as it was. A limit or post-only order with
/// quantity left rests that quantity at the back of the queue at its own
/// price (a new level if there was none), under its own id; every level at
/// another price stays as it was.
#[verifier::spinoff_prover]
#[verifier::rlimit(60)]
pub proof fn law_submit_rests(m: EngineModel, p: EngineParams, order: Order)
    requires
        m.book.wf(),
        submit_defined(m, p, order),
        submit(m, p, order).1 is Ok,
    ensures
        ({
            let out = match_outcome(m, p, order);
            let left = out.taker.remaining.0;
            let before = m.book.side(order.side);
            let after = submit(m, p, order).0.book.side(order.side);
            let t = out.taker;
            &&& (order.order_type == OrderType::Market || order.order_type == OrderType::IOC
                || order.order_type == OrderType::FOK || left == 0) ==> after == before
            &&& ((order.order_type == OrderType::Limit || order.order_type == OrderType::PostOnly) && left > 0) ==> {
                &&& t.id == order.id && t.price == order.price && t.side == order.side && t.account == order.account
                &&& left <= order.remaining.0
                &&& level_at(after, order.price) == Some(
                    match level_at(before, order.price) {
                        Some(l) => LevelModel { price: l.price, orders: l.orders.push(t), total: l.total + left },
                        None => LevelModel { price: order.price, orders: seq![t], total: left as int },
                    },
                )
                &&& forall|q: Price| q != order.price ==> #[trigger] level_at(after, q) == level_at(before, q)
            }
        }),
{
    let out = match_outcome(m, p, order);
    let taker = crate::engine::stamped(m, order);
    let opp = m.book.opposite_of(order.side);
    match order.side {
        Side::Bid => {
            lemma_match_side_wf(opp, taker, p.stp_policy, true);
        },
        Side::Ask => {
            lemma_reverse_wf(opp, true);
            lemma_match_side_wf(opp.reverse(), taker, p.stp_policy, false);
        },
    }
    assert(out.taker == with_remaining(taker, out.taker.remaining.0 as int));
    let book1 = m.book.with_opposite(order.side, out.levels);
    assert(book1.side(order.side) == m.book.side(order.side));
    if (order.order_type == OrderType::Limit || order.order_type == OrderType::PostOnly) && out.taker.remaining.0 > 0 {
        law_insert_appends_to_its_level(book1.side(order.side), out.taker);
    }
}

/// The bookkeeping of a submission. A DAY order at or after the session
/// end is rejected with `MaxNotionalExceeded` and changes nothing. An
/// accepted order takes the next sequence number; each of its trades names
/// it as the taker and carries that number as its timestamp, and the
/// trades are appended to the trade log in order.
#[verifier::spinoff_prover]
#[verifier::rlimit(60)]
pub proof fn law_submit_bookkeeping(m: EngineModel, p: EngineParams, order: Order)
    requires
        m.book.wf(),
        submit_defined(m, p, order),
    ensures
        ({
            let (m2, r) = submit(m, p, order);
            &&& (order.tif == TimeInForce::DAY && m.sequence >= p.session_end) ==> m2 == m
                && r == Err::<Seq<Trade>, RejectReason>(RejectReason::MaxNotionalExceeded)
            &&& r is Ok ==> {
                let t = r->Ok_0;
                &&& m2.sequence == m.sequence + 1
                &&& m2.trades == m.trades + t
                &&& forall|i: int| 0 <= i < t.len() ==> (#[trigger] t[i]).taker_id == order.id
                    && t[i].timestamp == m.sequence + 1
            }
        }),
{
    law_match_order(m.book, crate::engine::stamped(m, order), p.stp_policy);
}

/// Bytes read little-endian are their positional value: the helpers that
/// decode 8- and 2-byte little-endian fields and 8-byte big-endian fields
/// give the value of the bytes.
pub proof fn law_byte_fields(b: Seq<u8>, i: int)
    requires
        0 <= i,
        i + 8 <= b.len(),
    ensures
        u64_le_at(b, i) as int == le_value(b, i),
        crate::bytes::u16_le_at(b, i) as int == b[i] + 0x100 * b[i + 1],
        u64_be_at(b, i) as int == be_value(b, i, 8),
{
    lemma_le_bytes_value(b[i], b[i + 1], b[i + 2], b[i + 3], b[i + 4], b[i + 5], b[i + 6], b[i + 7]);
    lemma_u16_value(b[i], b[i + 1]);
    lemma_be_value_u64(b, i);
}

proof fn lemma_le_bytes8_value(x: u64)
    ensures
        le_bytes8(x).len() == 8,
        le_value(le_bytes8(x), 0) == x,
{
    lemma_le_bytes8(x);
    lemma_le8_value(x);
}

/// The program `MOV_IMM r0, a; MOV_IMM r1, b; MUL r2, r0, r1;
/// WRITE_ACCOUNT r3, r2; HALT`, for any `a` and `b`, run over any journal
/// with at least five units of gas, halts having used five and stores
/// `a * b` modulo 2^64, least significant byte first, in the account at
/// the all-zero address (`r3` starts at zero).
#[verifier::spinoff_prover]
#[verifier::rlimit(80)]
pub proof fn law_svm_product_program(a: u64, b: u64, j: StateJournal, gas: u64)
    requires
        gas >= 5,
    ensures
        ({
            let code = seq![0x02u8, 0u8] + le_bytes8(a) + seq![0x02u8, 1u8] + le_bytes8(b)
                + seq![0x05u8, 2u8, 0u8, 1u8, 0x13u8, 3u8, 2u8, 0x00u8];
            let r = svm_run(code, svm_init(j, gas));
            &&& r is Done
            &&& r->Done_0.gas == gas - 5
            &&& (r->Done_0.accounts)(address_of(0)) == Some(le_bytes8(((a as int * b as int) % 0x1_0000_0000_0000_0000) as u64))
        }),
{
    let code = seq![0x02u8, 0u8] + le_bytes8(a) + seq![0x02u8, 1u8] + le_bytes8(b)
        + seq![0x05u8, 2u8, 0u8, 1u8, 0x13u8, 3u8, 2u8, 0x00u8];
    assert(code.len() == 28);
    lemma_le_bytes8_value(a);
    lemma_le_bytes8_value(b);
    assert(code[0] == 0x02 && code[1] == 0 && code[10] == 0x02 && code[11] == 1);
    assert(code[20] == 0x05 && code[21] == 2 && code[22] == 0 && code[23] == 1);
    assert(code[24] == 0x13 && code[25] == 3 && code[26] == 2 && code[27] == 0);
    assert forall|k: int| 0 <= k < 8 implies code[2 + k] == le_bytes8(a)[k] && code[12 + k] == le_bytes8(b)[k] by {}
    assert(le_value(code, 2) == le_value(le_bytes8(a), 0));
    assert(le_value(code, 12) == le_value(le_bytes8(b), 0));
    let s0 = svm_init(j, gas);
    // MOV_IMM r0, a
    let t0 = SvmModel { pc: 1, gas: (gas - 1) as u64, ..s0 };
    law_svm_mov_imm(code, t0);
    let s1 = spec_op(code, 0x02, t0)->Next_0;
    assert(s1.regs[0] == a);
    assert(svm_run(code, s0) == svm_run(code, SvmModel { gas: t0.gas, ..s1 }));
    // MOV_IMM r1, b
    let u1 = SvmModel { gas: t0.gas, ..s1 };
    let t1 = SvmModel { pc: 11, gas: (gas - 2) as u64, ..u1 };
    law_svm_mov_imm(code, t1);
    let s2 = spec_op(code, 0x02, t1)->Next_0;
    assert(s2.regs[1] == b && s2.regs[0] == a);
    assert(svm_run(code, u1) == svm_run(code, SvmModel { gas: t1.gas, ..s2 }));
    // MUL r2, r0, r1
    let u2 = SvmModel { gas: t1.gas, ..s2 };
    let t2 = SvmModel { pc: 21, gas: (gas - 3) as u64, ..u2 };
    law_svm_register_arith(code, 0x05, t2);
    let s3 = spec_op(code, 0x05, t2)->Next_0;
    assert(s3.regs[2] as int == (a as int * b as int) % 0x1_0000_0000_0000_0000);
    assert(s3.regs[3] == 0);
    assert(svm_run(code, u2) == svm_run(code, SvmModel { gas: t2.gas, ..s3 }));
    // WRITE_ACCOUNT r3, r2
    let u3 = SvmModel { gas: t2.gas, ..s3 };
    let t3 = SvmModel { pc: 25, gas: (gas - 4) as u64, ..u3 };
    law_svm_write_account(code, t3);
    let s4 = spec_op(code, 0x13, t3)->Next_0;
    assert(svm_run(code, u3) == svm_run(code, SvmModel { gas: t3.gas, ..s4 }));
    // HALT
    let u4 = SvmModel { gas: t3.gas, ..s4 };
    let t4 = SvmModel { pc: 28, gas: (gas - 5) as u64, ..u4 };
    assert(svm_run(code, u4) == SvmOutcome::Done(t4));
}

} // verus!
