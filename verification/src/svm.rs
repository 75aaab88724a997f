//! A register machine for account-style contracts: thirteen 64-bit
//! registers, a byte-addressed scratch memory, account data in the journal,
//! relative jumps and one unit of gas per instruction.
use vstd::prelude::*;
use crate::bytes::{u16_le_at, u64_le_at, u64_le_bytes, read_u16_le, read_u64_le, push_u64_le};
use crate::journal::{StateJournal, Address};

verus! {

#[derive(Debug, Clone, Copy, PartialEq, Eq, Structural)]
pub enum SvmError {
    Halted,
    OutOfInstructions,
    InvalidOpcode(u8),
    OutOfGas,
    AccountNotFound,
}

pub const NUM_REGS: usize = 13;

pub struct SvmState {
    /// r0-r12; r0 also holds return addresses.
    pub regs: [u64; 13],
    pub pc: usize,
    pub gas_remaining: u64,
    pub memory: Vec<u8>,
}

#[derive(Debug)]
pub struct SvmResult {
    pub gas_used: u64,
    pub journal: StateJournal,
}

/// The instruction set and its encodings (see `Opcode::byte`).
#[derive(Debug, Clone, Copy)]
pub enum Opcode {
    Halt,
    Mov,
    MovImm,
    Add,
    Sub,
    Mul,
    Div,
    And,
    Or,
    Xor,
    Not,
    Shl,
    Shr,
    Load,
    Store,
    ReadAccount,
    WriteAccount,
    Jmp,
    Jz,
    Jnz,
    Ret,
}

impl Opcode {
    /// The byte that encodes this instruction.
    pub fn byte(self) -> (r: u8)
        ensures
            r == match self {
                Opcode::Halt => 0x00u8,
                Opcode::Mov => 0x01u8,
                Opcode::MovImm => 0x02u8,
                Opcode::Add => 0x03u8,
                Opcode::Sub => 0x04u8,
                Opcode::Mul => 0x05u8,
                Opcode::Div => 0x06u8,
                Opcode::And => 0x07u8,
                Opcode::Or => 0x08u8,
                Opcode::Xor => 0x09u8,
                Opcode::Not => 0x0au8,
                Opcode::Shl => 0x0bu8,
                Opcode::Shr => 0x0cu8,
                Opcode::Load => 0x10u8,
                Opcode::Store => 0x11u8,
                Opcode::ReadAccount => 0x12u8,
                Opcode::WriteAccount => 0x13u8,
                Opcode::Jmp => 0x20u8,
                Opcode::Jz => 0x21u8,
                Opcode::Jnz => 0x22u8,
                Opcode::Ret => 0x30u8,
            },
    {
        match self {
            Opcode::Halt => 0x00,
            Opcode::Mov => 0x01,
            Opcode::MovImm => 0x02,
            Opcode::Add => 0x03,
            Opcode::Sub => 0x04,
            Opcode::Mul => 0x05,
            Opcode::Div => 0x06,
            Opcode::And => 0x07,
            Opcode::Or => 0x08,
            Opcode::Xor => 0x09,
            Opcode::Not => 0x0a,
            Opcode::Shl => 0x0b,
            Opcode::Shr => 0x0c,
            Opcode::Load => 0x10,
            Opcode::Store => 0x11,
            Opcode::ReadAccount => 0x12,
            Opcode::WriteAccount => 0x13,
            Opcode::Jmp => 0x20,
            Opcode::Jz => 0x21,
            Opcode::Jnz => 0x22,
            Opcode::Ret => 0x30,
        }
    }
}

/// Mathematical model of a machine state.
#[verifier::ext_equal]
pub struct SvmModel {
    pub regs: Seq<u64>,
    pub pc: int,
    pub gas: u64,
    pub memory: Seq<u8>,
    pub accounts: spec_fn(Seq<u8>) -> Option<Seq<u8>>,
}

/// The result of one instruction.
pub enum SvmStep {
    Next(SvmModel),
    Stop(SvmModel),
    Error(SvmError),
    /// The instruction would overflow the address arithmetic.
    Crash,
}

/// The result of running a program to the end.
pub enum SvmOutcome {
    Done(SvmModel),
    Error(SvmError),
    Crash,
}

pub open spec fn spec_read_reg(code: Seq<u8>, pc: int) -> Result<(int, int), SvmError> {
    if pc >= code.len() {
        Err(SvmError::OutOfInstructions)
    } else if code[pc] >= 13 {
        Err(SvmError::InvalidOpcode(0xff))
    } else {
        Ok((code[pc] as int, pc + 1))
    }
}

pub open spec fn spec_read_u16(code: Seq<u8>, pc: int) -> Result<(u16, int), SvmError> {
    if pc + 2 > code.len() {
        Err(SvmError::OutOfInstructions)
    } else {
        Ok((u16_le_at(code, pc), pc + 2))
    }
}

pub open spec fn spec_read_u8(code: Seq<u8>, pc: int) -> Result<(u8, int), SvmError> {
    if pc >= code.len() {
        Err(SvmError::OutOfInstructions)
    } else {
        Ok((code[pc], pc + 1))
    }
}

pub open spec fn spec_read_u64(code: Seq<u8>, pc: int) -> Result<(u64, int), SvmError> {
    if pc + 8 > code.len() {
        Err(SvmError::OutOfInstructions)
    } else {
        Ok((u64_le_at(code, pc), pc + 8))
    }
}

/// A 16-bit field read as a signed offset.
pub open spec fn i16_of(v: u16) -> int {
    if v >= 0x8000 {
        v - 0x10000
    } else {
        v as int
    }
}

/// A relative jump target as a machine address: targets before the start
/// of the code wrap around the address space, past its end.
pub open spec fn jump_target(p: int, off: int) -> int {
    if p + off < 0 {
        p + off + usize::MAX + 1
    } else {
        p + off
    }
}

/// Memory grown with zero bytes to at least `needed` bytes.
pub open spec fn grow(mem: Seq<u8>, needed: int) -> Seq<u8> {
    if needed > mem.len() {
        mem + Seq::new((needed - mem.len()) as nat, |i: int| 0u8)
    } else {
        mem
    }
}

/// The account address a register names: its 8 little-endian bytes
/// followed by 12 zero bytes.
pub open spec fn reg_address(r: u64) -> Seq<u8> {
    u64_le_bytes(r) + Seq::new(12, |i: int| 0u8)
}

/// The first 8 bytes of account data, zero-padded, read little-endian.
pub open spec fn account_word(data: Seq<u8>) -> u64 {
    u64_le_at(Seq::new(8, |k: int| if k < data.len() { data[k] } else { 0u8 }), 0)
}

pub open spec fn bin_op(op: u8, a: u64, b: u64) -> u64 {
    if op == 0x03 {
        ((a + b) % 0x1_0000_0000_0000_0000) as u64
    } else if op == 0x04 {
        ((a - b) % 0x1_0000_0000_0000_0000) as u64
    } else if op == 0x05 {
        ((a * b) % 0x1_0000_0000_0000_0000) as u64
    } else if op == 0x06 {
        if b == 0 { 0 } else { a / b }
    } else if op == 0x07 {
        a & b
    } else if op == 0x08 {
        a | b
    } else {
        a ^ b
    }
}

/// Reads the register operands `rd, rs` at the current pc.
pub open spec fn read2(code: Seq<u8>, pc: int) -> Result<(int, int, int), SvmError> {
    match spec_read_reg(code, pc) {
        Err(e) => Err(e),
        Ok((a, p1)) => match spec_read_reg(code, p1) {
            Err(e) => Err(e),
            Ok((b, p2)) => Ok((a, b, p2)),
        },
    }
}

/// Reads the operands `rd, rs, imm8` of a shift at the current pc.
pub open spec fn read_shift(code: Seq<u8>, pc: int) -> Result<(int, int, u8, int), SvmError> {
    match read2(code, pc) {
        Err(e) => Err(e),
        Ok((a, b, p2)) => match spec_read_u8(code, p2) {
            Err(e) => Err(e),
            Ok((sh, p3)) => Ok((a, b, sh, p3)),
        },
    }
}

/// Reads the register operands `rd, rs1, rs2` at the current pc.
pub open spec fn read3(code: Seq<u8>, pc: int) -> Result<(int, int, int, int), SvmError> {
    match read2(code, pc) {
        Err(e) => Err(e),
        Ok((a, b, p2)) => match spec_read_reg(code, p2) {
            Err(e) => Err(e),
            Ok((c, p3)) => Ok((a, b, c, p3)),
        },
    }
}

/// Reads a register and a 16-bit offset at the current pc.
pub open spec fn read_reg_off(code: Seq<u8>, pc: int) -> Result<(int, int, int), SvmError> {
    match spec_read_reg(code, pc) {
        Err(e) => Err(e),
        Ok((a, p1)) => match spec_read_u16(code, p1) {
            Err(e) => Err(e),
            Ok((v, p2)) => Ok((a, i16_of(v), p2)),
        },
    }
}

/// Executes the instruction `op`; `s.pc` is already past the opcode byte.
pub open spec fn spec_op(code: Seq<u8>, op: u8, s: SvmModel) -> SvmStep {
    if op == 0x00 {
        SvmStep::Stop(s)
    } else if op == 0x01 || op == 0x0a {
        match read2(code, s.pc) {
            Err(e) => SvmStep::Error(e),
            Ok((rd, rs, p)) => SvmStep::Next(SvmModel {
                regs: s.regs.update(rd, if op == 0x01 { s.regs[rs] } else { !s.regs[rs] }),
                pc: p,
                ..s
            }),
        }
    } else if op == 0x02 {
        match spec_read_reg(code, s.pc) {
            Err(e) => SvmStep::Error(e),
            Ok((rd, p1)) => match spec_read_u64(code, p1) {
                Err(e) => SvmStep::Error(e),
                Ok((imm, p2)) => SvmStep::Next(SvmModel { regs: s.regs.update(rd, imm), pc: p2, ..s }),
            },
        }
    } else if 0x03 <= op <= 0x09 {
        match read3(code, s.pc) {
            Err(e) => SvmStep::Error(e),
            Ok((rd, a, b, p)) => SvmStep::Next(SvmModel {
                regs: s.regs.update(rd, bin_op(op, s.regs[a], s.regs[b])),
                pc: p,
                ..s
            }),
        }
    } else if op == 0x0b || op == 0x0c {
        match read_shift(code, s.pc) {
            Err(e) => SvmStep::Error(e),
            Ok((rd, rs, sh, p)) => if sh >= 64 {
                SvmStep::Crash
            } else {
                SvmStep::Next(SvmModel {
                    regs: s.regs.update(rd, if op == 0x0b { s.regs[rs] << (sh as u64) } else { s.regs[rs] >> (sh as u64) }),
                    pc: p,
                    ..s
                })
            },
        }
    } else if op == 0x10 || op == 0x11 {
        match read2(code, s.pc) {
            Err(e) => SvmStep::Error(e),
            Ok((x, y, p)) => {
                let offset = if op == 0x10 { (s.regs[y] as usize) as int } else { (s.regs[x] as usize) as int };
                if offset + 8 > usize::MAX {
                    SvmStep::Crash
                } else {
                    let mem = grow(s.memory, offset + 8);
                    if op == 0x10 {
                        SvmStep::Next(SvmModel { regs: s.regs.update(x, u64_le_at(mem, offset)), pc: p, memory: mem, ..s })
                    } else {
                        SvmStep::Next(SvmModel {
                            pc: p,
                            memory: mem.take(offset) + u64_le_bytes(s.regs[y]) + mem.skip(offset + 8),
                            ..s
                        })
                    }
                }
            },
        }
    } else if op == 0x12 {
        match read2(code, s.pc) {
            Err(e) => SvmStep::Error(e),
            Ok((rd, ar, p)) => {
                let v = match (s.accounts)(reg_address(s.regs[ar])) {
                    Some(d) => account_word(d),
                    None => 0u64,
                };
                SvmStep::Next(SvmModel { regs: s.regs.update(rd, v), pc: p, ..s })
            },
        }
    } else if op == 0x13 {
        match read2(code, s.pc) {
            Err(e) => SvmStep::Error(e),
            Ok((ar, rs, p)) => {
                let addr = reg_address(s.regs[ar]);
                let data = u64_le_bytes(s.regs[rs]);
                SvmStep::Next(SvmModel {
                    pc: p,
                    accounts: |a: Seq<u8>| if a == addr { Some(data) } else { (s.accounts)(a) },
                    ..s
                })
            },
        }
    } else if op == 0x20 {
        match spec_read_u16(code, s.pc) {
            Err(e) => SvmStep::Error(e),
            Ok((v, p)) => SvmStep::Next(SvmModel { pc: jump_target(p, i16_of(v)), ..s }),
        }
    } else if op == 0x21 || op == 0x22 {
        match read_reg_off(code, s.pc) {
            Err(e) => SvmStep::Error(e),
            Ok((rs, off, p)) => {
                let taken = if op == 0x21 { s.regs[rs] == 0 } else { s.regs[rs] != 0 };
                SvmStep::Next(SvmModel { pc: if taken { jump_target(p, off) } else { p }, ..s })
            },
        }
    } else if op == 0x30 {
        SvmStep::Next(SvmModel { pc: (s.regs[0] as usize) as int, ..s })
    } else {
        SvmStep::Error(SvmError::InvalidOpcode(op))
    }
}

/// Runs the program from state `s` until it halts, runs off either end of
/// the code, fails, or runs out of gas (one unit per instruction).
pub open spec fn svm_run(code: Seq<u8>, s: SvmModel) -> SvmOutcome
    decreases s.gas,
{
    if s.pc < 0 || s.pc >= code.len() {
        SvmOutcome::Done(s)
    } else if s.gas == 0 {
        SvmOutcome::Error(SvmError::OutOfGas)
    } else {
        let s1 = SvmModel { pc: s.pc + 1, gas: (s.gas - 1) as u64, ..s };
        match spec_op(code, code[s.pc], s1) {
            SvmStep::Next(s2) => svm_run(code, SvmModel { gas: s1.gas, ..s2 }),
            SvmStep::Stop(s2) => SvmOutcome::Done(s2),
            SvmStep::Error(e) => SvmOutcome::Error(e),
            SvmStep::Crash => SvmOutcome::Crash,
        }
    }
}

/// The machine state a fresh run starts from.
pub open spec fn svm_init(journal: StateJournal, gas_limit: u64) -> SvmModel {
    SvmModel {
        regs: Seq::new(13, |i: int| 0u64),
        pc: 0,
        gas: gas_limit,
        memory: seq![],
        accounts: |a: Seq<u8>| journal.account_of(a),
    }
}


/// The model of an executing machine and its journal.
pub open spec fn model_of(st: SvmState, j: StateJournal) -> SvmModel {
    SvmModel {
        regs: st.regs@,
        pc: st.pc as int,
        gas: st.gas_remaining,
        memory: st.memory@,
        accounts: |a: Seq<u8>| j.account_of(a),
    }
}

impl SvmState {
    pub fn new(gas_limit: u64) -> (r: Self)
        ensures
            r.regs@ == Seq::new(13, |i: int| 0u64),
            r.pc == 0,
            r.gas_remaining == gas_limit,
            r.memory@.len() == 0,
    {
        let r = Self { regs: [0u64; 13], pc: 0, gas_remaining: gas_limit, memory: Vec::with_capacity(4096) };
        assert(r.regs@ =~= Seq::new(13, |i: int| 0u64));
        r
    }

    fn read_reg(code: &[u8], pc: &mut usize) -> (r: Result<usize, SvmError>)
        ensures
            match r {
                Ok(v) => spec_read_reg(code@, *old(pc) as int) == Ok::<(int, int), SvmError>((v as int, *final(pc) as int)),
                Err(e) => spec_read_reg(code@, *old(pc) as int) == Err::<(int, int), SvmError>(e),
            },
    {
        if *pc >= code.len() {
            return Err(SvmError::OutOfInstructions);
        }
        let r = code[*pc] as usize;
        *pc = *pc + 1;
        if r >= 13 {
            return Err(SvmError::InvalidOpcode(0xff));
        }
        Ok(r)
    }

    fn read_u8(code: &[u8], pc: &mut usize) -> (r: Result<u8, SvmError>)
        ensures
            match r {
                Ok(v) => spec_read_u8(code@, *old(pc) as int) == Ok::<(u8, int), SvmError>((v, *final(pc) as int)),
                Err(e) => spec_read_u8(code@, *old(pc) as int) == Err::<(u8, int), SvmError>(e),
            },
    {
        if *pc >= code.len() {
            return Err(SvmError::OutOfInstructions);
        }
        let v = code[*pc];
        *pc = *pc + 1;
        Ok(v)
    }

    fn read_u16(code: &[u8], pc: &mut usize) -> (r: Result<u16, SvmError>)
        requires
            *old(pc) <= code@.len() <= isize::MAX,
        ensures
            match r {
                Ok(v) => spec_read_u16(code@, *old(pc) as int) == Ok::<(u16, int), SvmError>((v, *final(pc) as int)),
                Err(e) => spec_read_u16(code@, *old(pc) as int) == Err::<(u16, int), SvmError>(e),
            },
    {
        if *pc + 2 > code.len() {
            return Err(SvmError::OutOfInstructions);
        }
        let val = read_u16_le(code, *pc);
        *pc = *pc + 2;
        Ok(val)
    }

    fn read_u64(code: &[u8], pc: &mut usize) -> (r: Result<u64, SvmError>)
        requires
            *old(pc) <= code@.len() <= isize::MAX,
        ensures
            match r {
                Ok(v) => spec_read_u64(code@, *old(pc) as int) == Ok::<(u64, int), SvmError>((v, *final(pc) as int)),
                Err(e) => spec_read_u64(code@, *old(pc) as int) == Err::<(u64, int), SvmError>(e),
            },
    {
        if *pc + 8 > code.len() {
            return Err(SvmError::OutOfInstructions);
        }
        let val = read_u64_le(code, *pc);
        *pc = *pc + 8;
        Ok(val)
    }

    fn ensure_memory(&mut self, offset: usize, size: usize)
        requires
            offset + size <= usize::MAX,
        ensures
            final(self).memory@ == grow(old(self).memory@, offset + size),
            final(self).regs == old(self).regs,
            final(self).pc == old(self).pc,
            final(self).gas_remaining == old(self).gas_remaining,
    {
        let needed = offset + size;
        let ghost m0 = self.memory@;
        while self.memory.len() < needed
            invariant
                m0.len() <= self.memory@.len() <= (if needed > m0.len() { needed as int } else { m0.len() as int }),
                self.memory@ =~= m0 + Seq::new((self.memory@.len() - m0.len()) as nat, |i: int| 0u8),
                self.regs == old(self).regs,
                self.pc == old(self).pc,
                self.gas_remaining == old(self).gas_remaining,
            decreases needed - self.memory@.len(),
        {
            self.memory.push(0u8);
        }
        assert(self.memory@ =~= grow(m0, offset + size));
    }
}

fn jump(p: usize, v: u16) -> (r: usize)
    requires
        p <= isize::MAX,
    ensures
        r == jump_target(p as int, i16_of(v)),
{
    if v >= 0x8000 {
        let back: usize = (0x10000u32 - v as u32) as usize;
        if back > p {
            usize::MAX - (back - p) + 1
        } else {
            p - back
        }
    } else {
        p + v as usize
    }
}

fn reg_address_of(r: u64) -> (a: Address)
    ensures
        a@ == reg_address(r),
{
    let mut a = [0u8; 20];
    a[0] = r as u8;
    a[1] = (r >> 8u64) as u8;
    a[2] = (r >> 16u64) as u8;
    a[3] = (r >> 24u64) as u8;
    a[4] = (r >> 32u64) as u8;
    a[5] = (r >> 40u64) as u8;
    a[6] = (r >> 48u64) as u8;
    a[7] = (r >> 56u64) as u8;
    assert(a@ =~= reg_address(r));
    a
}

fn account_word_of(data: &[u8]) -> (w: u64)
    ensures
        w == account_word(data@),
{
    let mut buf: Vec<u8> = Vec::new();
    let mut k: usize = 0;
    while k < 8
        invariant
            k <= 8,
            buf@.len() == k,
            forall|j: int| 0 <= j < k ==> buf@[j] == (if j < data@.len() { data@[j] } else { 0u8 }),
        decreases 8 - k,
    {
        if k < data.len() {
            buf.push(data[k]);
        } else {
            buf.push(0u8);
        }
        k = k + 1;
    }
    assert(buf@ =~= Seq::new(8, |j: int| if j < data@.len() { data@[j] } else { 0u8 }));
    read_u64_le(buf.as_slice(), 0)
}

/// Executes instruction `op` with `st.pc` already past the opcode byte;
/// `Ok(true)` means halt.
fn exec_op(code: &[u8], op: u8, st: &mut SvmState, journal: &mut StateJournal) -> (r: Result<bool, SvmError>)
    requires
        old(st).pc <= code@.len() <= isize::MAX,
        !(spec_op(code@, op, model_of(*old(st), *old(journal))) is Crash),
    ensures
        final(journal).writes_seq() == old(journal).writes_seq(),
        final(journal).gas_seq() == old(journal).gas_seq(),
        match spec_op(code@, op, model_of(*old(st), *old(journal))) {
            SvmStep::Next(s2) => r == Ok::<bool, SvmError>(false) && model_of(*final(st), *final(journal)) == s2,
            SvmStep::Stop(s2) => r == Ok::<bool, SvmError>(true) && model_of(*final(st), *final(journal)) == s2,
            SvmStep::Error(e) => r == Err::<bool, SvmError>(e),
            SvmStep::Crash => false,
        },
{
    let ghost m = model_of(*st, *journal);
    match op {
        0x00 => Ok(true),
        0x01 | 0x0a => {
            let rd = SvmState::read_reg(code, &mut st.pc)?;
            let rs = SvmState::read_reg(code, &mut st.pc)?;
            let v = if op == 0x01 { st.regs[rs] } else { !st.regs[rs] };
            st.regs[rd] = v;
            assert(model_of(*st, *journal) =~= spec_op(code@, op, m)->Next_0);
            Ok(false)
        },
        0x02 => {
            let rd = SvmState::read_reg(code, &mut st.pc)?;
            let imm = SvmState::read_u64(code, &mut st.pc)?;
            st.regs[rd] = imm;
            assert(model_of(*st, *journal) =~= spec_op(code@, op, m)->Next_0);
            Ok(false)
        },
        0x03..=0x09 => {
            let rd = SvmState::read_reg(code, &mut st.pc)?;
            let rs1 = SvmState::read_reg(code, &mut st.pc)?;
            let rs2 = SvmState::read_reg(code, &mut st.pc)?;
            let a = st.regs[rs1];
            let b = st.regs[rs2];
            let v = if op == 0x03 {
                a.wrapping_add(b)
            } else if op == 0x04 {
                a.wrapping_sub(b)
            } else if op == 0x05 {
                a.wrapping_mul(b)
            } else if op == 0x06 {
                if b == 0 { 0 } else { a / b }
            } else if op == 0x07 {
                a & b
            } else if op == 0x08 {
                a | b
            } else {
                a ^ b
            };
            st.regs[rd] = v;
            assert(model_of(*st, *journal) =~= spec_op(code@, op, m)->Next_0);
            Ok(false)
        },
        0x0b | 0x0c => {
            let rd = SvmState::read_reg(code, &mut st.pc)?;
            let rs = SvmState::read_reg(code, &mut st.pc)?;
            let shift = SvmState::read_u8(code, &mut st.pc)? as u64;
            let v = if op == 0x0b { st.regs[rs] << shift } else { st.regs[rs] >> shift };
            st.regs[rd] = v;
            assert(model_of(*st, *journal) =~= spec_op(code@, op, m)->Next_0);
            Ok(false)
        },
        0x10 => {
            let rd = SvmState::read_reg(code, &mut st.pc)?;
            let addr_r = SvmState::read_reg(code, &mut st.pc)?;
            let offset = st.regs[addr_r] as usize;
            st.ensure_memory(offset, 8);
            let val = read_u64_le(st.memory.as_slice(), offset);
            st.regs[rd] = val;
            assert(model_of(*st, *journal) =~= spec_op(code@, op, m)->Next_0);
            Ok(false)
        },
        0x11 => {
            let addr_r = SvmState::read_reg(code, &mut st.pc)?;
            let rs = SvmState::read_reg(code, &mut st.pc)?;
            let offset = st.regs[addr_r] as usize;
            st.ensure_memory(offset, 8);
            let mut bytes: Vec<u8> = Vec::new();
            push_u64_le(&mut bytes, st.regs[rs]);
            let ghost mem1 = st.memory@;
            let ghost regs0 = st.regs;
            let ghost pc0 = st.pc;
            let ghost gas0 = st.gas_remaining;
            let mut k: usize = 0;
            while k < 8
                invariant
                    k <= 8,
                    bytes@ == Seq::<u8>::empty() + u64_le_bytes(st.regs@[rs as int]),
                    offset + 8 <= mem1.len(),
                    offset + 8 <= usize::MAX,
                    st.regs == regs0,
                    st.pc == pc0,
                    st.gas_remaining == gas0,
                    st.memory@.len() == mem1.len(),
                    forall|j: int| 0 <= j < mem1.len() && !(offset <= j < offset + k) ==> st.memory@[j] == mem1[j],
                    forall|j: int| offset <= j < offset + k ==> st.memory@[j] == bytes@[j - offset],
                decreases 8 - k,
            {
                st.memory.set(offset + k, bytes[k]);
                k = k + 1;
            }
            assert(st.memory@ =~= mem1.take(offset as int) + u64_le_bytes(st.regs@[rs as int]) + mem1.skip(offset + 8));
            assert(model_of(*st, *journal) =~= spec_op(code@, op, m)->Next_0);
            Ok(false)
        },
        0x12 => {
            let rd = SvmState::read_reg(code, &mut st.pc)?;
            let addr_r = SvmState::read_reg(code, &mut st.pc)?;
            let addr = reg_address_of(st.regs[addr_r]);
            let v = match journal.get_account_data(&addr) {
                Some(data) => account_word_of(data),
                None => 0,
            };
            st.regs[rd] = v;
            assert(model_of(*st, *journal) =~= spec_op(code@, op, m)->Next_0);
            Ok(false)
        },
        0x13 => {
            let addr_r = SvmState::read_reg(code, &mut st.pc)?;
            let rs = SvmState::read_reg(code, &mut st.pc)?;
            let addr = reg_address_of(st.regs[addr_r]);
            let mut data: Vec<u8> = Vec::new();
            push_u64_le(&mut data, st.regs[rs]);
            let ghost j0 = *journal;
            journal.set_account_data(addr, data);
            proof {
                let s2 = spec_op(code@, op, m)->Next_0;
                assert(model_of(*st, *journal).accounts =~= s2.accounts);
            }
            Ok(false)
        },
        0x20 => {
            let v = SvmState::read_u16(code, &mut st.pc)?;
            st.pc = jump(st.pc, v);
            assert(model_of(*st, *journal) =~= spec_op(code@, op, m)->Next_0);
            Ok(false)
        },
        0x21 | 0x22 => {
            let rs = SvmState::read_reg(code, &mut st.pc)?;
            let v = SvmState::read_u16(code, &mut st.pc)?;
            let taken = if op == 0x21 { st.regs[rs] == 0 } else { st.regs[rs] != 0 };
            if taken {
                st.pc = jump(st.pc, v);
            }
            assert(model_of(*st, *journal) =~= spec_op(code@, op, m)->Next_0);
            Ok(false)
        },
        0x30 => {
            st.pc = st.regs[0] as usize;
            assert(model_of(*st, *journal) =~= spec_op(code@, op, m)->Next_0);
            Ok(false)
        },
        _ => Err(SvmError::InvalidOpcode(op)),
    }
}

/// Whether instruction `op` at `st.pc` panics: a shift by 64 or more, or a
/// LOAD or STORE whose address register holds an offset so large that
/// `offset + 8` passes the machine's address range.
fn op_panics(code: &[u8], op: u8, st: &SvmState, Ghost(j): Ghost<StateJournal>) -> (r: bool)
    requires
        st.pc <= code@.len() <= isize::MAX,
    ensures
        r == (spec_op(code@, op, model_of(*st, j)) is Crash),
{
    if op == 0x0b || op == 0x0c {
        let mut pc = st.pc;
        if SvmState::read_reg(code, &mut pc).is_err() || SvmState::read_reg(code, &mut pc).is_err() {
            return false;
        }
        return match SvmState::read_u8(code, &mut pc) {
            Ok(sh) => sh >= 64,
            Err(_) => false,
        };
    }
    if op != 0x10 && op != 0x11 {
        return false;
    }
    let mut pc = st.pc;
    let x = match SvmState::read_reg(code, &mut pc) {
        Ok(v) => v,
        Err(_) => {
            return false;
        },
    };
    let y = match SvmState::read_reg(code, &mut pc) {
        Ok(v) => v,
        Err(_) => {
            return false;
        },
    };
    let offset = if op == 0x10 { st.regs[y] as usize } else { st.regs[x] as usize };
    offset > usize::MAX - 8
}

/// Runs `code` on a fresh machine over `journal` with `gas_limit` units of
/// gas. `None` where the run reaches an instruction that panics (a shift
/// by 64 or more, or a LOAD or STORE whose address passes the machine's
/// address range); otherwise the gas used and the journal, or
/// the error that stopped the run.
pub fn svm_execute_checked(code: &[u8], journal: StateJournal, gas_limit: u64) -> (r: Option<Result<SvmResult, SvmError>>)
    requires
        code@.len() <= isize::MAX,
    ensures
        match svm_run(code@, svm_init(journal, gas_limit)) {
            SvmOutcome::Done(s) => r matches Some(Ok(res)) && {
                &&& res.gas_used == gas_limit - s.gas
                &&& forall|a: Seq<u8>| #[trigger] res.journal.account_of(a) == (s.accounts)(a)
                &&& res.journal.writes_seq() == journal.writes_seq()
                &&& res.journal.gas_seq() == journal.gas_seq()
            },
            SvmOutcome::Error(e) => r == Some(Err::<SvmResult, SvmError>(e)),
            SvmOutcome::Crash => r is None,
        },
{
    let mut state = SvmState::new(gas_limit);
    let mut jr = journal;
    let ghost j0 = journal;
    let ghost out0 = svm_run(code@, svm_init(j0, gas_limit));
    proof {
        assert(model_of(state, jr) =~= svm_init(j0, gas_limit));
    }
    loop
        invariant
            out0 == svm_run(code@, svm_init(j0, gas_limit)),
            out0 == svm_run(code@, model_of(state, jr)),
            code@.len() <= isize::MAX,
            state.gas_remaining <= gas_limit,
            j0 == journal,
            jr.writes_seq() == j0.writes_seq(),
            jr.gas_seq() == j0.gas_seq(),
        decreases state.gas_remaining,
    {
        let ghost m = model_of(state, jr);
        if state.pc >= code.len() {
            return Some(Ok(SvmResult { gas_used: gas_limit - state.gas_remaining, journal: jr }));
        }
        let op = code[state.pc];
        state.pc = state.pc + 1;
        if state.gas_remaining == 0 {
            assert(out0 == SvmOutcome::Error(SvmError::OutOfGas));
            return Some(Err(SvmError::OutOfGas));
        }
        state.gas_remaining = state.gas_remaining - 1;
        proof {
            let s1 = SvmModel { pc: m.pc + 1, gas: (m.gas - 1) as u64, ..m };
            assert(model_of(state, jr) =~= s1);
        }
        if op_panics(code, op, &state, Ghost(jr)) {
            return None;
        }
        match exec_op(code, op, &mut state, &mut jr) {
            Ok(true) => {
                return Some(Ok(SvmResult { gas_used: gas_limit - state.gas_remaining, journal: jr }));
            },
            Ok(false) => {
                proof {
                    let s1 = SvmModel { pc: m.pc + 1, gas: (m.gas - 1) as u64, ..m };
                    let s2 = spec_op(code@, op, s1)->Next_0;
                    assert(SvmModel { gas: s1.gas, ..s2 } =~= model_of(state, jr));
                }
            },
            Err(e) => {
                return Some(Err(e));
            },
        }
    }
}

/// Runs `code` on a fresh machine over `journal` with `gas_limit` units of
/// gas, returning the gas used and the journal.
pub fn svm_execute(code: &[u8], journal: StateJournal, gas_limit: u64) -> (r: Result<SvmResult, SvmError>)
    requires
        code@.len() <= isize::MAX,
        !(svm_run(code@, svm_init(journal, gas_limit)) is Crash),
    ensures
        match svm_run(code@, svm_init(journal, gas_limit)) {
            SvmOutcome::Done(s) => r matches Ok(res) && {
                &&& res.gas_used == gas_limit - s.gas
                &&& forall|a: Seq<u8>| #[trigger] res.journal.account_of(a) == (s.accounts)(a)
                &&& res.journal.writes_seq() == journal.writes_seq()
                &&& res.journal.gas_seq() == journal.gas_seq()
            },
            SvmOutcome::Error(e) => r == Err::<SvmResult, SvmError>(e),
            SvmOutcome::Crash => false,
        },
{
    svm_execute_checked(code, journal, gas_limit).unwrap()
}

} // verus!
