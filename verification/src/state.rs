//! The state of a running stack machine: an operand stack of at most 1024
//! words, a byte memory that grows on demand, the program counter and the
//! gas left.
use vstd::prelude::*;
use crate::word::Word;
use crate::svm::grow;

verus! {

#[derive(Debug, Clone, Copy, PartialEq, Eq, Structural)]
pub enum ExecMode {
    Evm,
    Svm,
}

#[derive(Debug, Clone, Copy, PartialEq, Eq, Structural)]
pub enum ExecutionError {
    OutOfGas,
    StackOverflow,
    StackUnderflow,
    InvalidOpcode(u8),
    Revert,
    InvalidJumpDest(u16),
    UnexpectedEOF(usize, usize),
}

/// The most words the operand stack holds.
pub const STACK_LIMIT: usize = 1024;

pub struct ExecutionState {
    /// The operand stack, top last.
    pub stack: Vec<Word>,
    pub memory: Vec<u8>,
    pub pc: usize,
    pub gas_remaining: u64,
    pub mode: ExecMode,
    pub registers: [u64; 32],
}

impl ExecutionState {
    /// Everything but the stack is the same in `self` and `other`.
    pub open spec fn same_but_stack(self, other: ExecutionState) -> bool {
        &&& self.memory@ == other.memory@
        &&& self.pc == other.pc
        &&& self.gas_remaining == other.gas_remaining
        &&& self.mode == other.mode
        &&& self.registers == other.registers
    }

    pub fn new(mode: ExecMode, gas_limit: u64) -> (r: Self)
        ensures
            r.stack@.len() == 0,
            r.memory@.len() == 0,
            r.pc == 0,
            r.gas_remaining == gas_limit,
            r.mode == mode,
            r.registers@ == Seq::new(32, |i: int| 0u64),
    {
        let r = Self {
            stack: Vec::new(),
            memory: Vec::with_capacity(4096),
            pc: 0,
            gas_remaining: gas_limit,
            mode,
            registers: [0u64; 32],
        };
        assert(r.registers@ =~= Seq::new(32, |i: int| 0u64));
        r
    }

    /// Pushes `val`, failing when the stack is full.
    pub fn push(&mut self, val: Word) -> (r: Result<(), ExecutionError>)
        ensures
            final(self).same_but_stack(*old(self)),
            old(self).stack@.len() >= STACK_LIMIT ==> r == Err::<(), ExecutionError>(ExecutionError::StackOverflow)
                && final(self).stack@ == old(self).stack@,
            old(self).stack@.len() < STACK_LIMIT ==> r == Ok::<(), ExecutionError>(()) && final(self).stack@
                == old(self).stack@.push(val),
    {
        if self.stack.len() >= STACK_LIMIT {
            return Err(ExecutionError::StackOverflow);
        }
        self.stack.push(val);
        Ok(())
    }

    /// Pops the top word, failing when the stack is empty.
    pub fn pop(&mut self) -> (r: Result<Word, ExecutionError>)
        ensures
            final(self).same_but_stack(*old(self)),
            old(self).stack@.len() == 0 ==> r == Err::<Word, ExecutionError>(ExecutionError::StackUnderflow)
                && final(self).stack@ == old(self).stack@,
            old(self).stack@.len() > 0 ==> r == Ok::<Word, ExecutionError>(old(self).stack@.last())
                && final(self).stack@ == old(self).stack@.drop_last(),
    {
        match self.stack.pop() {
            Some(w) => Ok(w),
            None => Err(ExecutionError::StackUnderflow),
        }
    }

    /// The word `offset` places below the top, failing when there is none.
    pub fn peek(&self, offset: usize) -> (r: Result<Word, ExecutionError>)
        ensures
            self.stack@.len() <= offset ==> r == Err::<Word, ExecutionError>(ExecutionError::StackUnderflow),
            self.stack@.len() > offset ==> r == Ok::<Word, ExecutionError>(
                self.stack@[self.stack@.len() - 1 - offset],
            ),
    {
        if self.stack.len() <= offset {
            return Err(ExecutionError::StackUnderflow);
        }
        Ok(self.stack[self.stack.len() - 1 - offset])
    }

    /// Takes `amount` gas, failing when less is left.
    pub fn deduct_gas(&mut self, amount: u64) -> (r: Result<(), ExecutionError>)
        ensures
            final(self).stack@ == old(self).stack@,
            final(self).memory@ == old(self).memory@,
            final(self).pc == old(self).pc,
            final(self).mode == old(self).mode,
            final(self).registers == old(self).registers,
            old(self).gas_remaining < amount ==> r == Err::<(), ExecutionError>(ExecutionError::OutOfGas)
                && final(self).gas_remaining == old(self).gas_remaining,
            old(self).gas_remaining >= amount ==> r == Ok::<(), ExecutionError>(()) && final(self).gas_remaining
                == old(self).gas_remaining - amount,
    {
        if self.gas_remaining < amount {
            return Err(ExecutionError::OutOfGas);
        }
        self.gas_remaining = self.gas_remaining - amount;
        Ok(())
    }

    /// Grows memory with zero bytes to at least `offset + size` bytes.
    pub fn ensure_memory(&mut self, offset: usize, size: usize)
        requires
            offset + size <= usize::MAX,
        ensures
            final(self).memory@ == grow(old(self).memory@, offset + size),
            final(self).stack@ == old(self).stack@,
            final(self).pc == old(self).pc,
            final(self).gas_remaining == old(self).gas_remaining,
            final(self).mode == old(self).mode,
            final(self).registers == old(self).registers,
    {
        let needed = offset + size;
        let ghost m0 = self.memory@;
        if needed > self.memory.len() {
            while self.memory.len() < needed
                invariant
                    m0.len() <= self.memory@.len() <= needed,
                    needed > m0.len(),
                    self.memory@ =~= m0 + Seq::new((self.memory@.len() - m0.len()) as nat, |i: int| 0u8),
                    self.stack@ == old(self).stack@,
                    self.pc == old(self).pc,
                    self.gas_remaining == old(self).gas_remaining,
                    self.mode == old(self).mode,
                    self.registers == old(self).registers,
                decreases needed - self.memory@.len(),
            {
                self.memory.push(0u8);
            }
        }
        assert(self.memory@ =~= grow(m0, offset + size));
    }
}

} // verus!
