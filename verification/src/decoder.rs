//! Transaction wire format: a fixed 62-byte little-endian header, the call
//! data it declares, and an optional 64- or 65-byte signature.
use vstd::prelude::*;
use crate::bytes::{read_u16_le, read_u64_le, u16_le_at, u64_le_at, copy_range};

verus! {

#[derive(Debug, Clone, Copy)]
pub struct TxHeader {
    pub nonce: u64,
    pub gas_limit: u64,
    pub gas_price: u64,
    pub to: [u8; 20],
    pub value: [u8; 16],
    pub data_len: u16,
}

impl TxHeader {
    /// Size of the encoded header in bytes.
    pub const SIZE: usize = 62;
}

#[derive(Debug, Clone)]
pub struct Transaction {
    pub header: TxHeader,
    pub data: Vec<u8>,
    pub signature: Vec<u8>,
}

#[derive(Debug, Clone, Copy, PartialEq, Eq, Structural)]
pub enum DecodeError {
    TooShort,
    InvalidDataLength { declared: u16, available: usize },
    InvalidSignatureLength(usize),
    GasLimitExceeded,
    ZeroGasPrice,
}

pub const MAX_GAS_LIMIT: u64 = 30_000_000;

/// Whether `b` decodes as a header that passes the gas checks.
pub open spec fn header_matches(h: TxHeader, b: Seq<u8>) -> bool {
    &&& h.nonce == u64_le_at(b, 0)
    &&& h.gas_limit == u64_le_at(b, 8)
    &&& h.gas_price == u64_le_at(b, 16)
    &&& h.to@ == b.subrange(24, 44)
    &&& h.value@ == b.subrange(44, 60)
    &&& h.data_len == u16_le_at(b, 60)
}

/// The error `decode_transaction` reports for `b`, if any, checked in order:
/// length, gas limit, gas price, declared data length, signature length.
pub open spec fn decode_error(b: Seq<u8>) -> Option<DecodeError> {
    if b.len() < 62 {
        Some(DecodeError::TooShort)
    } else if u64_le_at(b, 8) > MAX_GAS_LIMIT {
        Some(DecodeError::GasLimitExceeded)
    } else if u64_le_at(b, 16) == 0 {
        Some(DecodeError::ZeroGasPrice)
    } else if 62 + u16_le_at(b, 60) > b.len() {
        Some(DecodeError::InvalidDataLength { declared: u16_le_at(b, 60), available: (b.len() - 62) as usize })
    } else {
        let sig_len = b.len() - 62 - u16_le_at(b, 60);
        if sig_len != 0 && sig_len != 64 && sig_len != 65 {
            Some(DecodeError::InvalidSignatureLength(sig_len as usize))
        } else {
            None
        }
    }
}

/// Decodes a transaction from its wire bytes.
pub fn decode_transaction(bytes: &[u8]) -> (r: Result<Transaction, DecodeError>)
    ensures
        match r {
            Err(e) => decode_error(bytes@) == Some(e),
            Ok(tx) => {
                let end = 62 + tx.header.data_len;
                &&& decode_error(bytes@).is_none()
                &&& header_matches(tx.header, bytes@)
                &&& tx.data@ == bytes@.subrange(62, end)
                &&& tx.signature@ == bytes@.subrange(end, bytes@.len() as int)
            },
        },
{
    if bytes.len() < TxHeader::SIZE {
        return Err(DecodeError::TooShort);
    }
    let mut to = [0u8; 20];
    let mut i: usize = 0;
    while i < 20
        invariant
            i <= 20,
            bytes@.len() >= 62,
            forall|j: int| 0 <= j < i ==> to@[j] == bytes@[24 + j],
        decreases 20 - i,
    {
        to[i] = bytes[24 + i];
        i = i + 1;
    }
    let mut value = [0u8; 16];
    let mut i: usize = 0;
    while i < 16
        invariant
            i <= 16,
            bytes@.len() >= 62,
            forall|j: int| 0 <= j < i ==> value@[j] == bytes@[44 + j],
        decreases 16 - i,
    {
        value[i] = bytes[44 + i];
        i = i + 1;
    }
    assert(to@ =~= bytes@.subrange(24, 44));
    assert(value@ =~= bytes@.subrange(44, 60));
    let header = TxHeader {
        nonce: read_u64_le(bytes, 0),
        gas_limit: read_u64_le(bytes, 8),
        gas_price: read_u64_le(bytes, 16),
        to,
        value,
        data_len: read_u16_le(bytes, 60),
    };
    if header.gas_limit > MAX_GAS_LIMIT {
        return Err(DecodeError::GasLimitExceeded);
    }
    if header.gas_price == 0 {
        return Err(DecodeError::ZeroGasPrice);
    }
    let data_end: usize = TxHeader::SIZE + header.data_len as usize;
    if data_end > bytes.len() {
        return Err(DecodeError::InvalidDataLength { declared: header.data_len, available: bytes.len() - TxHeader::SIZE });
    }
    let data = copy_range(bytes, TxHeader::SIZE, data_end);
    let signature = copy_range(bytes, data_end, bytes.len());
    if signature.len() != 0 && signature.len() != 64 && signature.len() != 65 {
        return Err(DecodeError::InvalidSignatureLength(signature.len()));
    }
    Ok(Transaction { header, data, signature })
}

/// The execution engine a piece of bytecode is meant for.
#[derive(Debug, Clone, Copy, PartialEq, Eq, Structural)]
pub enum ExecutionEngine {
    Evm,
    Svm,
}

pub struct EngineRouter;

/// Whether `code` starts with the ELF magic `7f 45 4c 46`.
pub open spec fn has_elf_magic(code: Seq<u8>) -> bool {
    code.len() >= 4 && code[0] == 0x7f && code[1] == 0x45 && code[2] == 0x4c && code[3] == 0x46
}

impl EngineRouter {
    fn elf_magic(code: &[u8]) -> (r: bool)
        ensures
            r == has_elf_magic(code@),
    {
        code.len() >= 4 && code[0] == 0x7f && code[1] == 0x45 && code[2] == 0x4c && code[3] == 0x46
    }

    /// ELF-prefixed bytecode is for the SVM, anything else for the EVM.
    pub fn detect(code: &[u8]) -> (r: ExecutionEngine)
        ensures
            r == (if has_elf_magic(code@) { ExecutionEngine::Svm } else { ExecutionEngine::Evm }),
    {
        if Self::elf_magic(code) {
            ExecutionEngine::Svm
        } else {
            ExecutionEngine::Evm
        }
    }

    /// The bytecode without its ELF magic, if it has one.
    pub fn strip_prefix(code: &[u8]) -> (r: &[u8])
        ensures
            r@ == (if has_elf_magic(code@) { code@.subrange(4, code@.len() as int) } else { code@ }),
    {
        if Self::elf_magic(code) {
            &code[4..code.len()]
        } else {
            code
        }
    }
}

} // verus!
