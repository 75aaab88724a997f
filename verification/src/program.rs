//! Programs given as text: hex bytecode from the command line (an `svm:`
//! prefix selects the register machine) or from a stream whose hex digits
//! are collected and decoded; raw bytecode is routed by its first bytes.
use vstd::prelude::*;
use crate::decoder::{EngineRouter, ExecutionEngine, has_elf_magic};

verus! {

pub open spec fn is_hex_digit(c: u8) -> bool {
    (0x30 <= c <= 0x39) || (0x41 <= c <= 0x46) || (0x61 <= c <= 0x66)
}

/// The value of a hex digit, either case.
pub open spec fn hex_val(c: u8) -> int {
    if c <= 0x39 {
        c - 0x30
    } else if c <= 0x46 {
        c - 0x41 + 10
    } else {
        c - 0x61 + 10
    }
}

/// Whether `t` is hex text: an even number of hex digits.
pub open spec fn hex_text_ok(t: Seq<u8>) -> bool {
    t.len() % 2 == 0 && forall|i: int| 0 <= i < t.len() ==> is_hex_digit(#[trigger] t[i])
}

/// The bytes hex text stands for: each pair of digits, high digit first.
pub open spec fn hex_bytes(t: Seq<u8>) -> Seq<u8> {
    Seq::new(t.len() / 2, |i: int| (16 * hex_val(t[2 * i]) + hex_val(t[2 * i + 1])) as u8)
}

/// `hex::decode`: the bytes of hex text (digits of either case), or `None`
/// when the length is odd or a byte is not a hex digit.
#[verifier::external_body]
pub(crate) fn hex_decode(text: &[u8]) -> (r: Option<Vec<u8>>)
    ensures
        (r is Some) == hex_text_ok(text@),
        r matches Some(v) ==> v@ == hex_bytes(text@),
{
    hex::decode(text).ok()
}

/// Why hex text does not decode.
#[derive(Debug, Clone, Copy, PartialEq, Eq, Structural)]
pub enum HexError {
    OddLength,
    InvalidHexCharacter,
}

pub open spec fn hex_outcome(t: Seq<u8>) -> Result<Seq<u8>, HexError> {
    if t.len() % 2 != 0 {
        Err(HexError::OddLength)
    } else if !hex_text_ok(t) {
        Err(HexError::InvalidHexCharacter)
    } else {
        Ok(hex_bytes(t))
    }
}

/// The hex digits of `t`, in order.
pub open spec fn hex_digits_of(t: Seq<u8>) -> Seq<u8>
    decreases t.len(),
{
    if t.len() == 0 {
        seq![]
    } else if is_hex_digit(t.last()) {
        hex_digits_of(t.drop_last()).push(t.last())
    } else {
        hex_digits_of(t.drop_last())
    }
}

/// Whether `t` starts with `svm:`.
pub open spec fn has_svm_prefix(t: Seq<u8>) -> bool {
    t.len() >= 4 && t[0] == 0x73 && t[1] == 0x76 && t[2] == 0x6d && t[3] == 0x3a
}

/// Raw bytecode routed by its first bytes: ELF-prefixed code runs on the
/// register machine without its prefix, anything else on the stack machine.
pub open spec fn routed(b: Seq<u8>) -> (ExecutionEngine, Seq<u8>) {
    if has_elf_magic(b) {
        (ExecutionEngine::Svm, b.subrange(4, b.len() as int))
    } else {
        (ExecutionEngine::Evm, b)
    }
}

/// The program hex text stands for. In the flag form an `svm:` prefix
/// selects the register machine and the rest must be hex; otherwise the
/// stack machine runs the decoded text. In the stream form the hex digits
/// are collected, decoded and routed by their first bytes.
pub open spec fn text_program(t: Seq<u8>, flag_form: bool) -> Result<(ExecutionEngine, Seq<u8>), HexError> {
    if flag_form {
        if has_svm_prefix(t) {
            match hex_outcome(t.skip(4)) {
                Ok(b) => Ok((ExecutionEngine::Svm, b)),
                Err(e) => Err(e),
            }
        } else {
            match hex_outcome(t) {
                Ok(b) => Ok((ExecutionEngine::Evm, b)),
                Err(e) => Err(e),
            }
        }
    } else {
        match hex_outcome(hex_digits_of(t)) {
            Ok(b) => Ok(routed(b)),
            Err(e) => Err(e),
        }
    }
}

fn is_hex_digit_exec(c: u8) -> (r: bool)
    ensures
        r == is_hex_digit(c),
{
    (0x30 <= c && c <= 0x39) || (0x41 <= c && c <= 0x46) || (0x61 <= c && c <= 0x66)
}

/// The hex digits of `text`, in order.
pub fn filter_hex_digits(text: &[u8]) -> (r: Vec<u8>)
    ensures
        r@ == hex_digits_of(text@),
{
    let mut r: Vec<u8> = Vec::new();
    let mut i: usize = 0;
    while i < text.len()
        invariant
            i <= text@.len(),
            r@ == hex_digits_of(text@.take(i as int)),
        decreases text@.len() - i,
    {
        proof {
            assert(text@.take(i + 1).drop_last() =~= text@.take(i as int));
            assert(text@.take(i + 1).last() == text@[i as int]);
        }
        if is_hex_digit_exec(text[i]) {
            r.push(text[i]);
        }
        i = i + 1;
    }
    assert(text@.take(text@.len() as int) =~= text@);
    r
}

/// Decodes hex text, telling an odd length from a stray character.
fn decode_hex(text: &[u8]) -> (r: Result<Vec<u8>, HexError>)
    ensures
        match hex_outcome(text@) {
            Ok(b) => r matches Ok(v) && v@ == b,
            Err(e) => r == Err::<Vec<u8>, HexError>(e),
        },
{
    match hex_decode(text) {
        Some(v) => Ok(v),
        None => {
            if text.len() % 2 != 0 {
                Err(HexError::OddLength)
            } else {
                Err(HexError::InvalidHexCharacter)
            }
        },
    }
}

fn starts_with_svm(t: &[u8]) -> (r: bool)
    ensures
        r == has_svm_prefix(t@),
{
    t.len() >= 4 && t[0] == 0x73 && t[1] == 0x76 && t[2] == 0x6d && t[3] == 0x3a
}

/// Routes raw bytecode by its first bytes (see `routed`).
pub fn program_from_bytes(bytes: &[u8]) -> (r: (ExecutionEngine, Vec<u8>))
    ensures
        (r.0, r.1@) == routed(bytes@),
{
    let engine = EngineRouter::detect(bytes);
    let code = EngineRouter::strip_prefix(bytes);
    let mut v: Vec<u8> = Vec::new();
    let mut i: usize = 0;
    while i < code.len()
        invariant
            i <= code@.len(),
            v@ == code@.take(i as int),
        decreases code@.len() - i,
    {
        v.push(code[i]);
        i = i + 1;
        proof {
            assert(v@ =~= code@.take(i as int));
        }
    }
    assert(code@.take(code@.len() as int) =~= code@);
    (engine, v)
}

/// The program that hex text stands for (see `text_program`): the flag
/// form reads `[svm:]<hex>`, the stream form collects the hex digits of the
/// text and routes the decoded bytes.
pub fn program_from_text(text: &[u8], flag_form: bool) -> (r: Result<(ExecutionEngine, Vec<u8>), HexError>)
    ensures
        match text_program(text@, flag_form) {
            Ok((e, b)) => r matches Ok((e2, v)) && e2 == e && v@ == b,
            Err(err) => r == Err::<(ExecutionEngine, Vec<u8>), HexError>(err),
        },
{
    if flag_form {
        if starts_with_svm(text) {
            let rest = &text[4..text.len()];
            assert(rest@ =~= text@.skip(4));
            let b = decode_hex(rest)?;
            Ok((ExecutionEngine::Svm, b))
        } else {
            let b = decode_hex(text)?;
            Ok((ExecutionEngine::Evm, b))
        }
    } else {
        let digits = filter_hex_digits(text);
        let b = decode_hex(digits.as_slice())?;
        Ok(program_from_bytes(b.as_slice()))
    }
}

} // verus!
