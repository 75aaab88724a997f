use matching_engine::interpreter::{execute, execute_checked, ExecutionContext, ExecutionResult};
use matching_engine::journal::StateJournal;
use matching_engine::state::ExecutionError;

fn evm_run(code: Vec<u8>, gas: u64) -> Result<ExecutionResult, ExecutionError> {
    let ctx = ExecutionContext { code, sender: [0u8; 20], value: 0, journal: StateJournal::new() };
    execute(ctx, gas)
}

/// Runs `code`, then stores the top word at memory 0 and returns it.
fn top_word(mut code: Vec<u8>) -> Vec<u8> {
    code.extend_from_slice(&[0x60, 0x00, 0x52, 0x60, 0x20, 0x60, 0x00, 0xf3]);
    let r = evm_run(code, 1_000_000).unwrap();
    assert!(r.success);
    r.output
}

fn word_of(v: u64) -> Vec<u8> {
    let mut w = vec![0u8; 24];
    w.extend_from_slice(&v.to_be_bytes());
    w
}

#[test]
fn test_evm_stop() {
    let r = evm_run(vec![0x00], 1000).unwrap();
    assert!(r.success);
    assert_eq!(r.gas_used, 0);
}

#[test]
fn test_evm_add() {
    let r = evm_run(vec![0x60, 0x05, 0x60, 0x03, 0x01, 0x00], 1000).unwrap();
    assert!(r.success);
}

#[test]
fn test_evm_push_truncated_eof() {
    let err = evm_run(vec![0x60], 1000).unwrap_err();
    assert!(matches!(err, ExecutionError::UnexpectedEOF(1, 0)));
}

#[test]
fn test_evm_push2_truncated_eof() {
    let err = evm_run(vec![0x61, 0x00], 1000).unwrap_err();
    assert!(matches!(err, ExecutionError::UnexpectedEOF(2, 1)));
}

#[test]
fn test_evm_stack_underflow() {
    let err = evm_run(vec![0x01, 0x00], 1000).unwrap_err();
    assert!(matches!(err, ExecutionError::StackUnderflow));
}

#[test]
fn test_evm_invalid_opcode() {
    let err = evm_run(vec![0xfe, 0x00], 1000).unwrap_err();
    assert!(matches!(err, ExecutionError::InvalidOpcode(0xfe)));
}

#[test]
fn test_evm_out_of_gas() {
    let err = evm_run(vec![0x60, 0x05, 0x60, 0x03, 0x01, 0x00], 5).unwrap_err();
    assert!(matches!(err, ExecutionError::OutOfGas));
}

#[test]
fn evm_add_gas_and_result() {
    let r = evm_run(vec![0x60, 0x05, 0x60, 0x03, 0x01, 0x00], 1000).unwrap();
    assert_eq!(r.gas_used, 9);
    assert_eq!(top_word(vec![0x60, 0x05, 0x60, 0x03, 0x01]), word_of(8));
}

#[test]
fn evm_return_of_stored_word() {
    // PUSH1 0x2a, PUSH1 0, MSTORE, PUSH1 32, PUSH1 0, RETURN
    let r = evm_run(vec![0x60, 0x2a, 0x60, 0x00, 0x52, 0x60, 0x20, 0x60, 0x00, 0xf3], 1000).unwrap();
    assert!(r.success);
    assert_eq!(r.output, word_of(0x2a));
    assert_eq!(r.gas_used, 15);
}

#[test]
fn evm_revert_is_not_success() {
    let r = evm_run(vec![0xfd], 1000).unwrap();
    assert!(!r.success);
    assert_eq!(r.gas_used, 0);
    assert!(r.output.is_empty());
}

#[test]
fn evm_storage_write_then_read() {
    // PUSH1 42, PUSH1 0, SSTORE, PUSH1 0, SLOAD, then return the top word
    let code = vec![0x60, 0x2a, 0x60, 0x00, 0x55, 0x60, 0x00, 0x54, 0x60, 0x00, 0x52, 0x60, 0x20, 0x60, 0x00, 0xf3];
    let ctx = ExecutionContext { code, sender: [1u8; 20], value: 0, journal: StateJournal::new() };
    let r = execute(ctx, 100_000).unwrap();
    assert!(r.success);
    assert_eq!(r.output, word_of(42));
    assert_eq!(r.gas_used, 3 + 3 + 20000 + 3 + 800 + 3 + 3 + 3 + 3);
    let writes = r.journal.writes();
    assert_eq!(writes.len(), 1);
    assert_eq!(writes[0].0.address, [1u8; 20]);
    assert_eq!(writes[0].0.slot, [0u8; 32]);
    assert_eq!(writes[0].1.to_vec(), word_of(42));
}

#[test]
fn evm_unwritten_slot_reads_zero() {
    assert_eq!(top_word(vec![0x60, 0x07, 0x54]), word_of(0));
}

#[test]
fn evm_jump_to_jumpdest() {
    // PUSH1 4, JUMP, INVALID, JUMPDEST, STOP
    let r = evm_run(vec![0x60, 0x04, 0x56, 0xfe, 0x5b, 0x00], 1000).unwrap();
    assert!(r.success);
    assert_eq!(r.gas_used, 3 + 8 + 1);
}

#[test]
fn evm_jump_elsewhere_fails() {
    let err = evm_run(vec![0x60, 0x03, 0x56, 0x00], 1000).unwrap_err();
    assert!(matches!(err, ExecutionError::InvalidJumpDest(3)));
}

#[test]
fn evm_jumpi_not_taken_on_zero() {
    // PUSH1 0 (cond), PUSH1 9 (dest), JUMPI, STOP
    let r = evm_run(vec![0x60, 0x00, 0x60, 0x09, 0x57, 0x00], 1000).unwrap();
    assert!(r.success);
}

#[test]
fn evm_arithmetic_results() {
    // ADDMOD: (3 + 4) % 5
    assert_eq!(top_word(vec![0x60, 0x05, 0x60, 0x04, 0x60, 0x03, 0x08]), word_of(2));
    // MULMOD by zero modulus gives zero
    assert_eq!(top_word(vec![0x60, 0x00, 0x60, 0x04, 0x60, 0x03, 0x09]), word_of(0));
    // DIV by zero gives zero
    assert_eq!(top_word(vec![0x60, 0x00, 0x60, 0x07, 0x04]), word_of(0));
    // 17 MOD 5
    assert_eq!(top_word(vec![0x60, 0x05, 0x60, 0x11, 0x06]), word_of(2));
    // 2 EXP 10
    assert_eq!(top_word(vec![0x60, 0x0a, 0x60, 0x02, 0x0a]), word_of(1024));
    // 0 - 1 wraps to all ones
    assert_eq!(top_word(vec![0x60, 0x01, 0x60, 0x00, 0x03]), vec![0xffu8; 32]);
    // 6 MUL 7
    assert_eq!(top_word(vec![0x60, 0x07, 0x60, 0x06, 0x02]), word_of(42));
    // 17 DIV 5
    assert_eq!(top_word(vec![0x60, 0x05, 0x60, 0x11, 0x04]), word_of(3));
    // (6 * 7) % 5
    assert_eq!(top_word(vec![0x60, 0x05, 0x60, 0x07, 0x60, 0x06, 0x09]), word_of(2));
    // 2^255 * 2 wraps to zero
    let mut code = vec![0x60, 0x02, 0x60, 0x01, 0x60, 0xff, 0x1b];
    code.push(0x02);
    assert_eq!(top_word(code), word_of(0));
}

#[test]
fn evm_comparison_and_bits() {
    // 3 LT 9
    assert_eq!(top_word(vec![0x60, 0x09, 0x60, 0x03, 0x10]), word_of(1));
    // 3 GT 9
    assert_eq!(top_word(vec![0x60, 0x09, 0x60, 0x03, 0x11]), word_of(0));
    // EQ
    assert_eq!(top_word(vec![0x60, 0x09, 0x60, 0x09, 0x14]), word_of(1));
    // ISZERO 0
    assert_eq!(top_word(vec![0x60, 0x00, 0x15]), word_of(1));
    // 0x0c AND 0x0a, OR, XOR
    assert_eq!(top_word(vec![0x60, 0x0a, 0x60, 0x0c, 0x16]), word_of(0x08));
    assert_eq!(top_word(vec![0x60, 0x0a, 0x60, 0x0c, 0x17]), word_of(0x0e));
    assert_eq!(top_word(vec![0x60, 0x0a, 0x60, 0x0c, 0x18]), word_of(0x06));
    // NOT 0
    assert_eq!(top_word(vec![0x60, 0x00, 0x19]), vec![0xffu8; 32]);
    // byte 31 of 0xab
    assert_eq!(top_word(vec![0x60, 0xab, 0x60, 0x1f, 0x1a]), word_of(0xab));
    // byte 40 is zero
    assert_eq!(top_word(vec![0x60, 0xab, 0x60, 0x28, 0x1a]), word_of(0));
    // 1 SHL 8, 256 SHR 4
    assert_eq!(top_word(vec![0x60, 0x01, 0x60, 0x08, 0x1b]), word_of(256));
    assert_eq!(top_word(vec![0x61, 0x01, 0x00, 0x60, 0x04, 0x1c]), word_of(16));
    // SIGNEXTEND of 0xff from byte 0 is all ones; of 0x7f stays 0x7f
    assert_eq!(top_word(vec![0x60, 0xff, 0x60, 0x00, 0x0b]), vec![0xffu8; 32]);
    assert_eq!(top_word(vec![0x60, 0x7f, 0x60, 0x00, 0x0b]), word_of(0x7f));
}

#[test]
fn evm_stack_instructions() {
    // PUSH1 10, PUSH1 3, SWAP1, SUB: 10 - 3
    assert_eq!(top_word(vec![0x60, 0x0a, 0x60, 0x03, 0x90, 0x03]), word_of(7));
    // PUSH1 5, DUP1, ADD
    assert_eq!(top_word(vec![0x60, 0x05, 0x80, 0x01]), word_of(10));
    // PC at offset 2, MSIZE on fresh memory
    assert_eq!(top_word(vec![0x60, 0x00, 0x58]), word_of(2));
    assert_eq!(top_word(vec![0x59]), word_of(0));
    // PUSH2 0x0102
    assert_eq!(top_word(vec![0x61, 0x01, 0x02]), word_of(0x0102));
}

#[test]
fn evm_log_pops_and_charges() {
    // PUSH1 0, PUSH1 0, LOG0, STOP
    let r = evm_run(vec![0x60, 0x00, 0x60, 0x00, 0xa0, 0x00], 1000).unwrap();
    assert_eq!(r.gas_used, 3 + 3 + 375);
    // LOG1 with only two words fails
    let err = evm_run(vec![0x60, 0x00, 0x60, 0x00, 0xa1, 0x00], 10_000).unwrap_err();
    assert!(matches!(err, ExecutionError::StackUnderflow));
}

#[test]
fn evm_sha3_of_empty_memory_range() {
    // PUSH1 0 (size), PUSH1 0 (offset), SHA3
    let out = top_word(vec![0x60, 0x00, 0x60, 0x00, 0x20]);
    let expected = [
        0xe3, 0xb0, 0xc4, 0x42, 0x98, 0xfc, 0x1c, 0x14, 0x9a, 0xfb, 0xf4, 0xc8, 0x99, 0x6f, 0xb9, 0x24, 0x27, 0xae,
        0x41, 0xe4, 0x64, 0x9b, 0x93, 0x4c, 0xa4, 0x95, 0x99, 0x1b, 0x78, 0x52, 0xb8, 0x55,
    ];
    assert_eq!(out, expected.to_vec());
}

#[test]
fn evm_stack_overflow_at_limit() {
    let mut code = Vec::new();
    for _ in 0..1025 {
        code.extend_from_slice(&[0x60, 0x00]);
    }
    let err = evm_run(code, 100_000).unwrap_err();
    assert!(matches!(err, ExecutionError::StackOverflow));
}

#[test]
fn evm_runs_off_the_end() {
    let r = evm_run(vec![0x60, 0x01], 1000).unwrap();
    assert!(r.success);
    assert_eq!(r.gas_used, 3);
}

fn checked_run(code: Vec<u8>) -> Option<Result<ExecutionResult, ExecutionError>> {
    let ctx = ExecutionContext { code, sender: [0u8; 20], value: 0, journal: StateJournal::new() };
    execute_checked(ctx, 1_000_000)
}

#[test]
fn evm_jump_to_a_destination_past_64_bits_is_refused() {
    let mut code = vec![0x7f];
    code.extend_from_slice(&[0xff; 32]);
    code.push(0x56);
    assert!(checked_run(code).is_none());
}

#[test]
fn evm_exp_past_256_bits_is_refused() {
    // 2^256 overflows; 2^255 does not
    assert!(checked_run(vec![0x61, 0x01, 0x00, 0x60, 0x02, 0x0a, 0x00]).is_none());
    let r = checked_run(vec![0x60, 0xff, 0x60, 0x02, 0x0a, 0x00]).unwrap().unwrap();
    assert!(r.success);
}

#[test]
fn evm_addmod_past_256_bits_is_refused() {
    let mut code = vec![0x60, 0x07, 0x7f];
    code.extend_from_slice(&[0xff; 32]);
    code.extend_from_slice(&[0x60, 0x01, 0x08, 0x00]);
    assert!(checked_run(code).is_none());
}

#[test]
fn evm_checked_run_agrees_with_plain_run() {
    let code = vec![0x60, 0x02, 0x60, 0x03, 0x01, 0x60, 0x00, 0x52, 0x60, 0x20, 0x60, 0x00, 0xf3];
    let a = checked_run(code.clone()).unwrap().unwrap();
    let b = evm_run(code, 1_000_000).unwrap();
    assert_eq!(a.output, b.output);
    assert_eq!(a.gas_used, b.gas_used);
    assert_eq!(a.output, word_of(5));
}
