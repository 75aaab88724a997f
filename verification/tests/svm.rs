use matching_engine::journal::StateJournal;
use matching_engine::svm::{svm_execute, svm_execute_checked, Opcode, SvmError};

#[test]
fn test_svm_halt() {
    let r = svm_execute(&[0x00], StateJournal::new(), 1000).unwrap();
    assert_eq!(r.gas_used, 1);
}

#[test]
fn test_svm_add() {
    let code = vec![
        0x02, 0x00, 0x05, 0x00, 0x00, 0x00, 0x00, 0x00, 0x00, 0x00,
        0x02, 0x01, 0x03, 0x00, 0x00, 0x00, 0x00, 0x00, 0x00, 0x00,
        0x03, 0x02, 0x00, 0x01,
        0x00,
    ];
    let r = svm_execute(&code, StateJournal::new(), 1000).unwrap();
    assert_eq!(r.gas_used, 4);
}

#[test]
fn test_svm_invalid_opcode() {
    let err = svm_execute(&[0xff], StateJournal::new(), 1000).unwrap_err();
    assert!(matches!(err, SvmError::InvalidOpcode(0xff)));
}

#[test]
fn test_svm_out_of_gas() {
    let code = vec![
        0x02, 0x00, 0x05, 0x00, 0x00, 0x00, 0x00, 0x00, 0x00, 0x00,
        0x00,
    ];
    let err = svm_execute(&code, StateJournal::new(), 1).unwrap_err();
    assert!(matches!(err, SvmError::OutOfGas));
}

#[test]
fn svm_write_then_read_account() {
    // r0 = 7 (address), r1 = 0x1122, WRITE_ACCOUNT r0 r1, READ_ACCOUNT r2 r0,
    // r3 = 0x1122, SUB r4 r2 r3, JZ r4 +1 (skip the invalid byte), 0xff, HALT
    let mut code = vec![0x02, 0x00];
    code.extend_from_slice(&7u64.to_le_bytes());
    code.extend_from_slice(&[0x02, 0x01]);
    code.extend_from_slice(&0x1122u64.to_le_bytes());
    code.extend_from_slice(&[0x13, 0x00, 0x01]);
    code.extend_from_slice(&[0x12, 0x02, 0x00]);
    code.extend_from_slice(&[0x02, 0x03]);
    code.extend_from_slice(&0x1122u64.to_le_bytes());
    code.extend_from_slice(&[0x04, 0x04, 0x02, 0x03]);
    code.extend_from_slice(&[0x21, 0x04, 0x01, 0x00]);
    code.push(0xff);
    code.push(0x00);
    let r = svm_execute(&code, StateJournal::new(), 1000).unwrap();
    assert_eq!(r.gas_used, 8);
    let mut addr = [0u8; 20];
    addr[0] = 7;
    assert_eq!(r.journal.get_account_data(&addr), Some(&0x1122u64.to_le_bytes()[..]));
}

#[test]
fn svm_store_load_and_truncated_operands() {
    // r0 = 16, r1 = 42, STORE [r0] r1, LOAD r2 [r0], HALT
    let mut code = vec![0x02, 0x00];
    code.extend_from_slice(&16u64.to_le_bytes());
    code.extend_from_slice(&[0x02, 0x01]);
    code.extend_from_slice(&42u64.to_le_bytes());
    code.extend_from_slice(&[0x11, 0x00, 0x01, 0x10, 0x02, 0x00, 0x00]);
    let r = svm_execute(&code, StateJournal::new(), 1000).unwrap();
    assert_eq!(r.gas_used, 5);
    assert!(matches!(svm_execute(&[0x02, 0x00, 0x01], StateJournal::new(), 10), Err(SvmError::OutOfInstructions)));
    assert!(matches!(svm_execute(&[0x01, 0x0d, 0x00], StateJournal::new(), 10), Err(SvmError::InvalidOpcode(0xff))));
}

#[test]
fn svm_backward_jump_past_start_ends_the_run() {
    // JMP -100: the target lies before the code, so the run ends normally.
    let code = [0x20, 0x9c, 0xff];
    let r = svm_execute(&code, StateJournal::new(), 10).unwrap();
    assert_eq!(r.gas_used, 1);
    // A loop that never halts runs out of gas: JMP -3 jumps back to itself.
    let looping = [0x20, 0xfd, 0xff];
    assert!(matches!(svm_execute(&looping, StateJournal::new(), 50), Err(SvmError::OutOfGas)));
    assert_eq!(Opcode::Ret.byte(), 0x30);
}

#[test]
fn svm_load_past_the_address_range_is_refused() {
    let mut code = vec![0x02, 0x00];
    code.extend_from_slice(&u64::MAX.to_le_bytes());
    code.extend_from_slice(&[0x10, 0x01, 0x00, 0x00]);
    assert!(svm_execute_checked(&code, StateJournal::new(), 1000).is_none());
}

#[test]
fn svm_checked_run_agrees_with_plain_run() {
    let mut code = vec![0x02, 0x00];
    code.extend_from_slice(&64u64.to_le_bytes());
    code.extend_from_slice(&[0x11, 0x00, 0x00, 0x10, 0x01, 0x00, 0x00]);
    let checked = svm_execute_checked(&code, StateJournal::new(), 1000).unwrap().unwrap();
    let plain = svm_execute(&code, StateJournal::new(), 1000).unwrap();
    assert_eq!(checked.gas_used, 4);
    assert_eq!(plain.gas_used, 4);
}

#[test]
fn svm_shift_by_immediate_byte() {
    // r0 = 1; SHL r1, r0, 16; WRITE_ACCOUNT r2, r1; HALT
    let code = vec![
        0x02, 0x00, 1, 0, 0, 0, 0, 0, 0, 0,
        0x0b, 0x01, 0x00, 16,
        0x13, 0x02, 0x01,
        0x00,
    ];
    let r = svm_execute(&code, StateJournal::new(), 100).unwrap();
    assert_eq!(r.gas_used, 4);
    assert_eq!(r.journal.accounts().len(), 1);
    assert_eq!(r.journal.accounts()[0].0, [0u8; 20]);
    assert_eq!(r.journal.accounts()[0].1, vec![0, 0, 1, 0, 0, 0, 0, 0]);
    // SHR r1, r0, 16 brings it back
    let code = vec![
        0x02, 0x00, 0, 0, 1, 0, 0, 0, 0, 0,
        0x0c, 0x01, 0x00, 16,
        0x13, 0x02, 0x01,
        0x00,
    ];
    let r = svm_execute(&code, StateJournal::new(), 100).unwrap();
    assert_eq!(r.journal.accounts()[0].1, vec![1, 0, 0, 0, 0, 0, 0, 0]);
}

#[test]
fn svm_shift_by_64_or_more_is_refused() {
    let code = vec![0x0b, 0x01, 0x00, 64, 0x00];
    assert!(svm_execute_checked(&code, StateJournal::new(), 100).is_none());
    let code = vec![0x0b, 0x01, 0x00, 63, 0x00];
    assert!(svm_execute_checked(&code, StateJournal::new(), 100).unwrap().is_ok());
}
