use matching_engine::decoder::ExecutionEngine;
use matching_engine::program::{filter_hex_digits, program_from_bytes, program_from_text, HexError};

#[test]
fn flag_form_routes_by_prefix() {
    assert_eq!(program_from_text(b"600a00", true), Ok((ExecutionEngine::Evm, vec![0x60, 0x0a, 0x00])));
    assert_eq!(program_from_text(b"svm:00FF", true), Ok((ExecutionEngine::Svm, vec![0x00, 0xff])));
    assert_eq!(program_from_text(b"svm:0", true), Err(HexError::OddLength));
    assert_eq!(program_from_text(b"zz", true), Err(HexError::InvalidHexCharacter));
    // in the flag form an ELF header is not looked for
    assert_eq!(program_from_text(b"7f454c4600", true), Ok((ExecutionEngine::Evm, vec![0x7f, 0x45, 0x4c, 0x46, 0x00])));
}

#[test]
fn stream_form_collects_digits_and_routes() {
    assert_eq!(program_from_text(b"60 0a\n00\n", false), Ok((ExecutionEngine::Evm, vec![0x60, 0x0a, 0x00])));
    assert_eq!(program_from_text(b"7f454c46 0102", false), Ok((ExecutionEngine::Svm, vec![0x01, 0x02])));
    assert_eq!(program_from_text(b"abc", false), Err(HexError::OddLength));
    assert_eq!(filter_hex_digits(b"x1-Fg9"), b"1F9".to_vec());
}

#[test]
fn raw_bytes_are_routed() {
    assert_eq!(program_from_bytes(&[0x7f, 0x45, 0x4c, 0x46, 0x13]), (ExecutionEngine::Svm, vec![0x13]));
    assert_eq!(program_from_bytes(&[0x60, 0x01]), (ExecutionEngine::Evm, vec![0x60, 0x01]));
}
