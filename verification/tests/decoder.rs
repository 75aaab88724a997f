use matching_engine::decoder::{decode_transaction, DecodeError, EngineRouter, ExecutionEngine, MAX_GAS_LIMIT};

fn make_header(nonce: u64, gas_limit: u64, gas_price: u64, to: [u8; 20], value: [u8; 16], data_len: u16) -> [u8; 62] {
    let mut buf = [0u8; 62];
    buf[0..8].copy_from_slice(&nonce.to_le_bytes());
    buf[8..16].copy_from_slice(&gas_limit.to_le_bytes());
    buf[16..24].copy_from_slice(&gas_price.to_le_bytes());
    buf[24..44].copy_from_slice(&to);
    buf[44..60].copy_from_slice(&value);
    buf[60..62].copy_from_slice(&data_len.to_le_bytes());
    buf
}

#[test]
fn test_too_short() {
    assert!(decode_transaction(&[0u8; 10]).is_err());
}

#[test]
fn test_zero_length_valid() {
    let header = make_header(1, 21000, 1, [0u8; 20], [0u8; 16], 0);
    let tx = decode_transaction(&header).unwrap();
    assert_eq!(tx.header.nonce, 1);
    assert!(tx.data.is_empty());
    assert!(tx.signature.is_empty());
}

#[test]
fn test_with_data_and_signature() {
    let header = make_header(1, 21000, 1, [0u8; 20], [0u8; 16], 3);
    let mut bytes = header.to_vec();
    bytes.extend_from_slice(&[0xaa, 0xbb, 0xcc]);
    bytes.extend_from_slice(&[0u8; 64]);
    let tx = decode_transaction(&bytes).unwrap();
    assert_eq!(tx.data, vec![0xaa, 0xbb, 0xcc]);
    assert_eq!(tx.signature.len(), 64);
}

#[test]
fn test_gas_limit_exceeded() {
    let header = make_header(0, MAX_GAS_LIMIT + 1, 1, [0u8; 20], [0u8; 16], 0);
    assert!(matches!(decode_transaction(&header), Err(DecodeError::GasLimitExceeded)));
}

#[test]
fn test_zero_gas_price() {
    let header = make_header(0, 21000, 0, [0u8; 20], [0u8; 16], 0);
    assert!(matches!(decode_transaction(&header), Err(DecodeError::ZeroGasPrice)));
}

#[test]
fn test_invalid_data_length() {
    let header = make_header(0, 21000, 1, [0u8; 20], [0u8; 16], 10);
    let mut bytes = header.to_vec();
    bytes.extend_from_slice(&[0xaa; 5]);
    assert!(matches!(decode_transaction(&bytes), Err(DecodeError::InvalidDataLength { .. })));
}

#[test]
fn test_invalid_signature_length() {
    let header = make_header(0, 21000, 1, [0u8; 20], [0u8; 16], 0);
    let mut bytes = header.to_vec();
    bytes.extend_from_slice(&[0u8; 33]);
    assert!(matches!(decode_transaction(&bytes), Err(DecodeError::InvalidSignatureLength(33))));
}

#[test]
fn decode_reads_all_header_fields() {
    let mut to = [0u8; 20];
    to[0] = 7;
    to[19] = 9;
    let mut value = [0u8; 16];
    value[3] = 0x55;
    let header = make_header(0x0102_0304_0506_0708, 30_000_000, 2, to, value, 2);
    let mut bytes = header.to_vec();
    bytes.extend_from_slice(&[1, 2]);
    let tx = decode_transaction(&bytes).unwrap();
    assert_eq!(tx.header.nonce, 0x0102_0304_0506_0708);
    assert_eq!(tx.header.gas_limit, 30_000_000);
    assert_eq!(tx.header.gas_price, 2);
    assert_eq!(tx.header.to, to);
    assert_eq!(tx.header.value, value);
    assert_eq!(tx.header.data_len, 2);
    assert_eq!(tx.data, vec![1, 2]);
}

#[test]
fn decode_reports_available_data() {
    let header = make_header(0, 21000, 1, [0u8; 20], [0u8; 16], 10);
    let mut bytes = header.to_vec();
    bytes.extend_from_slice(&[0xaa; 5]);
    assert_eq!(
        decode_transaction(&bytes).unwrap_err(),
        DecodeError::InvalidDataLength { declared: 10, available: 5 }
    );
}

#[test]
fn decode_accepts_65_byte_signature() {
    let header = make_header(0, 21000, 1, [0u8; 20], [0u8; 16], 0);
    let mut bytes = header.to_vec();
    bytes.extend_from_slice(&[3u8; 65]);
    let tx = decode_transaction(&bytes).unwrap();
    assert_eq!(tx.signature, vec![3u8; 65]);
}

#[test]
fn router_detects_elf_and_strips_it() {
    let code = [0x7f, 0x45, 0x4c, 0x46, 0x00, 0x01];
    assert_eq!(EngineRouter::detect(&code), ExecutionEngine::Svm);
    assert_eq!(EngineRouter::strip_prefix(&code), &[0x00, 0x01][..]);
    let evm = [0x60, 0x01];
    assert_eq!(EngineRouter::detect(&evm), ExecutionEngine::Evm);
    assert_eq!(EngineRouter::strip_prefix(&evm), &evm[..]);
    assert_eq!(EngineRouter::detect(&[0x7f, 0x45, 0x4c]), ExecutionEngine::Evm);
}
