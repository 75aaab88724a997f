use matching_engine::decoder::{Transaction, TxHeader};
use matching_engine::signature::{sender_from_recovered, verify_signature, VerifyError};
use sha2::{Digest, Sha256};

fn tx(signature: Vec<u8>) -> Transaction {
    Transaction {
        header: TxHeader { nonce: 7, gas_limit: 21000, gas_price: 3, to: [9u8; 20], value: [1u8; 16], data_len: 2 },
        data: vec![0xaa, 0xbb],
        signature,
    }
}

fn signed_digest(t: &Transaction) -> [u8; 32] {
    let mut h = Sha256::new();
    h.update(t.header.nonce.to_le_bytes());
    h.update(t.header.gas_limit.to_le_bytes());
    h.update(t.header.gas_price.to_le_bytes());
    h.update(t.header.to);
    h.update(t.header.value);
    h.update(&t.data);
    h.finalize().into()
}

fn expected_sender(pk: &secp256k1::PublicKey) -> [u8; 20] {
    let full = Sha256::digest(&pk.serialize_uncompressed()[1..]);
    let mut a = [0u8; 20];
    a.copy_from_slice(&full[12..]);
    a
}

#[test]
fn signature_recovers_the_signer() {
    let secp = secp256k1::Secp256k1::new();
    let sk = secp256k1::SecretKey::from_slice(&[0x42u8; 32]).unwrap();
    let pk = secp256k1::PublicKey::from_secret_key(&secp, &sk);
    let unsigned = tx(Vec::new());
    let msg = secp256k1::Message::from_digest_slice(&signed_digest(&unsigned)).unwrap();
    let (rid, compact) = secp.sign_ecdsa_recoverable(&msg, &sk).serialize_compact();
    let mut sig = compact.to_vec();
    sig.push(rid.to_i32() as u8);
    assert_eq!(verify_signature(&tx(sig)).unwrap(), expected_sender(&pk));
}

#[test]
fn signature_errors() {
    assert_eq!(verify_signature(&tx(Vec::new())), Err(VerifyError::MissingSignature));
    assert_eq!(verify_signature(&tx(vec![0u8; 10])), Err(VerifyError::InvalidLength(10)));
    let mut bad_id = vec![1u8; 64];
    bad_id.push(4);
    assert_eq!(verify_signature(&tx(bad_id)), Err(VerifyError::InvalidRecoveryId));
    // an all-zero compact signature does not parse
    assert_eq!(verify_signature(&tx(vec![0u8; 64])), Err(VerifyError::VerificationFailed));
}

#[test]
fn sender_is_tail_of_key_digest() {
    assert_eq!(sender_from_recovered(None), Err(VerifyError::VerificationFailed));
    let mut key = vec![4u8];
    key.extend_from_slice(&[5u8; 64]);
    let full = Sha256::digest(&[5u8; 64]);
    let mut a = [0u8; 20];
    a.copy_from_slice(&full[12..]);
    assert_eq!(sender_from_recovered(Some(key)).unwrap(), a);
}
