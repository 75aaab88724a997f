//! Transaction signature checking: recovers the signer's public key from a
//! recoverable secp256k1 signature over the SHA-256 digest of the signed
//! fields and derives the sender address from it.
use vstd::prelude::*;
use crate::bytes::{u64_le_bytes, push_u64_le};
use crate::decoder::Transaction;
use sha2::Digest;

verus! {

#[derive(Debug, Clone, Copy, PartialEq, Eq, Structural)]
pub enum VerifyError {
    MissingSignature,
    InvalidLength(usize),
    InvalidRecoveryId,
    VerificationFailed,
}

/// The SHA-256 digest of `data`.
pub uninterp spec fn spec_sha256(data: Seq<u8>) -> Seq<u8>;

/// `sha2::Sha256::digest`: the 32-byte SHA-256 digest of `data`. The
/// contract names the digest and states its length; SHA-256 itself is not
/// specified.
#[verifier::external_body]
pub(crate) fn sha256(data: &[u8]) -> (r: Vec<u8>)
    ensures
        r@ == spec_sha256(data@),
        r@.len() == 32,
{
    sha2::Sha256::digest(data).to_vec()
}

/// The uncompressed public key (65 bytes) that secp256k1 ECDSA recovery
/// yields for a 32-byte message digest, a 64-byte compact signature and a
/// recovery id, or `None` when the signature does not parse or recovery
/// fails.
pub uninterp spec fn spec_ecdsa_recover(digest: Seq<u8>, sig: Seq<u8>, recid: i32) -> Option<Seq<u8>>;

/// `secp256k1::Secp256k1::recover_ecdsa` on a verification context, with
/// the message built by `Message::from_digest_slice` (32 bytes: never
/// fails), the recovery id by `RecoveryId::from_i32` (0 to 3: never fails)
/// and the signature parsed by `RecoverableSignature::from_compact`; the
/// key comes back serialized uncompressed. The contract names the result
/// and states that a recovered key has 65 bytes; the curve arithmetic is not
/// specified.
#[verifier::external_body]
fn ecdsa_recover(digest: &[u8], sig: &[u8], recid: i32) -> (r: Option<Vec<u8>>)
    requires
        digest@.len() == 32,
        sig@.len() == 64,
        0 <= recid <= 3,
    ensures
        match r {
            Some(pk) => spec_ecdsa_recover(digest@, sig@, recid) == Some(pk@) && pk@.len() == 65,
            None => spec_ecdsa_recover(digest@, sig@, recid).is_none(),
        },
{
    let msg = secp256k1::Message::from_digest_slice(digest).ok()?;
    let rid = secp256k1::ecdsa::RecoveryId::from_i32(recid).ok()?;
    let sig = secp256k1::ecdsa::RecoverableSignature::from_compact(sig, rid).ok()?;
    let pk = secp256k1::Secp256k1::verification_only().recover_ecdsa(&msg, &sig).ok()?;
    Some(pk.serialize_uncompressed().to_vec())
}

/// `secp256k1::ecdsa::RecoveryId::from_i32`: accepts exactly 0 to 3.
#[verifier::external_body]
fn recovery_id_valid(id: i32) -> (r: bool)
    ensures
        r == (0 <= id <= 3),
{
    secp256k1::ecdsa::RecoveryId::from_i32(id).is_ok()
}

/// The bytes a transaction's signature covers: nonce, gas limit and gas
/// price (little-endian), recipient, value and call data.
pub open spec fn signed_bytes(tx: Transaction) -> Seq<u8> {
    u64_le_bytes(tx.header.nonce) + u64_le_bytes(tx.header.gas_limit) + u64_le_bytes(tx.header.gas_price)
        + tx.header.to@ + tx.header.value@ + tx.data@
}

/// The address of a recovered public key: the last 20 bytes of the SHA-256
/// digest of the key without its leading format byte.
pub open spec fn address_of_key(pk: Seq<u8>) -> Seq<u8> {
    spec_sha256(pk.skip(1)).subrange(12, 32)
}

/// The recovery id and the 64 signature bytes: a 65-byte signature carries
/// the id in its last byte, a 64-byte one uses id 0.
pub open spec fn split_signature(sig: Seq<u8>) -> (int, Seq<u8>) {
    if sig.len() == 65 {
        (sig[64] as int, sig.take(64))
    } else {
        (0, sig)
    }
}

/// The outcome of `verify_signature`.
pub open spec fn verify_outcome(tx: Transaction) -> Result<Seq<u8>, VerifyError> {
    let sig = tx.signature@;
    if sig.len() == 0 {
        Err(VerifyError::MissingSignature)
    } else if sig.len() != 64 && sig.len() != 65 {
        Err(VerifyError::InvalidLength(sig.len() as usize))
    } else {
        let (recid, sig64) = split_signature(sig);
        if !(0 <= recid <= 3) {
            Err(VerifyError::InvalidRecoveryId)
        } else {
            match spec_ecdsa_recover(spec_sha256(signed_bytes(tx)), sig64, recid as i32) {
                None => Err(VerifyError::VerificationFailed),
                Some(pk) => Ok(address_of_key(pk)),
            }
        }
    }
}

/// The sender address for the outcome of public key recovery: a failed
/// recovery fails verification.
pub fn sender_from_recovered(recovered: Option<Vec<u8>>) -> (r: Result<[u8; 20], VerifyError>)
    requires
        recovered matches Some(pk) ==> pk@.len() == 65,
    ensures
        match recovered {
            None => r == Err::<[u8; 20], VerifyError>(VerifyError::VerificationFailed),
            Some(pk) => r matches Ok(a) && a@ == address_of_key(pk@),
        },
{
    match recovered {
        None => Err(VerifyError::VerificationFailed),
        Some(pk) => {
            let body = &pk.as_slice()[1..pk.len()];
            let full = sha256(body);
            let mut sender = [0u8; 20];
            let mut i: usize = 0;
            while i < 20
                invariant
                    i <= 20,
                    full@.len() == 32,
                    forall|j: int| 0 <= j < i ==> sender@[j] == full@[12 + j],
                decreases 20 - i,
            {
                sender[i] = full[12 + i];
                i = i + 1;
            }
            proof {
                assert(body@ =~= pk@.skip(1));
                assert(sender@ =~= address_of_key(pk@));
            }
            Ok(sender)
        },
    }
}

/// Recovers the sender of a signed transaction.
pub fn verify_signature(tx: &Transaction) -> (r: Result<[u8; 20], VerifyError>)
    ensures
        match verify_outcome(*tx) {
            Ok(a) => r matches Ok(s) && s@ == a,
            Err(e) => r == Err::<[u8; 20], VerifyError>(e),
        },
{
    let n = tx.signature.len();
    if n == 0 {
        return Err(VerifyError::MissingSignature);
    }
    if n != 64 && n != 65 {
        return Err(VerifyError::InvalidLength(n));
    }
    let mut msg: Vec<u8> = Vec::new();
    push_u64_le(&mut msg, tx.header.nonce);
    push_u64_le(&mut msg, tx.header.gas_limit);
    push_u64_le(&mut msg, tx.header.gas_price);
    let ghost m3 = msg@;
    let mut i: usize = 0;
    while i < 20
        invariant
            i <= 20,
            msg@ == m3 + tx.header.to@.take(i as int),
        decreases 20 - i,
    {
        msg.push(tx.header.to[i]);
        proof {
            assert(msg@ =~= m3 + tx.header.to@.take(i + 1));
        }
        i = i + 1;
    }
    let ghost m4 = msg@;
    let mut i: usize = 0;
    while i < 16
        invariant
            i <= 16,
            msg@ == m4 + tx.header.value@.take(i as int),
        decreases 16 - i,
    {
        msg.push(tx.header.value[i]);
        proof {
            assert(msg@ =~= m4 + tx.header.value@.take(i + 1));
        }
        i = i + 1;
    }
    let ghost m5 = msg@;
    let mut i: usize = 0;
    while i < tx.data.len()
        invariant
            i <= tx.data@.len(),
            msg@ == m5 + tx.data@.take(i as int),
        decreases tx.data@.len() - i,
    {
        msg.push(tx.data[i]);
        proof {
            assert(msg@ =~= m5 + tx.data@.take(i + 1));
        }
        i = i + 1;
    }
    proof {
        assert(tx.header.to@.take(20) =~= tx.header.to@);
        assert(tx.header.value@.take(16) =~= tx.header.value@);
        assert(tx.data@.take(tx.data@.len() as int) =~= tx.data@);
        assert(msg@ =~= signed_bytes(*tx));
    }
    let digest = sha256(msg.as_slice());
    let (recid, sig64): (i32, &[u8]) = if n == 65 {
        (tx.signature[64] as i32, &tx.signature.as_slice()[0..64])
    } else {
        (0, tx.signature.as_slice())
    };
    proof {
        if n == 65 {
            assert(sig64@ =~= tx.signature@.take(64));
        }
    }
    if !recovery_id_valid(recid) {
        return Err(VerifyError::InvalidRecoveryId);
    }
    let recovered = ecdsa_recover(digest.as_slice(), sig64, recid);
    sender_from_recovered(recovered)
}

} // verus!
