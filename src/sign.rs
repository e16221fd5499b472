use vstd::prelude::*;
use crate::types::{Txn, TXN_FEES_PER_BYTE};
use crate::codec::{encode_txn, encode_txn_unsigned, txn_bytes, txn_signed_bytes};
use crate::crypto::{hash, is_secret_key, schnorr_sig_of, schnorr_sign, sha256_of};

verus! {

/// Sets the fee to the floor for the transaction's size, then signs the SHA-256 of
/// its encoding with a zeroed signature using `secret_key`. The signature is made
/// without auxiliary randomness, so the same transaction and key always give the same
/// signature. Returns `false`, leaving the signature as it was, when `secret_key` is
/// not a valid secret key. Sender and receivers are left as they are.
pub fn finalize_txn(txn: &mut Txn, secret_key: &[u8; 32]) -> (ok: bool)
    requires
        txn_bytes(*old(txn)).len() * TXN_FEES_PER_BYTE <= u64::MAX,
    ensures
        ok == is_secret_key(secret_key@),
        final(txn).fee == txn_bytes(*old(txn)).len() * TXN_FEES_PER_BYTE,
        final(txn).sender == old(txn).sender,
        final(txn).recievers == old(txn).recievers,
        txn_bytes(*final(txn)).len() == txn_bytes(*old(txn)).len(),
        ok ==> final(txn).signature@ == schnorr_sig_of(
            sha256_of(txn_signed_bytes(*final(txn))),
            secret_key@,
        ),
        !ok ==> final(txn).signature == old(txn).signature,
{
    let size = encode_txn(txn).len() as u64;
    proof {
        crate::codec::lemma_le_bytes_len(txn.fee as nat, 8);
    }
    txn.fee = size * TXN_FEES_PER_BYTE;
    proof {
        crate::codec::lemma_le_bytes_len(txn.fee as nat, 8);
    }
    let msg = hash(encode_txn_unsigned(txn).as_slice());
    match schnorr_sign(msg.as_slice(), secret_key) {
        Some(sig) => {
            txn.signature = sig;
            assert(txn_signed_bytes(*txn) == crate::codec::txn_bytes_with_sig(
                *txn,
                Seq::new(64, |i: int| 0u8),
            ));
            true
        },
        None => false,
    }
}

} // verus!
