use vstd::prelude::*;
use sha2::Digest;

verus! {

/// SHA-256 digest of a byte string.
pub uninterp spec fn sha256_of(data: Seq<u8>) -> Seq<u8>;

/// Whether 32 bytes are the x coordinate of a secp256k1 curve point.
pub uninterp spec fn is_xonly_point(pk: Seq<u8>) -> bool;

/// Whether a BIP-340 Schnorr signature over `msg` verifies under the x-only key `pk`.
pub uninterp spec fn schnorr_accepts(sig: Seq<u8>, msg: Seq<u8>, pk: Seq<u8>) -> bool;

/// The BIP-340 Schnorr signature of `msg` under the secret key `sk`, made without
/// auxiliary randomness (a function of the message and the key alone).
pub uninterp spec fn schnorr_sig_of(msg: Seq<u8>, sk: Seq<u8>) -> Seq<u8>;

/// Whether 32 bytes are a valid secp256k1 secret key.
pub uninterp spec fn is_secret_key(sk: Seq<u8>) -> bool;

/// Relies on sha2::Sha256::digest: the SHA-256 digest, a function of the input bytes alone.
#[verifier::external_body]
pub fn hash(data: &[u8]) -> (r: [u8; 32])
    ensures
        r@ == sha256_of(data@),
{
    sha2::Sha256::digest(data).into()
}

/// Relies on secp256k1::XOnlyPublicKey::from_byte_array, which succeeds exactly when the
/// bytes parse as an x-only curve point.
#[verifier::external_body]
pub(crate) fn is_valid_xonly_key(pk: &[u8; 32]) -> (r: bool)
    ensures
        r == is_xonly_point(pk@),
{
    secp256k1::XOnlyPublicKey::from_byte_array(pk).is_ok()
}

/// Relies on secp256k1::Secp256k1::verify_schnorr, which returns `Ok` exactly when the
/// signature verifies; the key is parsed as in `is_valid_xonly_key`, and a key that does
/// not parse verifies nothing.
#[verifier::external_body]
pub(crate) fn schnorr_verify(sig: &[u8; 64], msg: &[u8], pk: &[u8; 32]) -> (r: bool)
    ensures
        r == (is_xonly_point(pk@) && schnorr_accepts(sig@, msg@, pk@)),
{
    match secp256k1::XOnlyPublicKey::from_byte_array(pk) {
        Ok(key) => {
            let sig = secp256k1::schnorr::Signature::from_byte_array(*sig);
            secp256k1::Secp256k1::verification_only().verify_schnorr(&sig, msg, &key).is_ok()
        },
        Err(_) => false,
    }
}

/// Relies on secp256k1::Keypair::from_seckey_slice, which succeeds exactly for a valid
/// secret key, and on secp256k1::Secp256k1::sign_schnorr_no_aux_rand, which signs
/// deterministically: no auxiliary randomness is drawn, so the signature depends on the
/// message and the key alone.
#[verifier::external_body]
pub(crate) fn schnorr_sign(msg: &[u8], sk: &[u8; 32]) -> (r: Option<[u8; 64]>)
    ensures
        r is Some <==> is_secret_key(sk@),
        r is Some ==> r->Some_0@ == schnorr_sig_of(msg@, sk@),
{
    let secp = secp256k1::Secp256k1::new();
    match secp256k1::Keypair::from_seckey_slice(&secp, sk) {
        Ok(keypair) => Some(*secp.sign_schnorr_no_aux_rand(msg, &keypair).as_byte_array()),
        Err(_) => None,
    }
}

} // verus!
