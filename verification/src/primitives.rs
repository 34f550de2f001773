//! The trusted boundary to the outside cryptographic crates: SHA-256 digests
//! (rust-crypto) and secp256k1 ECDSA keys, signatures and verification, plus
//! entropy, the clock, and UTF-8 string recovery from std.
//!
//! Every function here is `external_body`: its contract is believed, not
//! proved. The uninterpreted spec functions name the results of the outside
//! calls; the rest of the crate reasons only through those names.

use vstd::prelude::*;
use crypto::digest::Digest;

verus! {

/// The SHA-256 digest (32 bytes) of a byte string.
pub uninterp spec fn sha256_of(data: Seq<u8>) -> Seq<u8>;

/// The compact-serialized ECDSA signature that RFC 6979 deterministic signing
/// produces for a 32-byte message under a secret key.
pub uninterp spec fn ecdsa_sig_of(msg: Seq<u8>, sk: Seq<u8>) -> Seq<u8>;

/// The compressed serialization (33 bytes) of the public key derived from a
/// secret key.
pub uninterp spec fn pubkey_bytes_of(sk: Seq<u8>) -> Seq<u8>;

/// Whether 32 bytes are a valid secp256k1 secret scalar.
pub uninterp spec fn valid_secret_key(sk: Seq<u8>) -> bool;

/// Whether ECDSA verification of a compact signature over a 32-byte message
/// succeeds under a compressed public key.
pub uninterp spec fn ecdsa_verifies(msg: Seq<u8>, sig: Seq<u8>, pk: Seq<u8>) -> bool;

/// Relies on crypto::sha2::Sha256 (Digest::input / Digest::result): the
/// 32-byte digest of `data`, a function of `data` alone.
#[verifier::external_body]
pub(crate) fn sha256_digest(data: &[u8]) -> (r: Vec<u8>)
    ensures
        r@ == sha256_of(data@),
        r@.len() == 32,
{
    let mut h = crypto::sha2::Sha256::new();
    h.input(data);
    let mut out = [0u8; 32];
    h.result(&mut out);
    out.to_vec()
}

/// Relies on secp256k1::ecdsa::sign: deterministic (RFC 6979) signing of a
/// 32-byte digest, whose result verifies under the corresponding public key.
#[verifier::external_body]
pub(crate) fn ecdsa_sign(msg: &[u8], sk: &[u8]) -> (r: Vec<u8>)
    requires
        msg@.len() == 32,
        sk@.len() == 32,
        valid_secret_key(sk@),
    ensures
        r@ == ecdsa_sig_of(msg@, sk@),
        ecdsa_verifies(msg@, r@, pubkey_bytes_of(sk@)),
{
    let marr: [u8; 32] = msg.try_into().unwrap();
    let karr: [u8; 32] = sk.try_into().unwrap();
    let skey = secp256k1::SecretKey::from_byte_array(karr).unwrap();
    let sig = secp256k1::ecdsa::sign(secp256k1::Message::from_digest(marr), &skey);
    sig.serialize_compact().to_vec()
}

/// Relies on secp256k1::ecdsa::verify: whether `sig` is a valid signature for
/// the 32-byte digest `msg` under `pk`; false as well when `sig` or `pk` does
/// not parse.
#[verifier::external_body]
pub(crate) fn ecdsa_verify(msg: &[u8], sig: &[u8], pk: &[u8]) -> (r: bool)
    requires
        msg@.len() == 32,
    ensures
        r == ecdsa_verifies(msg@, sig@, pk@),
{
    let marr: [u8; 32] = msg.try_into().unwrap();
    let s = match secp256k1::ecdsa::Signature::from_compact(sig) {
        Ok(s) => s,
        Err(_) => return false,
    };
    let p = match secp256k1::PublicKey::from_slice(pk) {
        Ok(p) => p,
        Err(_) => return false,
    };
    secp256k1::ecdsa::verify(&s, secp256k1::Message::from_digest(marr), &p).is_ok()
}

/// Relies on secp256k1::generate_keypair with the thread RNG: a fresh valid
/// secret key (32 bytes) and its compressed public key.
#[verifier::external_body]
pub(crate) fn generate_keypair() -> (r: (Vec<u8>, Vec<u8>))
    ensures
        r.0@.len() == 32,
        valid_secret_key(r.0@),
        r.1@ == pubkey_bytes_of(r.0@),
        r.1@.len() == 33,
{
    let (sk, pk) = secp256k1::generate_keypair(&mut rand::rng());
    (sk.secret_bytes().to_vec(), pk.serialize().to_vec())
}

/// Relies on secp256k1::SecretKey::from_byte_array (accepts exactly the valid
/// secret scalars) and secp256k1::PublicKey::from_secret_key.
#[verifier::external_body]
pub(crate) fn derive_public_key(sk: &[u8]) -> (r: Option<Vec<u8>>)
    ensures
        r is Some <==> (sk@.len() == 32 && valid_secret_key(sk@)),
        r matches Some(pk) ==> pk@ == pubkey_bytes_of(sk@) && pk@.len() == 33,
{
    let karr: [u8; 32] = match sk.try_into() {
        Ok(a) => a,
        Err(_) => return None,
    };
    match secp256k1::SecretKey::from_byte_array(karr) {
        Ok(s) => Some(secp256k1::PublicKey::from_secret_key(&s).serialize().to_vec()),
        Err(_) => None,
    }
}

/// Relies on rand::random: a fresh 64-bit value; nothing is promised of it.
#[verifier::external_body]
pub(crate) fn random_u64() -> u64 {
    rand::random::<u64>()
}

/// Relies on std::time::SystemTime::now: seconds since the Unix epoch;
/// nothing is promised of the value.
#[verifier::external_body]
pub(crate) fn unix_time_seconds() -> i64 {
    match std::time::SystemTime::now().duration_since(std::time::UNIX_EPOCH) {
        Ok(d) => d.as_secs() as i64,
        Err(_) => 0,
    }
}

/// Relies on String::from_utf8: accepts exactly valid UTF-8 and decodes it.
#[verifier::external_body]
pub(crate) fn bytes_to_string(v: Vec<u8>) -> (r: Option<String>)
    ensures
        r is Some <==> vstd::utf8::valid_utf8(v@),
        r matches Some(s) ==> s@ == vstd::utf8::decode_utf8(v@),
{
    String::from_utf8(v).ok()
}

} // verus!
