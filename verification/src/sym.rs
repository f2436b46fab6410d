use vstd::prelude::*;

use crate::error::Error;
use sodiumoxide::crypto::box_::curve25519xsalsa20poly1305 as so_box;

verus! {

// Symmetric authenticated encryption over a precomputed key: key
// generation, encrypt, decrypt. The primitives are stateless; every
// call takes its own nonce, and failures are terminal, never retried.

/// Byte length of a preshared key: the precomputed box key size.
pub const PSK_BYTES: usize = 32;

/// Byte length of a nonce.
pub const NONCE_BYTES: usize = 24;

/// Byte length of the authentication tag a ciphertext carries.
pub const MAC_BYTES: usize = 16;

/// The plaintext ceiling of one encryption call. Larger payloads must
/// be split above this layer, never truncated or silently accepted.
pub const MAX_PLAINTEXT: usize = 4096;

/// The ciphertext the authenticated cipher produces from a plaintext,
/// nonce and key: a function of those arguments alone.
pub uninterp spec fn sealed(plain: Seq<u8>, nonce: Seq<u8>, key: Seq<u8>) -> Seq<u8>;

/// Relies on sodiumoxide's `init`: it readies the library and reports
/// failure; nothing else is promised of it.
#[verifier::external_body]
fn crypto_init() -> (r: bool) {
    sodiumoxide::init().is_ok()
}

/// Relies on sodiumoxide's `gen_nonce`: a random nonce of the fixed
/// length. The value depends on the random source, so only the length
/// is stated.
#[verifier::external_body]
fn gen_nonce_bytes() -> (r: Vec<u8>)
    ensures
        r@.len() == NONCE_BYTES,
{
    so_box::gen_nonce().0.to_vec()
}

/// Relies on sodiumoxide's `randombytes`: `n` random bytes. The values
/// depend on the random source, so only the length is stated.
#[verifier::external_body]
fn random_bytes(n: usize) -> (r: Vec<u8>)
    ensures
        r@.len() == n,
{
    sodiumoxide::randombytes::randombytes(n)
}

/// Relies on sodiumoxide's `seal_precomputed`: it encrypts and
/// authenticates the message deterministically from message, nonce and
/// key — `sealed` names its result — and adds one tag's length.
#[verifier::external_body]
fn seal_bytes(m: &[u8], nonce: &[u8], key: &[u8]) -> (r: Vec<u8>)
    requires
        nonce@.len() == NONCE_BYTES,
        key@.len() == PSK_BYTES,
    ensures
        r@ == sealed(m@, nonce@, key@),
        r@.len() == m@.len() + MAC_BYTES,
{
    let n = so_box::Nonce::from_slice(nonce).unwrap();
    let k = so_box::PrecomputedKey::from_slice(key).unwrap();
    so_box::seal_precomputed(m, &n, &k)
}

/// Relies on sodiumoxide's `open_precomputed`: it returns a plaintext
/// exactly when the ciphertext authenticates under the nonce and key.
/// On success, re-sealing the returned plaintext reproduces the
/// ciphertext byte for byte, and every ciphertext `seal_precomputed`
/// makes under this nonce and key opens to the plaintext it sealed.
#[verifier::external_body]
fn open_bytes(c: &[u8], nonce: &[u8], key: &[u8]) -> (r: Option<Vec<u8>>)
    requires
        nonce@.len() == NONCE_BYTES,
        key@.len() == PSK_BYTES,
    ensures
        match r {
            Some(q) => c@ == sealed(q@, nonce@, key@) && (forall|p: Seq<u8>|
                c@ == sealed(p, nonce@, key@) ==> q@ == p),
            None => forall|p: Seq<u8>| c@ != sealed(p, nonce@, key@),
        },
{
    let n = so_box::Nonce::from_slice(nonce).unwrap();
    let k = so_box::PrecomputedKey::from_slice(key).unwrap();
    match so_box::open_precomputed(c, &n, &k) {
        Ok(p) => Some(p),
        Err(()) => None,
    }
}

/// Generate a random preshared key of the required length. Fails only
/// if the crypto backend cannot be readied.
pub fn gen_random_psk() -> (r: Result<Vec<u8>, Error>)
    ensures
        match r {
            Ok(k) => k@.len() == PSK_BYTES,
            Err(e) => e == Error::CryptoInitFailed,
        },
{
    if !crypto_init() {
        return Err(Error::CryptoInitFailed);
    }
    Ok(random_bytes(PSK_BYTES))
}

/// Encrypt `data` under a fresh random nonce and the preshared key.
/// Returns the nonce and the ciphertext.
///
/// A plaintext over the fixed ceiling fails with the size-limit error
/// before any cryptographic work; a key of the wrong length fails with
/// the invalid-key error; otherwise the call succeeds unless the
/// backend cannot be readied, and the ciphertext is exactly the sealing
/// of `data` under the returned nonce and the key.
pub fn enc(data: &[u8], psk: &[u8]) -> (r: Result<(Vec<u8>, Vec<u8>), Error>)
    ensures
        match r {
            Ok((nonce, cipher)) => {
                &&& data@.len() <= MAX_PLAINTEXT
                &&& psk@.len() == PSK_BYTES
                &&& nonce@.len() == NONCE_BYTES
                &&& cipher@ == sealed(data@, nonce@, psk@)
                &&& cipher@.len() == data@.len() + MAC_BYTES
            },
            Err(e) => {
                ||| e == Error::CryptoInitFailed
                ||| (e == Error::MessageTooLarge && data@.len() > MAX_PLAINTEXT)
                ||| (e == Error::InvalidPresharedKey && data@.len() <= MAX_PLAINTEXT && psk@.len()
                    != PSK_BYTES)
            },
        },
{
    if !crypto_init() {
        return Err(Error::CryptoInitFailed);
    }
    if data.len() > MAX_PLAINTEXT {
        return Err(Error::MessageTooLarge);
    }
    if psk.len() != PSK_BYTES {
        return Err(Error::InvalidPresharedKey);
    }
    let nonce = gen_nonce_bytes();
    let cipher = seal_bytes(data, nonce.as_slice(), psk);
    Ok((nonce, cipher))
}

/// Decrypt a ciphertext with its nonce and the preshared key.
///
/// A nonce of the wrong length fails with the invalid-nonce error and a
/// key of the wrong length with the invalid-key error; a ciphertext
/// that is not the sealing of any plaintext under this nonce and key
/// fails with the authentication error — the three are never conflated.
/// On success the ciphertext is exactly the sealing of the returned
/// plaintext, so a genuine ciphertext always opens to what was sealed.
pub fn dec(data: &[u8], nonce: &[u8], psk: &[u8]) -> (r: Result<Vec<u8>, Error>)
    ensures
        match r {
            Ok(p) => {
                &&& nonce@.len() == NONCE_BYTES
                &&& psk@.len() == PSK_BYTES
                &&& data@ == sealed(p@, nonce@, psk@)
            },
            Err(e) => {
                ||| e == Error::CryptoInitFailed
                ||| (e == Error::InvalidNonce && nonce@.len() != NONCE_BYTES)
                ||| (e == Error::InvalidPresharedKey && nonce@.len() == NONCE_BYTES && psk@.len()
                    != PSK_BYTES)
                ||| (e == Error::FailedToDecrypt && nonce@.len() == NONCE_BYTES && psk@.len()
                    == PSK_BYTES && !(exists|p: Seq<u8>| data@ == sealed(p, nonce@, psk@)))
            },
        },
        forall|p: Seq<u8>|
            (nonce@.len() == NONCE_BYTES && psk@.len() == PSK_BYTES && data@ == sealed(
                p,
                nonce@,
                psk@,
            )) ==> ((r matches Ok(q) && q@ == p) || r == Err::<Vec<u8>, Error>(
                Error::CryptoInitFailed,
            )),
{
    if !crypto_init() {
        return Err(Error::CryptoInitFailed);
    }
    if nonce.len() != NONCE_BYTES {
        return Err(Error::InvalidNonce);
    }
    if psk.len() != PSK_BYTES {
        return Err(Error::InvalidPresharedKey);
    }
    match open_bytes(data, nonce, psk) {
        Some(p) => Ok(p),
        None => Err(Error::FailedToDecrypt),
    }
}

} // verus!
