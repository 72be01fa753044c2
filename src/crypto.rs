//! The symmetric primitive: AES-256-GCM under a caller-chosen nonce, and the
//! unpadded base64 transport encoding that every stored ciphertext goes through.

use aes_gcm::aead::Aead;
use aes_gcm::{Aes256Gcm, KeyInit, Nonce};
use base64::engine::general_purpose;
use base64::Engine;
use rand::distributions::Distribution;
use rand::distributions::Uniform;
use rand_core::{OsRng, RngCore};
use vstd::prelude::*;

verus! {

/// Length in bytes of an AES-256 key.
pub const KEY_LEN: usize = 32;

/// Length in bytes of an AES-GCM nonce.
pub const NONCE_LEN: usize = 12;

/// Length in bytes of the authentication tag appended by AES-GCM.
pub const TAG_LEN: usize = 16;

/// Number of random bytes behind a dummy message.
pub const DEFAULT_RANDOM_LEN: usize = 32;

/// Longest plaintext that AES-GCM accepts.
pub const PLAIN_MAX: u64 = 68719476736;

/// What AES-256-GCM produces for `plain` under `key` and `nonce`: the
/// encrypted bytes followed by the tag.
pub uninterp spec fn aes_gcm_seal(key: Seq<u8>, nonce: Seq<u8>, plain: Seq<u8>) -> Seq<u8>;

/// The unpadded standard base64 text of `bytes`, as ASCII bytes.
pub uninterp spec fn base64_of(bytes: Seq<u8>) -> Seq<u8>;

/// The transport form of a sealed token: base64 of its AES-GCM ciphertext.
pub open spec fn token_of(key: Seq<u8>, nonce: Seq<u8>, plain: Seq<u8>) -> Seq<u8> {
    base64_of(aes_gcm_seal(key, nonce, plain))
}

/// The all-zero nonce of the deterministic modes.
pub open spec fn zero_nonce() -> Seq<u8> {
    Seq::new(NONCE_LEN as nat, |i: int| 0u8)
}

/// Relies on `Aes256Gcm::generate_key` over `OsRng`: a fresh random 32-byte key.
#[verifier::external_body]
pub(crate) fn generate_key() -> (r: Vec<u8>)
    ensures
        r@.len() == KEY_LEN,
{
    Aes256Gcm::generate_key(&mut OsRng).to_vec()
}

/// Relies on `RngCore::fill_bytes` of `OsRng`: `len` random bytes.
#[verifier::external_body]
pub(crate) fn random_bytes(len: usize) -> (r: Vec<u8>)
    ensures
        r@.len() == len,
{
    let mut buffer = vec![0u8; len];
    OsRng.fill_bytes(&mut buffer);
    buffer
}

/// Relies on rand's `Uniform::new(low, high)` sampled with `OsRng`: a value in
/// `[low, high)`; `Uniform::new` panics unless `low < high`.
#[verifier::external_body]
pub(crate) fn uniform_between(low: u64, high: u64) -> (r: u64)
    requires
        low < high,
    ensures
        low <= r < high,
{
    Uniform::new(low, high).sample(&mut OsRng)
}

/// Relies on `Aes256Gcm::new_from_slice` and `Aead::encrypt`: the key must be
/// 32 bytes and the plaintext at most 2^36 bytes; the output is the
/// ciphertext followed by the 16-byte tag.
#[verifier::external_body]
fn aes_seal(key: &Vec<u8>, nonce: &Vec<u8>, plain: &Vec<u8>) -> (r: Option<Vec<u8>>)
    requires
        nonce@.len() == NONCE_LEN,
    ensures
        r is Some <==> (key@.len() == KEY_LEN && plain@.len() <= PLAIN_MAX),
        r matches Some(c) ==> c@ == aes_gcm_seal(key@, nonce@, plain@) && c@.len() == plain@.len()
            + TAG_LEN,
{
    let aes = match Aes256Gcm::new_from_slice(key) {
        Ok(aes) => aes,
        Err(_) => return None,
    };
    aes.encrypt(Nonce::from_slice(nonce), plain.as_slice()).ok()
}

/// Relies on `Aes256Gcm::new_from_slice` and `Aead::decrypt`: decryption
/// succeeds exactly on the output of encryption under the same key and
/// nonce, and then gives back that plaintext.
#[verifier::external_body]
fn aes_open(key: &Vec<u8>, nonce: &Vec<u8>, sealed: &Vec<u8>) -> (r: Option<Vec<u8>>)
    requires
        nonce@.len() == NONCE_LEN,
    ensures
        r matches Some(p) ==> key@.len() == KEY_LEN && aes_gcm_seal(key@, nonce@, p@) == sealed@,
        forall|p: Seq<u8>|
            key@.len() == KEY_LEN && p.len() <= PLAIN_MAX && #[trigger] aes_gcm_seal(key@, nonce@, p)
                == sealed@ ==> r is Some && r->0@ == p,
{
    let aes = match Aes256Gcm::new_from_slice(key) {
        Ok(aes) => aes,
        Err(_) => return None,
    };
    aes.decrypt(Nonce::from_slice(nonce), sealed.as_slice()).ok()
}

/// Relies on base64's `STANDARD_NO_PAD` engine: `encode`.
#[verifier::external_body]
fn base64_encode(bytes: &Vec<u8>) -> (r: Vec<u8>)
    ensures
        r@ == base64_of(bytes@),
{
    general_purpose::STANDARD_NO_PAD.encode(bytes).into_bytes()
}

/// Relies on base64's `STANDARD_NO_PAD` engine: `decode` accepts exactly the
/// canonical unpadded encodings (no padding, no stray trailing bits) and
/// inverts `encode` on them.
#[verifier::external_body]
fn base64_decode(text: &Vec<u8>) -> (r: Option<Vec<u8>>)
    ensures
        r matches Some(b) ==> base64_of(b@) == text@,
        forall|b: Seq<u8>| #[trigger] base64_of(b) == text@ ==> r is Some && r->0@ == b,
{
    general_purpose::STANDARD_NO_PAD.decode(text).ok()
}

/// A new all-zero nonce.
pub fn new_zero_nonce() -> (r: Vec<u8>)
    ensures
        r@ == zero_nonce(),
{
    let r = vec![0u8; NONCE_LEN];
    assert(r@ =~= zero_nonce());
    r
}

/// A fresh random nonce.
pub fn new_random_nonce() -> (r: Vec<u8>)
    ensures
        r@.len() == NONCE_LEN,
{
    random_bytes(NONCE_LEN)
}

/// A fresh random message: the base64 text of 32 random bytes.
pub fn random_message() -> (r: Vec<u8>)
    ensures
        exists|b: Seq<u8>| b.len() == DEFAULT_RANDOM_LEN && r@ == base64_of(b),
{
    let b = random_bytes(DEFAULT_RANDOM_LEN);
    base64_encode(&b)
}

/// A fresh random AES-256 key.
pub fn key_generate() -> (r: Vec<u8>)
    ensures
        r@.len() == KEY_LEN,
{
    generate_key()
}

/// Seals `plain` and encodes the result for storage.
pub fn seal_token(key: &Vec<u8>, nonce: &Vec<u8>, plain: &Vec<u8>) -> (r: Option<Vec<u8>>)
    requires
        nonce@.len() == NONCE_LEN,
    ensures
        r is Some <==> (key@.len() == KEY_LEN && plain@.len() <= PLAIN_MAX),
        r matches Some(c) ==> c@ == token_of(key@, nonce@, plain@),
{
    match aes_seal(key, nonce, plain) {
        Some(c) => Some(base64_encode(&c)),
        None => None,
    }
}

/// Decodes and opens a stored token; `None` when it is not the encoding of
/// a sealed plaintext under `key` and `nonce`.
pub fn open_token(key: &Vec<u8>, nonce: &Vec<u8>, token: &Vec<u8>) -> (r: Option<Vec<u8>>)
    requires
        nonce@.len() == NONCE_LEN,
    ensures
        r matches Some(p) ==> key@.len() == KEY_LEN && token_of(key@, nonce@, p@) == token@,
        forall|p: Seq<u8>|
            key@.len() == KEY_LEN && p.len() <= PLAIN_MAX && #[trigger] token_of(key@, nonce@, p)
                == token@ ==> r is Some && r->0@ == p,
{
    match base64_decode(token) {
        Some(sealed) => aes_open(key, nonce, &sealed),
        None => None,
    }
}

} // verus!
