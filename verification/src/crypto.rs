//! The cryptographic primitives, through outside crates.
//!
//! Sealing is authenticated encryption (ChaCha20-Poly1305-IETF with a 12-byte
//! nonce; the X variant with a 24-byte nonce for connect tokens). A sealed
//! message is the ciphertext followed by the 16-byte tag. What the ciphers
//! return is a function of key, nonce, associated data and message alone, so
//! it is named here (`sealed_of`, `xsealed_of`) rather than written out.

use vstd::prelude::*;
use chacha20poly1305::aead::{Aead, KeyInit, Payload};
use chacha20poly1305::{ChaCha20Poly1305, XChaCha20Poly1305, Key, Nonce, XNonce};

verus! {

/// Key length in bytes.
pub const KEY: usize = 32;

/// Tag (MAC) length in bytes.
pub const HMAC: usize = 16;

/// Nonce length of the plain cipher in bytes.
pub const NONCE: usize = 12;

/// Nonce length of the X variant in bytes.
pub const XNONCE: usize = 24;

/// What `ChaCha20Poly1305::encrypt` returns: ciphertext then tag.
pub uninterp spec fn sealed_of(k: Seq<u8>, n: Seq<u8>, ad: Seq<u8>, m: Seq<u8>) -> Seq<u8>;

/// What `XChaCha20Poly1305::encrypt` returns: ciphertext then tag.
pub uninterp spec fn xsealed_of(k: Seq<u8>, n: Seq<u8>, ad: Seq<u8>, m: Seq<u8>) -> Seq<u8>;

/// Relies on `chacha20poly1305::ChaCha20Poly1305::encrypt`: the result is the
/// ciphertext followed by the 16-byte Poly1305 tag, a function of key, nonce,
/// associated data and message alone; it succeeds on every message far below
/// the cipher's block-count limit, as all admitted here are.
#[verifier::external_body]
pub fn aead_seal(k: &[u8], n: &[u8], ad: &[u8], m: &[u8]) -> (r: Vec<u8>)
    requires
        k@.len() == 32,
        n@.len() == 12,
        m@.len() <= 0x10_0000,
        ad@.len() <= 0x10_0000,
    ensures
        r@ == sealed_of(k@, n@, ad@, m@),
        r@.len() == m@.len() + 16,
{
    let cipher = ChaCha20Poly1305::new(Key::from_slice(k));
    cipher.encrypt(Nonce::from_slice(n), Payload { msg: m, aad: ad }).unwrap()
}

/// Relies on `chacha20poly1305::ChaCha20Poly1305::decrypt`: it inverts
/// `encrypt` under the same key, nonce and associated data (the crate
/// documents the round trip), and on success the plaintext is 16 bytes
/// shorter than its input. Success comes only from a valid seal: decryption
/// accepts exactly the inputs whose tag is the MAC of the ciphertext, and
/// encrypting the recovered plaintext applies the same keystream and the
/// same MAC, reproducing the input.
#[verifier::external_body]
pub fn aead_open(k: &[u8], n: &[u8], ad: &[u8], c: &[u8]) -> (r: Option<Vec<u8>>)
    requires
        k@.len() == 32,
        n@.len() == 12,
    ensures
        r is Some ==> c@.len() >= 16 && r.unwrap()@.len() == c@.len() - 16,
        r is Some ==> c@ == sealed_of(k@, n@, ad@, r.unwrap()@),
        forall|m: Seq<u8>|
            c@ == #[trigger] sealed_of(k@, n@, ad@, m) ==> r is Some && r.unwrap()@ == m,
{
    let cipher = ChaCha20Poly1305::new(Key::from_slice(k));
    cipher.decrypt(Nonce::from_slice(n), Payload { msg: c, aad: ad }).ok()
}

/// Relies on `chacha20poly1305::XChaCha20Poly1305::encrypt`, as `aead_seal`
/// relies on the plain variant.
#[verifier::external_body]
pub fn xaead_seal(k: &[u8], n: &[u8], ad: &[u8], m: &[u8]) -> (r: Vec<u8>)
    requires
        k@.len() == 32,
        n@.len() == 24,
        m@.len() <= 0x10_0000,
        ad@.len() <= 0x10_0000,
    ensures
        r@ == xsealed_of(k@, n@, ad@, m@),
        r@.len() == m@.len() + 16,
{
    let cipher = XChaCha20Poly1305::new(Key::from_slice(k));
    cipher.encrypt(XNonce::from_slice(n), Payload { msg: m, aad: ad }).unwrap()
}

/// Relies on `chacha20poly1305::XChaCha20Poly1305::decrypt`, as `aead_open`
/// relies on the plain variant, success only from a valid seal included.
#[verifier::external_body]
pub fn xaead_open(k: &[u8], n: &[u8], ad: &[u8], c: &[u8]) -> (r: Option<Vec<u8>>)
    requires
        k@.len() == 32,
        n@.len() == 24,
    ensures
        r is Some ==> c@.len() >= 16 && r.unwrap()@.len() == c@.len() - 16,
        r is Some ==> c@ == xsealed_of(k@, n@, ad@, r.unwrap()@),
        forall|m: Seq<u8>|
            c@ == #[trigger] xsealed_of(k@, n@, ad@, m) ==> r is Some && r.unwrap()@ == m,
{
    let cipher = XChaCha20Poly1305::new(Key::from_slice(k));
    cipher.decrypt(XNonce::from_slice(n), Payload { msg: c, aad: ad }).ok()
}

/// Relies on `rand::random`: a value drawn from the standard distribution.
/// Nothing can be promised of a random value.
pub assume_specification<T>[ rand::random::<T> ]() -> (r: T)
    where
        rand::distributions::Standard: rand::distributions::Distribution<T>,
;

/// A fresh random 32-byte key.
pub fn keygen() -> (r: Vec<u8>)
    ensures
        r@.len() == 32,
{
    let k: [u8; 32] = rand::random();
    vstd::slice::slice_to_vec(vstd::array::array_as_slice(&k))
}

/// A fresh random 24-byte nonce for connect tokens.
pub fn nonce_gen() -> (r: Vec<u8>)
    ensures
        r@.len() == 24,
{
    let n: [u8; 24] = rand::random();
    vstd::slice::slice_to_vec(vstd::array::array_as_slice(&n))
}

} // verus!
