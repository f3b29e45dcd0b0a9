//! The primitives of the vault format, called from their crates: PBKDF2, AES
//! in counter mode, HMAC, and the random source of salts.

use vstd::prelude::*;
use ctr::cipher::{KeyIvInit, StreamCipher};
use hmac::Mac;
use rand::RngCore;

verus! {

/// The key material that PBKDF2-HMAC-SHA256 derives.
pub uninterp spec fn pbkdf2_sha256_bytes(password: Seq<u8>, salt: Seq<u8>, rounds: u32, len: usize) -> Seq<u8>;

/// AES-256 in counter mode with a 128-bit big-endian counter, over `data`.
pub uninterp spec fn aes256_ctr_bytes(key: Seq<u8>, iv: Seq<u8>, data: Seq<u8>) -> Seq<u8>;

/// The HMAC-SHA256 code of `data`.
pub uninterp spec fn hmac_sha256_bytes(key: Seq<u8>, data: Seq<u8>) -> Seq<u8>;

/// `pbkdf2::pbkdf2_hmac` over SHA-256 fills a buffer of `len` bytes, a function
/// of the password, the salt and the number of rounds. The bound on `len` keeps
/// its 32-bit block counter from overflowing.
#[verifier::external_body]
pub(crate) fn pbkdf2_sha256(password: &[u8], salt: &[u8], rounds: u32, len: usize) -> (r: Vec<u8>)
    requires
        len <= 0xffff,
    ensures
        r@ == pbkdf2_sha256_bytes(password@, salt@, rounds, len),
        r@.len() == len,
{
    let mut out: Vec<u8> = vec![0u8; len];
    pbkdf2::pbkdf2_hmac::<sha2::Sha256>(password, salt, rounds, &mut out);
    out
}

/// `apply_keystream` of a fresh `ctr::Ctr128BE<aes::Aes256>` combines each byte
/// by exclusive or with a key stream that depends on the key, the counter start
/// and the byte's position alone. So it keeps the length, and doing it again
/// with the same key and counter start undoes it. A fresh 128-bit counter never
/// runs out.
#[verifier::external_body]
pub(crate) fn aes256_ctr(key: &[u8], iv: &[u8], data: Vec<u8>) -> (r: Vec<u8>)
    requires
        key@.len() == 32,
        iv@.len() == 16,
    ensures
        r@ == aes256_ctr_bytes(key@, iv@, data@),
        r@.len() == data@.len(),
        aes256_ctr_bytes(key@, iv@, r@) == data@,
{
    let mut out: Vec<u8> = data;
    ctr::Ctr128BE::<aes::Aes256>::new_from_slices(key, iv).expect("key lengths").apply_keystream(&mut out);
    out
}

/// `Hmac<Sha256>` of the `hmac` crate, keyed, fed with `data` and finalized:
/// a code of 32 bytes. Keys of every length are taken.
#[verifier::external_body]
pub(crate) fn hmac_sha256(key: &[u8], data: &[u8]) -> (r: Vec<u8>)
    ensures
        r@ == hmac_sha256_bytes(key@, data@),
        r@.len() == 32,
{
    let mut mac = hmac::Hmac::<sha2::Sha256>::new_from_slice(key).expect("hmac key");
    mac.update(data);
    mac.finalize().into_bytes().to_vec()
}

/// `verify_slice` of `Hmac<Sha256>`: succeeds exactly where `tag` is the whole
/// code of `data`.
#[verifier::external_body]
pub(crate) fn hmac_sha256_verifies(key: &[u8], data: &[u8], tag: &[u8]) -> (r: bool)
    ensures
        r == (tag@ == hmac_sha256_bytes(key@, data@)),
{
    let mut mac = hmac::Hmac::<sha2::Sha256>::new_from_slice(key).expect("hmac key");
    mac.update(data);
    mac.verify_slice(tag).is_ok()
}

/// `fill_bytes` of `rand::thread_rng`: some `n` bytes. Which ones is left to
/// chance.
#[verifier::external_body]
pub(crate) fn random_bytes(n: usize) -> (r: Vec<u8>)
    ensures
        r@.len() == n,
{
    let mut out: Vec<u8> = vec![0u8; n];
    rand::thread_rng().fill_bytes(&mut out);
    out
}

} // verus!
