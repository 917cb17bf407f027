//! The cryptographic primitives the library relies on: AES-256-GCM from
//! `aes-gcm`, SHA3-512 from `sha3`, and random bytes from `rand` and `fastrand`.

use vstd::prelude::*;
use aes_gcm::{AeadInOut, Aes256Gcm, KeyInit};
use rand::Rng;
use sha3::{Digest, Sha3_512};

verus! {

/// Longest plaintext (and ciphertext) AES-GCM accepts, in bytes (`aes_gcm::P_MAX`).
pub const GCM_P_MAX: u64 = 0xF_FFFF_FFE0;

/// Longest associated data AES-GCM accepts, in bytes (`aes_gcm::A_MAX`).
pub const GCM_A_MAX: u64 = 0x1FFF_FFFF_FFFF_FFFF;

/// The error value of the `aead` traits (`aes_gcm::Error`).
#[verifier::external_type_specification]
#[verifier::external_body]
pub struct ExAeadError(aes_gcm::Error);

/// AES-256-GCM encryption of `plaintext` under `key`, `nonce` and associated
/// data `aad`: the ciphertext followed by the 16-byte authentication tag.
pub uninterp spec fn aes256_gcm_seal(key: Seq<u8>, nonce: Seq<u8>, aad: Seq<u8>, plaintext: Seq<u8>) -> Seq<u8>;

/// AES-256-GCM decryption of `ciphertext` with authentication `tag`:
/// the plaintext when the tag is authentic, `None` otherwise.
pub uninterp spec fn aes256_gcm_open(key: Seq<u8>, nonce: Seq<u8>, aad: Seq<u8>, ciphertext: Seq<u8>, tag: Seq<u8>) -> Option<Seq<u8>>;

/// SHA3-512 digest of `data`.
pub uninterp spec fn sha3_512(data: Seq<u8>) -> Seq<u8>;

/// Encrypts `data` in place with AES-256-GCM (`Aes256Gcm::new` followed by
/// `AeadInOut::encrypt_inout_detached`) and returns the tag.
///
/// As the crate's source shows: it fails exactly when `data` is longer than
/// `P_MAX` or `aad` longer than `A_MAX`, leaving `data` untouched; otherwise
/// `data` holds the ciphertext and ciphertext and tag together are the named
/// encryption result.
#[verifier::external_body]
pub(crate) fn aes256_gcm_encrypt_in_place(
    key: &[u8; 32],
    nonce: &[u8; 12],
    aad: &[u8],
    data: &mut [u8],
) -> (r: Result<[u8; 16], aes_gcm::Error>)
    ensures
        final(data)@.len() == old(data)@.len(),
        r is Ok <==> (old(data)@.len() <= GCM_P_MAX && aad@.len() <= GCM_A_MAX),
        r matches Ok(tag) ==> final(data)@ + tag@ == aes256_gcm_seal(key@, nonce@, aad@, old(data)@),
        r is Err ==> final(data)@ == old(data)@,
{
    let cipher = Aes256Gcm::new(key.into());
    match cipher.encrypt_inout_detached(&(*nonce).into(), aad, data.into()) {
        Ok(tag) => Ok(tag.into()),
        Err(e) => Err(e),
    }
}

/// Decrypts `data` in place with AES-256-GCM (`Aes256Gcm::new` followed by
/// `AeadInOut::decrypt_inout_detached`), checking `tag`.
///
/// As the crate's source shows: it fails when `data` is longer than `P_MAX`,
/// `aad` longer than `A_MAX`, or the tag is not authentic, and then leaves
/// `data` untouched; otherwise `data` holds the plaintext. A ciphertext and
/// tag produced by encryption under the same key, nonce and associated data
/// decrypt to the plaintext that was encrypted.
#[verifier::external_body]
pub(crate) fn aes256_gcm_decrypt_in_place(
    key: &[u8; 32],
    nonce: &[u8; 12],
    aad: &[u8],
    data: &mut [u8],
    tag: &[u8; 16],
) -> (r: Result<(), aes_gcm::Error>)
    ensures
        final(data)@.len() == old(data)@.len(),
        r is Ok <==> {
            &&& old(data)@.len() <= GCM_P_MAX
            &&& aad@.len() <= GCM_A_MAX
            &&& aes256_gcm_open(key@, nonce@, aad@, old(data)@, tag@) is Some
        },
        r is Ok ==> final(data)@ == aes256_gcm_open(key@, nonce@, aad@, old(data)@, tag@)->0,
        r is Err ==> final(data)@ == old(data)@,
        forall|plaintext: Seq<u8>|
            #![trigger aes256_gcm_seal(key@, nonce@, aad@, plaintext)]
            old(data)@ + tag@ == aes256_gcm_seal(key@, nonce@, aad@, plaintext)
                && old(data)@.len() <= GCM_P_MAX && aad@.len() <= GCM_A_MAX
                ==> r is Ok && final(data)@ == plaintext,
{
    let cipher = Aes256Gcm::new(key.into());
    cipher.decrypt_inout_detached(&(*nonce).into(), aad, data.into(), &(*tag).into())
}

/// Fills `buf` with bytes from the thread-local generator (`rand::rng()` and
/// `Rng::fill_bytes`). The bytes are random: nothing is promised of them.
/// `rand::rng()` panics if the operating system cannot seed the generator.
#[verifier::external_body]
pub(crate) fn fill_random(buf: &mut [u8])
    ensures
        final(buf)@.len() == old(buf)@.len(),
{
    rand::rng().fill_bytes(buf);
}

/// One random byte from the whole `u8` range (`fastrand::u8(..)`).
#[verifier::external_body]
pub(crate) fn random_byte() -> u8 {
    fastrand::u8(..)
}

/// SHA3-512 digest of `data` (`Digest::digest` of `sha3::Sha3_512`).
#[verifier::external_body]
pub(crate) fn sha3_512_digest(data: &[u8]) -> (d: [u8; 64])
    ensures
        d@ == sha3_512(data@),
{
    Sha3_512::digest(data).into()
}

} // verus!
