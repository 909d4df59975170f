//! Symmetric keys: authenticated encryption of node headers and node
//! bodies.

use vstd::prelude::*;
use aes_gcm::aead::{Aead, KeyInit};
use aes_gcm::{Aes256Gcm, Nonce};
use crate::error::FsError;
use crate::ipld::option_bytes;

verus! {

/// Number of bytes in a nonce.
pub const NONCE_SIZE: usize = 12;

/// Number of bytes in a key.
pub const KEY_SIZE: usize = 32;

/// A key for AES-GCM with 256 bits.
#[derive(Clone, Copy, Debug, PartialEq, Eq)]
pub struct Key(pub [u8; 32]);

/// What AES-256-GCM makes of `data` under a key and a nonce, with no
/// associated data: the ciphertext followed by the tag, or `None` where the
/// cipher refuses.
pub uninterp spec fn aes_gcm_sealed(key: Seq<u8>, nonce: Seq<u8>, data: Seq<u8>) -> Option<Seq<u8>>;

/// What AES-256-GCM reads out of a ciphertext with its tag under a key and
/// a nonce, with no associated data: the plaintext, or `None` where the tag
/// does not fit.
pub uninterp spec fn aes_gcm_opened(key: Seq<u8>, nonce: Seq<u8>, sealed: Seq<u8>) -> Option<
    Seq<u8>,
>;

/// Calls `Aes256Gcm::encrypt` of aes-gcm, on a cipher made from the key with
/// `new_from_slice`. The result is the ciphertext with the tag, `None` where
/// the cipher reported an error; what it gives, `decrypt` under the same key
/// and nonce opens to the data again.
#[verifier::external_body]
fn aes_gcm_seal(key: &[u8; 32], nonce: &[u8; 12], data: &[u8]) -> (r: Option<Vec<u8>>)
    ensures
        option_bytes(r) == aes_gcm_sealed(key@, nonce@, data@),
        r matches Some(sealed) ==> aes_gcm_opened(key@, nonce@, sealed@) == Some(data@),
{
    Aes256Gcm::new_from_slice(key).ok()?.encrypt(Nonce::from_slice(nonce), data).ok()
}

/// Calls `Aes256Gcm::decrypt` of aes-gcm, on a cipher made from the key with
/// `new_from_slice`. The result is the plaintext, `None` where the cipher
/// reported an error.
#[verifier::external_body]
fn aes_gcm_open(key: &[u8; 32], nonce: &[u8; 12], sealed: &[u8]) -> (r: Option<Vec<u8>>)
    ensures
        option_bytes(r) == aes_gcm_opened(key@, nonce@, sealed@),
{
    Aes256Gcm::new_from_slice(key).ok()?.decrypt(Nonce::from_slice(nonce), sealed).ok()
}

/// The blob that encryption gives: the nonce, then the ciphertext and the
/// tag.
pub open spec fn encrypted(key: Key, nonce: Seq<u8>, data: Seq<u8>) -> Option<Seq<u8>> {
    match aes_gcm_sealed(key.0@, nonce, data) {
        Some(sealed) => Some(nonce + sealed),
        None => None,
    }
}

/// The plaintext of a blob: what its ciphertext opens to under the nonce in
/// its first twelve bytes.
pub open spec fn decrypted(key: Key, blob: Seq<u8>) -> Option<Seq<u8>> {
    if blob.len() < NONCE_SIZE {
        None
    } else {
        aes_gcm_opened(key.0@, blob.subrange(0, 12), blob.subrange(12, blob.len() as int))
    }
}

/// A result of bytes as contracts see it, with `Decrypt` for a refusal of
/// the cipher.
pub open spec fn cipher_result(r: Option<Seq<u8>>) -> Result<Seq<u8>, FsError> {
    match r {
        Some(bytes) => Ok(bytes),
        None => Err(FsError::Decrypt),
    }
}

impl Key {
    /// Makes a key of the given bytes.
    pub fn new(bytes: [u8; 32]) -> (r: Key)
        ensures
            r.0 == bytes,
    {
        Key(bytes)
    }

    /// The bytes of the key.
    pub fn as_bytes(&self) -> (r: &[u8; 32])
        ensures
            *r == self.0,
    {
        &self.0
    }

    /// Encrypts `data` under the key and the nonce. The blob that comes out
    /// decrypts to `data` under the same key.
    pub fn encrypt(&self, nonce: &[u8; 12], data: &[u8]) -> (r: Result<Vec<u8>, FsError>)
        ensures
            crate::store::bytes_result(r) == cipher_result(encrypted(*self, nonce@, data@)),
            r matches Ok(blob) ==> decrypted(*self, blob@) == Some(data@),
    {
        match aes_gcm_seal(&self.0, nonce, data) {
            Some(sealed) => {
                let mut blob: Vec<u8> = Vec::new();
                let mut i: usize = 0;
                while i < 12
                    invariant
                        i <= 12,
                        blob@ == nonce@.subrange(0, i as int),
                    decreases 12 - i,
                {
                    blob.push(nonce[i]);
                    proof {
                        assert(blob@ =~= nonce@.subrange(0, i + 1));
                    }
                    i += 1;
                }
                let mut sealed = sealed;
                let ghost sealed_bytes = sealed@;
                blob.append(&mut sealed);
                proof {
                    assert(nonce@.subrange(0, 12) =~= nonce@);
                    assert(blob@ =~= nonce@ + sealed_bytes);
                    assert(blob@.subrange(0, 12) =~= nonce@);
                    assert(blob@.subrange(12, blob@.len() as int) =~= sealed_bytes);
                }
                Ok(blob)
            },
            None => Err(FsError::Decrypt),
        }
    }

    /// Decrypts a blob that `encrypt` made under the key.
    pub fn decrypt(&self, blob: &[u8]) -> (r: Result<Vec<u8>, FsError>)
        ensures
            crate::store::bytes_result(r) == cipher_result(decrypted(*self, blob@)),
    {
        if blob.len() < 12 {
            return Err(FsError::Decrypt);
        }
        let mut nonce: [u8; 12] = vstd::array::array_fill_for_copy_types::<u8, 12>(0u8);
        let mut i: usize = 0;
        while i < 12
            invariant
                i <= 12,
                blob@.len() >= 12,
                forall|k: int| 0 <= k < i ==> nonce@[k] == blob@[k],
            decreases 12 - i,
        {
            nonce[i] = blob[i];
            i += 1;
        }
        proof {
            assert(nonce@ =~= blob@.subrange(0, 12));
        }
        let sealed = vstd::slice::slice_subrange(blob, 12, blob.len());
        match aes_gcm_open(&self.0, &nonce, sealed) {
            Some(data) => Ok(data),
            None => Err(FsError::Decrypt),
        }
    }
}

} // verus!
