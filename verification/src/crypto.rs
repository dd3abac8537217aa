//! Message encryption: a 32-byte key is derived from a passphrase, and the
//! payload is sealed with an AEAD cipher. The body layout is
//! `nonce (12 bytes) ‖ ciphertext ‖ tag (16 bytes)`.

use vstd::prelude::*;

use crate::common::append_bytes;
use crate::errors::StegoError;
use chacha20poly1305::aead::{Aead, AeadCore, KeyInit};
use chacha20poly1305::ChaCha20Poly1305;
use sha2::Digest;

verus! {

/// The 32-byte digest that the key-derivation hash assigns to a passphrase.
/// The digest is a function of the passphrase characters alone.
pub uninterp spec fn key_digest(key: Seq<char>) -> Seq<u8>;

/// The plaintext that AEAD decryption returns for this key, nonce and
/// ciphertext-with-tag, or `None` when authentication fails. The outcome is
/// a function of the three arguments alone.
pub uninterp spec fn aead_open(key: Seq<u8>, nonce: Seq<u8>, ciphertext: Seq<u8>) -> Option<
    Seq<u8>,
>;

/// Relies on sha2's `Sha256`: hashing the passphrase bytes gives a 32-byte
/// digest that depends on the passphrase alone.
#[verifier::external_body]
pub(crate) fn get_key_bytes(key: &str) -> (r: Vec<u8>)
    ensures
        r@ == key_digest(key@),
        r@.len() == 32,
{
    let mut hasher = sha2::Sha256::new();
    hasher.update(key.as_bytes());
    hasher.finalize().to_vec()
}

/// Relies on chacha20poly1305's `ChaCha20Poly1305::encrypt` with a fresh
/// random nonce from `generate_nonce`: the ciphertext is the plaintext's
/// length plus a 16-byte trailing tag, decrypting it with the same key and
/// nonce gives the plaintext back, and encryption only refuses plaintexts of
/// at least 64 * (2^32 - 1) bytes.
#[verifier::external_body]
fn aead_seal(key: &[u8], plaintext: &[u8]) -> (r: Result<(Vec<u8>, Vec<u8>), StegoError>)
    requires
        key@.len() == 32,
    ensures
        r matches Ok(p) ==> p.0@.len() == 12 && p.1@.len() == plaintext@.len() + 16 && aead_open(
            key@,
            p.0@,
            p.1@,
        ) == Some(plaintext@),
        plaintext@.len() <= u32::MAX ==> r matches Ok(_),
        r matches Err(e) ==> e == StegoError::EncryptionFailed,
{
    let cipher = ChaCha20Poly1305::new(chacha20poly1305::Key::from_slice(key));
    let nonce = ChaCha20Poly1305::generate_nonce(&mut chacha20poly1305::aead::OsRng);
    match cipher.encrypt(&nonce, plaintext) {
        Ok(ciphertext) => Ok((nonce.to_vec(), ciphertext)),
        Err(_) => Err(StegoError::EncryptionFailed),
    }
}

/// Relies on chacha20poly1305's `ChaCha20Poly1305::decrypt`: it verifies the
/// trailing 16-byte tag and returns the plaintext only when it is authentic;
/// the outcome is a function of key, nonce and ciphertext alone.
#[verifier::external_body]
fn aead_open_exec(key: &[u8], nonce: &[u8], ciphertext: &[u8]) -> (r: Result<Vec<u8>, StegoError>)
    requires
        key@.len() == 32,
        nonce@.len() == 12,
    ensures
        r matches Ok(p) ==> aead_open(key@, nonce@, ciphertext@) == Some(p@) && p@.len() + 16
            == ciphertext@.len(),
        r matches Err(e) ==> aead_open(key@, nonce@, ciphertext@) is None && e
            == StegoError::InvalidCiphertext,
{
    let cipher = ChaCha20Poly1305::new(chacha20poly1305::Key::from_slice(key));
    match cipher.decrypt(chacha20poly1305::Nonce::from_slice(nonce), ciphertext) {
        Ok(plaintext) => Ok(plaintext),
        Err(_) => Err(StegoError::InvalidCiphertext),
    }
}

/// Splits an encrypted body into nonce and ciphertext and asks what AEAD
/// decryption with the passphrase's key makes of it. Meaningful for
/// `body.len() >= 28`.
pub open spec fn open_body(key: Seq<char>, body: Seq<u8>) -> Option<Seq<u8>> {
    aead_open(key_digest(key), body.subrange(0, 12), body.subrange(12, body.len() as int))
}

/// What [`decrypt`] returns for an encrypted body: the body must be long
/// enough for a nonce and a tag, and the cipher must accept it.
pub open spec fn decrypt_spec(body: Seq<u8>, key: Seq<char>) -> Result<Seq<u8>, StegoError> {
    if body.len() < 28 {
        Err(StegoError::MalformedBody { length: body.len() as usize })
    } else {
        match open_body(key, body) {
            Some(p) => Ok(p),
            None => Err(StegoError::InvalidCiphertext),
        }
    }
}

/// Encrypts `plaintext` under a key derived from the passphrase `key`.
/// Returns `nonce (12 bytes) ‖ ciphertext ‖ tag (16 bytes)`: a body that
/// [`decrypt`] with the same passphrase maps back to `plaintext`.
pub fn encrypt(plaintext: &[u8], key: &str) -> (r: Result<Vec<u8>, StegoError>)
    ensures
        r matches Ok(body) ==> body@.len() == plaintext@.len() + 28 && open_body(key@, body@)
            == Some(plaintext@) && decrypt_spec(body@, key@) == Ok::<_, StegoError>(plaintext@),
        plaintext@.len() <= u32::MAX ==> r matches Ok(_),
        r matches Err(e) ==> e == StegoError::EncryptionFailed,
{
    let key_bytes = get_key_bytes(key);
    match aead_seal(key_bytes.as_slice(), plaintext) {
        Ok((nonce, ciphertext)) => {
            let mut body: Vec<u8> = Vec::new();
            append_bytes(&mut body, nonce.as_slice());
            append_bytes(&mut body, ciphertext.as_slice());
            proof {
                assert(body@.subrange(0, 12) =~= nonce@);
                assert(body@.subrange(12, body@.len() as int) =~= ciphertext@);
            }
            Ok(body)
        },
        Err(e) => Err(e),
    }
}

/// Decrypts an encrypted body (`nonce ‖ ciphertext ‖ tag`) under a key
/// derived from the passphrase `key`. A body shorter than 28 bytes fails
/// fast with `MalformedBody`; a wrong key or any tampering fails with
/// `InvalidCiphertext`.
pub fn decrypt(encrypted_data: &[u8], key: &str) -> (r: Result<Vec<u8>, StegoError>)
    ensures
        r matches Ok(p) ==> decrypt_spec(encrypted_data@, key@) == Ok::<_, StegoError>(p@),
        r matches Err(e) ==> decrypt_spec(encrypted_data@, key@) == Err::<Seq<u8>, _>(e),
{
    if encrypted_data.len() < 28 {
        return Err(StegoError::MalformedBody { length: encrypted_data.len() });
    }
    let key_bytes = get_key_bytes(key);
    let nonce = vstd::slice::slice_subrange(encrypted_data, 0, 12);
    let ciphertext = vstd::slice::slice_subrange(encrypted_data, 12, encrypted_data.len());
    match aead_open_exec(key_bytes.as_slice(), nonce, ciphertext) {
        Ok(plaintext) => Ok(plaintext),
        Err(e) => Err(e),
    }
}

} // verus!
