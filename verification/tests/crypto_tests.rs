use lowkey::crypto::{decrypt, encrypt};
use lowkey::errors::StegoError;

#[test]
fn test_encrypt_decrypt() {
    let message = b"Hello, World!";
    let encrypted = encrypt(message, "default-key").unwrap();
    let decrypted = decrypt(&encrypted, "default-key").unwrap();
    assert_eq!(message, &decrypted[..]);
}

#[test]
fn test_encrypt_decrypt_with_custom_key() {
    let message = b"Hello, World!";
    let custom_key = "my-custom-password";
    let encrypted = encrypt(message, custom_key).unwrap();
    let decrypted = decrypt(&encrypted, custom_key).unwrap();
    assert_eq!(message, &decrypted[..]);
}

#[test]
fn test_decrypt_with_wrong_key() {
    let message = b"Hello, World!";
    let key1 = "correct-password";
    let key2 = "wrong-password";
    let encrypted = encrypt(message, key1).unwrap();
    let result = decrypt(&encrypted, key2);
    assert!(result.is_err());
}

#[test]
fn test_decrypt_invalid_data() {
    let result = decrypt(&[0u8; 10], "any-key");
    assert!(result.is_err());
}

#[test]
fn encrypt_layout_nonce_ciphertext_tag() {
    let message = b"abc";
    let encrypted = encrypt(message, "k").unwrap();
    assert_eq!(encrypted.len(), 3 + 28);
}

#[test]
fn encrypt_empty_payload_roundtrip() {
    let encrypted = encrypt(&[], "k").unwrap();
    assert_eq!(encrypted.len(), 28);
    let decrypted = decrypt(&encrypted, "k").unwrap();
    assert!(decrypted.is_empty());
}

#[test]
fn decrypt_short_body_is_malformed() {
    let result = decrypt(&[0u8; 27], "k");
    assert_eq!(result, Err(StegoError::MalformedBody { length: 27 }));
}

#[test]
fn decrypt_tampered_body_is_invalid_ciphertext() {
    let mut encrypted = encrypt(b"payload", "k").unwrap();
    let last = encrypted.len() - 1;
    encrypted[last] ^= 1;
    let result = decrypt(&encrypted, "k");
    assert_eq!(result, Err(StegoError::InvalidCiphertext));
}

#[test]
fn wrong_key_error_is_invalid_ciphertext() {
    let encrypted = encrypt(b"payload", "k1").unwrap();
    let result = decrypt(&encrypted, "k2");
    assert_eq!(result, Err(StegoError::InvalidCiphertext));
}
