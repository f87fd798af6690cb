use envelope::crypto::{decrypt_with, derive_key, encrypt_with, seal, CryptoError, KdfCost, KEY_LEN};
use envelope::header::EnvelopeFileHeader;

fn cost() -> KdfCost {
    KdfCost::reduced()
}

fn encrypt(header: &mut EnvelopeFileHeader, blob: &[u8], password: &[u8]) -> Result<Vec<u8>, CryptoError> {
    encrypt_with(header, blob, password, &cost())
}

fn decrypt(blob: &[u8], header: &EnvelopeFileHeader, password: &[u8]) -> Result<Vec<u8>, CryptoError> {
    decrypt_with(blob, header, password, &cost())
}

#[test]
fn test_derive_key_deterministic() {
    let password = b"password";
    let salt = [0x42; 16];

    let key1 = derive_key(password, &salt, &cost()).unwrap();
    let key2 = derive_key(password, &salt, &cost()).unwrap();

    assert_eq!(key1.as_slice(), key2.as_slice(), "same inputs should produce same key");
}

#[test]
fn test_derive_key_different_passwords() {
    let salt = [0x42; 16];

    let key1 = derive_key(b"password1", &salt, &cost()).unwrap();
    let key2 = derive_key(b"password2", &salt, &cost()).unwrap();

    assert_ne!(key1.as_slice(), key2.as_slice(), "different passwords should produce different keys");
}

#[test]
fn test_derive_key_different_salts() {
    let password = b"password";

    let key1 = derive_key(password, &[0x42; 16], &cost()).unwrap();
    let key2 = derive_key(password, &[0x99; 16], &cost()).unwrap();

    assert_ne!(key1.as_slice(), key2.as_slice(), "different salts should produce different keys");
}

#[test]
fn test_derive_key_length() {
    let key = derive_key(b"password", &[0x42; 16], &cost()).unwrap();
    assert_eq!(key.len(), KEY_LEN, "key should be correct length");
}

#[test]
fn test_derive_key_empty_password() {
    let key = derive_key(b"", &[0x42; 16], &cost()).unwrap();
    assert_eq!(key.len(), KEY_LEN, "should handle empty password");
}

#[test]
fn derive_key_refuses_short_salt_and_bad_cost() {
    assert_eq!(derive_key(b"pw", &[1u8; 7], &cost()), Err(CryptoError::KeyDerivationFailed));
    let bad = KdfCost { memory_kib: 4, time_cost: 1, parallelism: 1 };
    assert_eq!(derive_key(b"pw", &[1u8; 16], &bad), Err(CryptoError::KeyDerivationFailed));
}

#[test]
fn test_encrypt_succeeds() {
    let mut header = EnvelopeFileHeader::default();
    let plaintext = b"test data";
    let password = b"password";

    let result = encrypt(&mut header, plaintext, password);
    assert!(result.is_ok(), "encryption should succeed");
    let ciphertext = encrypt(&mut header, plaintext, password).unwrap();
    assert_ne!(ciphertext.as_slice(), plaintext, "ciphertext should differ from plaintext");
}

#[test]
fn test_encrypt_populates_header() {
    let mut header = EnvelopeFileHeader::default();
    let plaintext = b"test data";
    let password = b"password";

    let salt_before = header.argon_salt;
    let nonce_before = header.xchacha_nonce;

    encrypt(&mut header, plaintext, password).unwrap();

    assert_ne!(header.argon_salt, salt_before, "salt should be randomized");
    assert_ne!(header.xchacha_nonce, nonce_before, "nonce should be randomized");
}

#[test]
fn test_encrypt_nonce_randomness() {
    let plaintext = b"test data";
    let password = b"password";

    let mut header1 = EnvelopeFileHeader::default();
    let ciphertext1 = encrypt(&mut header1, plaintext, password).unwrap();

    let mut header2 = EnvelopeFileHeader::default();
    let ciphertext2 = encrypt(&mut header2, plaintext, password).unwrap();

    assert_ne!(ciphertext1, ciphertext2, "multiple encryptions should produce different outputs");
    assert_ne!(header1.xchacha_nonce, header2.xchacha_nonce, "nonces should be different");
}

#[test]
fn test_encrypt_empty_data() {
    let mut header = EnvelopeFileHeader::default();
    let result = encrypt(&mut header, &[], b"password");

    assert!(result.is_ok(), "should encrypt empty data");
    assert!(!result.unwrap().is_empty(), "ciphertext should include auth tag");
}

#[test]
fn test_encrypt_unicode_password() {
    let mut header = EnvelopeFileHeader::default();
    let plaintext = b"test data";
    let password = "pâsswörd🔐".as_bytes();

    let result = encrypt(&mut header, plaintext, password);
    assert!(result.is_ok(), "should handle unicode password");
}

#[test]
fn test_decrypt_wrong_password() {
    let mut header = EnvelopeFileHeader::default();
    let plaintext = b"test data";

    let ciphertext = encrypt(&mut header, plaintext, b"password").unwrap();
    let result = decrypt(&ciphertext, &header, b"wrong");

    assert!(result.is_err(), "should fail with wrong password");
    assert!(
        result.unwrap_err().to_string().contains("decryption failed"),
        "should indicate decryption failure"
    );
}

#[test]
fn test_decrypt_unsupported_version() {
    let mut header = EnvelopeFileHeader::default();
    let plaintext = b"test data";

    let ciphertext = encrypt(&mut header, plaintext, b"password").unwrap();
    header.version = 99;

    let result = decrypt(&ciphertext, &header, b"password");

    assert!(result.is_err(), "should fail with unsupported version");
    let err_msg = result.unwrap_err().to_string();
    assert!(err_msg.contains("unsupported envelope version"), "should mention version");
    assert!(err_msg.contains("99"), "should show unsupported version number");
}

#[test]
fn test_decrypt_corrupted_ciphertext() {
    let mut header = EnvelopeFileHeader::default();
    let plaintext = b"test data";

    let mut ciphertext = encrypt(&mut header, plaintext, b"password").unwrap();
    assert!(!ciphertext.is_empty());

    let mid = ciphertext.len() / 2;
    ciphertext[mid] ^= 0xFF;

    let result = decrypt(&ciphertext, &header, b"password");
    assert!(result.is_err(), "should fail with corrupted ciphertext");
}

#[test]
fn test_decrypt_wrong_salt() {
    let mut header = EnvelopeFileHeader::default();
    let plaintext = b"test data";

    let ciphertext = encrypt(&mut header, plaintext, b"password").unwrap();
    header.argon_salt[0] ^= 0xFF;

    let result = decrypt(&ciphertext, &header, b"password");
    assert!(result.is_err(), "should fail with tampered salt");
}

#[test]
fn test_decrypt_wrong_nonce() {
    let mut header = EnvelopeFileHeader::default();
    let plaintext = b"test data";

    let ciphertext = encrypt(&mut header, plaintext, b"password").unwrap();
    header.xchacha_nonce[0] ^= 0xFF;

    let result = decrypt(&ciphertext, &header, b"password");
    assert!(result.is_err(), "should fail with tampered nonce");
}

#[test]
fn test_decrypt_tampered_magic_in_aad() {
    let mut header = EnvelopeFileHeader::default();
    let plaintext = b"test data";

    let ciphertext = encrypt(&mut header, plaintext, b"password").unwrap();
    header.magic_number[0] ^= 0xFF;

    let result = decrypt(&ciphertext, &header, b"password");
    assert!(result.is_err(), "should fail with tampered magic (AAD binding)");
}

#[test]
fn test_decrypt_empty_ciphertext() {
    let header = EnvelopeFileHeader::default();
    let result = decrypt(&[], &header, b"password");

    assert!(result.is_err(), "should fail with empty ciphertext");
}

#[test]
fn test_decrypt_truncated_ciphertext() {
    let mut header = EnvelopeFileHeader::default();
    let plaintext = b"test data";

    let mut ciphertext = encrypt(&mut header, plaintext, b"password").unwrap();
    ciphertext.truncate(5);

    let result = decrypt(&ciphertext, &header, b"password");
    assert!(result.is_err(), "should fail with truncated ciphertext");
}

#[test]
fn test_encrypt_decrypt_roundtrip() {
    let mut header = EnvelopeFileHeader::default();
    let plaintext = b"test data";
    let password = b"password";

    let ciphertext = encrypt(&mut header, plaintext, password).unwrap();
    let decrypted = decrypt(&ciphertext, &header, password).unwrap();

    assert_eq!(decrypted.as_slice(), plaintext, "roundtrip should preserve data");
}

#[test]
fn test_roundtrip_empty_data() {
    let mut header = EnvelopeFileHeader::default();
    let plaintext: &[u8] = &[];
    let password = b"password";

    let ciphertext = encrypt(&mut header, plaintext, password).unwrap();
    let decrypted = decrypt(&ciphertext, &header, password).unwrap();

    assert_eq!(decrypted.as_slice(), plaintext, "should handle empty data");
}

#[test]
fn test_roundtrip_binary_data() {
    let mut header = EnvelopeFileHeader::default();
    let plaintext: Vec<u8> = (0u8..=255).collect();
    let password = b"password";

    let ciphertext = encrypt(&mut header, &plaintext, password).unwrap();
    let decrypted = decrypt(&ciphertext, &header, password).unwrap();

    assert_eq!(decrypted, plaintext, "should preserve all byte values");
}

#[test]
fn test_roundtrip_large_data() {
    let mut header = EnvelopeFileHeader::default();
    let plaintext = vec![0x42; 1024 * 1024];
    let password = b"password";

    let ciphertext = encrypt(&mut header, &plaintext, password).unwrap();
    let decrypted = decrypt(&ciphertext, &header, password).unwrap();

    assert_eq!(decrypted, plaintext, "should handle large data");
}

#[test]
fn test_roundtrip_unicode_password() {
    let mut header = EnvelopeFileHeader::default();
    let plaintext = b"test data";
    let password = "pâsswörd🔐".as_bytes();

    let ciphertext = encrypt(&mut header, plaintext, password).unwrap();
    let decrypted = decrypt(&ciphertext, &header, password).unwrap();

    assert_eq!(decrypted.as_slice(), plaintext, "should handle unicode password");
}

#[test]
fn test_multiple_roundtrips() {
    let original = b"test data";
    let password = b"password";

    let mut header1 = EnvelopeFileHeader::default();
    let ciphertext1 = encrypt(&mut header1, original, password).unwrap();
    let decrypted1 = decrypt(&ciphertext1, &header1, password).unwrap();

    let mut header2 = EnvelopeFileHeader::default();
    let ciphertext2 = encrypt(&mut header2, &decrypted1, password).unwrap();
    let decrypted2 = decrypt(&ciphertext2, &header2, password).unwrap();

    assert_eq!(decrypted2.as_slice(), original, "multiple roundtrips should preserve data");
}

#[test]
fn test_roundtrip_single_byte() {
    let mut header = EnvelopeFileHeader::default();
    let plaintext = &[0x42u8];
    let password = b"password";

    let ciphertext = encrypt(&mut header, plaintext, password).unwrap();
    let decrypted = decrypt(&ciphertext, &header, password).unwrap();

    assert_eq!(decrypted.as_slice(), plaintext, "should handle single byte");
}

#[test]
fn ciphertext_is_plaintext_plus_tag() {
    let mut header = EnvelopeFileHeader::default();
    let ciphertext = encrypt(&mut header, b"0123456789", b"pw").unwrap();
    assert_eq!(ciphertext.len(), 10 + 16);
}

#[test]
fn tampered_version_byte_is_refused_even_when_supported() {
    let mut header = EnvelopeFileHeader::default();
    let ciphertext = encrypt(&mut header, b"data", b"pw").unwrap();
    header.version = 2;
    assert_eq!(decrypt(&ciphertext, &header, b"pw"), Err(CryptoError::UnsupportedVersion(2)));
}

#[test]
fn single_bit_flips_of_ciphertext_fail() {
    let mut header = EnvelopeFileHeader::default();
    let ciphertext = encrypt(&mut header, b"abc", b"pw").unwrap();
    for i in [0, ciphertext.len() / 2, ciphertext.len() - 1] {
        for bit in [0u8, 7u8] {
            let mut c = ciphertext.clone();
            c[i] ^= 1 << bit;
            assert_eq!(decrypt(&c, &header, b"pw"), Err(CryptoError::DecryptionFailed));
        }
    }
}

#[test]
fn error_messages() {
    assert_eq!(CryptoError::UnsupportedVersion(255).to_string(), "unsupported envelope version: 255 (expected 1)");
    assert_eq!(CryptoError::UnsupportedVersion(0).to_string(), "unsupported envelope version: 0 (expected 1)");
    assert_eq!(CryptoError::DecryptionFailed.to_string(), "decryption failed - wrong password?");
}

#[test]
fn seal_uses_the_given_salt_and_nonce() {
    let mut h1 = EnvelopeFileHeader::default();
    let c1 = seal(&mut h1, [5u8; 16], [6u8; 24], b"data", b"pw", &cost()).unwrap();
    assert_eq!(h1.argon_salt, [5u8; 16]);
    assert_eq!(h1.xchacha_nonce, [6u8; 24]);
    let mut h2 = EnvelopeFileHeader::default();
    let c2 = seal(&mut h2, [5u8; 16], [6u8; 24], b"data", b"pw", &cost()).unwrap();
    assert_eq!(c1, c2, "same key, nonce and data give the same ciphertext");
    assert_eq!(decrypt(&c1, &h1, b"pw").unwrap(), b"data");
}
