use cashew::encryption::{decrypt, encrypt, encrypt_with_nonce};
use cashew::{CashewError, EncryptionInfo, EncryptionStrategy};

#[test]
fn test_encrypt_decrypt_roundtrip() {
    let key = [42u8; 32];
    let plaintext = b"hello, merkle world!";
    let (ciphertext, nonce) = encrypt(plaintext, &key).unwrap();
    let decrypted = decrypt(&ciphertext, &key, &nonce).unwrap();
    assert_eq!(decrypted, plaintext);
}

#[test]
fn test_encrypt_with_nonce_deterministic() {
    let key = [7u8; 32];
    let nonce = [1u8; 12];
    let plaintext = b"deterministic test";
    let ct1 = encrypt_with_nonce(plaintext, &key, &nonce).unwrap();
    let ct2 = encrypt_with_nonce(plaintext, &key, &nonce).unwrap();
    assert_eq!(ct1, ct2);
}

#[test]
fn test_wrong_key_fails() {
    let key = [42u8; 32];
    let wrong_key = [99u8; 32];
    let plaintext = b"secret data";
    let (ciphertext, nonce) = encrypt(plaintext, &key).unwrap();
    assert!(decrypt(&ciphertext, &wrong_key, &nonce).is_err());
}

#[test]
fn test_encryption_info() {
    let key = [42u8; 32];
    let iv = [1u8; 12];
    let info = EncryptionInfo::new(&key, &iv);
    assert!(!info.key_hash.is_empty());
    assert!(!info.iv.is_empty());
    let decoded_iv = info.iv_bytes().unwrap();
    assert_eq!(decoded_iv, iv);
}

#[test]
fn test_encryption_strategy_key() {
    let key = [5u8; 32];
    let targeted = EncryptionStrategy::Targeted(key);
    let list = EncryptionStrategy::List(key);
    let recursive = EncryptionStrategy::Recursive(key);
    assert_eq!(targeted.key(), &key);
    assert_eq!(list.key(), &key);
    assert_eq!(recursive.key(), &key);
}

// ---- further cases ----

#[test]
fn ciphertext_carries_a_tag_and_nonce_is_twelve_bytes() {
    let key = [3u8; 32];
    let (ct, nonce) = encrypt(b"abc", &key).unwrap();
    assert_eq!(nonce.len(), 12);
    assert_eq!(ct.len(), 3 + 16);
    assert_ne!(&ct[..3], b"abc");
}

#[test]
fn tampered_ciphertext_fails_with_decryption_error() {
    let key = [3u8; 32];
    let nonce = [9u8; 12];
    let mut ct = encrypt_with_nonce(b"payload", &key, &nonce).unwrap();
    ct[0] ^= 1;
    match decrypt(&ct, &key, &nonce) {
        Err(CashewError::DecryptionFailed(m)) => assert_eq!(m, "aead::Error"),
        _ => panic!("expected a decryption failure"),
    }
}

#[test]
fn encryption_info_values() {
    let key = [0u8; 32];
    let info = EncryptionInfo::new(&key, &[0u8, 1, 2]);
    assert_eq!(info.iv, "AAEC");
    assert_eq!(info.key_hash, "Zmh6rfhivXdsj8GLjp+OIAiXFIVu4jOzkCpZHQ1fKSU=");
    let bad = EncryptionInfo { key_hash: String::new(), iv: "***".to_string() };
    assert!(matches!(bad.iv_bytes(), Err(CashewError::InvalidIV)));
}
