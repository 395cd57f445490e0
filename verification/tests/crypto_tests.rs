use crypt_client::crypto::{create_key, decrypt_slice, encrypt_slice, recover_key, Error};

#[test]
fn create_and_recover_key() {
    let password = "abc123 PAssWORd!";
    let (salt, secret, key) = create_key(password).unwrap();
    {
        let recovered_key = recover_key(password, salt.as_slice(), secret.as_slice()).unwrap();
        assert_eq!(recovered_key, key);
    }
    {
        let recovered_key = recover_key(password, &salt[..], &secret[..]).unwrap();
        assert_eq!(recovered_key, key);
    }
}

#[test]
fn encrypt_and_decrypt() {
    let password = "abc123 PAssWORd!";
    let data = "ABCabc123!\"£";
    let encrypted = encrypt_slice(password, data.as_bytes()).unwrap();
    let decrypted = decrypt_slice(password, encrypted.as_slice()).unwrap();
    assert_eq!(decrypted.as_slice(), data.as_bytes());
}

#[test]
fn key_depends_on_salt_and_secret() {
    let password = "pw";
    let (salt, secret, key) = create_key(password).unwrap();
    let mut other_salt = salt.clone();
    other_salt[0] = other_salt[0].wrapping_add(1);
    let other_key = recover_key(password, other_salt.as_slice(), secret.as_slice()).unwrap();
    assert_ne!(other_key, key);
    let mut other_secret = secret.clone();
    other_secret[0] = other_secret[0].wrapping_add(1);
    let third_key = recover_key(password, salt.as_slice(), other_secret.as_slice()).unwrap();
    assert_ne!(third_key, key);
    assert_eq!(key.len(), 32);
}

#[test]
fn fresh_randomness_gives_fresh_ciphertexts() {
    // Encrypting the same data under the same password twice never reuses
    // the salt/secret/IV triple, so the envelopes differ.
    let password = "pw";
    let data = b"same plaintext";
    let first = encrypt_slice(password, data).unwrap();
    let second = encrypt_slice(password, data).unwrap();
    assert_ne!(first, second);
}

#[test]
fn envelope_layout_length() {
    // salt (16) || secret (128) || iv (16) || ciphertext, where PKCS#7 pads
    // to the next whole 16-byte block.
    let env = encrypt_slice("pw", b"0123456789").unwrap();
    assert_eq!(env.len(), 160 + 16);
    let env2 = encrypt_slice("pw", &[0u8; 16]).unwrap();
    assert_eq!(env2.len(), 160 + 32);
    let env3 = encrypt_slice("pw", b"").unwrap();
    assert_eq!(env3.len(), 160 + 16);
}

#[test]
fn truncated_envelope_is_rejected() {
    let short = vec![0u8; 159];
    match decrypt_slice("pw", short.as_slice()) {
        Err(Error::TruncatedEnvelope) => {}
        other => panic!("expected a truncated-envelope error, got {:?}", other),
    }
}

#[test]
fn wrong_password_fails_decryption() {
    let env = encrypt_slice("correct", b"payload bytes").unwrap();
    match decrypt_slice("wrong", env.as_slice()) {
        Err(Error::WrongPasswordOrCorrupt) => {}
        other => panic!("expected a wrong-password error, got {:?}", other),
    }
}
