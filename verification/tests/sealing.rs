use aes_gcm::aead::{Aead, KeyInit};
use aes_gcm::{Aes256Gcm, Key, Nonce};
use base64::engine::general_purpose::STANDARD;
use base64::Engine;
use password_vault::crypto::{decode_hex, open_password, seal_password, seal_with_nonce};

#[test]
fn decode_hex_reads_pairs() {
    assert_eq!(decode_hex(b"0aFf"), Some(vec![10, 255]));
    assert_eq!(decode_hex(b""), Some(vec![]));
    assert_eq!(decode_hex(b"abc"), None);
    assert_eq!(decode_hex(b"zz"), None);
}

#[test]
fn sealed_password_opens_under_same_passphrase() {
    let stored = seal_password("hunter2", "correct horse battery staple").unwrap();
    assert!(!stored.contains("hunter2"));
    assert_eq!(open_password(&stored, "correct horse battery staple"), "hunter2");
}

#[test]
fn sealed_text_is_base64_of_nonce_and_ciphertext() {
    let stored = seal_password("hunter2", "correct horse battery staple").unwrap();
    let bytes = STANDARD.decode(&stored).unwrap();
    assert_eq!(bytes.len(), 12 + 7 + 16);
    // Two seals of the same password differ (fresh nonces).
    let again = seal_password("hunter2", "correct horse battery staple").unwrap();
    assert_ne!(stored, again);
}

#[test]
fn empty_and_unicode_passwords_round_trip() {
    let stored = seal_password("", "passphrase").unwrap();
    assert_eq!(open_password(&stored, "passphrase"), "");
    let stored = seal_password("pässwörd ✓", "passphrase").unwrap();
    assert_eq!(open_password(&stored, "passphrase"), "pässwörd ✓");
}

#[test]
fn wrong_passphrase_opens_to_empty() {
    let stored = seal_password("hunter2", "correct horse battery staple").unwrap();
    assert_eq!(open_password(&stored, "wrong passphrase"), "");
}

#[test]
fn malformed_stored_text_opens_to_empty() {
    assert_eq!(open_password("not base64!", "p"), "");
    assert_eq!(open_password("AAAA", "p"), "");
    assert_eq!(open_password("", "p"), "");
}

#[test]
fn non_utf8_plaintext_opens_to_empty() {
    // Key: SHA-256 of the passphrase.
    let hex = sha256::digest("passphrase");
    let key = decode_hex(hex.as_bytes()).unwrap();
    let cipher = Aes256Gcm::new(Key::<Aes256Gcm>::from_slice(&key));
    let nonce = [7u8; 12];
    let ct = cipher.encrypt(Nonce::from_slice(&nonce), &[0xffu8, 0xfe][..]).unwrap();
    let mut all = nonce.to_vec();
    all.extend_from_slice(&ct);
    let stored = STANDARD.encode(&all);
    assert_eq!(open_password(&stored, "passphrase"), "");
    // The same construction with UTF-8 text opens.
    let ct = cipher.encrypt(Nonce::from_slice(&nonce), "ok".as_bytes()).unwrap();
    let mut all = nonce.to_vec();
    all.extend_from_slice(&ct);
    assert_eq!(open_password(&STANDARD.encode(&all), "passphrase"), "ok");
}

#[test]
fn seal_with_nonce_is_base64_of_nonce_and_ciphertext() {
    let nonce = [3u8; 12];
    let stored = seal_with_nonce("hunter2", "passphrase", &nonce).unwrap();
    let key = decode_hex(sha256::digest("passphrase").as_bytes()).unwrap();
    let cipher = Aes256Gcm::new(Key::<Aes256Gcm>::from_slice(&key));
    let ct = cipher.encrypt(Nonce::from_slice(&nonce), "hunter2".as_bytes()).unwrap();
    let mut all = nonce.to_vec();
    all.extend_from_slice(&ct);
    assert_eq!(stored, STANDARD.encode(&all));
    assert_eq!(open_password(&stored, "passphrase"), "hunter2");
    // The same nonce gives the same text; another nonce another one.
    assert_eq!(seal_with_nonce("hunter2", "passphrase", &nonce).unwrap(), stored);
    assert_ne!(seal_with_nonce("hunter2", "passphrase", &[4u8; 12]).unwrap(), stored);
}

#[test]
fn seal_with_nonce_refuses_other_nonce_lengths() {
    assert_eq!(seal_with_nonce("hunter2", "passphrase", &[0u8; 11]), None);
    assert_eq!(seal_with_nonce("hunter2", "passphrase", &[0u8; 13]), None);
    assert_eq!(seal_with_nonce("hunter2", "passphrase", &[]), None);
}

#[test]
fn non_canonical_base64_opens_to_empty() {
    // 12 + 7 + 16 = 35 bytes: the text ends in one padding character.
    let stored = seal_with_nonce("hunter2", "passphrase", &[9u8; 12]).unwrap();
    assert!(stored.ends_with('='));
    assert_eq!(open_password(&stored, "passphrase"), "hunter2");
    let unpadded = stored.trim_end_matches('=');
    assert_eq!(open_password(unpadded, "passphrase"), "");
}
