use sealenv::crypto::{decrypt_env, encrypt_env, generate_key, CryptoError};
use sealenv::profile::{create, switch_to};

#[test]
fn test_encrypt_decrypt_roundtrip() {
    let plain_env = "API_KEY=hello\nDATABASE_URL=postgres://localhost/db\n";
    let key = generate_key().expect("key generation failed");
    let enc = encrypt_env(plain_env.as_bytes(), Some(&key)).expect("encrypt failed");
    assert_eq!(enc.len(), 12 + 51 + 16, ".env.enc was not created");
    let restored = decrypt_env(&enc, Some(&key)).expect("decrypt failed");
    assert_eq!(String::from_utf8(restored).unwrap(), plain_env);
}

#[test]
fn test_decrypt_fails_with_wrong_key_home() {
    let key = generate_key().expect("key generation failed");
    let enc = encrypt_env(b"API_KEY=hello\n", Some(&key)).expect("encrypt failed");
    let wrong = [7u8; 32];
    let r = decrypt_env(&enc, Some(&wrong));
    assert_eq!(r, Err(CryptoError::DecryptionFailed), "decrypt unexpectedly succeeded with wrong home key");
}

#[test]
fn test_profile_create_and_switch() {
    let dev = create("dev", false, Some(b"API_KEY=dev\n".to_vec())).expect("create dev failed");
    let staging = create("staging", false, Some(b"API_KEY=staging\n".to_vec())).expect("create staging failed");
    let dev_env = switch_to("dev", Some(dev)).expect("use dev failed");
    assert_eq!(dev_env, b"API_KEY=dev\n".to_vec());
    let staging_env = switch_to("staging", Some(staging)).expect("use staging failed");
    assert_eq!(staging_env, b"API_KEY=staging\n".to_vec());
}
