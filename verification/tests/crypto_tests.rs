use sealenv::crypto::{
    decrypt_env, encrypt_env, export_key, generate_key, import_key, key_file_name, load_key,
    load_vars_from_enc, parse_env_bytes, seal_with_nonce, CryptoError, NONCE_LEN,
};

fn pairs(v: &[(&str, &str)]) -> Vec<(String, String)> {
    v.iter().map(|(k, x)| (k.to_string(), x.to_string())).collect()
}

fn hex(s: &str) -> Vec<u8> {
    (0..s.len()).step_by(2).map(|i| u8::from_str_radix(&s[i..i + 2], 16).unwrap()).collect()
}

#[test]
fn parse_simple_pairs() {
    let r = parse_env_bytes(b"API_KEY=hello\nDATABASE_URL=postgres://localhost/db\n").unwrap();
    assert_eq!(r, pairs(&[("API_KEY", "hello"), ("DATABASE_URL", "postgres://localhost/db")]));
}

#[test]
fn parse_skips_blank_comment_and_bare_lines() {
    let r = parse_env_bytes(b"\n   \n# comment=1\n  #x=y\nNOEQUALS\nA=1").unwrap();
    assert_eq!(r, pairs(&[("A", "1")]));
}

#[test]
fn parse_trims_and_unquotes() {
    let r = parse_env_bytes(b"  KEY  =  \"quoted value\"  \nB='single'\nC=\"'both'\"\nD=\"\"x\"\"\n").unwrap();
    assert_eq!(
        r,
        pairs(&[("KEY", "quoted value"), ("B", "single"), ("C", "both"), ("D", "x")])
    );
}

#[test]
fn parse_splits_at_first_equals_and_keeps_rest() {
    let r = parse_env_bytes(b"URL=a=b=c\n=empty\nE=\n").unwrap();
    assert_eq!(r, pairs(&[("URL", "a=b=c"), ("", "empty"), ("E", "")]));
}

#[test]
fn parse_handles_crlf_and_unicode_space() {
    let r = parse_env_bytes("A=1\r\nB=2\r\n\u{a0}C\u{2003}=\u{3000}3\u{a0}".as_bytes()).unwrap();
    assert_eq!(r, pairs(&[("A", "1"), ("B", "2"), ("C", "3")]));
}

#[test]
fn parse_keeps_duplicate_keys_in_order() {
    let r = parse_env_bytes(b"A=1\nA=2\n").unwrap();
    assert_eq!(r, pairs(&[("A", "1"), ("A", "2")]));
}

#[test]
fn parse_empty_input() {
    assert_eq!(parse_env_bytes(b"").unwrap(), Vec::<(String, String)>::new());
}

#[test]
fn parse_rejects_invalid_utf8() {
    assert_eq!(parse_env_bytes(&[b'A', b'=', 0xff, 0xfe]), Err(CryptoError::NotUtf8));
}

#[test]
fn key_file_name_prefers_project_id() {
    assert_eq!(key_file_name(Some("abc".to_string()), Some("dir".to_string())), "abc.key");
    assert_eq!(key_file_name(None, Some("dir".to_string())), "dir.key");
    assert_eq!(key_file_name(None, None), "default.key");
}

#[test]
fn generated_key_has_32_bytes() {
    let k = generate_key().unwrap();
    assert_eq!(k.len(), 32);
}

#[test]
fn load_key_checks_length() {
    assert_eq!(load_key(None), Err(CryptoError::KeyNotFound));
    assert_eq!(load_key(Some(&[1u8; 31])), Err(CryptoError::CorruptKey));
    assert_eq!(load_key(Some(&[1u8; 33])), Err(CryptoError::CorruptKey));
    assert_eq!(load_key(Some(&[9u8; 32])), Ok(vec![9u8; 32]));
}

#[test]
fn export_key_is_standard_base64() {
    let expected = format!("{}=", "A".repeat(43));
    assert_eq!(export_key(Some(&[0u8; 32])).unwrap(), expected);
    assert_eq!(export_key(Some(&[0u8; 5])), Err(CryptoError::CorruptKey));
    assert_eq!(export_key(None), Err(CryptoError::KeyNotFound));
}

#[test]
fn import_key_trims_and_decodes() {
    let text = format!("  {}=\n", "A".repeat(43));
    assert_eq!(import_key(&text), Ok(vec![0u8; 32]));
}

#[test]
fn import_key_errors() {
    assert_eq!(import_key("not base64!"), Err(CryptoError::InvalidBase64));
    assert_eq!(import_key("aGVsbG8="), Err(CryptoError::InvalidKeyLength));
}

#[test]
fn export_then_import_gives_the_key_back() {
    let key: Vec<u8> = (0u8..32).map(|b| b.wrapping_mul(37).wrapping_add(11)).collect();
    let text = export_key(Some(&key)).unwrap();
    assert_eq!(import_key(&text), Ok(key));
}

#[test]
fn seal_matches_aes256gcm_test_vectors() {
    let key = [0u8; 32];
    let nonce = [0u8; NONCE_LEN];
    let empty = seal_with_nonce(b"", &key, &nonce).unwrap();
    let mut expected = vec![0u8; 12];
    expected.extend(hex("530f8afbc74536b9a963b4f1c4cb738b"));
    assert_eq!(empty, expected);

    let block = seal_with_nonce(&[0u8; 16], &key, &nonce).unwrap();
    let mut expected = vec![0u8; 12];
    expected.extend(hex("cea7403d4d606b6e074ec5d3baf39d18"));
    expected.extend(hex("d0d1c8a799996bf0265b98b5d48ab919"));
    assert_eq!(block, expected);
}

#[test]
fn seal_refuses_bad_key() {
    assert_eq!(seal_with_nonce(b"x", &[0u8; 16], &[0u8; 12]), Err(CryptoError::BadKey));
}

#[test]
fn encrypt_layout_and_roundtrip() {
    let key = [3u8; 32];
    let plain = b"A=1\nB=2\n";
    let enc = encrypt_env(plain, Some(&key)).unwrap();
    assert_eq!(enc.len(), NONCE_LEN + plain.len() + 16);
    assert_ne!(&enc[NONCE_LEN..NONCE_LEN + plain.len()], &plain[..]);
    assert_eq!(decrypt_env(&enc, Some(&key)), Ok(plain.to_vec()));
}

#[test]
fn encrypt_reports_key_errors_first() {
    assert_eq!(encrypt_env(b"A=1", None), Err(CryptoError::KeyNotFound));
    assert_eq!(encrypt_env(b"A=1", Some(&[0u8; 3])), Err(CryptoError::CorruptKey));
}

#[test]
fn decrypt_errors() {
    let key = [5u8; 32];
    assert_eq!(decrypt_env(&[0u8; 11], None), Err(CryptoError::TooShort));
    assert_eq!(decrypt_env(&[0u8; 40], None), Err(CryptoError::KeyNotFound));
    assert_eq!(decrypt_env(&[0u8; 40], Some(&[0u8; 2])), Err(CryptoError::CorruptKey));
    let mut enc = encrypt_env(b"SECRET=1\n", Some(&key)).unwrap();
    let last = enc.len() - 1;
    enc[last] ^= 1;
    assert_eq!(decrypt_env(&enc, Some(&key)), Err(CryptoError::DecryptionFailed));
    assert_eq!(decrypt_env(&[0u8; 12], Some(&key)), Err(CryptoError::DecryptionFailed));
}

#[test]
fn load_vars_decrypts_then_parses() {
    let key = [8u8; 32];
    let enc = encrypt_env(b"# vars\nA = \"x\"\nB=y\n", Some(&key)).unwrap();
    assert_eq!(load_vars_from_enc(&enc, Some(&key)).unwrap(), pairs(&[("A", "x"), ("B", "y")]));
    assert_eq!(load_vars_from_enc(&[1u8; 4], Some(&key)), Err(CryptoError::TooShort));
    let bad = encrypt_env(&[0xff, 0xfe], Some(&key)).unwrap();
    assert_eq!(load_vars_from_enc(&bad, Some(&key)), Err(CryptoError::NotUtf8));
}

#[test]
fn generated_keys_are_random() {
    let a = generate_key().unwrap();
    let b = generate_key().unwrap();
    assert_ne!(a, b);
    assert_ne!(a, vec![0u8; 32]);
}

#[test]
fn encryptions_use_fresh_nonces() {
    let key = [4u8; 32];
    let a = encrypt_env(b"A=1\n", Some(&key)).unwrap();
    let b = encrypt_env(b"A=1\n", Some(&key)).unwrap();
    assert_ne!(a[..NONCE_LEN], b[..NONCE_LEN]);
    assert_eq!(decrypt_env(&b, Some(&key)), Ok(b"A=1\n".to_vec()));
}

#[test]
fn parse_of_joined_texts_is_joined_parse() {
    let a = b"A=1\n# c\nB = \"two\"";
    let b = b"  C=3\r\nA=4\n";
    let mut joined = a.to_vec();
    joined.push(b'\n');
    joined.extend_from_slice(b);
    let mut expected = parse_env_bytes(a).unwrap();
    expected.extend(parse_env_bytes(b).unwrap());
    assert_eq!(parse_env_bytes(&joined).unwrap(), expected);
}
