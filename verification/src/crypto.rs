//! The encrypted environment file, the project key, and the `.env` parser.

use vstd::prelude::*;
use vstd::utf8::{valid_utf8, decode_utf8, encode_utf8, encode_scalar};
use base64::Engine;
use ring::rand::SecureRandom;
use crate::text::{
    opt_view, is_white_space, strips, lemma_trim_shape, Strip, trim, trim_ws, find_char, lemma_find_char, lemma_find_char_is, trim_bounds,
    find_from, copy_range, string_of, chars_of, utf8_chars, lemma_trim_unchanged,
};

verus! {

/// Why an operation on keys or environment files failed.
#[derive(Debug, PartialEq, Eq)]
pub enum CryptoError {
    /// The environment text is not UTF-8.
    NotUtf8,
    /// The key file could not be read.
    KeyNotFound,
    /// The key file does not hold exactly 32 bytes.
    CorruptKey,
    /// The imported key is not base64.
    InvalidBase64,
    /// The imported key does not decode to 32 bytes.
    InvalidKeyLength,
    /// The system's random number generator failed.
    RandomUnavailable,
    /// The cipher refused the key.
    BadKey,
    /// Sealing failed.
    EncryptionFailed,
    /// The encrypted file is shorter than a nonce.
    TooShort,
    /// The encrypted file does not open with this key.
    DecryptionFailed,
}

/// Length of an AES-256-GCM key.
pub const KEY_LEN: usize = 32;

/// Length of an AES-GCM nonce, which leads every encrypted file.
pub const NONCE_LEN: usize = 12;

/// Length of the AES-GCM authentication tag.
pub const TAG_LEN: usize = 16;

/// The longest plaintext that AES-GCM seals: `((1 << 39) - 256) / 8` bytes.
pub const MAX_SEAL_LEN: u64 = 68719476704;

// ── Outside cryptography ─────────────────────────────────────────────────────

#[verifier::external_type_specification]
#[verifier::external_body]
pub struct ExUnspecified(ring::error::Unspecified);

#[verifier::external_type_specification]
#[verifier::external_body]
pub struct ExDecodeError(base64::DecodeError);

/// What AES-256-GCM (ring's `AES_256_GCM`) seals `plaintext` into under
/// `key` and `nonce`, with no associated data: ciphertext then tag.
pub uninterp spec fn aes256gcm_sealed(key: Seq<u8>, nonce: Seq<u8>, plaintext: Seq<u8>) -> Seq<u8>;

/// What AES-256-GCM opens `sealed` into under `key` and `nonce`, with no
/// associated data; nothing when the tag does not authenticate.
pub uninterp spec fn aes256gcm_opened(key: Seq<u8>, nonce: Seq<u8>, sealed: Seq<u8>) -> Option<Seq<u8>>;

/// The standard, padded base64 encoding of `bytes` (base64's `STANDARD` engine).
pub uninterp spec fn base64_encoding(bytes: Seq<u8>) -> Seq<char>;

/// The bytes that base64's `STANDARD` engine decodes `text` into, if any.
pub uninterp spec fn base64_decoding(text: Seq<char>) -> Option<Seq<u8>>;

/// A character of the standard base64 alphabet, or the padding `=`.
pub open spec fn is_base64_char(c: char) -> bool {
    ||| 'A' <= c <= 'Z'
    ||| 'a' <= c <= 'z'
    ||| '0' <= c <= '9'
    ||| c == '+'
    ||| c == '/'
    ||| c == '='
}

/// ring's `LessSafeKey::seal_in_place_append_tag` with AES-256-GCM, the key
/// and nonce built from bytes by `UnboundKey::new` and
/// `Nonce::try_assume_unique_for_key`, and empty associated data.
/// Claims, from ring's source: the key is refused exactly when it is not
/// 32 bytes long; sealing fails exactly when the plaintext is longer than
/// `MAX_SEAL_LEN`; otherwise the result is `aes256gcm_sealed` of the
/// arguments, 16 bytes longer than the plaintext, and opening it with the
/// same key and nonce gives the plaintext back (AEAD correctness).
#[verifier::external_body]
fn aes256gcm_seal(key: &[u8], nonce: &[u8], plaintext: &[u8]) -> (r: Result<Vec<u8>, ring::error::Unspecified>)
    requires
        nonce@.len() == NONCE_LEN,
    ensures
        r.is_ok() == (key@.len() == KEY_LEN && plaintext@.len() <= MAX_SEAL_LEN),
        r matches Ok(c) ==> c@ == aes256gcm_sealed(key@, nonce@, plaintext@),
        r matches Ok(c) ==> c@.len() == plaintext@.len() + TAG_LEN,
        r matches Ok(c) ==> aes256gcm_opened(key@, nonce@, c@) == Some(plaintext@),
{
    let key = ring::aead::LessSafeKey::new(
        ring::aead::UnboundKey::new(&ring::aead::AES_256_GCM, key)?,
    );
    let nonce = ring::aead::Nonce::try_assume_unique_for_key(nonce)?;
    let mut in_out = plaintext.to_vec();
    key.seal_in_place_append_tag(nonce, ring::aead::Aad::empty(), &mut in_out)?;
    Ok(in_out)
}

/// ring's `LessSafeKey::open_in_place` with AES-256-GCM, the key and nonce
/// built from bytes by `UnboundKey::new` and `Nonce::try_assume_unique_for_key`,
/// and empty associated data. Claims, from ring's source: a key that is not
/// 32 bytes long is refused; otherwise the call succeeds exactly when
/// `aes256gcm_opened` of the arguments is something, and returns it.
#[verifier::external_body]
fn aes256gcm_open(key: &[u8], nonce: &[u8], sealed: &[u8]) -> (r: Result<Vec<u8>, ring::error::Unspecified>)
    requires
        nonce@.len() == NONCE_LEN,
    ensures
        key@.len() != KEY_LEN ==> r.is_err(),
        key@.len() == KEY_LEN ==> r.is_ok() == aes256gcm_opened(key@, nonce@, sealed@).is_some(),
        r matches Ok(p) ==> aes256gcm_opened(key@, nonce@, sealed@) == Some(p@),
{
    let key = ring::aead::LessSafeKey::new(
        ring::aead::UnboundKey::new(&ring::aead::AES_256_GCM, key)?,
    );
    let nonce = ring::aead::Nonce::try_assume_unique_for_key(nonce)?;
    let mut in_out = sealed.to_vec();
    let plaintext = key.open_in_place(nonce, ring::aead::Aad::empty(), &mut in_out)?;
    Ok(plaintext.to_vec())
}

/// ring's `SystemRandom::fill`: fills the buffer with random bytes from the
/// operating system, or fails. Nothing is claimed of the bytes but that
/// the buffer keeps its length.
#[verifier::external_body]
fn fill_random(buf: &mut Vec<u8>) -> (r: Result<(), ring::error::Unspecified>)
    ensures
        final(buf)@.len() == old(buf)@.len(),
{
    ring::rand::SystemRandom::new().fill(buf.as_mut_slice())
}

/// base64's `STANDARD.encode`. Claims: the text is `base64_encoding` of the
/// bytes, made of the standard alphabet and `=` only, and the same engine
/// decodes it back to the bytes. The length bound keeps the crate's
/// output-size computation from overflowing, where it panics.
#[verifier::external_body]
fn base64_encode(bytes: &[u8]) -> (r: String)
    requires
        bytes@.len() <= usize::MAX / 2,
    ensures
        r@ == base64_encoding(bytes@),
        forall|i: int| 0 <= i < r@.len() ==> is_base64_char(#[trigger] r@[i]),
        base64_decoding(r@) == Some(bytes@),
{
    base64::engine::general_purpose::STANDARD.encode(bytes)
}

/// base64's `STANDARD.decode`. Claims: it succeeds exactly when
/// `base64_decoding` of the text is something, and returns it.
#[verifier::external_body]
fn base64_decode(text: &str) -> (r: Result<Vec<u8>, base64::DecodeError>)
    ensures
        r.is_ok() == base64_decoding(text@).is_some(),
        r matches Ok(v) ==> base64_decoding(text@) == Some(v@),
{
    base64::engine::general_purpose::STANDARD.decode(text)
}

// ── Key storage ──────────────────────────────────────────────────────────────

/// The key held by a key file: `KeyNotFound` when the file could not be
/// read, `CorruptKey` unless it holds exactly 32 bytes.
pub open spec fn load_key_spec(key_file: Option<Seq<u8>>) -> Result<Seq<u8>, CryptoError> {
    match key_file {
        None => Err(CryptoError::KeyNotFound),
        Some(b) => if b.len() == KEY_LEN {
            Ok(b)
        } else {
            Err(CryptoError::CorruptKey)
        },
    }
}

/// The bytes of an optional buffer.
pub open spec fn opt_bytes(b: Option<&[u8]>) -> Option<Seq<u8>> {
    match b {
        Some(v) => Some(v@),
        None => None,
    }
}

/// The name of the project's key file: the project id, else the name of
/// the working directory, else `default`; then `.key`.
pub open spec fn key_file_name_spec(project_id: Option<Seq<char>>, cwd_name: Option<Seq<char>>) -> Seq<char> {
    let stem = match project_id {
        Some(id) => id,
        None => match cwd_name {
            Some(n) => n,
            None => seq!['d', 'e', 'f', 'a', 'u', 'l', 't'],
        },
    };
    stem + seq!['.', 'k', 'e', 'y']
}

/// The file name under which the project's key is kept.
pub fn key_file_name(project_id: Option<String>, cwd_name: Option<String>) -> (r: String)
    ensures
        r@ == key_file_name_spec(opt_view(project_id), opt_view(cwd_name)),
{
    let mut stem = match project_id {
        Some(id) => chars_of(id.as_str()),
        None => match cwd_name {
            Some(n) => chars_of(n.as_str()),
            None => {
                let d = chars_of("default");
                proof {
                    reveal_strlit("default");
                }
                d
            },
        },
    };
    stem.push('.');
    stem.push('k');
    stem.push('e');
    stem.push('y');
    string_of(&stem)
}

/// A fresh random 32-byte key, or `RandomUnavailable` when the system's
/// random number generator fails.
pub fn generate_key() -> (r: Result<Vec<u8>, CryptoError>)
    ensures
        r matches Ok(k) ==> k@.len() == KEY_LEN,
        r matches Err(e) ==> e == CryptoError::RandomUnavailable,
{
    let mut key: Vec<u8> = vec![0u8; KEY_LEN];
    match fill_random(&mut key) {
        Ok(()) => Ok(key),
        Err(_) => Err(CryptoError::RandomUnavailable),
    }
}

/// The key held by a key file (`None` when the file could not be read).
pub fn load_key(key_file: Option<&[u8]>) -> (r: Result<Vec<u8>, CryptoError>)
    ensures
        match r {
            Ok(k) => load_key_spec(opt_bytes(key_file)) == Ok::<Seq<u8>, CryptoError>(k@),
            Err(e) => load_key_spec(opt_bytes(key_file)) == Err::<Seq<u8>, CryptoError>(e),
        },
{
    match key_file {
        None => Err(CryptoError::KeyNotFound),
        Some(b) => {
            if b.len() != KEY_LEN {
                return Err(CryptoError::CorruptKey);
            }
            let mut k: Vec<u8> = Vec::new();
            let mut i: usize = 0;
            while i < b.len()
                invariant
                    b@.len() == KEY_LEN,
                    0 <= i <= b@.len(),
                    k@ == b@.subrange(0, i as int),
                decreases b@.len() - i,
            {
                k.push(b[i]);
                i = i + 1;
            }
            assert(k@ =~= b@);
            Ok(k)
        },
    }
}

/// What `import_key` makes of a text: the trimmed text decoded as base64,
/// which must give 32 bytes.
pub open spec fn import_key_spec(text: Seq<char>) -> Result<Seq<u8>, CryptoError> {
    match base64_decoding(trim_ws(text)) {
        None => Err(CryptoError::InvalidBase64),
        Some(b) => if b.len() == KEY_LEN {
            Ok(b)
        } else {
            Err(CryptoError::InvalidKeyLength)
        },
    }
}

/// The key of a key file, encoded as standard base64 for sharing.
///
/// Importing the exported text gives the same key back.
pub fn export_key(key_file: Option<&[u8]>) -> (r: Result<String, CryptoError>)
    ensures
        match load_key_spec(opt_bytes(key_file)) {
            Ok(k) => r matches Ok(s) && s@ == base64_encoding(k),
            Err(e) => r == Err::<String, CryptoError>(e),
        },
        r matches Ok(s) ==> import_key_spec(s@) == load_key_spec(opt_bytes(key_file)),
{
    let key = load_key(key_file)?;
    let s = base64_encode(key.as_slice());
    proof {
        if s@.len() > 0 {
            assert(is_base64_char(s@[0]));
            assert(is_base64_char(s@[s@.len() - 1]));
        }
        lemma_trim_unchanged(s@, Strip::Whitespace);
    }
    Ok(s)
}

/// The key in a base64 text shared by a teammate; surrounding white space
/// is ignored.
pub fn import_key(b64: &str) -> (r: Result<Vec<u8>, CryptoError>)
    ensures
        match r {
            Ok(k) => import_key_spec(b64@) == Ok::<Seq<u8>, CryptoError>(k@),
            Err(e) => import_key_spec(b64@) == Err::<Seq<u8>, CryptoError>(e),
        },
{
    let chars = chars_of(b64);
    let (a, b) = trim_bounds(&chars, 0, chars.len(), Strip::Whitespace);
    assert(chars@.subrange(0, chars@.len() as int) =~= b64@);
    let trimmed = string_of(&copy_range(&chars, a, b));
    let bytes = match base64_decode(trimmed.as_str()) {
        Ok(v) => v,
        Err(_) => return Err(CryptoError::InvalidBase64),
    };
    if bytes.len() != KEY_LEN {
        return Err(CryptoError::InvalidKeyLength);
    }
    Ok(bytes)
}

// ── Encrypt / decrypt ────────────────────────────────────────────────────────

/// An encrypted environment file: the nonce, then the sealed plaintext.
pub open spec fn sealed_file(key: Seq<u8>, nonce: Seq<u8>, plaintext: Seq<u8>) -> Seq<u8> {
    nonce + aes256gcm_sealed(key, nonce, plaintext)
}

/// What decrypting a file gives: `TooShort` when it cannot hold a nonce,
/// the key file's error, or the plaintext, which must authenticate.
pub open spec fn decrypt_spec(key_file: Option<Seq<u8>>, data: Seq<u8>) -> Result<Seq<u8>, CryptoError> {
    if data.len() < NONCE_LEN {
        Err(CryptoError::TooShort)
    } else {
        match load_key_spec(key_file) {
            Err(e) => Err(e),
            Ok(k) => match aes256gcm_opened(k, data.take(NONCE_LEN as int), data.skip(NONCE_LEN as int)) {
                Some(p) => Ok(p),
                None => Err(CryptoError::DecryptionFailed),
            },
        }
    }
}

/// The variables of an encrypted file: decrypted, then parsed.
pub open spec fn load_vars_spec(key_file: Option<Seq<u8>>, data: Seq<u8>) -> Result<Seq<(Seq<char>, Seq<char>)>, CryptoError> {
    match decrypt_spec(key_file, data) {
        Ok(p) => parse_env_spec(p),
        Err(e) => Err(e),
    }
}

fn concat_bytes(a: &[u8], b: &[u8]) -> (r: Vec<u8>)
    ensures
        r@ == a@ + b@,
{
    let mut r: Vec<u8> = Vec::new();
    let mut i: usize = 0;
    while i < a.len()
        invariant
            0 <= i <= a@.len(),
            r@ == a@.subrange(0, i as int),
        decreases a@.len() - i,
    {
        r.push(a[i]);
        i = i + 1;
    }
    let mut j: usize = 0;
    while j < b.len()
        invariant
            0 <= j <= b@.len(),
            r@ == a@ + b@.subrange(0, j as int),
        decreases b@.len() - j,
    {
        r.push(b[j]);
        j = j + 1;
    }
    assert(a@.subrange(0, a@.len() as int) =~= a@);
    assert(b@.subrange(0, b@.len() as int) =~= b@);
    r
}

/// Seals `plaintext` under `key` with the given nonce into the layout of an
/// encrypted file: the nonce, then ciphertext and tag.
///
/// Fails with `BadKey` when the key is not 32 bytes long and with
/// `EncryptionFailed` when the plaintext is longer than AES-GCM allows.
/// The result is 12 + plaintext length + 16 bytes long.
/// Decrypting the result with the same key gives the plaintext back.
pub fn seal_with_nonce(plaintext: &[u8], key: &[u8], nonce: &[u8]) -> (r: Result<Vec<u8>, CryptoError>)
    requires
        nonce@.len() == NONCE_LEN,
    ensures
        match r {
            Ok(out) => key@.len() == KEY_LEN && plaintext@.len() <= MAX_SEAL_LEN && out@
                == sealed_file(key@, nonce@, plaintext@) && out@.len() == NONCE_LEN
                + plaintext@.len() + TAG_LEN,
            Err(e) => if key@.len() != KEY_LEN {
                e == CryptoError::BadKey
            } else {
                plaintext@.len() > MAX_SEAL_LEN && e == CryptoError::EncryptionFailed
            },
        },
        r matches Ok(out) ==> decrypt_spec(Some(key@), out@) == Ok::<Seq<u8>, CryptoError>(
            plaintext@,
        ),
{
    if key.len() != KEY_LEN {
        return Err(CryptoError::BadKey);
    }
    let sealed = match aes256gcm_seal(key, nonce, plaintext) {
        Ok(c) => c,
        Err(_) => return Err(CryptoError::EncryptionFailed),
    };
    let out = concat_bytes(nonce, sealed.as_slice());
    assert(out@.take(NONCE_LEN as int) =~= nonce@);
    assert(out@.skip(NONCE_LEN as int) =~= sealed@);
    Ok(out)
}

/// Encrypts the text of a `.env` file under the project key with a fresh
/// random nonce, into the layout of `.env.enc`.
///
/// The key file's errors come first; then `RandomUnavailable` when no
/// nonce could be drawn, and `EncryptionFailed` when the plaintext is too
/// long. The result is 12 + plaintext length + 16 bytes long. Decrypting the result with the same key file gives the plaintext back.
pub fn encrypt_env(plaintext: &[u8], key_file: Option<&[u8]>) -> (r: Result<Vec<u8>, CryptoError>)
    ensures
        match load_key_spec(opt_bytes(key_file)) {
            Err(e) => r == Err::<Vec<u8>, CryptoError>(e),
            Ok(k) => match r {
                Ok(out) => plaintext@.len() <= MAX_SEAL_LEN && out@.len() == NONCE_LEN
                    + plaintext@.len() + TAG_LEN && out@ == sealed_file(
                    k,
                    out@.take(NONCE_LEN as int),
                    plaintext@,
                ),
                Err(e) => e == CryptoError::RandomUnavailable || (plaintext@.len() > MAX_SEAL_LEN
                    && e == CryptoError::EncryptionFailed),
            },
        },
        r matches Ok(out) ==> decrypt_spec(opt_bytes(key_file), out@) == Ok::<Seq<u8>, CryptoError>(
            plaintext@,
        ),
{
    let key = load_key(key_file)?;
    let mut nonce: Vec<u8> = vec![0u8; NONCE_LEN];
    if fill_random(&mut nonce).is_err() {
        return Err(CryptoError::RandomUnavailable);
    }
    let out = seal_with_nonce(plaintext, key.as_slice(), nonce.as_slice())?;
    assert(out@.take(NONCE_LEN as int) =~= nonce@);
    Ok(out)
}

/// Decrypts the contents of `.env.enc` with the project key.
///
/// `TooShort` when the file cannot hold a nonce (checked before the key),
/// the key file's errors, and `DecryptionFailed` when the file does not
/// authenticate under the key.
pub fn decrypt_env(data: &[u8], key_file: Option<&[u8]>) -> (r: Result<Vec<u8>, CryptoError>)
    ensures
        match r {
            Ok(p) => decrypt_spec(opt_bytes(key_file), data@) == Ok::<Seq<u8>, CryptoError>(p@),
            Err(e) => decrypt_spec(opt_bytes(key_file), data@) == Err::<Seq<u8>, CryptoError>(e),
        },
{
    if data.len() < NONCE_LEN {
        return Err(CryptoError::TooShort);
    }
    let key = load_key(key_file)?;
    let nonce = split_copy(data, 0, NONCE_LEN);
    let sealed = split_copy(data, NONCE_LEN, data.len());
    assert(nonce@ =~= data@.take(NONCE_LEN as int));
    assert(sealed@ =~= data@.skip(NONCE_LEN as int));
    match aes256gcm_open(key.as_slice(), nonce.as_slice(), sealed.as_slice()) {
        Ok(p) => Ok(p),
        Err(_) => Err(CryptoError::DecryptionFailed),
    }
}

/// A file that decrypts to a plaintext under a key file hands `run` exactly
/// the variables of that plaintext.
pub proof fn lemma_run_sees_encrypted_vars(key_file: Option<Seq<u8>>, data: Seq<u8>, plaintext: Seq<u8>)
    requires
        decrypt_spec(key_file, data) == Ok::<Seq<u8>, CryptoError>(plaintext),
    ensures
        load_vars_spec(key_file, data) == parse_env_spec(plaintext),
{
}

fn split_copy(data: &[u8], lo: usize, hi: usize) -> (r: Vec<u8>)
    requires
        lo <= hi <= data@.len(),
    ensures
        r@ == data@.subrange(lo as int, hi as int),
{
    let mut r: Vec<u8> = Vec::new();
    let mut i: usize = lo;
    while i < hi
        invariant
            lo <= i <= hi <= data@.len(),
            r@ == data@.subrange(lo as int, i as int),
        decreases hi - i,
    {
        r.push(data[i]);
        i = i + 1;
    }
    r
}

/// The variables of `.env.enc`, for injecting into a command: the file is
/// decrypted as `decrypt_env` does and the plaintext parsed as
/// `parse_env_bytes` does.
pub fn load_vars_from_enc(data: &[u8], key_file: Option<&[u8]>) -> (r: Result<Vec<(String, String)>, CryptoError>)
    ensures
        vars_result_view(r) == load_vars_spec(opt_bytes(key_file), data@),
        decrypt_spec(opt_bytes(key_file), data@) matches Err(e) ==> r == Err::<Vec<(String, String)>, CryptoError>(e),
        decrypt_spec(opt_bytes(key_file), data@) matches Ok(p) ==> vars_result_view(r) == parse_env_spec(p),
{
    let plaintext = decrypt_env(data, key_file)?;
    parse_env_bytes(plaintext.as_slice())
}

/// Loading the variables of an encrypted file fails exactly as decrypting
/// it does, with the same error; when it decrypts, the variables are those
/// the parser finds in the plaintext.
pub proof fn lemma_load_vars_follows_decrypt(key_file: Option<Seq<u8>>, data: Seq<u8>)
    ensures
        decrypt_spec(key_file, data) matches Err(e) ==> load_vars_spec(key_file, data) == Err::<Seq<(Seq<char>, Seq<char>)>, CryptoError>(e),
        decrypt_spec(key_file, data) matches Ok(p) ==> load_vars_spec(key_file, data) == parse_env_spec(p),
{
}

// ── The .env parser ──────────────────────────────────────────────────────────

/// A value with its surrounding double quotes, then single quotes, removed.
pub open spec fn unquote(v: Seq<char>) -> Seq<char> {
    trim(trim(v, Strip::Char('"')), Strip::Char('\''))
}

/// One line of an env file: nothing for a blank line, a comment or a line
/// without `=`; otherwise the trimmed key before the first `=` and the
/// trimmed, unquoted value after it.
pub open spec fn parse_line(line: Seq<char>) -> Option<(Seq<char>, Seq<char>)> {
    let t = trim_ws(line);
    if t.len() == 0 || t[0] == '#' {
        None
    } else {
        let idx = find_char(t, '=');
        if idx == t.len() {
            None
        } else {
            Some((trim_ws(t.take(idx as int)), unquote(trim_ws(t.skip(idx + 1int)))))
        }
    }
}

/// The variables of an env text, in the order of its lines.
pub open spec fn parse_env_text(text: Seq<char>) -> Seq<(Seq<char>, Seq<char>)>
    decreases text.len(),
{
    let j = find_char(text, '\n');
    let here = match parse_line(text.take(j as int)) {
        Some(p) => seq![p],
        None => Seq::empty(),
    };
    if j < text.len() {
        here + parse_env_text(text.skip(j + 1int))
    } else {
        here
    }
}

/// The variables of an env file, or `NotUtf8`.
pub open spec fn parse_env_spec(data: Seq<u8>) -> Result<Seq<(Seq<char>, Seq<char>)>, CryptoError> {
    if valid_utf8(data) {
        Ok(parse_env_text(decode_utf8(data)))
    } else {
        Err(CryptoError::NotUtf8)
    }
}

proof fn lemma_parse_empty()
    ensures
        parse_env_text(Seq::<char>::empty()) == Seq::<(Seq<char>, Seq<char>)>::empty(),
{
    let e = Seq::<char>::empty();
    assert(e.take(0) =~= e);
    assert(trim_ws(e) =~= e);
    assert(parse_env_text(e) =~= Seq::<(Seq<char>, Seq<char>)>::empty());
}

/// Parsing a text that ends with a line feed (or is empty), followed by
/// more text, gives the variables of the first text, then those of the rest.
pub proof fn lemma_parse_text_concat(x: Seq<char>, y: Seq<char>)
    requires
        x.len() == 0 || x.last() == '\n',
    ensures
        parse_env_text(x + y) == parse_env_text(x) + parse_env_text(y),
    decreases x.len(),
{
    if x.len() == 0 {
        assert(x + y =~= y);
        lemma_parse_empty();
        assert(parse_env_text(x) + parse_env_text(y) =~= parse_env_text(y));
    } else {
        lemma_find_char(x, '\n');
        let j = find_char(x, '\n') as int;
        if j >= x.len() {
            assert(x[x.len() - 1] == '\n');
        }
        lemma_find_char_is(x + y, '\n', j);
        assert((x + y).take(j) =~= x.take(j));
        assert((x + y).skip(j + 1) =~= x.skip(j + 1) + y);
        let rest = x.skip(j + 1);
        if rest.len() > 0 {
            assert(rest.last() == x.last());
        }
        lemma_parse_text_concat(rest, y);
        let here = match parse_line(x.take(j)) {
            Some(p) => seq![p],
            None => Seq::<(Seq<char>, Seq<char>)>::empty(),
        };
        assert(parse_env_text(x + y) =~= here + (parse_env_text(rest) + parse_env_text(y)));
    }
}

/// A final line feed adds no variables.
pub proof fn lemma_parse_text_newline(s: Seq<char>)
    ensures
        parse_env_text(s.push('\n')) == parse_env_text(s),
    decreases s.len(),
{
    let t = s.push('\n');
    lemma_find_char(s, '\n');
    let j = find_char(s, '\n') as int;
    if j < s.len() {
        lemma_find_char_is(t, '\n', j);
        assert(t.take(j) =~= s.take(j));
        assert(t.skip(j + 1) =~= s.skip(j + 1).push('\n'));
        lemma_parse_text_newline(s.skip(j + 1));
    } else {
        lemma_find_char_is(t, '\n', s.len() as int);
        assert(t.take(s.len() as int) =~= s.take(j));
        assert(t.skip(s.len() + 1int) =~= Seq::<char>::empty());
        lemma_parse_empty();
        let here = match parse_line(s.take(j)) {
            Some(p) => seq![p],
            None => Seq::<(Seq<char>, Seq<char>)>::empty(),
        };
        assert(parse_env_text(t) =~= here);
    }
}

proof fn lemma_encode_utf8_concat(x: Seq<char>, y: Seq<char>)
    ensures
        encode_utf8(x + y) == encode_utf8(x) + encode_utf8(y),
    decreases x.len(),
{
    if x.len() == 0 {
        assert(x + y =~= y);
        assert(encode_utf8(x) + encode_utf8(y) =~= encode_utf8(y));
    } else {
        lemma_encode_utf8_concat(x.drop_first(), y);
        assert((x + y).drop_first() =~= x.drop_first() + y);
        assert((x + y)[0] == x[0]);
        assert(encode_utf8(x + y) =~= encode_scalar(x[0] as u32) + (encode_utf8(x.drop_first())
            + encode_utf8(y)));
    }
}

/// Parsing two UTF-8 texts joined by a line feed gives the variables of the
/// first, then those of the second.
pub proof fn lemma_parse_bytes_concat(a: Seq<u8>, b: Seq<u8>)
    requires
        valid_utf8(a),
        valid_utf8(b),
    ensures
        parse_env_spec(a + seq![10u8] + b) == Ok::<Seq<(Seq<char>, Seq<char>)>, CryptoError>(
            parse_env_text(decode_utf8(a)) + parse_env_text(decode_utf8(b)),
        ),
        parse_env_spec(a) == Ok::<Seq<(Seq<char>, Seq<char>)>, CryptoError>(parse_env_text(decode_utf8(a))),
        parse_env_spec(b) == Ok::<Seq<(Seq<char>, Seq<char>)>, CryptoError>(parse_env_text(decode_utf8(b))),
{
    broadcast use vstd::utf8::encode_utf8_valid_utf8, vstd::utf8::encode_utf8_decode_utf8,
        vstd::utf8::decode_utf8_encode_utf8;

    let ca = decode_utf8(a);
    let cb = decode_utf8(b);
    let nl = seq!['\n'];
    assert(encode_utf8(ca) == a);
    assert(encode_utf8(cb) == b);
    assert(('\n' as u32) == 10u32);
    assert((10u32 & 0x7Fu32) as u8 == 10u8) by (bit_vector);
    assert(nl.drop_first() =~= Seq::<char>::empty());
    assert(vstd::utf8::leading_byte_width_1(10u32) == 10u8);
    assert(encode_scalar(10u32) =~= seq![10u8]);
    assert(encode_utf8(Seq::<char>::empty()) =~= Seq::<u8>::empty());
    assert(nl[0] as u32 == 10u32);
    assert(encode_utf8(nl) =~= encode_scalar(10u32) + encode_utf8(Seq::<char>::empty()));
    assert(encode_utf8(nl) =~= seq![10u8]);
    lemma_encode_utf8_concat(ca, nl);
    lemma_encode_utf8_concat(ca + nl, cb);
    let chars = ca + nl + cb;
    assert(encode_utf8(chars) =~= a + seq![10u8] + b);
    assert(decode_utf8(a + seq![10u8] + b) == chars);
    assert(ca + nl =~= ca.push('\n'));
    lemma_parse_text_concat(ca.push('\n'), cb);
    lemma_parse_text_newline(ca);
}

/// White space, or a quote that values lose at their ends.
pub open spec fn is_white_or_quote(c: char) -> bool {
    is_white_space(c) || c == '"' || c == '\''
}

/// Every character of `s` is white space.
pub open spec fn all_white(s: Seq<char>) -> bool {
    forall|x: int| 0 <= x < s.len() ==> is_white_space(#[trigger] s[x])
}

/// Every character of `s` is white space or a quote.
pub open spec fn all_white_or_quote(s: Seq<char>) -> bool {
    forall|x: int| 0 <= x < s.len() ==> is_white_or_quote(#[trigger] s[x])
}

/// `c` does not occur in `s`.
pub open spec fn lacks(s: Seq<char>, c: char) -> bool {
    forall|x: int| 0 <= x < s.len() ==> #[trigger] s[x] != c
}

proof fn lemma_single_line_parse(line: Seq<char>)
    requires
        lacks(line, '\n'),
    ensures
        parse_env_text(line) == match parse_line(line) {
            Some(p) => seq![p],
            None => Seq::<(Seq<char>, Seq<char>)>::empty(),
        },
{
    let n = line.len() as int;
    lemma_find_char_is(line, '\n', n);
    assert(line.take(n) =~= line);
}

proof fn lemma_regions(line: Seq<char>, e1: int, e2: int, e3: int, e4: int, e5: int)
    requires
        0 <= e1 <= e2 <= e3 < e4 <= e5 <= line.len(),
        line[e3] == '=',
        forall|x: int| 0 <= x < e1 ==> is_white_space(#[trigger] line[x]),
        forall|x: int| e1 <= x < e2 ==> #[trigger] line[x] != '=',
        forall|x: int| e2 <= x < e3 ==> is_white_space(#[trigger] line[x]),
        forall|x: int| e3 + 1 <= x < e4 ==> is_white_or_quote(#[trigger] line[x]),
        forall|x: int| e5 <= x < line.len() ==> is_white_or_quote(#[trigger] line[x]),
    ensures
        exists|a: Seq<char>, b: Seq<char>, c: Seq<char>, d: Seq<char>|
            line == a + line.subrange(e1, e2) + b + seq!['='] + c + line.subrange(e4, e5) + d
                && all_white(a) && all_white(b) && lacks(line.subrange(e1, e2), '=')
                && all_white_or_quote(c) && all_white_or_quote(d),
{
    let a = line.subrange(0, e1);
    let b = line.subrange(e2, e3);
    let c = line.subrange(e3 + 1, e4);
    let d = line.subrange(e5, line.len() as int);
    let k = line.subrange(e1, e2);
    let v = line.subrange(e4, e5);
    assert(line =~= a + k + b + seq!['='] + c + v + d);
    assert forall|x: int| 0 <= x < a.len() implies is_white_space(#[trigger] a[x]) by {
        assert(a[x] == line[x]);
    }
    assert forall|x: int| 0 <= x < b.len() implies is_white_space(#[trigger] b[x]) by {
        assert(b[x] == line[e2 + x]);
    }
    assert forall|x: int| 0 <= x < k.len() implies #[trigger] k[x] != '=' by {
        assert(k[x] == line[e1 + x]);
    }
    assert forall|x: int| 0 <= x < c.len() implies is_white_or_quote(#[trigger] c[x]) by {
        assert(c[x] == line[e3 + 1 + x]);
    }
    assert forall|x: int| 0 <= x < d.len() implies is_white_or_quote(#[trigger] d[x]) by {
        assert(d[x] == line[e5 + x]);
    }
}

/// The variable parsed from a line is the key and the value of that line
/// themselves: the line is white space, the key (which holds no `=`),
/// white space, the first `=`, white space and quotes, the value, and white
/// space and quotes. Nothing else is removed from the ends of either.
#[verifier::rlimit(50)]
pub proof fn lemma_parsed_line_shape(line: Seq<char>, k: Seq<char>, v: Seq<char>)
    requires
        lacks(line, '\n'),
        parse_env_text(line) == seq![(k, v)],
    ensures
        exists|a: Seq<char>, b: Seq<char>, c: Seq<char>, d: Seq<char>|
            line == a + k + b + seq!['='] + c + v + d && all_white(a) && all_white(b) && lacks(k, '=')
                && all_white_or_quote(c) && all_white_or_quote(d),
{
    let n = line.len() as int;
    lemma_single_line_parse(line);
    let parsed = parse_line(line);
    assert(parsed == Some((k, v))) by {
        if parsed is None {
            assert(parse_env_text(line).len() == 0);
        } else {
            assert(parse_env_text(line)[0] == parsed->0);
        }
    }
    let (p1, q1) = lemma_trim_shape(line, Strip::Whitespace);
    let t = line.subrange(p1, q1);
    lemma_find_char(t, '=');
    let idx = find_char(t, '=') as int;
    let kraw = t.take(idx);
    let (p2, q2) = lemma_trim_shape(kraw, Strip::Whitespace);
    let vraw = t.skip(idx + 1);
    let (p3, q3) = lemma_trim_shape(vraw, Strip::Whitespace);
    let w = vraw.subrange(p3, q3);
    let (p4, q4) = lemma_trim_shape(w, Strip::Char('"'));
    let u = w.subrange(p4, q4);
    let (p5, q5) = lemma_trim_shape(u, Strip::Char('\''));
    assert(k == kraw.subrange(p2, q2));
    assert(v == u.subrange(p5, q5));
    let base = p1 + idx + 1;
    let e1 = p1 + p2;
    let e2 = p1 + q2;
    let e3 = p1 + idx;
    let e4 = base + p3 + p4 + p5;
    let e5 = base + p3 + p4 + q5;
    assert(k =~= line.subrange(e1, e2));
    assert(v =~= line.subrange(e4, e5));
    assert(line[e3] == '=') by {
        assert(t[idx] == line[e3]);
    }
    assert forall|x: int| 0 <= x < e1 implies is_white_space(#[trigger] line[x]) by {
        if x >= p1 {
            assert(line[x] == kraw[x - p1]);
            assert(strips(Strip::Whitespace, kraw[x - p1]));
        } else {
            assert(strips(Strip::Whitespace, line[x]));
        }
    }
    assert forall|x: int| e1 <= x < e2 implies #[trigger] line[x] != '=' by {
        assert(line[x] == t[x - p1]);
    }
    assert forall|x: int| e2 <= x < e3 implies is_white_space(#[trigger] line[x]) by {
        assert(line[x] == kraw[x - p1]);
        assert(strips(Strip::Whitespace, kraw[x - p1]));
    }
    assert forall|x: int| e3 + 1 <= x < e4 implies is_white_or_quote(#[trigger] line[x]) by {
        let y = x - base;
        if y < p3 {
            assert(line[x] == vraw[y]);
            assert(strips(Strip::Whitespace, vraw[y]));
        } else if y < p3 + p4 {
            assert(line[x] == w[y - p3]);
            assert(strips(Strip::Char('"'), w[y - p3]));
        } else {
            assert(line[x] == u[y - p3 - p4]);
            assert(strips(Strip::Char('\''), u[y - p3 - p4]));
        }
    }
    assert forall|x: int| e5 <= x < n implies is_white_or_quote(#[trigger] line[x]) by {
        let y = x - base;
        if x < base + p3 + q4 {
            assert(line[x] == u[y - p3 - p4]);
            assert(strips(Strip::Char('\''), u[y - p3 - p4]));
        } else if x < base + q3 {
            assert(line[x] == w[y - p3]);
            assert(strips(Strip::Char('"'), w[y - p3]));
        } else if x < q1 {
            assert(line[x] == vraw[y]);
            assert(strips(Strip::Whitespace, vraw[y]));
        } else {
            assert(strips(Strip::Whitespace, line[x]));
        }
    }
    lemma_regions(line, e1, e2, e3, e4, e5);
}

/// A line `k=v` whose key holds no `=` and has no white space around it
/// (and does not start a comment), and whose value has no white space or
/// quotes around it, parses to exactly `(k, v)`, whatever other characters
/// either holds, `=` in the value included.
pub proof fn lemma_parse_plain_pair(k: Seq<char>, v: Seq<char>)
    requires
        lacks(k, '='),
        lacks(k, '\n'),
        lacks(v, '\n'),
        k.len() > 0 ==> !is_white_space(k[0]) && k[0] != '#' && !is_white_space(k.last()),
        v.len() > 0 ==> !is_white_or_quote(v[0]) && !is_white_or_quote(v.last()),
    ensures
        parse_env_spec(encode_utf8(k + seq!['='] + v + seq!['\n'])) == Ok::<Seq<(Seq<char>, Seq<char>)>, CryptoError>(
            seq![(k, v)],
        ),
{
    broadcast use vstd::utf8::encode_utf8_valid_utf8, vstd::utf8::encode_utf8_decode_utf8;

    let line = k + seq!['='] + v;
    let text = line + seq!['\n'];
    assert(text =~= line.push('\n'));
    lemma_parse_text_newline(line);
    let n = line.len() as int;
    assert forall|x: int| 0 <= x < n implies #[trigger] line[x] != '\n' by {
        if x < k.len() {
            assert(line[x] == k[x]);
        } else if x > k.len() {
            assert(line[x] == v[x - k.len() - 1]);
        }
    }
    lemma_find_char_is(line, '\n', n);
    assert(line.take(n) =~= line);
    assert(line[0] == if k.len() > 0 { k[0] } else { '=' });
    assert(line.last() == if v.len() > 0 { v.last() } else { '=' });
    lemma_trim_unchanged(line, Strip::Whitespace);
    assert forall|x: int| 0 <= x < k.len() implies #[trigger] line[x] != '=' by {
        assert(line[x] == k[x]);
    }
    lemma_find_char_is(line, '=', k.len() as int);
    assert(line.take(k.len() as int) =~= k);
    assert(line.skip(k.len() + 1int) =~= v);
    lemma_trim_unchanged(k, Strip::Whitespace);
    lemma_trim_unchanged(v, Strip::Whitespace);
    lemma_trim_unchanged(v, Strip::Char('"'));
    lemma_trim_unchanged(v, Strip::Char('\''));
    assert(parse_line(line) == Some((k, v)));
    let empty = Seq::<(Seq<char>, Seq<char>)>::empty();
    assert(parse_env_text(line) =~= seq![(k, v)]) by {
        assert(parse_env_text(line) == seq![(k, v)] + empty || parse_env_text(line) == seq![(k, v)]);
    }
}

/// The pairs of strings as pairs of character sequences.
pub open spec fn vars_view(v: Seq<(String, String)>) -> Seq<(Seq<char>, Seq<char>)> {
    v.map_values(|p: (String, String)| (p.0@, p.1@))
}

/// The variables as `parse_env_bytes` hands them back.
pub open spec fn vars_result_view(r: Result<Vec<(String, String)>, CryptoError>) -> Result<
    Seq<(Seq<char>, Seq<char>)>,
    CryptoError,
> {
    match r {
        Ok(v) => Ok(vars_view(v@)),
        Err(e) => Err(e),
    }
}

fn parse_line_at(s: &Vec<char>, i: usize, j: usize) -> (r: Option<(String, String)>)
    requires
        i <= j <= s@.len(),
    ensures
        match r {
            Some(p) => parse_line(s@.subrange(i as int, j as int)) == Some((p.0@, p.1@)),
            None => parse_line(s@.subrange(i as int, j as int)) is None,
        },
{
    let ghost line = s@.subrange(i as int, j as int);
    let (a, b) = trim_bounds(s, i, j, Strip::Whitespace);
    let ghost t = s@.subrange(a as int, b as int);
    assert(t == trim_ws(line));
    if a == b || s[a] == '#' {
        return None;
    }
    let idx = find_from(s, a, b, '=');
    if idx == b {
        return None;
    }
    assert(t.take(idx - a) =~= s@.subrange(a as int, idx as int));
    assert(t.skip(idx - a + 1) =~= s@.subrange(idx + 1, b as int));
    let (ka, kb) = trim_bounds(s, a, idx, Strip::Whitespace);
    let (va, vb) = trim_bounds(s, idx + 1, b, Strip::Whitespace);
    let (qa, qb) = trim_bounds(s, va, vb, Strip::Char('"'));
    let (ua, ub) = trim_bounds(s, qa, qb, Strip::Char('\''));
    let key = copy_range(s, ka, kb);
    let val = copy_range(s, ua, ub);
    Some((string_of(&key), string_of(&val)))
}

/// Parses the text of an env file into its `KEY=VALUE` pairs.
///
/// Each line is trimmed; blank lines, lines starting with `#` and lines
/// without `=` are skipped. The key is the trimmed text before the first
/// `=`, the value the trimmed text after it without surrounding double and
/// then single quotes. Fails with `NotUtf8` when the bytes are not UTF-8.
pub fn parse_env_bytes(data: &[u8]) -> (r: Result<Vec<(String, String)>, CryptoError>)
    ensures
        vars_result_view(r) == parse_env_spec(data@),
{
    let chars = match utf8_chars(data) {
        Some(v) => v,
        None => return Err(CryptoError::NotUtf8),
    };
    let ghost text = chars@;
    let n: usize = chars.len();
    let mut vars: Vec<(String, String)> = Vec::new();
    let mut i: usize = 0;
    assert(text.skip(0) =~= text);
    assert(vars_view(vars@) + parse_env_text(text.skip(0)) =~= parse_env_text(text));
    loop
        invariant_except_break
            n == chars@.len(),
            text == chars@,
            i <= n,
            vars_view(vars@) + parse_env_text(text.skip(i as int)) == parse_env_text(text),
        ensures
            vars_view(vars@) == parse_env_text(text),
        decreases n - i,
    {
        let j = find_from(&chars, i, n, '\n');
        let ghost rest = text.skip(i as int);
        proof {
            assert(text.subrange(i as int, n as int) =~= rest);
            assert(rest.take(j - i) =~= text.subrange(i as int, j as int));
            if j < n {
                assert(rest.skip(j - i + 1) =~= text.skip(j + 1));
            }
        }
        let parsed = parse_line_at(&chars, i, j);
        let ghost before = vars_view(vars@);
        match parsed {
            Some(p) => {
                vars.push(p);
                assert(vars_view(vars@) =~= before.push((p.0@, p.1@)));
            },
            None => {},
        }
        if j < n {
            assert(vars_view(vars@) + parse_env_text(text.skip(j + 1)) =~= before
                + parse_env_text(rest));
            i = j + 1;
        } else {
            assert(vars_view(vars@) =~= before + parse_env_text(rest));
            assert(vars_view(vars@) =~= parse_env_text(text));
            break;
        }
    }
    Ok(vars)
}

} // verus!
