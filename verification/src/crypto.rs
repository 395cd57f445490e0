//! The crypto engine: key derivation and authenticated-by-padding block
//! encryption of raw byte buffers.
//!
//! A symmetric key is derived from the password by a memory-hard Argon2 hash,
//! salted with random material and peppered with a long random secret that is
//! stored beside the ciphertext.  Buffers are encrypted with AES-256 in CBC
//! mode under a fresh random IV; the PKCS#7 padding check on decryption is
//! what signals a wrong password.

use crate::envelope::{serialize_envelope, parse_envelope, EnvelopeParts, SALT_LEN, SECRET_LEN, IV_LEN, HEADER_LEN};
use block_modes::BlockMode;
use rand::Rng;
use vstd::prelude::*;
use vstd::utf8::encode_utf8;

verus! {

pub const KEY_LEN: usize = 32;

/// What can go wrong while encrypting or decrypting a buffer.
#[derive(Clone, Copy, Debug, PartialEq, Eq, Structural)]
pub enum Error {
    /// The key-derivation function rejected its configuration or inputs.
    KeyDerivation,
    /// A key or IV of the wrong length was handed to the block cipher.
    InvalidKeyOrIv,
    /// The buffer is shorter than the envelope's fixed-size fields.
    TruncatedEnvelope,
    /// The padding was invalid after decryption: the password is wrong or the
    /// stored bytes are corrupt.
    WrongPasswordOrCorrupt,
}

/// Whether the key-derivation function accepts its inputs: under the fixed
/// configuration the outcome depends on the input lengths alone.  The salt
/// must be 8 to 0xFFFF_FFFF bytes; the password's UTF-8 bytes and the secret
/// at most 0xFFFF_FFFF each.
pub open spec fn kdf_accepts(password: Seq<char>, salt: Seq<u8>, secret: Seq<u8>) -> bool {
    &&& 8 <= salt.len() <= 0xFFFF_FFFF
    &&& secret.len() <= 0xFFFF_FFFF
    &&& encode_utf8(password).len() <= 0xFFFF_FFFF
}

/// Whether a password is short enough for key derivation; every password
/// under 4 GiB of UTF-8 is.
pub open spec fn password_ok(password: Seq<char>) -> bool {
    encode_utf8(password).len() <= 0xFFFF_FFFF
}

/// The 32-byte key that the Argon2 hash derives from a password, a salt and a
/// secret pepper.  The configuration is fixed, so the result is a function of
/// these three inputs alone.
pub uninterp spec fn key_of(password: Seq<char>, salt: Seq<u8>, secret: Seq<u8>) -> Seq<u8>;

/// The ciphertext that AES-256-CBC with PKCS#7 padding produces from a 32-byte
/// key, a 16-byte IV and a plaintext.
pub uninterp spec fn cipher_of(key: Seq<u8>, iv: Seq<u8>, plaintext: Seq<u8>) -> Seq<u8>;

/// The outcome of AES-256-CBC decryption with a PKCS#7 padding check: `None`
/// when the buffer is no whole number of blocks or the padding is invalid
/// after decryption.
pub uninterp spec fn plain_of(key: Seq<u8>, iv: Seq<u8>, ciphertext: Seq<u8>) -> Option<Seq<u8>>;

/// Relies on rand's `thread_rng` and `Rng::fill`: fills a buffer of the
/// requested length from a cryptographically secure random source.  Nothing is
/// promised of the values.
#[verifier::external_body]
fn random_bytes(len: usize) -> (r: Vec<u8>)
    ensures
        r@.len() == len,
{
    let mut bytes = vec![0u8; len];
    rand::thread_rng().fill(&mut bytes[..]);
    bytes
}

/// Relies on rust-argon2's `hash_raw`: with a fixed configuration the raw
/// hash is a deterministic function of password, salt and secret alone, of
/// exactly the configured length.  Its validation accepts or rejects on the
/// input lengths alone (all other checked parameters are fixed here), and
/// after validation the hash is computed infallibly.
#[verifier::external_body]
fn argon2_hash_raw(password: &str, salt: &[u8], secret: &[u8]) -> (r: Result<Vec<u8>, Error>)
    ensures
        r matches Ok(k) ==> k@ == key_of(password@, salt@, secret@) && k@.len() == KEY_LEN,
        r is Ok <==> kdf_accepts(password@, salt@, secret@),
        r matches Err(e) ==> e is KeyDerivation,
{
    let mut config = argon2::Config::default();
    config.hash_length = 32;
    config.secret = secret;
    match argon2::hash_raw(password.as_bytes(), salt, &config) {
        Ok(key) => Ok(key),
        Err(_) => Err(Error::KeyDerivation),
    }
}

/// Relies on block-modes' `Cbc::<Aes256, Pkcs7>::encrypt_vec`: with a 32-byte
/// key and a 16-byte IV the ciphertext is a function of key, IV and plaintext
/// alone, PKCS#7 pads to the next whole 16-byte block, and `decrypt_vec` with
/// the same key and IV inverts it.
#[verifier::external_body]
fn aes256_cbc_encrypt(key: &[u8], iv: &[u8], plaintext: &[u8]) -> (r: Vec<u8>)
    requires
        key@.len() == KEY_LEN,
        iv@.len() == IV_LEN,
    ensures
        r@ == cipher_of(key@, iv@, plaintext@),
        r@.len() == (plaintext@.len() / 16 + 1) * 16,
        plain_of(key@, iv@, r@) == Some(plaintext@),
{
    let cipher = block_modes::Cbc::<aes::Aes256, block_modes::block_padding::Pkcs7>::new_from_slices(key, iv).unwrap();
    cipher.encrypt_vec(plaintext)
}

/// Relies on block-modes' `Cbc::<Aes256, Pkcs7>::decrypt_vec`: with a 32-byte
/// key and a 16-byte IV the outcome is a function of key, IV and ciphertext
/// alone, and it fails exactly when the buffer is no whole number of blocks or
/// the padding is invalid after decryption.
#[verifier::external_body]
fn aes256_cbc_decrypt(key: &[u8], iv: &[u8], ciphertext: &[u8]) -> (r: Option<Vec<u8>>)
    requires
        key@.len() == KEY_LEN,
        iv@.len() == IV_LEN,
    ensures
        r matches Some(p) ==> plain_of(key@, iv@, ciphertext@) == Some(p@),
        r is None ==> plain_of(key@, iv@, ciphertext@) is None,
{
    let cipher = block_modes::Cbc::<aes::Aes256, block_modes::block_padding::Pkcs7>::new_from_slices(key, iv).unwrap();
    match cipher.decrypt_vec(ciphertext) {
        Ok(plaintext) => Some(plaintext),
        Err(_) => None,
    }
}

/// Derives the 32-byte key for `password` from the stored salt and secret.
///
/// Deterministic given identical inputs, so decryption can re-derive the key
/// that encryption used.
pub fn recover_key(password: &str, salt: &[u8], secret: &[u8]) -> (r: Result<Vec<u8>, Error>)
    ensures
        r matches Ok(k) ==> k@ == key_of(password@, salt@, secret@) && k@.len() == KEY_LEN,
        r is Ok <==> kdf_accepts(password@, salt@, secret@),
        r matches Err(e) ==> e is KeyDerivation,
{
    argon2_hash_raw(password, salt, secret)
}

/// Draws a fresh salt and secret and derives the key they give for `password`.
///
/// Returns `(salt, secret, key)`.
pub fn create_key(password: &str) -> (r: Result<(Vec<u8>, Vec<u8>, Vec<u8>), Error>)
    ensures
        r matches Ok(t) ==> t.0@.len() == SALT_LEN && t.1@.len() == SECRET_LEN && t.2@ == key_of(
            password@,
            t.0@,
            t.1@,
        ) && t.2@.len() == KEY_LEN,
        password_ok(password@) ==> r is Ok,
        r matches Err(e) ==> e is KeyDerivation,
{
    let salt = random_bytes(SALT_LEN);
    let secret = random_bytes(SECRET_LEN);
    let key = match recover_key(password, salt.as_slice(), secret.as_slice()) {
        Ok(key) => key,
        Err(e) => {
            return Err(e);
        },
    };
    Ok((salt, secret, key))
}

/// What decrypting an envelope under `password` yields: `None` when the
/// envelope is shorter than its fixed-size fields, or when the block cipher's
/// padding check fails for the key the stored salt and secret derive.
pub open spec fn decrypt_spec(password: Seq<char>, data: Seq<u8>) -> Option<Seq<u8>> {
    if data.len() < HEADER_LEN {
        None
    } else {
        plain_of(
            key_of(
                password,
                data.subrange(0, SALT_LEN as int),
                data.subrange(SALT_LEN as int, (SALT_LEN + SECRET_LEN) as int),
            ),
            data.subrange((SALT_LEN + SECRET_LEN) as int, HEADER_LEN as int),
            data.subrange(HEADER_LEN as int, data.len() as int),
        )
    }
}

/// Encrypts `data` under `password` into a self-describing envelope.
///
/// Every call draws a fresh salt, secret and IV.  On success the returned
/// envelope decrypts back to exactly `data` under the same password.
pub fn encrypt_slice(password: &str, data: &[u8]) -> (r: Result<Vec<u8>, Error>)
    ensures
        r matches Ok(env) ==> decrypt_spec(password@, env@) == Some(data@) && env@.len()
            == HEADER_LEN + (data@.len() / 16 + 1) * 16,
        r matches Ok(env) ==> exists|salt: Seq<u8>, secret: Seq<u8>, iv: Seq<u8>|
            salt.len() == SALT_LEN && secret.len() == SECRET_LEN && iv.len() == IV_LEN && env@
                == crate::envelope::envelope_bytes(
                salt,
                secret,
                iv,
                #[trigger] cipher_of(key_of(password@, salt, secret), iv, data@),
            ),
        r matches Err(e) ==> e is KeyDerivation,
        password_ok(password@) ==> r is Ok,
{
    let (salt, secret, key) = match create_key(password) {
        Ok(t) => t,
        Err(_) => {
            return Err(Error::KeyDerivation);
        },
    };
    let iv = random_bytes(IV_LEN);
    let ciphertext = aes256_cbc_encrypt(key.as_slice(), iv.as_slice(), data);
    let parts = EnvelopeParts { salt, secret, iv, ciphertext };
    let env = serialize_envelope(&parts);
    proof {
        assert(env@ == crate::envelope::envelope_bytes(
            parts.salt@,
            parts.secret@,
            parts.iv@,
            cipher_of(key_of(password@, parts.salt@, parts.secret@), parts.iv@, data@),
        ));
        assert(env@.subrange(0, SALT_LEN as int) =~= parts.salt@);
        assert(env@.subrange(SALT_LEN as int, (SALT_LEN + SECRET_LEN) as int) =~= parts.secret@);
        assert(env@.subrange((SALT_LEN + SECRET_LEN) as int, HEADER_LEN as int) =~= parts.iv@);
        assert(env@.subrange(HEADER_LEN as int, env@.len() as int) =~= parts.ciphertext@);
    }
    Ok(env)
}

/// Decrypts an envelope produced by [`encrypt_slice`] under `password`.
///
/// Distinguishes a truncated envelope from a failed padding check; the latter
/// is the signal that the password is wrong or the file corrupt.
pub fn decrypt_slice(password: &str, data: &[u8]) -> (r: Result<Vec<u8>, Error>)
    ensures
        r matches Ok(p) ==> decrypt_spec(password@, data@) == Some(p@),
        r matches Err(e) ==> (e is KeyDerivation || e is TruncatedEnvelope
            || e is WrongPasswordOrCorrupt),
        (r matches Err(e) && e is TruncatedEnvelope) <==> data@.len() < HEADER_LEN,
        r matches Err(e) && e is WrongPasswordOrCorrupt ==> decrypt_spec(password@, data@)
            is None,
        password_ok(password@) ==> (decrypt_spec(password@, data@) matches Some(p) ==> (r
            matches Ok(q) && q@ == p)),
        password_ok(password@) && data@.len() >= HEADER_LEN && decrypt_spec(password@, data@)
            is None ==> r == Err::<Vec<u8>, Error>(Error::WrongPasswordOrCorrupt),
{
    let parts = match parse_envelope(data) {
        Some(parts) => parts,
        None => {
            return Err(Error::TruncatedEnvelope);
        },
    };
    let key = match recover_key(password, parts.salt.as_slice(), parts.secret.as_slice()) {
        Ok(key) => key,
        Err(_) => {
            return Err(Error::KeyDerivation);
        },
    };
    match aes256_cbc_decrypt(key.as_slice(), parts.iv.as_slice(), parts.ciphertext.as_slice()) {
        Some(plaintext) => Ok(plaintext),
        None => Err(Error::WrongPasswordOrCorrupt),
    }
}

} // verus!
