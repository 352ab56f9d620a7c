//! At-rest encryption and password-hashing primitives, consumed as
//! opaque capabilities through trusted declarations, and the verified
//! packaging around them.

use vstd::prelude::*;
use crate::strutil::bytes_to_string;
use aes_gcm::aead::Aead;
use aes_gcm::aead::Nonce;
use aes_gcm::{Aes256Gcm, Key, KeyInit};
use argon2::{Argon2, PasswordHasher, PasswordVerifier};
use base64::Engine;

verus! {

/// What AES-256-GCM sealing returns for a given plaintext, key and nonce;
/// a function of its arguments alone.
pub uninterp spec fn aes_seal(plaintext: Seq<u8>, key: Seq<u8>, nonce: Seq<u8>) -> Option<Seq<u8>>;

/// What AES-256-GCM opening returns for a given ciphertext, key and
/// nonce; a function of its arguments alone.
pub uninterp spec fn aes_open(ciphertext: Seq<u8>, key: Seq<u8>, nonce: Seq<u8>) -> Option<Seq<u8>>;

/// What the standard base64 alphabet encodes a byte run to.
pub uninterp spec fn b64_of(bytes: Seq<u8>) -> Seq<char>;

/// What standard base64 decoding returns for a text.
pub uninterp spec fn b64_parse(text: Seq<char>) -> Option<Seq<u8>>;

/// What password verification returns for a stored hash text and a
/// password: `None` when the hash text cannot be parsed, otherwise
/// whether the password matches.
pub uninterp spec fn pw_verify(hash: Seq<char>, password: Seq<char>) -> Option<bool>;

/// Relies on rand's `fill` over the thread generator. The key is random,
/// so nothing more is promised of it.
#[verifier::external_body]
pub fn generate_encryption_key() -> (key: [u8; 32])
    ensures
        key@.len() == 32,
{
    let mut key = [0u8; 32];
    rand::fill(&mut key[..]);
    key
}

/// Relies on rand's `fill` over the thread generator. The nonce is
/// random, so nothing more is promised of it.
#[verifier::external_body]
pub fn generate_nonce() -> (nonce: [u8; 12])
    ensures
        nonce@.len() == 12,
{
    let mut nonce = [0u8; 12];
    rand::fill(&mut nonce[..]);
    nonce
}

/// Relies on aes-gcm's `Aead::encrypt` with a 256-bit key: the result is
/// a function of plaintext, key and nonce, and a successful seal carries
/// a 16-byte tag after the ciphertext.
#[verifier::external_body]
pub fn encrypt_data(data: &[u8], encryption_key: &[u8], nonce: &[u8; 12]) -> (r: Result<
    Vec<u8>,
    String,
>)
    requires
        encryption_key@.len() == 32,
    ensures
        r is Ok <==> aes_seal(data@, encryption_key@, nonce@) is Some,
        r matches Ok(c) ==> Some(c@) == aes_seal(data@, encryption_key@, nonce@) && c@.len()
            == data@.len() + 16,
{
    let key = Key::<Aes256Gcm>::try_from(encryption_key)
        .map_err(|e| format!("Invalid key length: {}", e))?;
    let cipher = Aes256Gcm::new(&key);
    let nonce = Nonce::<Aes256Gcm>::from(*nonce);
    cipher.encrypt(&nonce, data).map_err(|e| format!("Encryption failed: {}", e))
}

/// Relies on aes-gcm's `Aead::decrypt` with a 256-bit key: the result is
/// a function of ciphertext, key and nonce, and an inauthentic
/// ciphertext is refused.
#[verifier::external_body]
fn aes_decrypt_bytes(encrypted_data: &[u8], encryption_key: &[u8], nonce: &[u8; 12]) -> (r: Result<
    Vec<u8>,
    String,
>)
    requires
        encryption_key@.len() == 32,
    ensures
        r is Ok <==> aes_open(encrypted_data@, encryption_key@, nonce@) is Some,
        r matches Ok(p) ==> Some(p@) == aes_open(encrypted_data@, encryption_key@, nonce@),
{
    let key = Key::<Aes256Gcm>::try_from(encryption_key)
        .map_err(|e| format!("Invalid key length: {}", e))?;
    let cipher = Aes256Gcm::new(&key);
    let nonce = Nonce::<Aes256Gcm>::from(*nonce);
    cipher.decrypt(&nonce, encrypted_data).map_err(|e| format!("Decryption failed: {}", e))
}

/// Open a sealed byte run and read it back as text: the bytes that
/// `aes_open` yields, decoded as UTF-8; either step can refuse.
pub fn decrypt_data(encrypted_data: &[u8], encryption_key: &[u8], nonce: &[u8; 12]) -> (r: Result<
    String,
    String,
>)
    requires
        encryption_key@.len() == 32,
    ensures
        r is Ok <==> (aes_open(encrypted_data@, encryption_key@, nonce@) matches Some(p)
            && vstd::utf8::valid_utf8(p)),
        r matches Ok(text) ==> text@ == vstd::utf8::decode_utf8(
            aes_open(encrypted_data@, encryption_key@, nonce@)->Some_0,
        ),
{
    let decrypted = match aes_decrypt_bytes(encrypted_data, encryption_key, nonce) {
        Ok(p) => p,
        Err(e) => {
            return Err(e);
        },
    };
    match bytes_to_string(decrypted) {
        Some(text) => Ok(text),
        None => Err("Invalid UTF-8 sequence in decrypted data".to_owned()),
    }
}

/// Relies on argon2's `PasswordHasher::hash_password`: the salt is drawn
/// from the system generator, so only the shape of a successful result is
/// promised. A password that verifies later is checked by `verify_password`.
#[verifier::external_body]
pub fn hash_password(password: &str) -> (r: Result<String, String>)
    ensures
        r matches Ok(h) ==> h@.len() > 0,
{
    Argon2::default()
        .hash_password(password.as_bytes())
        .map(|hash| hash.to_string())
        .map_err(|e| format!("Password hashing failed: {}", e))
}

/// Relies on argon2's `PasswordVerifier::verify_password` over a PHC hash
/// text: deterministic in the hash text and the password; an unparsable
/// hash text is an error, a parsed one yields whether the password
/// matches.
#[verifier::external_body]
pub fn verify_password(hash: &str, password: &str) -> (r: Result<bool, String>)
    ensures
        r is Ok <==> pw_verify(hash@, password@) is Some,
        r matches Ok(b) ==> Some(b) == pw_verify(hash@, password@),
{
    match PasswordVerifier::<str>::verify_password(&Argon2::default(), password.as_bytes(), hash) {
        Ok(()) => Ok(true),
        Err(argon2::password_hash::Error::PasswordInvalid) => Ok(false),
        Err(e) => Err(format!("Invalid password hash: {}", e)),
    }
}

/// Relies on base64's standard engine `encode`: the text is a function of
/// the bytes alone, and `decode` inverts it.
#[verifier::external_body]
pub fn base64_encode(bytes: &[u8]) -> (text: String)
    ensures
        text@ == b64_of(bytes@),
        b64_parse(text@) == Some(bytes@),
{
    base64::engine::general_purpose::STANDARD.encode(bytes)
}

/// Relies on base64's standard engine `decode`: the result is a function
/// of the text alone; text outside the alphabet or badly padded is
/// refused.
#[verifier::external_body]
pub fn base64_decode(text: &str) -> (r: Result<Vec<u8>, String>)
    ensures
        r is Ok <==> b64_parse(text@) is Some,
        r matches Ok(bytes) ==> Some(bytes@) == b64_parse(text@),
{
    base64::engine::general_purpose::STANDARD.decode(text).map_err(|e| e.to_string())
}

} // verus!
