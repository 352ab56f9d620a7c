//! The clipboard service's computations: packaging content for storage
//! at rest (encrypt, prefix the nonce, base64), unpacking it again, and
//! the request shapes the command surface hands over.

use vstd::prelude::*;
use crate::crypto::{aes_open, aes_seal, b64_of, b64_parse, base64_decode, base64_encode,
    encrypt_data};
use crate::error::AppError;

verus! {

/// A request to add one entry.
pub struct ClipboardItemRequest {
    pub content: String,
    pub content_type: String,
    pub encrypt: bool,
}

/// A request to replace one entry.
pub struct ClipboardItemUpdateRequest {
    pub id: String,
    pub content: String,
    pub content_type: String,
    pub encrypt: bool,
}

/// What a stored content column holds after sealing: the nonce, then the
/// sealed bytes, base64 of the two together.
pub open spec fn sealed_content(
    plaintext: Seq<u8>,
    key: Seq<u8>,
    nonce: Seq<u8>,
) -> Option<Seq<char>> {
    match aes_seal(plaintext, key, nonce) {
        Some(c) => Some(b64_of(nonce + c)),
        None => None,
    }
}

/// The clipboard service's pure computations; storage and key lookup stay
/// with the caller.
pub struct ClipboardService;

impl ClipboardService {
    /// Package content for storage: seal it under the key and a fresh
    /// nonce, put the nonce in front, and write the whole as base64.
    pub fn seal_content(content: &str, key: &[u8], nonce: &[u8; 12]) -> (r: Result<
        String,
        AppError,
    >)
        requires
            key@.len() == 32,
        ensures
            r is Ok <==> sealed_content(vstd::utf8::encode_utf8(content@), key@, nonce@) is Some,
            r matches Ok(text) ==> Some(text@) == sealed_content(
                vstd::utf8::encode_utf8(content@),
                key@,
                nonce@,
            ),
            r matches Err(e) ==> e is CryptoError,
    {
        let data = content.as_bytes();
        let encrypted = match encrypt_data(data, key, nonce) {
            Ok(c) => c,
            Err(e) => {
                return Err(AppError::CryptoError(e));
            },
        };
        let mut combined: Vec<u8> = Vec::new();
        let mut i: usize = 0;
        while i < 12
            invariant
                i <= 12,
                combined@ =~= nonce@.take(i as int),
            decreases 12 - i,
        {
            combined.push(nonce[i]);
            i = i + 1;
        }
        proof {
            assert(combined@ =~= nonce@);
        }
        let mut rest = encrypted;
        let ghost sealed = rest@;
        combined.append(&mut rest);
        proof {
            assert(combined@ == nonce@ + sealed);
        }
        Ok(base64_encode(combined.as_slice()))
    }

    /// What the add and update paths do to content before it is stored:
    /// pass it through unchanged when encryption is off; otherwise seal it
    /// under the account key, which must be present.
    pub fn prepare_content(content: String, encrypt: bool, key: Option<&Vec<u8>>, nonce: &[
        u8; 12
    ]) -> (r: Result<(String, bool), AppError>)
        requires
            match key {
                Some(k) => k@.len() == 32,
                None => true,
            },
        ensures
            !encrypt ==> (r matches Ok((text, flag)) && text@ == content@ && !flag),
            encrypt && key is None ==> (r matches Err(e) && e is NotFound),
            encrypt ==> (key matches Some(k) ==> match sealed_content(
                vstd::utf8::encode_utf8(content@),
                k@,
                nonce@,
            ) {
                Some(sealed) => r matches Ok((text, flag)) && text@ == sealed && flag,
                None => r matches Err(e) && e is CryptoError,
            }),
    {
        if !encrypt {
            return Ok((content, false));
        }
        let key = match key {
            Some(k) => k,
            None => {
                return Err(AppError::NotFound("no encryption key for this account".to_owned()));
            },
        };
        match Self::seal_content(content.as_str(), key.as_slice(), nonce) {
            Ok(sealed) => Ok((sealed, true)),
            Err(e) => Err(e),
        }
    }

    /// Read a stored content column back: plain content is returned as it
    /// stands; sealed content is base64-decoded, split into the nonce and
    /// the sealed bytes, opened under the key, and read as UTF-8.
    pub fn decrypt_item_content(encrypted: bool, content: &str, key: &[u8]) -> (r: Result<
        String,
        AppError,
    >)
        requires
            key@.len() == 32,
        ensures
            !encrypted ==> (r matches Ok(text) && text@ == content@),
            encrypted ==> match b64_parse(content@) {
                None => r matches Err(e) && e is CryptoError,
                Some(combined) => if combined.len() < 12 {
                    r matches Err(e) && e is InvalidData
                } else {
                    match aes_open(combined.skip(12), key@, combined.take(12)) {
                        None => r matches Err(e) && e is CryptoError,
                        Some(plain) => if vstd::utf8::valid_utf8(plain) {
                            r matches Ok(text) && text@ == vstd::utf8::decode_utf8(plain)
                        } else {
                            r matches Err(e) && e is CryptoError
                        },
                    }
                },
            },
    {
        if !encrypted {
            return Ok(content.to_owned());
        }
        let combined = match base64_decode(content) {
            Ok(bytes) => bytes,
            Err(e) => {
                return Err(AppError::CryptoError(e));
            },
        };
        if combined.len() < 12 {
            return Err(AppError::InvalidData("sealed content shorter than a nonce".to_owned()));
        }
        let mut nonce_array = [0u8; 12];
        let mut i: usize = 0;
        while i < 12
            invariant
                i <= 12,
                combined@.len() >= 12,
                nonce_array@.len() == 12,
                forall|k: int| 0 <= k < i ==> nonce_array@[k] == combined@[k],
            decreases 12 - i,
        {
            nonce_array[i] = combined[i];
            i = i + 1;
        }
        proof {
            assert(nonce_array@ =~= combined@.take(12));
        }
        let n = combined.len();
        let mut encrypted_bytes: Vec<u8> = Vec::new();
        let mut j: usize = 12;
        while j < n
            invariant
                12 <= j <= n,
                n == combined@.len(),
                encrypted_bytes@ =~= combined@.subrange(12, j as int),
            decreases n - j,
        {
            encrypted_bytes.push(combined[j]);
            j = j + 1;
        }
        proof {
            assert(encrypted_bytes@ =~= combined@.skip(12));
        }
        match crate::crypto::decrypt_data(encrypted_bytes.as_slice(), key, &nonce_array) {
            Ok(text) => Ok(text),
            Err(e) => Err(AppError::CryptoError(e)),
        }
    }
}

} // verus!
