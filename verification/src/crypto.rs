//! Decryption of Garupa API response bodies: AES-128-CBC without padding.

use vstd::prelude::*;

verus! {

/// Why a response body could not be decrypted.
#[derive(Debug, Clone, Copy, PartialEq, Eq, Structural)]
pub enum CryptoError {
    /// The payload length is not a positive multiple of the AES block size
    /// (16); it carries that length.
    InvalidPayload(usize),
    /// The block cipher refused the buffer.
    DecryptFailed,
}

/// The error that `cipher`'s padded decryption reports.
#[verifier::external_type_specification]
#[verifier::external_body]
pub struct ExUnpadError(cbc::cipher::block_padding::UnpadError);

/// What AES-128 in CBC mode decrypts `ciphertext` to under `key` and `iv`,
/// with no padding removed.
pub uninterp spec fn aes128_cbc_plaintext(key: Seq<u8>, iv: Seq<u8>, ciphertext: Seq<u8>) -> Seq<u8>;

/// Decrypts `payload` in place with `cbc::Decryptor<aes::Aes128>` and
/// `decrypt_padded_mut::<NoPadding>`. Trusted: the plaintext is named; the
/// `cipher` source shows that the call fails exactly when the length is not a
/// multiple of 16 and that with no padding all bytes are kept. The key and IV
/// conversions panic unless both are 16 bytes long.
#[verifier::external_body]
fn cbc_decrypt_no_padding(key: &[u8], iv: &[u8], payload: &[u8]) -> (r: Result<Vec<u8>, cbc::cipher::block_padding::UnpadError>)
    requires
        key.len() == 16,
        iv.len() == 16,
    ensures
        r is Ok <==> payload.len() % 16 == 0,
        r matches Ok(out) ==> out@ == aes128_cbc_plaintext(key@, iv@, payload@),
        r matches Ok(out) ==> out.len() == payload.len(),
{
    let mut buf = payload.to_vec();
    let decipher = <cbc::Decryptor<aes::Aes128> as cbc::cipher::KeyIvInit>::new(key.into(), iv.into());
    cbc::cipher::BlockDecryptMut::decrypt_padded_mut::<cbc::cipher::block_padding::NoPadding>(decipher, &mut buf)
        .map(|out| out.to_vec())
}

/// Maps the cipher's outcome to the library's error type: a refusal of the
/// cipher becomes `DecryptFailed`, a plaintext is passed on.
pub fn decryption_outcome(outcome: Result<Vec<u8>, cbc::cipher::block_padding::UnpadError>) -> (r: Result<Vec<u8>, CryptoError>)
    ensures
        outcome matches Ok(out) ==> (r matches Ok(v) && v@ == out@),
        outcome is Err ==> r == Err::<Vec<u8>, CryptoError>(CryptoError::DecryptFailed),
{
    match outcome {
        Ok(out) => Ok(out),
        Err(_) => Err(CryptoError::DecryptFailed),
    }
}

/// Decrypts a Garupa API response body with AES-128-CBC and no padding.
///
/// The key and IV are the 16-byte values configured per server. Garupa
/// payloads are always a multiple of the block size, so no padding step is
/// needed. A payload that is empty or not a multiple of 16 bytes is refused
/// with `InvalidPayload` before the key and IV are looked at.
pub fn decrypt_aes_128_cbc(key: &[u8], iv: &[u8], payload: &[u8]) -> (r: Result<Vec<u8>, CryptoError>)
    requires
        payload.len() > 0 && payload.len() % 16 == 0 ==> key.len() == 16 && iv.len() == 16,
    ensures
        payload.len() == 0 || payload.len() % 16 != 0 ==> r == Err::<Vec<u8>, CryptoError>(
            CryptoError::InvalidPayload(payload.len()),
        ),
        payload.len() > 0 && payload.len() % 16 == 0 ==> (r matches Ok(out) && out@
            == aes128_cbc_plaintext(key@, iv@, payload@)),
        r matches Ok(out) ==> out.len() == payload.len(),
{
    if payload.len() == 0 || payload.len() % 16 != 0 {
        return Err(CryptoError::InvalidPayload(payload.len()));
    }
    decryption_outcome(cbc_decrypt_no_padding(key, iv, payload))
}

} // verus!
