use aes::cipher::{BlockEncryptMut, KeyIvInit};
use aes::Aes128;
use cbc::cipher::block_padding::{NoPadding, UnpadError};
use cbc::Encryptor;
use garupa::crypto::{decrypt_aes_128_cbc, decryption_outcome, CryptoError};

type Aes128CbcEnc = Encryptor<Aes128>;

#[test]
fn round_trip_aes_128_cbc() {
    let key = b"0123456789abcdef";
    let iv = b"fedcba9876543210";
    let plain: &[u8] = b"hello world!!!!!";

    let mut buf = plain.to_vec();
    let _ = Aes128CbcEnc::new(key.into(), iv.into())
        .encrypt_padded_mut::<NoPadding>(&mut buf, plain.len())
        .unwrap();

    let decrypted = decrypt_aes_128_cbc(key, iv, &buf).unwrap();
    assert_eq!(&decrypted, plain);
}

#[test]
fn rejects_non_block_aligned_payload() {
    let key = b"0123456789abcdef";
    let iv = b"fedcba9876543210";
    assert!(decrypt_aes_128_cbc(key, iv, b"short").is_err());
    assert!(decrypt_aes_128_cbc(key, iv, b"").is_err());
}

#[test]
fn invalid_payload_carries_its_length() {
    let key = b"0123456789abcdef";
    let iv = b"fedcba9876543210";
    assert_eq!(decrypt_aes_128_cbc(key, iv, b"short"), Err(CryptoError::InvalidPayload(5)));
    assert_eq!(decrypt_aes_128_cbc(key, iv, b""), Err(CryptoError::InvalidPayload(0)));
    assert_eq!(decrypt_aes_128_cbc(key, iv, &[0u8; 17]), Err(CryptoError::InvalidPayload(17)));
    // The payload is checked before the key, so a short key is no problem here.
    assert_eq!(decrypt_aes_128_cbc(b"k", b"v", b"abc"), Err(CryptoError::InvalidPayload(3)));
}

#[test]
fn decrypts_two_blocks_and_keeps_length() {
    let key = b"0123456789abcdef";
    let iv = b"fedcba9876543210";
    let plain: &[u8] = b"thirty-two bytes of plain text!!";
    let mut buf = plain.to_vec();
    let _ = Aes128CbcEnc::new(key.into(), iv.into())
        .encrypt_padded_mut::<NoPadding>(&mut buf, plain.len())
        .unwrap();
    assert_ne!(&buf[..], plain);
    let decrypted = decrypt_aes_128_cbc(key, iv, &buf).unwrap();
    assert_eq!(decrypted.len(), 32);
    assert_eq!(&decrypted, plain);
}

#[test]
fn cipher_refusal_becomes_decrypt_failed() {
    assert_eq!(decryption_outcome(Err(UnpadError)), Err(CryptoError::DecryptFailed));
    assert_eq!(decryption_outcome(Ok(vec![1, 2, 3])), Ok(vec![1, 2, 3]));
}
