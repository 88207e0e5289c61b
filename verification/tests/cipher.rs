//! Tests of the cipher engine.

use aes::cipher::{AsyncStreamCipher, KeyIvInit};
use mmkv_parser::cipher::{decrypt, MmkvCrcHeader};
use mmkv_parser::Error;

const KEY: [u8; 16] = [0x42; 16];
const IV: [u8; 16] = [0x24; 16];

/// Build an enciphered store buffer for `plaintext` and the matching
/// 32-byte sidecar header.
fn encrypt_store(plaintext: &[u8]) -> (Vec<u8>, Vec<u8>) {
    let mut region = plaintext.to_vec();
    cfb_mode::Encryptor::<aes::Aes128>::new(&KEY.into(), &IV.into()).encrypt(&mut region);
    let crc = crc32fast::hash(&region);

    let mut body = Vec::new();
    body.extend_from_slice(&(plaintext.len() as u32).to_le_bytes());
    body.extend_from_slice(&region);

    let mut header = Vec::new();
    header.extend_from_slice(&crc.to_le_bytes());
    header.extend_from_slice(&[0u8; 8]);
    header.extend_from_slice(&IV);
    header.extend_from_slice(&(plaintext.len() as u32).to_le_bytes());

    (body, header)
}

#[test]
fn test_header_from_bytes() {
    let mut bytes = vec![0u8; 40];
    bytes[0..4].copy_from_slice(&0xdead_beefu32.to_le_bytes());
    bytes[12..28].copy_from_slice(&IV);
    bytes[28..32].copy_from_slice(&1234u32.to_le_bytes());
    let header = MmkvCrcHeader::from_bytes(&bytes).unwrap();
    assert_eq!(header.crc32, 0xdead_beef);
    assert_eq!(header.iv, IV);
    assert_eq!(header.real_size, 1234);
}

#[test]
fn test_header_from_bytes_short() {
    let bytes = [0u8; 31];
    assert!(matches!(
        MmkvCrcHeader::from_bytes(&bytes),
        Err(Error::UnexpectedEof)
    ));
}

#[test]
fn test_decrypt_round_trip() {
    let plaintext = b"hello world! this is my plaintext.";
    let (mut body, header_bytes) = encrypt_store(plaintext);
    let header = MmkvCrcHeader::from_bytes(&header_bytes).unwrap();

    let result = decrypt(&header, &KEY, &mut body);
    assert_eq!(result, Ok(plaintext.len()));
    assert_eq!(&body[4..], &plaintext[..]);
    assert_eq!(&body[0..4], &(plaintext.len() as u32).to_le_bytes());
}

#[test]
fn test_decrypt_buffer_too_small() {
    let plaintext = b"0123456789";
    let (mut body, header_bytes) = encrypt_store(plaintext);
    let header = MmkvCrcHeader::from_bytes(&header_bytes).unwrap();

    body.truncate(plaintext.len() + 3);
    let result = decrypt(&header, &KEY, &mut body);
    assert_eq!(result, Err(Error::BufferTooSmall(plaintext.len())));
}

#[test]
fn test_decrypt_tampered_ciphertext() {
    let plaintext = b"a store body that must stay intact";

    // Tampering any single ciphertext byte must be caught by the
    // checksum gate before anything is deciphered.
    for i in 4..4 + plaintext.len() {
        let (mut body, header_bytes) = encrypt_store(plaintext);
        let header = MmkvCrcHeader::from_bytes(&header_bytes).unwrap();
        body[i] ^= 0x01;
        let before = body.clone();
        let result = decrypt(&header, &KEY, &mut body);
        assert_eq!(result, Err(Error::ChecksumMismatch));
        assert_eq!(body, before);
    }
}

#[test]
fn test_decrypt_tampered_declared_size() {
    let plaintext = b"a store body that must stay intact";
    let (mut body, header_bytes) = encrypt_store(plaintext);
    let header = MmkvCrcHeader::from_bytes(&header_bytes).unwrap();

    body[0] ^= 0x01;
    let result = decrypt(&header, &KEY, &mut body);
    assert_eq!(result, Err(Error::FileSizeMismatch));
}
