//! The cipher engine: parsing of the sidecar CRC header, checksum
//! verification over the enciphered store, and in-place decryption.

use aes::cipher::{AsyncStreamCipher, KeyIvInit};
use vstd::prelude::*;
use vstd::slice::slice_subrange;

use crate::bytes::{read_u32_le, u32_le_of};
use crate::Error;

verus! {

/// The CRC-32 checksum of `data` as `crc32fast` computes it.
pub uninterp spec fn crc32_of(data: Seq<u8>) -> u32;

/// Relies on `crc32fast::hash`: the checksum is a function of the
/// bytes alone.
#[verifier::external_body]
fn crc32(data: &[u8]) -> (r: u32)
    ensures
        r == crc32_of(data@),
{
    crc32fast::hash(data)
}

/// The bytes that AES-128 in cipher-feedback mode deciphers `data`
/// into under `key` and `iv`.
pub uninterp spec fn aes128_cfb_decrypt_of(key: Seq<u8>, iv: Seq<u8>, data: Seq<u8>) -> Seq<u8>;

/// Relies on `cfb_mode::Decryptor::<aes::Aes128>` (`new` and
/// `decrypt`): deciphers `buf[start..end]` in place, a function of
/// key, initialization vector and those bytes alone, leaving the
/// buffer's length and the bytes outside the range untouched. `new`
/// panics only on a key that is not 16 bytes, which the precondition
/// rules out.
#[verifier::external_body]
fn aes128_cfb_decrypt_in_place(key: &[u8], iv: &[u8; 16], buf: &mut Vec<u8>, start: usize, end: usize)
    requires
        key@.len() == 16,
        start <= end <= old(buf)@.len(),
    ensures
        final(buf)@.len() == old(buf)@.len(),
        final(buf)@ == old(buf)@.take(start as int) + aes128_cfb_decrypt_of(
            key@,
            iv@,
            old(buf)@.subrange(start as int, end as int),
        ) + old(buf)@.skip(end as int),
{
    let decryptor = cfb_mode::Decryptor::<aes::Aes128>::new(key.into(), iv.into());
    decryptor.decrypt(&mut buf[start..end]);
}

/// The sidecar CRC header, parsed from the first 32 bytes of a `.crc`
/// file; whatever follows those bytes is ignored.
pub struct MmkvCrcHeader {
    /// CRC-32 checksum of the enciphered store content, taken over the
    /// `real_size` bytes behind the store's length prefix.
    pub crc32: u32,
    /// AES-128-CFB initialization vector.
    pub iv: [u8; 16],
    /// The store's payload size, without its 4-byte length prefix.
    pub real_size: usize,
}

impl MmkvCrcHeader {
    /// Parse a sidecar header: the checksum little-endian at offset 0,
    /// the initialization vector at offset 12, the plaintext size
    /// little-endian at offset 28. Fails with
    /// [`Error::UnexpectedEof`] on fewer than 32 bytes.
    pub fn from_bytes(bytes: &[u8]) -> (r: Result<MmkvCrcHeader, Error>)
        ensures
            bytes@.len() < 32 ==> r == Err::<MmkvCrcHeader, Error>(Error::UnexpectedEof),
            bytes@.len() >= 32 ==> (r matches Ok(h) && h.crc32 == u32_le_of(bytes@.subrange(0, 4))
                && h.iv@ == bytes@.subrange(12, 28) && h.real_size == u32_le_of(
                bytes@.subrange(28, 32),
            )),
    {
        if bytes.len() < 32 {
            return Err(Error::UnexpectedEof);
        }
        let crc32 = read_u32_le(bytes);
        let iv: [u8; 16] = [
            bytes[12],
            bytes[13],
            bytes[14],
            bytes[15],
            bytes[16],
            bytes[17],
            bytes[18],
            bytes[19],
            bytes[20],
            bytes[21],
            bytes[22],
            bytes[23],
            bytes[24],
            bytes[25],
            bytes[26],
            bytes[27],
        ];
        let size_bytes = slice_subrange(bytes, 28, 32);
        let real_size = read_u32_le(size_bytes) as usize;
        proof {
            assert(iv@ =~= bytes@.subrange(12, 28));
            assert(size_bytes@.subrange(0, 4) =~= bytes@.subrange(28, 32));
        }
        Ok(MmkvCrcHeader { crc32, iv, real_size })
    }
}

/// The outcome of the decrypt gate sequence on `body` under `h`: the
/// first failing gate decides, in this order: the buffer must hold
/// `real_size + 4` bytes, the declared size in its first four bytes
/// must equal `real_size`, and the checksum over the still enciphered
/// region must equal the header's.
pub open spec fn decrypt_gates(h: MmkvCrcHeader, body: Seq<u8>) -> Result<(), Error> {
    if body.len() < h.real_size + 4 {
        Err(Error::BufferTooSmall(h.real_size))
    } else if u32_le_of(body.subrange(0, 4)) != h.real_size {
        Err(Error::FileSizeMismatch)
    } else if crc32_of(body.subrange(4, h.real_size + 4)) != h.crc32 {
        Err(Error::ChecksumMismatch)
    } else {
        Ok(())
    }
}

/// Verify and decrypt an enciphered store buffer in place.
///
/// The gates of [`decrypt_gates`] run in order and the first failure
/// is returned with the buffer untouched; the checksum is taken over
/// the enciphered bytes, never the plaintext. When every gate passes,
/// the region behind the 4-byte length prefix is deciphered in place,
/// the prefix and anything behind the region stay untouched, and the
/// plaintext size is returned.
pub fn decrypt(crc_header: &MmkvCrcHeader, key: &[u8], mmkv_file_body: &mut Vec<u8>) -> (r: Result<
    usize,
    Error,
>)
    requires
        key@.len() == 16,
    ensures
        decrypt_gates(*crc_header, old(mmkv_file_body)@) matches Err(e) ==> r == Err::<
            usize,
            Error,
        >(e) && final(mmkv_file_body)@ == old(mmkv_file_body)@,
        decrypt_gates(*crc_header, old(mmkv_file_body)@) is Ok ==> r == Ok::<usize, Error>(
            crc_header.real_size,
        ) && final(mmkv_file_body)@ == old(mmkv_file_body)@.take(4) + aes128_cfb_decrypt_of(
            key@,
            crc_header.iv@,
            old(mmkv_file_body)@.subrange(4, crc_header.real_size + 4),
        ) + old(mmkv_file_body)@.skip(crc_header.real_size + 4),
{
    let real_size = crc_header.real_size;
    let body_len = mmkv_file_body.len();
    if body_len < real_size || body_len - real_size < 4 {
        return Err(Error::BufferTooSmall(real_size));
    }
    let declared_size = read_u32_le(mmkv_file_body.as_slice()) as usize;
    if declared_size != real_size {
        return Err(Error::FileSizeMismatch);
    }
    let region = slice_subrange(mmkv_file_body.as_slice(), 4, real_size + 4);
    if crc32(region) != crc_header.crc32 {
        return Err(Error::ChecksumMismatch);
    }
    aes128_cfb_decrypt_in_place(key, &crc_header.iv, mmkv_file_body, 4, real_size + 4);
    Ok(real_size)
}

/// Law: a buffer that would decrypt, altered only in its first four
/// declared-size bytes, is refused with
/// [`Error::FileSizeMismatch`].
pub proof fn lemma_size_tamper_detected(h: MmkvCrcHeader, good: Seq<u8>, bad: Seq<u8>)
    requires
        decrypt_gates(h, good) is Ok,
        bad.len() == good.len(),
        bad.skip(4) == good.skip(4),
        u32_le_of(bad.subrange(0, 4)) != u32_le_of(good.subrange(0, 4)),
    ensures
        decrypt_gates(h, bad) == Err::<(), Error>(Error::FileSizeMismatch),
{
}

/// Law: while the size gates pass, a checksum over the enciphered
/// region that disagrees with the header refuses decryption with
/// [`Error::ChecksumMismatch`]; nothing is deciphered first.
pub proof fn lemma_checksum_mismatch_detected(h: MmkvCrcHeader, body: Seq<u8>)
    requires
        body.len() >= h.real_size + 4,
        u32_le_of(body.subrange(0, 4)) == h.real_size,
        crc32_of(body.subrange(4, h.real_size + 4)) != h.crc32,
    ensures
        decrypt_gates(h, body) == Err::<(), Error>(Error::ChecksumMismatch),
{
}

} // verus!
