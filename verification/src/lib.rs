//! Decoder for the MMKV length-prefixed binary key-value store format,
//! together with checksum verification and in-place decryption of an
//! enciphered store using its sidecar CRC header.

use vstd::prelude::*;

pub mod bytes;
pub mod cipher;
pub mod mmkv;
pub mod store_map;

pub use mmkv::parse as parse_mmkv;
pub use mmkv::parse_string_key_value_pairs as parse_mmkv_key_value_pairs;

verus! {

/// Failures of the decoder and of the cipher engine.
///
/// Every core function fails fast: the first failed gate decides the
/// error and nothing after it runs.
#[derive(Clone, Copy, Debug, PartialEq, Eq, Structural)]
pub enum Error {
    /// The buffer ran out in the middle of decoding a varint or a header.
    UnexpectedEof,
    /// A declared length exceeds the actual buffer length; carries the
    /// number of bytes that would have been required.
    BufferTooSmall(usize),
    /// The size declared in the store buffer disagrees with the size
    /// recorded in the sidecar header.
    FileSizeMismatch,
    /// The checksum over the enciphered region does not match the header.
    ChecksumMismatch,
}

} // verus!
