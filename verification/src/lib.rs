//! Snappy block compression: a byte-oriented LZ77 codec with a strictly
//! validating decoder, the varint length prefix it uses, and the masked
//! CRC32C checksum that guards compressed data.

pub mod block;
pub mod bytes;
pub mod compress;
pub mod crc32;
pub mod decompress;
pub mod error;
pub mod varint;

pub use crate::compress::{compress, max_compressed_len};
pub use crate::crc32::CheckSummer;
pub use crate::decompress::{decompress_len, Decoder};
pub use crate::error::Error;
