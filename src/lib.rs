//! Streaming binary codecs: move-to-front ranking, run-length encoding,
//! CRC-32 checksums and gzip member framing.

pub mod crc;
pub mod shared;
pub mod mtf;
pub mod rle;
pub mod gzip;
