//! Codec and container logic for the PNG chunk format: four-byte chunk type
//! codes with their bit-flag semantics, individual chunks (length, type,
//! payload, CRC-32) with encode/decode and integrity verification, and the
//! ordered chunk container with signature validation and type-keyed
//! lookup/insert/remove.

pub mod be_bytes;
pub mod chunk;
pub mod chunk_type;
pub mod png;

pub use chunk::Chunk;
pub use chunk::ChunkError;
pub use chunk_type::ChunkType;
pub use chunk_type::ChunkTypeErr;
pub use png::Png;
pub use png::PngError;
