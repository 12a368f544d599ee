//! Embed, retrieve, and delete byte payloads stored in ancillary chunks of a
//! PNG image: a binary-exact chunk encoder/decoder with CRC-32 validation, a
//! chunk-type tag validator, and a container that parses a whole PNG byte
//! stream and serializes it back.

pub mod args;
pub mod be_bytes;
pub mod chunk;
pub mod chunk_type;
pub mod crc32;
pub mod error;
pub mod png;
pub mod text;

pub use args::{Args, Command};
pub use chunk::Chunk;
pub use chunk_type::ChunkType;
pub use error::PngError;
pub use png::Png;
