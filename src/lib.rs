//! Reading and writing of the NBT binary tag format, and of region files
//! that bundle 1024 compressed NBT documents on a 32 by 32 grid.
use vstd::prelude::*;

pub mod bytes;
pub mod compression;
pub mod document;
pub mod error;
pub mod format;
pub mod laws;
pub mod reader;
pub mod region;
pub mod tag;
pub mod writer;

pub use bytes::Endian;
pub use compression::{compress_data, decompress_optimized, detect_compression, CompressionFormat};
pub use document::NbtFile;
pub use error::NbtError;
pub use reader::NbtReader;
pub use region::{read_region, write_region, Chunk, Region};
pub use tag::{CompoundMap, NbtTag};
pub use writer::NbtWriter;

verus! {

} // verus!
