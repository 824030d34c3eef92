//! A codec for a chunk-based binary container: typed, checksummed records
//! behind a fixed eight-byte signature, read and written byte for byte.
use vstd::prelude::*;

pub mod chunk;
pub mod chunk_type;
pub mod crc;
pub mod png;
mod text;

verus! {

} // verus!
