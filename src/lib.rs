//! A chunked, codec-pipelined N-dimensional array storage engine.
//!
//! - `index`, `subset`, `region`, `runs`, `overlap`: row-major index
//!   arithmetic, N-dimensional subsets, reading regions out of element
//!   buffers, and contiguous runs of linear offsets.
//! - `grid`: a regular chunk grid with edge chunks truncated at the array.
//! - `codec`: elements to bytes in either byte order, and a CRC-32C checksum.
//! - `sharding`, `shard_codec`: the byte layout of a shard and its index, and
//!   the sharding codec on elements, with partial decoding of inner chunks.
//! - `array`: an in-memory chunked array with chunk and subset reads and
//!   writes, its metadata document, and a cache of decoded shard indices.
//! - `chunk_cache`: a least-recently-used cache of decoded chunks.
//! - `reencode`: copying an array into another encoding, comparing arrays,
//!   and choosing chunk and shard shapes, codecs and fill values.
//! - `ingest`: filling an array from raw element bytes block by block.
//! - `concurrency`: how a thread budget is split between chunks and codecs.
//! - `key`: store keys of chunks.
//! - `progress`, `filter`: bookkeeping and geometry for the filtering tools.

pub mod concurrency;
pub mod index;
pub mod subset;
pub mod region;
pub mod runs;
pub mod overlap;
pub mod grid;
pub mod codec;
pub mod sharding;
pub mod shard_codec;
pub mod array;
pub mod chunk_cache;
pub mod key;
pub mod reencode;
pub mod ingest;
pub mod progress;
pub mod filter;
