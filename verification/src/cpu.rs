//! The host codec: chunk-parallel compression and decompression.
pub mod parallel;
pub mod streams;
pub mod parallel_decompress;
pub mod backend;
pub mod compress;
pub mod decompress;
pub mod round_trip;
