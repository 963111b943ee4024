//! The device codec: LZ77 tokens, Huffman codes and DEFLATE blocks.
pub mod bits;
pub mod canonical;
pub mod huffman;
pub mod huffman_laws;
pub mod lz77;
pub mod tables;
pub mod fixed;
pub mod gzip_chunk;
pub mod rle;
pub mod block;
pub mod block_laws;
pub mod plan;
pub mod deflate;
pub mod identity;
pub mod inflate;
pub mod dispatch;
pub mod emit_scan;
pub mod huffman_emit;
pub mod huffman_emit_v2;
pub mod walk;
pub mod pool;
pub mod match_find;
pub mod chunk;
pub mod context;
pub mod stub;
