//! gpzip: an archiver whose compressed output is made of independently
//! decodable chunks.

pub mod algorithm;
pub mod archive;
pub mod cli;
pub mod codec;
pub mod cpu;
pub mod error;
pub mod gpu;
pub mod gzip;
pub mod hybrid;
pub mod progress;
pub mod registry;
pub mod text;
