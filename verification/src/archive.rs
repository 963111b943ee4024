//! Archives: their formats, the paths in them, and what is done with them.
pub mod entry;
pub mod format;
pub mod list;
pub mod pack;
pub mod path;
pub mod sevenz_list;
pub mod tar_list;
pub mod unpack;
pub mod zip_read;
