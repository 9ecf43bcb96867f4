//! Reader for PBLU archives: a container that packs a tree of named files and
//! directories into one byte image, with file payloads stored either plain or
//! as independently compressed blocks.
//!
//! The archive is handed to the library as bytes. [`Archive::open`] checks the
//! header and resolves the whole directory tree; [`Archive::file_data`] gives a
//! seekable, read-only view of one file's logical content.

pub mod archive;
pub mod blocks;
pub mod container;
pub mod error;
pub mod filedata;
pub mod le;
pub mod plain;
pub mod reading;
pub mod shape;
pub mod tree;
pub mod zlib;

pub use archive::Archive;
pub use container::EntryType;
pub use error::Error;
pub use filedata::FileData;
pub use plain::SeekFrom;
pub use tree::{Directory, File};
