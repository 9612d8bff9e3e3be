//! Reader and writer for legacy RAR 1.3/1.4 archives.
//!
//! This crate focuses on the old `RE~^` archive family that predates the
//! later `Rar!\x1a\x07\x00` marker used by RAR 1.5 and newer.
pub mod bitio;
pub mod checksum;
pub mod cli;
pub mod codec;
pub mod crypto;
pub mod detect;
pub mod entry;
pub mod error;
pub mod extract;
pub mod features;
pub mod rar13;
pub mod roundtrip;
pub mod version;
pub mod volumes;
pub mod writer;

mod bytes;
mod decoding;
mod pack;
mod readback;
mod unpack;

pub use detect::{detect_archive_family, find_archive_start, ArchiveSignature};
pub use error::{Error, Result};
pub use features::FeatureSet;
pub use rar13::{Archive, ExtractedEntry, ExtractedEntryMeta};
pub use version::{ArchiveFamily, ArchiveVersion};
