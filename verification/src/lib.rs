//! A file-archive packer: resolves manifest-declared content into archive
//! entries, lays out a binary header of offsets and names, and assembles the
//! archive as the header followed by each entry's compressed data block.

pub mod archive;
pub mod config;
pub mod header;
pub mod paths;
