//! Games on Demand packages: `Data%04d` parts of hashed blocks, and a header.
//!
//! Each part holds one master hash block, then up to 0xCB subparts, each a hash block and up to
//! 0xCC data blocks.
pub mod anatomy;
pub mod format;
pub mod hash_list;
pub mod hashes;
pub mod read;
pub mod round_trip;
pub mod write;
