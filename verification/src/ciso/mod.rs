//! `.cso` images: sectors compressed one by one with LZ4, one index at the start of the first
//! part.
pub mod anatomy;
pub mod format;
pub mod read;
pub mod round_trip;
pub mod write;
