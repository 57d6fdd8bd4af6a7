//! `.cci` images: sectors compressed one by one with LZ4, an index after them.
pub mod anatomy;
pub mod format;
pub mod read;
pub mod round_trip;
pub mod write;
