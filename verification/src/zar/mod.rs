//! `.zar` archives.
//! <https://github.com/Exzap/ZArchive#features--specifications>
pub mod anatomy;
pub mod archive;
pub mod format;
pub mod layout;
pub mod listing;
pub mod read;
pub mod reading;
pub mod round_trip;
pub mod tree;
pub mod write;
