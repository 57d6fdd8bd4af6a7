//! Xbox 360 STFS (LIVE/PIRS/CON) packages.
//! <https://free60.org/System-Software/Formats/STFS/>
pub mod anatomy;
pub mod format;
pub mod hash_tree;
pub mod hashes;
pub mod header;
pub mod layout;
pub mod listed;
pub mod listing;
pub mod opening;
pub mod places;
pub mod plan;
pub mod read;
pub mod reading;
pub mod round_trip;
pub mod write;
