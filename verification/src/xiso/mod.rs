//! Raw disc images: reading them from a root offset, and writing them trimmed, zeroed or rebuilt.
pub mod format;
pub mod read;
pub mod write;
