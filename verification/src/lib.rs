//! Layouts, planners and streaming rules of the Xbox disc-image containers
//! (xiso, god, stfs, cci, ciso, zar), stated as contracts and proved.
pub mod bytes;
pub mod cci;
pub mod ciso;
pub mod conversion;
pub mod digest;
pub mod extracted;
pub mod god;
pub mod lz4;
pub mod manifest;
pub mod options;
pub mod piece_sizes;
pub mod pieces;
pub mod scrub;
pub mod session;
pub mod source;
pub mod stfs;
pub mod utils;
pub mod xiso;
pub mod zar;
