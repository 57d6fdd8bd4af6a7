//! Small rules shared by the formats.
pub mod mstime;
pub mod paths;
pub mod safe_path;
pub mod text;
