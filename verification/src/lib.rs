//! Finds file paths (with optional `:line:col` suffixes) in arbitrary text,
//! keeps those that name files on disk, and provides the small pieces of
//! state that a terminal viewer of the results needs.

pub mod decimal;
pub mod utf8_text;
pub mod paths;
pub mod scan;
pub mod packed;
pub mod tabs;
pub mod grep;

pub use packed::{Output, Packed};
pub use scan::{extract_path_matches, PathMatch};
