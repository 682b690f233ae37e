//! A snapshot of one directory's immediate entries, with sorting, search and
//! aggregate queries over it, and human-readable byte sizes.
pub mod size_format;
pub mod text;
pub mod entry;
pub mod manager;

pub use entry::{name_or_unknown, FileInfo, FsError, Metadata};
pub use manager::{Child, FileManager, ScanReport, matches_folded};
pub use size_format::format_bytes;
pub use text::name_le;
