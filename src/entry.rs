//! One entry of a directory: its path, name, size and type.
use vstd::prelude::*;
use crate::size_format::{format_bytes, scaled_hundredths, shown_unit, size_text};
use crate::text::{file_name_of, final_component};

verus! {

/// Why a directory or one of its entries could not be read.
#[derive(Debug, Clone, Copy, PartialEq, Eq, Structural)]
pub enum FsError {
    /// The directory itself could not be listed.
    ListUnavailable,
    /// The metadata of one entry could not be retrieved.
    MetadataUnavailable,
}

/// What the filesystem reports of one path.
#[derive(Debug, Clone, Copy, PartialEq, Eq, Structural)]
pub struct Metadata {
    pub size: u64,
    pub is_directory: bool,
}

/// An entry's contents as mathematical values.
pub struct EntryView {
    pub path: Seq<char>,
    pub name: Seq<char>,
    pub size: u64,
    pub is_directory: bool,
}

/// One file or directory found in a scanned directory.
#[derive(Debug, Clone)]
pub struct FileInfo {
    pub path: String,
    pub name: String,
    pub size: u64,
    pub is_directory: bool,
}

impl View for FileInfo {
    type V = EntryView;

    open spec fn view(&self) -> EntryView {
        EntryView { path: self.path@, name: self.name@, size: self.size, is_directory: self.is_directory }
    }
}

/// The name used when a path has no final component.
pub open spec fn unknown_name() -> Seq<char> {
    seq!['U', 'n', 'k', 'n', 'o', 'w', 'n']
}

/// The name of the entry at `path`: its final component, or `"Unknown"`.
pub open spec fn name_of_path(path: Seq<char>) -> Seq<char> {
    match file_name_of(path) {
        Some(n) => n,
        None => unknown_name(),
    }
}

/// The entry described by `path` and its metadata.
pub open spec fn entry_of(path: Seq<char>, m: Metadata) -> EntryView {
    EntryView { path, name: name_of_path(path), size: m.size, is_directory: m.is_directory }
}

/// The name for an entry whose path has final component `component`:
/// the component itself, or `"Unknown"` where there is none.
pub fn name_or_unknown(component: Option<String>) -> (r: String)
    ensures
        r@ == match component {
            Some(n) => n@,
            None => unknown_name(),
        },
{
    match component {
        Some(n) => n,
        None => {
            proof {
                reveal_strlit("Unknown");
            }
            let n = String::from_str("Unknown");
            assert(n@ =~= unknown_name());
            n
        },
    }
}

impl FileInfo {
    /// Builds the entry for `path` from its metadata; fails with
    /// `MetadataUnavailable` when the metadata could not be retrieved.
    pub fn new(path: String, metadata: Option<Metadata>) -> (r: Result<FileInfo, FsError>)
        ensures
            match metadata {
                None => r == Err::<FileInfo, FsError>(FsError::MetadataUnavailable),
                Some(m) => r is Ok && r->Ok_0@ == entry_of(path@, m),
            },
    {
        match metadata {
            None => Err(FsError::MetadataUnavailable),
            Some(m) => {
                let name = name_or_unknown(final_component(path.as_str()));
                Ok(FileInfo { path, name, size: m.size, is_directory: m.is_directory })
            },
        }
    }

    /// The size in binary units with two decimals, such as `"1.50 KB"`.
    pub fn format_size(&self) -> (r: String)
        ensures
            r@ == size_text(self.size as nat),
            shown_unit(self.size as nat) < 4 ==> scaled_hundredths(self.size as nat) < 102400,
    {
        format_bytes(self.size)
    }
}

} // verus!
