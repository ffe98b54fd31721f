//! A bounded, power-loss-safe snapshot filesystem for NOR flash.
//!
//! The medium holds whole snapshots: a header, the erase counters of all
//! blocks, and one record per file or directory. A change writes a complete new
//! snapshot beside the active one and becomes visible with a single commit
//! word, so an interrupted change leaves the active snapshot as it was.

use vstd::prelude::*;

pub mod change;
pub mod commit;
pub mod format;
pub mod fs;
pub mod names;
pub mod records;
pub mod segment;
pub mod tree;
pub mod validate;
pub mod wear;

pub use format::{BlockDevice, Geometry, MAX_FILES, MAX_NAME_LEN};
pub use fs::FileSystem;

verus! {

/// Filesystem operation failure.
#[derive(Debug, PartialEq, Eq)]
pub enum Error<E> {
    /// The block device rejected an operation.
    Device(E),
    /// A board-level singleton could not be acquired.
    DeviceBusy,
    /// The device geometry cannot support this format.
    InvalidGeometry,
    /// No valid committed snapshot exists.
    NotFormatted,
    /// A committed snapshot or file record failed validation.
    Corrupt,
    /// A filename is empty, too long, or contains a forbidden byte.
    InvalidName,
    /// The requested file does not exist.
    NotFound,
    /// The rename destination already exists.
    AlreadyExists,
    /// The operation is not possible on a directory.
    IsDirectory,
    /// The operation is only possible on a directory.
    NotDirectory,
    /// A directory that still has entries cannot be removed.
    DirectoryNotEmpty,
    /// A directory cannot be moved into itself.
    InvalidMove,
    /// The file count or serialized snapshot exceeds its fixed bound.
    NoSpace,
    /// A file length cannot be represented by this format.
    FileTooLarge,
    /// A prior failed mutation has an uncertain durable outcome; remount first.
    RecoveryRequired,
}

/// What an entry is.
#[derive(Clone, Copy, Debug, PartialEq, Eq, Structural)]
pub enum EntryKind {
    File,
    Directory,
}

/// Immutable entry metadata.
#[derive(Clone, Copy, Debug, PartialEq, Eq, Structural)]
pub struct FileInfo {
    pub kind: EntryKind,
    pub size: u32,
    pub crc32: u32,
}

/// Current filesystem and capacity information.
#[derive(Clone, Copy, Debug, PartialEq, Eq, Structural)]
pub struct FsInfo {
    pub generation: u32,
    pub entry_count: u32,
    pub file_count: u32,
    pub serialized_bytes: u32,
    pub active_blocks: u32,
    pub capacity_bytes: u32,
    pub min_erase_count: u32,
    pub max_erase_count: u32,
}

} // verus!
