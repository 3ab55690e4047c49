//! What a `stat` of a path tells the tree.

use rustix::fs::FileType;
use vstd::prelude::*;

verus! {

/// The bits of a file mode that say what kind of file it is.
pub const MODE_KIND_MASK: u32 = 0o170000;

/// The kind bits of a regular file.
pub const MODE_REGULAR: u32 = 0o100000;

/// The kind bits of a directory.
pub const MODE_DIRECTORY: u32 = 0o040000;

/// A point in time, as seconds and nanoseconds since the epoch.
#[derive(Debug, Clone, Copy, PartialEq, Eq, Structural)]
pub struct Timestamp {
    pub secs: u64,
    pub nanos: u32,
}

/// The kinds of file that the tree tells apart.
#[derive(Debug, Clone, Copy, PartialEq, Eq, Structural)]
pub enum FileKind {
    /// A regular file.
    File,
    /// A directory.
    Dir,
    /// Anything else: a link, a device, a socket, a pipe.
    Other,
}

/// The kind that the kind bits of `mode` stand for.
pub open spec fn kind_of_mode(mode: u32) -> FileKind {
    if mode & MODE_KIND_MASK == MODE_REGULAR {
        FileKind::File
    } else if mode & MODE_KIND_MASK == MODE_DIRECTORY {
        FileKind::Dir
    } else {
        FileKind::Other
    }
}

/// `rustix::fs::FileType::from_raw_mode`: reads the kind of a file off the
/// kind bits of its mode. Regular files and directories are told apart from
/// each other and from the rest.
#[verifier::external_body]
fn file_kind(mode: u32) -> (kind: FileKind)
    ensures
        kind == kind_of_mode(mode),
{
    match FileType::from_raw_mode(mode) {
        FileType::RegularFile => FileKind::File,
        FileType::Directory => FileKind::Dir,
        _ => FileKind::Other,
    }
}

/// What is known of a path that exists.
#[derive(Debug, Clone, Copy, PartialEq, Eq, Structural)]
pub struct Metadata {
    pub is_dir: bool,
    pub mtime: Timestamp,
    pub size: usize,
    pub inode: u64,
}

impl Metadata {
    /// The metadata of a file whose `stat` gave these fields. Only regular
    /// files and directories are of interest; everything else is treated as
    /// if it was not there.
    pub fn from_stat(mode: u32, mtime_secs: u64, mtime_nanos: u32, size: usize, inode: u64) -> (meta:
        Option<Metadata>)
        ensures
            meta == match kind_of_mode(mode) {
                FileKind::Other => None,
                kind => Some(
                    Metadata {
                        is_dir: kind == FileKind::Dir,
                        mtime: Timestamp { secs: mtime_secs, nanos: mtime_nanos },
                        size,
                        inode,
                    },
                ),
            },
    {
        let is_dir = match file_kind(mode) {
            FileKind::File => false,
            FileKind::Dir => true,
            FileKind::Other => {
                return None;
            },
        };
        Some(Metadata { is_dir, mtime: Timestamp { secs: mtime_secs, nanos: mtime_nanos }, size, inode })
    }
}

} // verus!
