//! The size accessor: given the metadata of one filesystem entry, its
//! contribution to the scan total, in one of two modes selected once for the
//! whole scan.

use vstd::prelude::*;

verus! {

/// Number of bytes per allocation block when computing disk usage.
pub const BLOCK_SIZE: u64 = 512;

/// Filesystem attributes of one directory entry, read once at visit time and
/// never re-read: the kind of entry, its logical length, the number of
/// allocated blocks, and the identity fields (device, inode, link count)
/// that hard-link detection reads.
#[derive(Clone, Copy, Debug)]
pub struct Metadata {
    pub is_dir: bool,
    pub is_file: bool,
    pub len: u64,
    pub blocks: u64,
    pub device: u64,
    pub inode: u64,
    pub nlink: u64,
}

/// Which notion of size a scan accumulates: storage actually allocated on
/// the device, or the logical byte length of the content.
#[derive(Clone, Copy, Debug, PartialEq, Eq, Structural)]
pub enum FilesizeType {
    DiskUsage,
    ApparentSize,
}

impl FilesizeType {
    /// Size contribution of an entry with metadata `m`: allocated blocks
    /// times the block size in disk-usage mode, the logical byte length in
    /// apparent-size mode.
    pub open spec fn spec_size(self, m: Metadata) -> int {
        match self {
            FilesizeType::DiskUsage => m.blocks * BLOCK_SIZE,
            FilesizeType::ApparentSize => m.len as int,
        }
    }

    /// Computes the entry's size contribution from already-retrieved
    /// metadata alone; no further input is consulted and no error is
    /// possible.
    pub fn size(self, metadata: &Metadata) -> (size: u64)
        requires
            self.spec_size(*metadata) <= u64::MAX,
        ensures
            size == self.spec_size(*metadata),
    {
        match self {
            FilesizeType::DiskUsage => metadata.blocks * BLOCK_SIZE,
            FilesizeType::ApparentSize => metadata.len,
        }
    }
}

} // verus!
