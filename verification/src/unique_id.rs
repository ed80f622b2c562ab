//! The identity extractor: the optional (device, inode) identity under which
//! hard-linked directory entries are recognised as the same storage object.

use vstd::prelude::*;
use crate::filesize::Metadata;

verus! {

/// Identity of the storage object a directory entry points to. Two distinct
/// entries carrying equal identities are hard links to the same data and
/// must be counted once.
#[derive(Clone, Copy, Debug, PartialEq, Eq, Structural, Hash)]
pub struct UniqueID {
    pub device: u64,
    pub inode: u64,
}

/// The identity an entry with metadata `m` reports: present exactly for
/// regular files with more than one link, the only entries whose storage a
/// second directory entry can share.
pub open spec fn spec_unique_id(m: Metadata) -> Option<UniqueID> {
    if m.is_file && m.nlink > 1 {
        Some(UniqueID { device: m.device, inode: m.inode })
    } else {
        None
    }
}

/// Extracts the optional identity from metadata alone; entries without one
/// are never deduplicated and always counted.
pub fn generate_unique_id(metadata: &Metadata) -> (id: Option<UniqueID>)
    ensures
        id == spec_unique_id(*metadata),
{
    if metadata.is_file && metadata.nlink > 1 {
        Some(UniqueID { device: metadata.device, inode: metadata.inode })
    } else {
        None
    }
}

} // verus!
