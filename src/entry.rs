//! Archive entries and the kinds the materializer tells apart.
use vstd::prelude::*;

verus! {

/// Type tag of a directory entry.
pub const TAG_DIRECTORY: u8 = 53;

/// Type tag of a regular file entry (an old-style header may carry a zero byte instead).
pub const TAG_REGULAR: u8 = 48;

/// Kind of an archive entry as far as materializing is concerned.
#[derive(Clone, Copy, Debug, PartialEq, Eq, Structural)]
pub enum EntryKind {
    Directory,
    Regular,
    Other,
}

/// The kind that a container type tag stands for; every tag but those of
/// directories and regular files is `Other`.
pub open spec fn tag_kind(tag: u8) -> EntryKind {
    if tag == TAG_DIRECTORY {
        EntryKind::Directory
    } else if tag == TAG_REGULAR || tag == 0 {
        EntryKind::Regular
    } else {
        EntryKind::Other
    }
}

/// Relies on tar::EntryType::new, which maps b'5' to `Directory`, b'0' and
/// the zero byte to `Regular`, and every other byte to some other variant.
#[verifier::external_body]
pub(crate) fn kind_of_tag(tag: u8) -> (r: EntryKind)
    ensures
        r == tag_kind(tag),
{
    match tar::EntryType::new(tag) {
        tar::EntryType::Directory => EntryKind::Directory,
        tar::EntryType::Regular => EntryKind::Regular,
        _ => EntryKind::Other,
    }
}

/// What one archive entry holds: its path as stored, its type tag and its payload.
pub struct EntryView {
    pub path: Seq<u8>,
    pub tag: u8,
    pub data: Seq<u8>,
}

/// One archive entry held in memory.
#[derive(Debug)]
pub struct ArchiveEntry {
    pub path: Vec<u8>,
    pub tag: u8,
    pub data: Vec<u8>,
}

impl View for ArchiveEntry {
    type V = EntryView;

    open spec fn view(&self) -> EntryView {
        EntryView { path: self.path@, tag: self.tag, data: self.data@ }
    }
}

} // verus!
