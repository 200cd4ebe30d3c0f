//! Where corpus archives live, and collecting the entries of a new one.
use vstd::prelude::*;

use crate::entry::{ArchiveEntry, EntryView, TAG_DIRECTORY, TAG_REGULAR};
use crate::path::{append_bytes, join, join_path};
use vstd::string::StringSliceAdditionalSpecFns;

verus! {

/// The bytes of `.corpus.tar.zst`, the name ending of every corpus archive.
pub open spec fn corpus_suffix() -> Seq<u8> {
    seq![46u8, 99u8, 111u8, 114u8, 112u8, 117u8, 115u8, 46u8, 116u8, 97u8, 114u8, 46u8, 122u8, 115u8, 116u8]
}

/// The path of the corpus archive called `name` in `archive_dir`.
pub open spec fn archive_path(archive_dir: Seq<u8>, name: Seq<u8>) -> Seq<u8> {
    join(archive_dir, name + corpus_suffix())
}

/// Archive options as given on the command line.
#[derive(Debug)]
pub struct Archive {
    /// Whether a corpus archive is written at all.
    pub write_archive: bool,
    /// The directory that archives are written to.
    pub archive_dir: Vec<u8>,
}

/// The directory to write archives to, where writing them is asked for.
pub fn opt_archive(archive: &Archive) -> (r: Option<&[u8]>)
    ensures
        archive.write_archive ==> r is Some && r->Some_0@ == archive.archive_dir@,
        !archive.write_archive ==> r is None,
{
    if archive.write_archive {
        Some(archive.archive_dir.as_slice())
    } else {
        None
    }
}

/// The path of the corpus archive called `name` in `archive_dir`.
pub fn archive_file_path(archive_dir: &[u8], name: &str) -> (r: Vec<u8>)
    ensures
        r@ == archive_path(archive_dir@, name.spec_bytes()),
{
    let mut file_name: Vec<u8> = Vec::new();
    append_bytes(&mut file_name, name.as_bytes());
    let suffix: Vec<u8> = vec![46u8, 99u8, 111u8, 114u8, 112u8, 117u8, 115u8, 46u8, 116u8, 97u8, 114u8, 46u8, 122u8, 115u8, 116u8];
    append_bytes(&mut file_name, suffix.as_slice());
    assert(suffix@ == corpus_suffix());
    join_path(archive_dir, file_name.as_slice())
}

/// A corpus archive being put together: where it goes and the entries
/// appended so far, in order.
#[derive(Debug)]
pub struct ArchiveBuilder {
    pub path: Vec<u8>,
    pub entries: Vec<ArchiveEntry>,
}

impl ArchiveBuilder {
    /// The entries appended so far.
    pub open spec fn listing(&self) -> Seq<EntryView> {
        self.entries@.map_values(|e: ArchiveEntry| e@)
    }

    /// Appends a directory entry at `path`.
    pub fn append_dir(&mut self, path: Vec<u8>)
        ensures
            final(self).path == old(self).path,
            final(self).listing() == old(self).listing().push(
                EntryView { path: path@, tag: TAG_DIRECTORY, data: Seq::empty() },
            ),
    {
        let ghost p = path@;
        self.entries.push(ArchiveEntry { path, tag: TAG_DIRECTORY, data: Vec::new() });
        assert(self.listing() =~= old(self).listing().push(
            EntryView { path: p, tag: TAG_DIRECTORY, data: Seq::empty() },
        ));
    }

    /// Appends a regular file entry at `path` holding `data`.
    pub fn append_file(&mut self, path: Vec<u8>, data: Vec<u8>)
        ensures
            final(self).path == old(self).path,
            final(self).listing() == old(self).listing().push(
                EntryView { path: path@, tag: TAG_REGULAR, data: data@ },
            ),
    {
        let ghost p = path@;
        let ghost d = data@;
        self.entries.push(ArchiveEntry { path, tag: TAG_REGULAR, data });
        assert(self.listing() =~= old(self).listing().push(
            EntryView { path: p, tag: TAG_REGULAR, data: d },
        ));
    }
}

/// Starts the corpus archive called `name` in `archive_dir`, with no entries yet.
pub fn create_archive(name: &str, archive_dir: &[u8]) -> (r: ArchiveBuilder)
    ensures
        r.path@ == archive_path(archive_dir@, name.spec_bytes()),
        r.listing() == Seq::<EntryView>::empty(),
{
    let path = archive_file_path(archive_dir, name);
    let r = ArchiveBuilder { path, entries: Vec::new() };
    assert(r.listing() =~= Seq::<EntryView>::empty());
    r
}

} // verus!
