//! An opened archive: its bytes and its resolved directory tree.

use crate::container::{spec_header, ArchiveFile};
use crate::error::Error;
use crate::filedata::{spec_source, FileData};
use crate::tree::{spec_directory, Directory, DirectoryView, File, ROOT_INDEX};
use vstd::prelude::*;

verus! {

/// The directory tree of the archive `data`, or why the archive is refused:
/// its header is checked first, then the tree is resolved from the root down.
pub open spec fn spec_archive(data: Seq<u8>) -> Result<DirectoryView, Error> {
    match spec_header(data) {
        Err(e) => Err(e),
        Ok(table) => spec_directory(data, table as int, ROOT_INDEX, Seq::empty()),
    }
}

/// An archive that was opened: its header was accepted and its whole
/// directory tree resolved.
pub struct Archive {
    pub(crate) file: ArchiveFile,
    pub(crate) rootdir: Directory,
}

impl Archive {
    /// The archive's bytes.
    pub open(crate) spec fn data(&self) -> Seq<u8> {
        self.file.data@
    }

    /// The root directory.
    pub open(crate) spec fn root(&self) -> DirectoryView {
        self.rootdir@
    }

    /// The tree is the one that the bytes hold.
    pub open(crate) spec fn wf(&self) -> bool {
        &&& self.file.wf()
        &&& spec_archive(self.data()) == Ok::<DirectoryView, Error>(self.root())
    }

    /// Opens the archive that `data` holds. All of its directory tree is
    /// resolved, or nothing is returned but the first failure.
    pub fn open(data: Vec<u8>) -> (r: Result<Archive, Error>)
        ensures
            match r {
                Ok(archive) => {
                    &&& archive.wf()
                    &&& archive.data() == data@
                    &&& spec_archive(data@) == Ok::<DirectoryView, Error>(archive.root())
                },
                Err(e) => spec_archive(data@) == Err::<DirectoryView, Error>(e),
            },
    {
        let file: ArchiveFile = ArchiveFile::open(data)?;
        let rootdir: Directory = file.read_rootdir()?;
        Ok(Archive { file, rootdir })
    }

    /// A view, at position 0, of the content of `file`.
    pub fn file_data(&self, file: &File) -> (r: Result<FileData<'_>, Error>)
        ensures
            match spec_source(self.data(), file@.file_entry) {
                Ok(source) => {
                    &&& r matches Ok(view)
                    &&& view.wf()
                    &&& view.source() == source
                    &&& view.position() == 0
                    &&& view.cached_blocks() == Set::<u32>::empty()
                },
                Err(e) => r matches Err(got) && got == e,
            },
    {
        FileData::new(self.file.data.as_slice(), &file.file_entry)
    }

    /// The root directory.
    pub fn root_directory(&self) -> (root: &Directory)
        ensures
            root@ == self.root(),
    {
        &self.rootdir
    }
}

} // verus!
