//! The container's fixed header and its two kinds of table rows: file table
//! entries, addressed by a 1-based index, and name entries, addressed by offset.

use crate::error::Error;
use crate::le::{spec_u16_at, spec_u32_at, u16_at, u32_at};
use vstd::prelude::*;

verus! {

/// The number that the first four bytes of an archive spell.
pub const MAGIC: u32 = 0x4c55_5042;

/// Length of the part of the header that every variant has.
pub const HEADER_SIZE: usize = 0x20;

/// Largest header size that this reader understands.
pub const MAX_HEADER_SIZE: u32 = 0x24;

/// Offset, within the header, of the file table's offset.
pub const FILETBL_FIELD: usize = 0x1c;

/// Size of one row of the file table.
pub const FILE_ENTRY_SIZE: usize = 8;

/// Size of a name entry without its name.
pub const NAME_ENTRY_MIN_SIZE: usize = 10;

/// What a name entry names.
#[derive(Clone, Copy, Debug, PartialEq, Eq, Structural)]
pub enum EntryType {
    File,
    Directory,
}

/// One row of the file table: where a payload lies and how long it is.
#[derive(Clone, Copy, Debug, PartialEq, Eq, Structural)]
pub struct FileTableEntry {
    pub offset: u32,
    pub size: u32,
}

/// One entry of a directory's name table.
#[derive(Debug)]
pub struct NameTableEntry {
    pub file_index: u32,
    pub entry_type: EntryType,
    pub entry_size: u32,
    pub name: String,
}

/// A name entry as a mathematical value.
pub struct NameEntryView {
    pub file_index: u32,
    pub entry_type: EntryType,
    pub entry_size: u32,
    pub name: Seq<char>,
}

impl View for NameTableEntry {
    type V = NameEntryView;

    open spec fn view(&self) -> NameEntryView {
        NameEntryView {
            file_index: self.file_index,
            entry_type: self.entry_type,
            entry_size: self.entry_size,
            name: self.name@,
        }
    }
}

/// The text that a name's bytes stand for: their UTF-8 reading, with each
/// invalid sequence replaced by U+FFFD.
pub uninterp spec fn utf8_lossy(bytes: Seq<u8>) -> Seq<char>;

/// `String::from_utf8_lossy`, made into an owned string: the result is the
/// lossy UTF-8 reading of `bytes`, and no bytes give no text.
#[verifier::external_body]
pub(crate) fn decode_name(bytes: &[u8]) -> (name: String)
    ensures
        name@ == utf8_lossy(bytes@),
        bytes@.len() == 0 ==> name@.len() == 0,
{
    String::from_utf8_lossy(bytes).into_owned()
}

/// What the first bytes of an archive say: the file table's offset, or why
/// the archive is refused.
pub open spec fn spec_header(data: Seq<u8>) -> Result<u32, Error> {
    if data.len() < HEADER_SIZE {
        Err(Error::Io)
    } else if spec_u32_at(data, 0) != MAGIC {
        Err(Error::HeaderInvalid)
    } else if spec_u32_at(data, 4) < HEADER_SIZE {
        Err(Error::HeaderInvalid)
    } else if spec_u32_at(data, 4) > MAX_HEADER_SIZE {
        Err(Error::HeaderInvalid)
    } else if spec_u32_at(data, FILETBL_FIELD as int) < spec_u32_at(data, 4) {
        Err(Error::HeaderInvalid)
    } else {
        Ok(spec_u32_at(data, FILETBL_FIELD as int) as u32)
    }
}

/// Where row `index` of a file table at `table` begins.
pub open spec fn spec_file_entry_offset(table: int, index: u32) -> int {
    table + (index - 1) * FILE_ENTRY_SIZE
}

/// Row `index` of the file table at `table`.
pub open spec fn spec_file_entry(data: Seq<u8>, table: int, index: u32) -> Result<
    FileTableEntry,
    Error,
> {
    let at = spec_file_entry_offset(table, index);
    if index == 0 {
        Err(Error::IndexZero)
    } else if at + FILE_ENTRY_SIZE > data.len() {
        Err(Error::Io)
    } else {
        Ok(
            FileTableEntry {
                offset: spec_u32_at(data, at) as u32,
                size: spec_u32_at(data, at + 4) as u32,
            },
        )
    }
}

/// The name entry that starts at `offset`.
pub open spec fn spec_name_entry(data: Seq<u8>, offset: int) -> Result<NameEntryView, Error> {
    let name_len = spec_u16_at(data, offset + 8);
    let name_at = offset + NAME_ENTRY_MIN_SIZE;
    if name_at > data.len() {
        Err(Error::Io)
    } else if spec_u32_at(data, offset) == 0 {
        Err(Error::IndexZero)
    } else if spec_u32_at(data, offset + 4) > 1 {
        Err(Error::UnknownKind)
    } else if name_at + name_len > data.len() {
        Err(Error::Io)
    } else {
        Ok(
            NameEntryView {
                file_index: spec_u32_at(data, offset) as u32,
                entry_type: if spec_u32_at(data, offset + 4) == 0 {
                    EntryType::File
                } else {
                    EntryType::Directory
                },
                entry_size: (NAME_ENTRY_MIN_SIZE + name_len) as u32,
                name: utf8_lossy(data.subrange(name_at, name_at + name_len)),
            },
        )
    }
}

/// Whether a returned name entry is the one that `expected` describes.
pub open spec fn name_entry_is(
    got: Result<NameTableEntry, Error>,
    expected: Result<NameEntryView, Error>,
) -> bool {
    match got {
        Ok(entry) => expected == Ok::<NameEntryView, Error>(entry@),
        Err(e) => expected == Err::<NameEntryView, Error>(e),
    }
}

/// An archive's bytes, with the offset of its file table.
pub struct ArchiveFile {
    pub filetbl_offset: u64,
    pub data: Vec<u8>,
}

impl ArchiveFile {
    /// The header was accepted and names this file table.
    pub open spec fn wf(&self) -> bool {
        spec_header(self.data@) == Ok::<u32, Error>(self.filetbl_offset as u32)
            && self.filetbl_offset <= u32::MAX
    }

    /// Checks the header and returns the file table's offset.
    pub fn read_header(data: &[u8]) -> (r: Result<u32, Error>)
        ensures
            r == spec_header(data@),
    {
        if data.len() < HEADER_SIZE {
            return Err(Error::Io);
        }
        let magic: u32 = u32_at(data, 0);
        let header_size: u32 = u32_at(data, 4);
        let filetbl_offset: u32 = u32_at(data, FILETBL_FIELD);
        if magic != MAGIC {
            return Err(Error::HeaderInvalid);
        }
        if header_size < 0x20 {
            return Err(Error::HeaderInvalid);
        }
        if header_size > MAX_HEADER_SIZE {
            return Err(Error::HeaderInvalid);
        }
        if filetbl_offset < header_size {
            return Err(Error::HeaderInvalid);
        }
        Ok(filetbl_offset)
    }

    /// Reads row `index` of the file table.
    pub fn read_file_entry(&self, index: u32) -> (r: Result<FileTableEntry, Error>)
        requires
            self.wf(),
        ensures
            r == spec_file_entry(self.data@, self.filetbl_offset as int, index),
    {
        if index == 0 {
            return Err(Error::IndexZero);
        }
        let len: u64 = self.data.len() as u64;
        let entry_offset: u64 = self.filetbl_offset + (index - 1) as u64 * FILE_ENTRY_SIZE as u64;
        if entry_offset > len || len - entry_offset < FILE_ENTRY_SIZE as u64 {
            return Err(Error::Io);
        }
        let at: usize = entry_offset as usize;
        let offset: u32 = u32_at(self.data.as_slice(), at);
        let size: u32 = u32_at(self.data.as_slice(), at + 4);
        Ok(FileTableEntry { offset, size })
    }

    /// Reads the name entry that starts at `offset`.
    pub fn read_name_entry(&self, offset: u64) -> (r: Result<NameTableEntry, Error>)
        ensures
            name_entry_is(r, spec_name_entry(self.data@, offset as int)),
            r matches Ok(entry) ==> (entry.entry_size == NAME_ENTRY_MIN_SIZE ==> entry.name@.len()
                == 0),
    {
        let len: u64 = self.data.len() as u64;
        if offset > len || len - offset < NAME_ENTRY_MIN_SIZE as u64 {
            return Err(Error::Io);
        }
        let at: usize = offset as usize;
        let data: &[u8] = self.data.as_slice();
        let index: u32 = u32_at(data, at);
        if index == 0 {
            return Err(Error::IndexZero);
        }
        let kind: u32 = u32_at(data, at + 4);
        let entry_type: EntryType = match kind {
            0 => EntryType::File,
            1 => EntryType::Directory,
            _ => { return Err(Error::UnknownKind); },
        };
        let name_len: u16 = u16_at(data, at + 8);
        let name_at: usize = at + NAME_ENTRY_MIN_SIZE;
        if data.len() - name_at < name_len as usize {
            return Err(Error::Io);
        }
        let name: String = decode_name(
            vstd::slice::slice_subrange(data, name_at, name_at + name_len as usize),
        );
        Ok(
            NameTableEntry {
                file_index: index,
                entry_type,
                entry_size: NAME_ENTRY_MIN_SIZE as u32 + name_len as u32,
                name,
            },
        )
    }

    /// Takes an archive's bytes and checks its header.
    pub fn open(data: Vec<u8>) -> (r: Result<ArchiveFile, Error>)
        ensures
            match r {
                Ok(file) => file.wf() && file.data@ == data@,
                Err(e) => spec_header(data@) == Err::<u32, Error>(e),
            },
    {
        match ArchiveFile::read_header(data.as_slice()) {
            Ok(filetbl_offset) => Ok(ArchiveFile { filetbl_offset: filetbl_offset as u64, data }),
            Err(e) => Err(e),
        }
    }
}

} // verus!
