//! A seekable, read-only view of one file's content, whichever way the
//! archive stores it.

use crate::blocks::{
    is_zlib_magic, spec_is_zlib_magic, BlockedPayload, ZLIB_MAX_CACHE_ENTRIES,
};
use crate::container::FileTableEntry;
use crate::error::Error;
use crate::plain::{
    spec_deliverable, spec_delivered, spec_filled, spec_payload, spec_seek_target, FileDataPlain,
    SeekFrom,
};
use crate::zlib::{spec_zlib_open, FileDataZlib};
use vstd::prelude::*;

verus! {

/// What a view is a view of.
pub enum Source {
    /// Stored bytes, of which the file's row declares `size`. `content` has
    /// fewer where the archive ends early.
    Plain { content: Seq<u8>, size: u64 },
    /// A blocked payload.
    Blocked(BlockedPayload),
}

impl Source {
    /// The sizes are such as the format can declare.
    pub open spec fn wf(&self) -> bool {
        match *self {
            Source::Plain { content, size } => content.len() <= size <= u32::MAX,
            Source::Blocked(payload) => payload.wf(),
        }
    }

    /// The size of the content: the stored size, or for a blocked payload
    /// the expanded size.
    pub open spec fn size(&self) -> u64 {
        match *self {
            Source::Plain { content, size } => size,
            Source::Blocked(payload) => payload.size as u64,
        }
    }

    /// The content.
    pub open spec fn content(&self) -> Seq<u8> {
        match *self {
            Source::Plain { content, size } => content,
            Source::Blocked(payload) => payload.content(),
        }
    }

    /// How many bytes a read of up to `want` bytes at `pos` delivers.
    pub open spec fn read_count(&self, pos: int, want: int) -> int {
        match *self {
            Source::Plain { content, size } => spec_deliverable(content, pos, want),
            Source::Blocked(payload) => payload.read_count(pos, want),
        }
    }

    /// The error, if any, that ends a read of up to `want` bytes at `pos`.
    pub open spec fn read_error(&self, pos: int, want: int) -> Option<Error> {
        match *self {
            Source::Plain { content, size } => None,
            Source::Blocked(payload) => payload.read_error(pos, want),
        }
    }

    /// The bytes that a read of up to `want` bytes at `pos` delivers.
    pub open spec fn delivered(&self, pos: int, want: int) -> Seq<u8> {
        match *self {
            Source::Plain { content, size } => spec_delivered(content, pos, want),
            Source::Blocked(payload) => payload.content().subrange(
                pos,
                pos + payload.read_count(pos, want),
            ),
        }
    }
}

/// What a view of the file at `entry` is a view of, or why there is none.
/// The first four bytes at the file's offset decide, whatever its size.
pub open spec fn spec_source(data: Seq<u8>, entry: FileTableEntry) -> Result<Source, Error> {
    let base = entry.offset as int;
    let stored = spec_payload(data, base, entry.size as int);
    if base + 4 > data.len() {
        Err(Error::Io)
    } else if spec_is_zlib_magic(data.subrange(base, base + 4)) {
        match spec_zlib_open(data, base, entry.size as int) {
            Ok((size, blocksize)) => Ok(
                Source::Blocked(
                    BlockedPayload {
                        packed: stored,
                        packed_size: entry.size as int,
                        size: size as int,
                        blocksize: blocksize as int,
                    },
                ),
            ),
            Err(e) => Err(e),
        }
    } else {
        Ok(Source::Plain { content: stored, size: entry.size as u64 })
    }
}

/// The two ways in which a file's content is stored.
pub enum FileDataEncoding<'a> {
    Plain(FileDataPlain<'a>),
    Zlib(FileDataZlib<'a>),
}

/// A seekable, read-only view of one file's content.
pub struct FileData<'a> {
    pub(crate) fdata: FileDataEncoding<'a>,
}

impl<'a> FileData<'a> {
    /// The position lies within the content, and what is kept of the
    /// content is true to it.
    pub open(crate) spec fn wf(&self) -> bool {
        match self.fdata {
            FileDataEncoding::Plain(plain) => plain.wf() && plain.content().len()
                <= plain.spec_size(),
            FileDataEncoding::Zlib(zlib) => zlib.wf(),
        }
    }

    /// What this is a view of.
    pub open(crate) spec fn source(&self) -> Source {
        match self.fdata {
            FileDataEncoding::Plain(plain) => Source::Plain {
                content: plain.content(),
                size: plain.spec_size(),
            },
            FileDataEncoding::Zlib(zlib) => Source::Blocked(zlib.payload()),
        }
    }

    /// The current position.
    pub open(crate) spec fn position(&self) -> u64 {
        match self.fdata {
            FileDataEncoding::Plain(plain) => plain.position(),
            FileDataEncoding::Zlib(zlib) => zlib.position(),
        }
    }

    /// The blocks that are kept unpacked: none for stored bytes.
    pub open(crate) spec fn cached_blocks(&self) -> Set<u32> {
        match self.fdata {
            FileDataEncoding::Plain(plain) => Set::empty(),
            FileDataEncoding::Zlib(zlib) => zlib.cached().dom(),
        }
    }

    /// A view, at position 0, of the file at `fentry` within the archive
    /// `file`.
    pub fn new(file: &'a [u8], fentry: &FileTableEntry) -> (r: Result<FileData<'a>, Error>)
        ensures
            match spec_source(file@, *fentry) {
                Ok(source) => {
                    &&& r matches Ok(view)
                    &&& view.wf()
                    &&& view.source() == source
                    &&& view.position() == 0
                    &&& view.cached_blocks() == Set::<u32>::empty()
                },
                Err(e) => r matches Err(got) && got == e,
            },
    {
        let len: u64 = file.len() as u64;
        let base: u64 = fentry.offset as u64;
        if base + 4 > len {
            return Err(Error::Io);
        }
        let is_zlib: bool = is_zlib_magic(
            vstd::slice::slice_subrange(file, base as usize, base as usize + 4),
        );
        if is_zlib {
            Ok(FileData { fdata: FileDataEncoding::Zlib(FileDataZlib::from(file, fentry)?) })
        } else {
            Ok(FileData { fdata: FileDataEncoding::Plain(FileDataPlain::from(file, fentry)) })
        }
    }

    /// The size of the content: the stored size, or for a blocked payload
    /// the expanded size.
    pub fn size(&self) -> (size: u64)
        ensures
            size == self.source().size(),
    {
        match &self.fdata {
            FileDataEncoding::Plain(plain) => plain.size(),
            FileDataEncoding::Zlib(zlib) => zlib.size(),
        }
    }

    /// Reads up to as many bytes as `buf` takes from the position on, and
    /// moves the position past them. An error leaves in `buf`, and the
    /// position behind, the bytes that were had before it.
    pub fn read(&mut self, buf: &mut [u8]) -> (r: Result<usize, Error>)
        requires
            old(self).wf(),
        ensures
            final(self).wf(),
            final(self).source() == old(self).source(),
            final(self).cached_blocks().len() <= ZLIB_MAX_CACHE_ENTRIES,
            final(self).position() == old(self).position() + old(self).source().read_count(
                old(self).position() as int,
                old(buf)@.len() as int,
            ),
            final(buf)@ == spec_filled(
                old(buf)@,
                old(self).source().delivered(old(self).position() as int, old(buf)@.len() as int),
            ),
            match old(self).source().read_error(
                old(self).position() as int,
                old(buf)@.len() as int,
            ) {
                None => r == Ok::<usize, Error>(
                    (final(self).position() - old(self).position()) as usize,
                ),
                Some(e) => r == Err::<usize, Error>(e),
            },
    {
        match &mut self.fdata {
            FileDataEncoding::Plain(plain) => Ok(plain.read(buf)),
            FileDataEncoding::Zlib(zlib) => zlib.read(buf),
        }
    }

    /// Moves the position to where `style` asks, if that lies within the
    /// content, and returns it. Nothing else changes; out of range, nothing
    /// changes at all.
    pub fn seek(&mut self, style: SeekFrom) -> (r: Result<u64, Error>)
        requires
            old(self).wf(),
        ensures
            final(self).wf(),
            final(self).source() == old(self).source(),
            final(self).cached_blocks() == old(self).cached_blocks(),
            match spec_seek_target(old(self).source().size(), old(self).position(), style) {
                Some(target) => r == Ok::<u64, Error>(target) && final(self).position() == target,
                None => r == Err::<u64, Error>(Error::SeekOutOfRange) && final(self).position()
                    == old(self).position(),
            },
    {
        match &mut self.fdata {
            FileDataEncoding::Plain(plain) => plain.seek(style),
            FileDataEncoding::Zlib(zlib) => zlib.seek(style),
        }
    }
}

} // verus!
