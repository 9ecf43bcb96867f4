//! A file's stored bytes as a seekable stream: the plain variant of a file
//! data view, and the carrier of the packed bytes under the blocked variant.

use crate::container::FileTableEntry;
use crate::error::Error;
use vstd::prelude::*;

verus! {

/// Where a seek is measured from, and by how much.
#[derive(Clone, Copy, Debug, PartialEq, Eq)]
pub enum SeekFrom {
    /// So many bytes after the start.
    Start(u64),
    /// So many bytes after the end; in range only when not positive.
    End(i64),
    /// So many bytes after the current position.
    Current(i64),
}

/// The position that a seek asks for, if it lies within `0..=size`.
pub open spec fn spec_seek_target(size: u64, cur: u64, style: SeekFrom) -> Option<u64> {
    let wanted: int = match style {
        SeekFrom::Start(o) => o as int,
        SeekFrom::End(o) => size + o,
        SeekFrom::Current(o) => cur + o,
    };
    if 0 <= wanted <= size {
        Some(wanted as u64)
    } else {
        None
    }
}

/// Computes the position that a seek asks for.
pub fn seek_target(size: u64, cur: u64, style: SeekFrom) -> (r: Result<u64, Error>)
    ensures
        match spec_seek_target(size, cur, style) {
            Some(target) => r == Ok::<u64, Error>(target),
            None => r == Err::<u64, Error>(Error::SeekOutOfRange),
        },
{
    let wanted: i128 = match style {
        SeekFrom::Start(o) => o as i128,
        SeekFrom::End(o) => size as i128 + o as i128,
        SeekFrom::Current(o) => cur as i128 + o as i128,
    };
    if wanted < 0 || wanted > size as i128 {
        Err(Error::SeekOutOfRange)
    } else {
        Ok(wanted as u64)
    }
}

/// The bytes of `data` that a payload of `size` bytes at `base` really has:
/// all of them, or fewer where the archive ends early.
pub open spec fn spec_payload(data: Seq<u8>, base: int, size: int) -> Seq<u8> {
    if base >= data.len() {
        Seq::empty()
    } else if base + size <= data.len() {
        data.subrange(base, base + size)
    } else {
        data.subrange(base, data.len() as int)
    }
}

/// How many bytes a read of up to `want` bytes at `pos` takes from `content`.
pub open spec fn spec_deliverable(content: Seq<u8>, pos: int, want: int) -> int {
    if pos >= content.len() {
        0
    } else if want <= content.len() - pos {
        want
    } else {
        content.len() - pos
    }
}

/// The bytes that a read of up to `want` bytes at `pos` takes from `content`.
pub open spec fn spec_delivered(content: Seq<u8>, pos: int, want: int) -> Seq<u8> {
    if pos >= content.len() {
        Seq::empty()
    } else {
        content.subrange(pos, pos + spec_deliverable(content, pos, want))
    }
}

/// `buf` with `bytes` written over its beginning.
pub open spec fn spec_filled(buf: Seq<u8>, bytes: Seq<u8>) -> Seq<u8> {
    bytes + buf.subrange(bytes.len() as int, buf.len() as int)
}

/// Writing `more` behind `bytes`, over the beginning of `buf`, is writing
/// both over it at once.
pub proof fn lemma_filled_more(buf: Seq<u8>, bytes: Seq<u8>, more: Seq<u8>)
    requires
        bytes.len() + more.len() <= buf.len(),
    ensures
        spec_filled(buf, bytes + more) == spec_filled(buf, bytes).subrange(
            0,
            bytes.len() as int,
        ) + more + spec_filled(buf, bytes).subrange(
            (bytes.len() + more.len()) as int,
            buf.len() as int,
        ),
        spec_filled(buf, bytes).len() == buf.len(),
{
    assert(spec_filled(buf, bytes + more) =~= spec_filled(buf, bytes).subrange(
        0,
        bytes.len() as int,
    ) + more + spec_filled(buf, bytes).subrange(
        (bytes.len() + more.len()) as int,
        buf.len() as int,
    ));
}

/// Copies `count` bytes of `src`, from `from` on, over `dst`, from `at` on.
pub fn copy_bytes(dst: &mut [u8], at: usize, src: &[u8], from: usize, count: usize)
    requires
        at + count <= old(dst)@.len(),
        from + count <= src@.len(),
    ensures
        final(dst)@ == old(dst)@.subrange(0, at as int) + src@.subrange(
            from as int,
            from + count,
        ) + old(dst)@.subrange(at + count, old(dst)@.len() as int),
{
    let ghost before = dst@;
    let dst_len: usize = dst.len();
    let src_len: usize = src.len();
    let mut i: usize = 0;
    while i < count
        invariant
            i <= count,
            at + count <= dst_len,
            from + count <= src_len,
            dst_len == before.len(),
            src_len == src@.len(),
            dst@ == before.subrange(0, at as int) + src@.subrange(from as int, from + i)
                + before.subrange(at + i, before.len() as int),
        decreases count - i,
    {
        let ghost prev = dst@;
        dst[at + i] = src[from + i];
        proof {
            assert(dst@ == prev.update(at + i, src@[from + i]));
            assert(dst@ =~= before.subrange(0, at as int) + src@.subrange(
                from as int,
                from + i + 1,
            ) + before.subrange(at + i + 1, before.len() as int));
        }
        i += 1;
    }
}

/// A stream over the stored bytes of one file.
pub struct FileDataPlain<'a> {
    pub(crate) file: &'a [u8],
    pub(crate) size: u64,
    pub(crate) base_offset: u64,
    pub(crate) cur_offset: u64,
}

impl<'a> FileDataPlain<'a> {
    /// The position lies within the declared size, and offset and size are
    /// such as a file table row can hold.
    pub open(crate) spec fn wf(&self) -> bool {
        &&& self.cur_offset <= self.size
        &&& self.size <= u32::MAX
        &&& self.base_offset <= u32::MAX
    }

    /// The size that the file's row declares.
    pub open(crate) spec fn spec_size(&self) -> u64 {
        self.size
    }

    /// The current position.
    pub open(crate) spec fn position(&self) -> u64 {
        self.cur_offset
    }

    /// The stored bytes: as many as declared, or fewer where the archive
    /// ends early.
    pub open(crate) spec fn content(&self) -> Seq<u8> {
        spec_payload(self.file@, self.base_offset as int, self.size as int)
    }

    /// Both are streams over the same stored bytes.
    pub open(crate) spec fn same_payload(&self, other: &Self) -> bool {
        &&& self.file@ == other.file@
        &&& self.base_offset == other.base_offset
        &&& self.size == other.size
    }

    /// A stream at position 0 over the payload of `fentry` within `file`.
    pub fn from(file: &'a [u8], fentry: &FileTableEntry) -> (plain: FileDataPlain<'a>)
        ensures
            plain.wf(),
            plain.position() == 0,
            plain.spec_size() == fentry.size,
            plain.content() == spec_payload(file@, fentry.offset as int, fentry.size as int),
    {
        FileDataPlain {
            file,
            size: fentry.size as u64,
            base_offset: fentry.offset as u64,
            cur_offset: 0,
        }
    }

    /// The size that the file's row declares.
    pub fn size(&self) -> (size: u64)
        ensures
            size == self.spec_size(),
    {
        self.size
    }

    /// Reads as many bytes as `buf` takes and the stored bytes still have
    /// after the position, and moves the position past them.
    pub fn read(&mut self, buf: &mut [u8]) -> (count: usize)
        requires
            old(self).wf(),
        ensures
            final(self).wf(),
            final(self).same_payload(old(self)),
            count == spec_deliverable(
                old(self).content(),
                old(self).position() as int,
                old(buf)@.len() as int,
            ),
            final(self).position() == old(self).position() + count,
            final(buf)@ == spec_filled(
                old(buf)@,
                spec_delivered(
                    old(self).content(),
                    old(self).position() as int,
                    old(buf)@.len() as int,
                ),
            ),
    {
        let ghost content = self.content();
        let ghost before = buf@;
        let mut readable: u64 = self.size - self.cur_offset;
        if readable > buf.len() as u64 {
            readable = buf.len() as u64;
        }
        let file_len: u64 = self.file.len() as u64;
        let start: u64 = self.base_offset + self.cur_offset;
        let available: u64 = if start >= file_len {
            0
        } else {
            file_len - start
        };
        if readable > available {
            readable = available;
        }
        let count: usize = readable as usize;
        if count > 0 {
            copy_bytes(buf, 0, self.file, start as usize, count);
        }
        proof {
            let pos = self.cur_offset as int;
            let delivered = spec_delivered(content, pos, before.len() as int);
            if count > 0 {
                assert(delivered =~= self.file@.subrange(start as int, start + count));
            }
            assert(buf@ =~= spec_filled(before, delivered));
        }
        self.cur_offset = self.cur_offset + readable;
        count
    }

    /// Fills `buf` from the stored bytes after the position, or fails where
    /// they do not reach that far.
    pub fn read_exact(&mut self, buf: &mut [u8]) -> (r: Result<(), Error>)
        requires
            old(self).wf(),
        ensures
            final(self).wf(),
            final(self).same_payload(old(self)),
            final(self).position() == old(self).position() + spec_deliverable(
                old(self).content(),
                old(self).position() as int,
                old(buf)@.len() as int,
            ),
            final(buf)@ == spec_filled(
                old(buf)@,
                spec_delivered(
                    old(self).content(),
                    old(self).position() as int,
                    old(buf)@.len() as int,
                ),
            ),
            r == (if spec_deliverable(
                old(self).content(),
                old(self).position() as int,
                old(buf)@.len() as int,
            ) == old(buf)@.len() {
                Ok::<(), Error>(())
            } else {
                Err::<(), Error>(Error::Io)
            }),
    {
        let wanted: usize = buf.len();
        let count: usize = self.read(buf);
        if count < wanted {
            Err(Error::Io)
        } else {
            Ok(())
        }
    }

    /// Moves the position to where `style` asks, if that lies within the
    /// declared size.
    pub fn seek(&mut self, style: SeekFrom) -> (r: Result<u64, Error>)
        requires
            old(self).wf(),
        ensures
            final(self).wf(),
            final(self).same_payload(old(self)),
            match spec_seek_target(old(self).spec_size(), old(self).position(), style) {
                Some(target) => r == Ok::<u64, Error>(target) && final(self).position() == target,
                None => r == Err::<u64, Error>(Error::SeekOutOfRange) && final(self).position()
                    == old(self).position(),
            },
    {
        let target: u64 = seek_target(self.size, self.cur_offset, style)?;
        self.cur_offset = target;
        Ok(target)
    }
}

} // verus!
