//! The blocked payload format: a twelve-byte header, a table of block
//! offsets, and the packed blocks, each stored raw or deflated in a zlib frame.

use crate::error::Error;
use crate::le::{spec_u32_at, u32_at};
use crate::plain::{spec_deliverable, spec_delivered};
use libflate::zlib::Decoder;
use std::io::Read;
use vstd::prelude::*;

verus! {

/// Offset of the block table within the packed payload.
pub const ZLIB_BLOCKTBL_OFFSET: u64 = 0x0c;

/// The most decoded blocks that a view keeps.
pub const ZLIB_MAX_CACHE_ENTRIES: usize = 2;

/// The largest block size that a payload may declare.
pub const ZLIB_MAX_BLOCKSIZE: u64 = 0x100_0000;

/// Whether `bytes` begin with the four letters "ZLIB".
pub open spec fn spec_is_zlib_magic(bytes: Seq<u8>) -> bool {
    &&& bytes.len() >= 4
    &&& bytes[0] == 0x5a
    &&& bytes[1] == 0x4c
    &&& bytes[2] == 0x49
    &&& bytes[3] == 0x42
}

/// Tells whether `bytes` begin with the four letters "ZLIB".
pub fn is_zlib_magic(bytes: &[u8]) -> (found: bool)
    ensures
        found == spec_is_zlib_magic(bytes@),
{
    bytes.len() >= 4 && bytes[0] == 0x5a && bytes[1] == 0x4c && bytes[2] == 0x49 && bytes[3]
        == 0x42
}

/// What the header of a blocked payload declares: the expanded size and the
/// block size.
pub open spec fn spec_zlib_header(header: Seq<u8>) -> Result<(u64, u64), Error>
    recommends
        header.len() >= ZLIB_BLOCKTBL_OFFSET,
{
    let size = spec_u32_at(header, 4);
    let blocksize = spec_u32_at(header, 8);
    if !spec_is_zlib_magic(header) {
        Err(Error::ZlibHeaderInvalid)
    } else if blocksize == 0 || blocksize > ZLIB_MAX_BLOCKSIZE {
        Err(Error::ZlibHeaderInvalid)
    } else {
        Ok((size as u64, blocksize as u64))
    }
}

/// Reads the header of a blocked payload.
pub fn parse_header(header: &[u8]) -> (r: Result<(u64, u64), Error>)
    requires
        header@.len() >= ZLIB_BLOCKTBL_OFFSET,
    ensures
        r == spec_zlib_header(header@),
{
    if !is_zlib_magic(header) {
        return Err(Error::ZlibHeaderInvalid);
    }
    let size: u64 = u32_at(header, 4) as u64;
    let blocksize: u64 = u32_at(header, 8) as u64;
    if blocksize == 0 {
        return Err(Error::ZlibHeaderInvalid);
    }
    if blocksize > ZLIB_MAX_BLOCKSIZE {
        return Err(Error::ZlibHeaderInvalid);
    }
    Ok((size, blocksize))
}

/// What a zlib frame at the start of `packed` inflates to, if it is a whole
/// and sound frame: header, deflate stream and Adler-32 checksum.
pub uninterp spec fn zlib_inflated(packed: Seq<u8>) -> Option<Seq<u8>>;

/// The error type of `std::io`, in which the decoder reports a frame that it
/// cannot inflate. Nothing is read from it.
#[verifier::external_type_specification]
#[verifier::external_body]
pub struct ExIoError(std::io::Error);

/// `libflate::zlib::Decoder::new` over `packed`, then `read_to_end`: the
/// inflated bytes of the frame, or the decoder's error where the header, the
/// deflate stream or the checksum is not sound.
#[verifier::external_body]
pub(crate) fn inflate(packed: &[u8]) -> (r: Result<Vec<u8>, std::io::Error>)
    ensures
        match r {
            Ok(bytes) => zlib_inflated(packed@) == Some(bytes@),
            Err(_) => zlib_inflated(packed@) is None,
        },
{
    let mut decoder = Decoder::new(packed)?;
    let mut bytes: Vec<u8> = Vec::new();
    decoder.read_to_end(&mut bytes)?;
    Ok(bytes)
}

/// What an inflated block is worth: it must have come out, and with exactly
/// the length that the block is to have.
pub open spec fn spec_check_inflated(inflated: Option<Seq<u8>>, unpacked_len: int) -> Result<
    Seq<u8>,
    Error,
> {
    match inflated {
        Some(bytes) => if bytes.len() == unpacked_len {
            Ok(bytes)
        } else {
            Err(Error::InflateFailure)
        },
        None => Err(Error::InflateFailure),
    }
}

/// Whether a returned buffer holds the bytes that `expected` describes.
pub open spec fn bytes_are(got: Result<Vec<u8>, Error>, expected: Result<Seq<u8>, Error>) -> bool {
    match got {
        Ok(bytes) => expected == Ok::<Seq<u8>, Error>(bytes@),
        Err(e) => expected == Err::<Seq<u8>, Error>(e),
    }
}

/// Accepts an inflated block if it has the length that the block is to have.
pub fn check_inflated(inflated: Result<Vec<u8>, std::io::Error>, unpacked_len: u64) -> (r: Result<
    Vec<u8>,
    Error,
>)
    ensures
        bytes_are(
            r,
            spec_check_inflated(
                match inflated {
                    Ok(bytes) => Some(bytes@),
                    Err(_) => None,
                },
                unpacked_len as int,
            ),
        ),
{
    match inflated {
        Ok(bytes) => {
            if bytes.len() as u64 == unpacked_len {
                Ok(bytes)
            } else {
                Err(Error::InflateFailure)
            }
        },
        Err(_) => Err(Error::InflateFailure),
    }
}

/// The bytes of a block, from the packed bytes `raw` that the block table
/// assigns to it: themselves where they already have the block's length,
/// else what they inflate to.
pub open spec fn spec_unpack(raw: Seq<u8>, unpacked_len: int) -> Result<Seq<u8>, Error> {
    if raw.len() == unpacked_len {
        Ok(raw)
    } else {
        spec_check_inflated(zlib_inflated(raw), unpacked_len)
    }
}

/// Turns the packed bytes of a block into the block's bytes.
pub fn unpack(raw: Vec<u8>, unpacked_len: u64) -> (r: Result<Vec<u8>, Error>)
    ensures
        bytes_are(r, spec_unpack(raw@, unpacked_len as int)),
{
    if raw.len() as u64 == unpacked_len {
        return Ok(raw);
    }
    check_inflated(inflate(raw.as_slice()), unpacked_len)
}

/// A blocked payload as a mathematical value: the packed bytes that the
/// archive has for it, the packed size that its row declares, and what its
/// header declares.
pub struct BlockedPayload {
    pub packed: Seq<u8>,
    pub packed_size: int,
    pub size: int,
    pub blocksize: int,
}

impl BlockedPayload {
    /// The sizes are such as the format can declare.
    pub open spec fn wf(&self) -> bool {
        &&& 0 < self.blocksize <= ZLIB_MAX_BLOCKSIZE
        &&& 0 <= self.size <= u32::MAX
        &&& self.packed.len() <= self.packed_size <= u32::MAX
    }

    /// The number of blocks.
    pub open spec fn block_count(&self) -> int {
        if self.size % self.blocksize > 0 {
            self.size / self.blocksize + 1
        } else {
            self.size / self.blocksize
        }
    }

    /// The length of block `k` once unpacked: the block size, but for the
    /// last block, which holds what is left.
    pub open spec fn unpacked_len(&self, k: int) -> int {
        if k < self.block_count() - 1 {
            self.blocksize
        } else {
            self.size - k * self.blocksize
        }
    }

    /// The number at `at` in the block table.
    pub open spec fn table_entry(&self, at: int) -> Result<int, Error> {
        if at > self.packed_size {
            Err(Error::SeekOutOfRange)
        } else if at + 4 > self.packed.len() {
            Err(Error::Io)
        } else {
            Ok(spec_u32_at(self.packed, at))
        }
    }

    /// Where the packed bytes of block `k` end: where the next block starts,
    /// or, for the last block, at the end of the payload.
    pub open spec fn block_end(&self, k: int) -> Result<int, Error> {
        let at = ZLIB_BLOCKTBL_OFFSET + 4 * k + 4;
        if k == self.block_count() - 1 {
            Ok(self.packed_size)
        } else if at + 4 > self.packed.len() {
            Err(Error::Io)
        } else {
            Ok(spec_u32_at(self.packed, at))
        }
    }

    /// Where block `k` starts in the payload, how many packed bytes it has,
    /// and how many it has once unpacked.
    pub open spec fn span(&self, k: int) -> Result<(u64, u64, u64), Error> {
        match self.table_entry(ZLIB_BLOCKTBL_OFFSET + 4 * k) {
            Err(e) => Err(e),
            Ok(start) => match self.block_end(k) {
                Err(e) => Err(e),
                Ok(end) => if end < start || end - start > self.blocksize {
                    Err(Error::BlockOverlarge)
                } else {
                    Ok((start as u64, (end - start) as u64, self.unpacked_len(k) as u64))
                },
            },
        }
    }

    /// The `len` packed bytes at `start`.
    pub open spec fn packed_bytes(&self, start: int, len: int) -> Result<Seq<u8>, Error> {
        if start > self.packed_size {
            Err(Error::SeekOutOfRange)
        } else if spec_deliverable(self.packed, start, len) < len {
            Err(Error::Io)
        } else {
            Ok(spec_delivered(self.packed, start, len))
        }
    }

    /// The bytes of block `k`, or why it cannot be had.
    pub open spec fn block(&self, k: int) -> Result<Seq<u8>, Error> {
        match self.span(k) {
            Err(e) => Err(e),
            Ok((start, packed_len, unpacked_len)) => match self.packed_bytes(
                start as int,
                packed_len as int,
            ) {
                Err(e) => Err(e),
                Ok(raw) => spec_unpack(raw, unpacked_len as int),
            },
        }
    }

    /// The byte at position `i` of the expanded content.
    pub open spec fn byte(&self, i: int) -> u8 {
        self.block(i / self.blocksize).unwrap()[i % self.blocksize]
    }

    /// The expanded content, as far as its blocks can be had.
    pub open spec fn content(&self) -> Seq<u8> {
        Seq::new(self.size as nat, |i: int| self.byte(i))
    }

    /// The first block from `from` up to, not including, `to` that cannot be
    /// had.
    pub open spec fn first_failure(&self, from: int, to: int) -> Option<int>
        decreases to - from,
    {
        if from >= to {
            None
        } else if self.block(from) is Err {
            Some(from)
        } else {
            self.first_failure(from + 1, to)
        }
    }

    /// How many bytes a read of up to `want` bytes at `pos` asks for: no more
    /// than the content still has.
    pub open spec fn wanted(&self, pos: int, want: int) -> int {
        if want <= self.size - pos {
            want
        } else {
            self.size - pos
        }
    }

    /// One more than the last block that `count` bytes from `pos` on lie in.
    pub open spec fn blocks_end(&self, pos: int, count: int) -> int {
        if count <= 0 {
            pos / self.blocksize
        } else {
            (pos + count - 1) / self.blocksize + 1
        }
    }

    /// The first block that a read of up to `want` bytes at `pos` needs and
    /// cannot have.
    pub open spec fn read_failure(&self, pos: int, want: int) -> Option<int> {
        self.first_failure(
            pos / self.blocksize,
            self.blocks_end(pos, self.wanted(pos, want)),
        )
    }

    /// How many bytes a read of up to `want` bytes at `pos` delivers: all
    /// that it asks for, or those that lie before the first block that
    /// cannot be had.
    pub open spec fn read_count(&self, pos: int, want: int) -> int {
        match self.read_failure(pos, want) {
            None => self.wanted(pos, want),
            Some(k) => if k * self.blocksize > pos {
                k * self.blocksize - pos
            } else {
                0
            },
        }
    }

    /// The error, if any, that ends a read of up to `want` bytes at `pos`.
    pub open spec fn read_error(&self, pos: int, want: int) -> Option<Error> {
        match self.read_failure(pos, want) {
            None => None,
            Some(k) => match self.block(k) {
                Err(e) => Some(e),
                Ok(_) => None,
            },
        }
    }

    /// A block that can be had has the length that the format gives it.
    pub proof fn lemma_block_len(&self, k: int)
        requires
            self.wf(),
            0 <= k < self.block_count(),
            self.block(k) is Ok,
        ensures
            self.block(k).unwrap().len() == self.unpacked_len(k),
    {
        self.lemma_block_bounds(k);
    }

    /// What [`BlockedPayload::first_failure`] finds: a block that cannot be
    /// had, with none such before it; or nothing, where all can be had.
    pub proof fn lemma_first_failure(&self, from: int, to: int)
        ensures
            match self.first_failure(from, to) {
                Some(k) => {
                    &&& from <= k < to
                    &&& self.block(k) is Err
                    &&& forall|j: int| from <= j < k ==> (#[trigger] self.block(j)) is Ok
                },
                None => forall|j: int| from <= j < to ==> (#[trigger] self.block(j)) is Ok,
            },
        decreases to - from,
    {
        if from < to && self.block(from) is Ok {
            self.lemma_first_failure(from + 1, to);
        }
    }

    /// A read delivers no more than it asks for, and all of it exactly when
    /// no block that it needs fails.
    pub proof fn lemma_read_count(&self, pos: int, want: int)
        requires
            self.wf(),
            0 <= pos <= self.size,
            0 <= want,
        ensures
            0 <= self.read_count(pos, want) <= self.wanted(pos, want) <= want,
            pos + self.read_count(pos, want) <= self.size,
            self.read_error(pos, want) is None <==> self.read_failure(pos, want) is None,
            self.read_error(pos, want) is None <==> self.read_count(pos, want) == self.wanted(
                pos,
                want,
            ),
            forall|i: int|
                pos <= i < pos + self.read_count(pos, want) ==> (#[trigger] self.block(
                    i / self.blocksize,
                )) is Ok,
    {
        let b = self.blocksize;
        let total = self.wanted(pos, want);
        let first = pos / b;
        let to = self.blocks_end(pos, total);
        self.lemma_first_failure(first, to);
        vstd::arithmetic::div_mod::lemma_fundamental_div_mod(pos, b);
        vstd::arithmetic::div_mod::lemma_mod_pos_bound(pos, b);
        assert(first * b == b * first) by (nonlinear_arith);
        match self.first_failure(first, to) {
            Some(k) => {
                assert(total > 0);
                let last = (pos + total - 1) / b;
                vstd::arithmetic::div_mod::lemma_fundamental_div_mod(pos + total - 1, b);
                vstd::arithmetic::div_mod::lemma_mod_pos_bound(pos + total - 1, b);
                assert(k * b <= last * b) by (nonlinear_arith)
                    requires
                        k <= last,
                        0 < b,
                {
                }
                assert(last * b == b * last) by (nonlinear_arith);
                assert(first * b <= k * b) by (nonlinear_arith)
                    requires
                        first <= k,
                        0 < b,
                {
                }
                assert forall|i: int|
                    pos <= i < pos + self.read_count(pos, want) implies (#[trigger] self.block(
                    i / b,
                )) is Ok by {
                    vstd::arithmetic::div_mod::lemma_div_is_ordered(pos, i, b);
                    vstd::arithmetic::div_mod::lemma_fundamental_div_mod(i, b);
                    vstd::arithmetic::div_mod::lemma_mod_pos_bound(i, b);
                    let q = i / b;
                    assert(q * b == b * q) by (nonlinear_arith);
                    if q >= k {
                        assert(k * b <= q * b) by (nonlinear_arith)
                            requires
                                k <= q,
                                0 < b,
                        {
                        }
                    }
                }
            },
            None => {
                assert forall|i: int| pos <= i < pos + total implies (#[trigger] self.block(
                    i / b,
                )) is Ok by {
                    vstd::arithmetic::div_mod::lemma_div_is_ordered(pos, i, b);
                    vstd::arithmetic::div_mod::lemma_div_is_ordered(i, pos + total - 1, b);
                }
            },
        }
    }

    /// A read of `total` bytes from `pos` has come to `cur`, and every block
    /// before `cur` that it needed could be had.
    #[verifier::opaque]
    pub open spec fn reading(&self, pos: int, total: int, cur: int) -> bool {
        let first = pos / self.blocksize;
        let to = self.blocks_end(pos, total);
        &&& 0 <= pos <= cur <= pos + total <= self.size
        &&& if cur < pos + total {
            &&& cur == pos || cur % self.blocksize == 0
            &&& self.first_failure(first, to) == self.first_failure(cur / self.blocksize, to)
        } else {
            self.first_failure(first, to) is None
        }
    }

    /// A read starts with nothing needed yet.
    pub proof fn lemma_reading_start(&self, pos: int, want: int)
        requires
            self.wf(),
            0 <= pos <= self.size,
            0 <= want,
        ensures
            self.reading(pos, self.wanted(pos, want), pos),
    {
        reveal(BlockedPayload::reading);
    }

    /// A read that meets a block that cannot be had ends there.
    pub proof fn lemma_reading_failure(&self, pos: int, want: int, cur: int)
        requires
            self.wf(),
            0 <= want,
            self.reading(pos, self.wanted(pos, want), cur),
            cur < pos + self.wanted(pos, want),
            self.block(cur / self.blocksize) is Err,
        ensures
            self.read_count(pos, want) == cur - pos,
            self.read_error(pos, want) == Some(self.block(cur / self.blocksize)->Err_0),
    {
        reveal(BlockedPayload::reading);
        let total = self.wanted(pos, want);
        let k = cur / self.blocksize;
        vstd::arithmetic::div_mod::lemma_div_is_ordered(pos, cur, self.blocksize);
        vstd::arithmetic::div_mod::lemma_div_is_ordered(cur, pos + total - 1, self.blocksize);
        vstd::arithmetic::div_mod::lemma_fundamental_div_mod(cur, self.blocksize);
        vstd::arithmetic::div_mod::lemma_mod_pos_bound(cur, self.blocksize);
        assert(k * self.blocksize == self.blocksize * k) by (nonlinear_arith);
        assert(self.read_failure(pos, want) == Some(k));
    }

    /// A read that takes `count` bytes from the block that `cur` lies in: as
    /// many as it still needs, or as the block has from `cur` on.
    pub proof fn lemma_reading_step(&self, pos: int, total: int, cur: int, count: int)
        requires
            self.wf(),
            self.reading(pos, total, cur),
            cur < pos + total,
            self.block(cur / self.blocksize) is Ok,
            count == if pos + total - cur < self.unpacked_len(cur / self.blocksize) - cur
                % self.blocksize {
                pos + total - cur
            } else {
                self.unpacked_len(cur / self.blocksize) - cur % self.blocksize
            },
        ensures
            0 < count,
            self.reading(pos, total, cur + count),
            self.content().subrange(cur, cur + count) == self.block(
                cur / self.blocksize,
            ).unwrap().subrange(cur % self.blocksize, cur % self.blocksize + count),
    {
        reveal(BlockedPayload::reading);
        let b = self.blocksize;
        let k = cur / b;
        let j = cur % b;
        let to = self.blocks_end(pos, total);
        self.lemma_position_to_block(cur);
        self.lemma_block_bounds(k);
        self.lemma_content_in_block(k, j, count);
        vstd::arithmetic::div_mod::lemma_div_is_ordered(cur, pos + total - 1, b);
        assert(self.first_failure(k, to) == self.first_failure(k + 1, to));
        if cur + count < pos + total {
            assert(k < self.block_count() - 1);
            assert((k + 1) * b == k * b + b) by (nonlinear_arith);
            vstd::arithmetic::div_mod::lemma_fundamental_div_mod_converse(
                cur + count,
                b,
                k + 1,
                0,
            );
        } else {
            self.lemma_block_to_position(k, j + count - 1);
            assert(to == k + 1);
        }
    }

    /// A read that has come to its end has delivered all that it asked for.
    pub proof fn lemma_reading_done(&self, pos: int, want: int)
        requires
            self.wf(),
            0 <= want,
            self.reading(pos, self.wanted(pos, want), pos + self.wanted(pos, want)),
        ensures
            self.read_count(pos, want) == self.wanted(pos, want),
            self.read_error(pos, want) is None,
    {
        reveal(BlockedPayload::reading);
    }

    /// The content, where it lies in a block that can be had, is that block's
    /// bytes.
    pub proof fn lemma_content_in_block(&self, k: int, from: int, count: int)
        requires
            self.wf(),
            0 <= k < self.block_count(),
            self.block(k) is Ok,
            0 <= from,
            0 <= count,
            from + count <= self.unpacked_len(k),
        ensures
            k * self.blocksize + from + count <= self.size,
            0 <= k * self.blocksize,
            self.content().subrange(
                k * self.blocksize + from,
                k * self.blocksize + from + count,
            ) == self.block(k).unwrap().subrange(from, from + count),
    {
        self.lemma_block_bounds(k);
        self.lemma_block_len(k);
        let base = k * self.blocksize + from;
        assert(0 <= k * self.blocksize) by (nonlinear_arith)
            requires
                0 <= k,
                0 < self.blocksize,
        {
        }
        let whole = self.content().subrange(base, base + count);
        let part = self.block(k).unwrap().subrange(from, from + count);
        assert forall|i: int| 0 <= i < count implies whole[i] == part[i] by {
            self.lemma_block_to_position(k, from + i);
            assert(whole[i] == self.byte(base + i));
        }
        assert(whole =~= part);
    }

    /// Every block has at least one byte and at most a block size of them,
    /// and all but the last have exactly a block size.
    pub proof fn lemma_block_bounds(&self, k: int)
        requires
            self.wf(),
            0 <= k < self.block_count(),
        ensures
            0 < self.unpacked_len(k) <= self.blocksize,
            k * self.blocksize + self.unpacked_len(k) <= self.size,
            k == self.block_count() - 1 ==> k * self.blocksize + self.unpacked_len(k)
                == self.size,
            self.block_count() <= self.size,
    {
        let b = self.blocksize;
        let n = self.size;
        let q = n / b;
        let r = n % b;
        vstd::arithmetic::div_mod::lemma_fundamental_div_mod(n, b);
        vstd::arithmetic::div_mod::lemma_mod_pos_bound(n, b);
        vstd::arithmetic::div_mod::lemma_div_pos_is_pos(n, b);
        assert(n == b * q + r);
        if k + 1 <= q {
            assert(k * b + b <= q * b) by (nonlinear_arith)
                requires
                    k + 1 <= q,
                    0 < b,
            {
            }
        } else {
            assert(k * b == q * b);
        }
        assert(q * b == b * q) by (nonlinear_arith);
        assert(q <= q * b) by (nonlinear_arith)
            requires
                0 <= q,
                0 < b,
        {
        }
        if k == self.block_count() - 1 && r == 0 {
            assert(k * b + b == q * b) by (nonlinear_arith)
                requires
                    k + 1 == q,
            {
            }
        }
    }

    /// The block and the place within it of position `i`.
    pub proof fn lemma_position_to_block(&self, i: int)
        requires
            self.wf(),
            0 <= i < self.size,
        ensures
            0 <= i / self.blocksize < self.block_count(),
            0 <= i % self.blocksize < self.unpacked_len(i / self.blocksize),
            i == (i / self.blocksize) * self.blocksize + i % self.blocksize,
    {
        let b = self.blocksize;
        let n = self.size;
        let k = i / b;
        let j = i % b;
        vstd::arithmetic::div_mod::lemma_fundamental_div_mod(n, b);
        vstd::arithmetic::div_mod::lemma_mod_pos_bound(n, b);
        vstd::arithmetic::div_mod::lemma_fundamental_div_mod(i, b);
        vstd::arithmetic::div_mod::lemma_mod_pos_bound(i, b);
        vstd::arithmetic::div_mod::lemma_div_pos_is_pos(i, b);
        vstd::arithmetic::div_mod::lemma_div_is_ordered(i, n, b);
        assert(k * b == b * k) by (nonlinear_arith);
        assert((n / b) * b == b * (n / b)) by (nonlinear_arith);
        if n % b == 0 && k == n / b {
            assert(false);
        }
        self.lemma_block_bounds(k);
    }

    /// The position of place `j` within block `k`.
    pub proof fn lemma_block_to_position(&self, k: int, j: int)
        requires
            self.wf(),
            0 <= k < self.block_count(),
            0 <= j < self.unpacked_len(k),
        ensures
            0 <= k * self.blocksize + j < self.size,
            (k * self.blocksize + j) / self.blocksize == k,
            (k * self.blocksize + j) % self.blocksize == j,
    {
        self.lemma_block_bounds(k);
        assert(0 <= k * self.blocksize) by (nonlinear_arith)
            requires
                0 <= k,
                0 < self.blocksize,
        {
        }
        vstd::arithmetic::div_mod::lemma_fundamental_div_mod_converse(
            k * self.blocksize + j,
            self.blocksize,
            k,
            j,
        );
    }
}

} // verus!
