//! The blocked variant of a file data view: a seekable stream over the
//! expanded content, which unpacks blocks as they are read and keeps the
//! last few.

use crate::blocks::{
    bytes_are, parse_header, spec_zlib_header, unpack, BlockedPayload, ZLIB_BLOCKTBL_OFFSET,
    ZLIB_MAX_CACHE_ENTRIES,
};
use crate::container::FileTableEntry;
use crate::error::Error;
use crate::le::read_u32;
use crate::plain::{
    copy_bytes, lemma_filled_more, seek_target, spec_filled, spec_payload, spec_seek_target,
    FileDataPlain, SeekFrom,
};
use std::collections::HashMap;
use vstd::prelude::*;

verus! {

/// What opening a blocked payload of `size` bytes at `base` gives: the
/// expanded size and the block size that its header declares.
pub open spec fn spec_zlib_open(data: Seq<u8>, base: int, size: int) -> Result<(u64, u64), Error> {
    let packed = spec_payload(data, base, size);
    if packed.len() < ZLIB_BLOCKTBL_OFFSET {
        Err(Error::Io)
    } else {
        spec_zlib_header(packed.subrange(0, ZLIB_BLOCKTBL_OFFSET as int))
    }
}

/// Whether `key` is the smallest of `keys`, or `keys` is empty and there is
/// no `key`.
pub open spec fn spec_is_smallest(keys: Set<u32>, key: Option<u32>) -> bool {
    match key {
        Some(k) => keys.contains(k) && forall|j: u32| keys.contains(j) ==> k <= j,
        None => keys =~= Set::<u32>::empty(),
    }
}

/// Whether `key` is the largest of `keys`, or `keys` is empty and there is
/// no `key`.
pub open spec fn spec_is_largest(keys: Set<u32>, key: Option<u32>) -> bool {
    match key {
        Some(k) => keys.contains(k) && forall|j: u32| keys.contains(j) ==> j <= k,
        None => keys =~= Set::<u32>::empty(),
    }
}

/// Whether `victim` is the block to give up among `keys` so that `keep`
/// stays: the smallest, or the largest where the smallest is `keep`.
pub open spec fn spec_is_victim(keys: Set<u32>, keep: u32, victim: u32) -> bool {
    if spec_is_smallest(keys, Some(keep)) {
        spec_is_largest(keys, Some(victim))
    } else {
        spec_is_smallest(keys, Some(victim))
    }
}

/// Whether `kept` are the blocks kept once block `idx` was asked for where
/// `keys` were kept: the same if `idx` was among them; else `idx` besides
/// them, in place of one of them where they were as many as are ever kept.
pub open spec fn spec_kept_after(keys: Set<u32>, idx: u32, kept: Set<u32>) -> bool {
    if keys.contains(idx) {
        kept == keys
    } else if keys.len() < ZLIB_MAX_CACHE_ENTRIES {
        kept == keys.insert(idx)
    } else {
        exists|victim: u32|
            spec_is_victim(keys, idx, victim) && kept == #[trigger] keys.remove(victim).insert(
                idx,
            )
    }
}

/// The smallest key of `cache`.
pub fn smallest_key(cache: &HashMap<u32, Vec<u8>>) -> (r: Option<u32>)
    ensures
        spec_is_smallest(cache@.dom(), r),
{
    broadcast use vstd::std_specs::hash::group_hash_axioms;

    let mut best: Option<u32> = None;
    for k in iter: cache.keys()
        invariant
            iter.seq().unref().to_set() == cache@.dom(),
            match best {
                Some(b) => cache@.contains_key(b) && forall|i: int|
                    0 <= i < iter.index() ==> b <= *iter.seq()[i],
                None => iter.index() == 0,
            },
            iter.index() == iter.seq().len() ==> spec_is_smallest(cache@.dom(), best),
    {
        best =
        match best {
            Some(b) => if *k < b {
                Some(*k)
            } else {
                Some(b)
            },
            None => Some(*k),
        };
        assert(iter.seq().unref().to_set().contains(*k));
        assert forall|j: u32|
            iter.index() + 1 == iter.seq().len() && cache@.dom().contains(j) implies best.unwrap()
            <= j by {
            assert(iter.seq().unref().contains(j));
            let i = choose|i: int|
                0 <= i < iter.seq().unref().len() && iter.seq().unref()[i] == j;
            assert(*iter.seq()[i] == j);
        }
    }
    best
}

/// The largest key of `cache`.
pub fn largest_key(cache: &HashMap<u32, Vec<u8>>) -> (r: Option<u32>)
    ensures
        spec_is_largest(cache@.dom(), r),
{
    broadcast use vstd::std_specs::hash::group_hash_axioms;

    let mut best: Option<u32> = None;
    for k in iter: cache.keys()
        invariant
            iter.seq().unref().to_set() == cache@.dom(),
            match best {
                Some(b) => cache@.contains_key(b) && forall|i: int|
                    0 <= i < iter.index() ==> *iter.seq()[i] <= b,
                None => iter.index() == 0,
            },
            iter.index() == iter.seq().len() ==> spec_is_largest(cache@.dom(), best),
    {
        best =
        match best {
            Some(b) => if *k > b {
                Some(*k)
            } else {
                Some(b)
            },
            None => Some(*k),
        };
        assert(iter.seq().unref().to_set().contains(*k));
        assert forall|j: u32|
            iter.index() + 1 == iter.seq().len() && cache@.dom().contains(j) implies j
            <= best.unwrap() by {
            assert(iter.seq().unref().contains(j));
            let i = choose|i: int|
                0 <= i < iter.seq().unref().len() && iter.seq().unref()[i] == j;
            assert(*iter.seq()[i] == j);
        }
    }
    best
}

/// A stream over the expanded content of one blocked payload.
pub struct FileDataZlib<'a> {
    pub(crate) plain: FileDataPlain<'a>,
    pub(crate) size: u64,
    pub(crate) cur_offset: u64,
    pub(crate) blocksize: u64,
    pub(crate) cache: HashMap<u32, Vec<u8>>,
}

impl<'a> FileDataZlib<'a> {
    /// The payload that this is a stream over.
    pub open(crate) spec fn payload(&self) -> BlockedPayload {
        BlockedPayload {
            packed: self.plain.content(),
            packed_size: self.plain.spec_size() as int,
            size: self.size as int,
            blocksize: self.blocksize as int,
        }
    }

    /// The current position in the expanded content.
    pub open(crate) spec fn position(&self) -> u64 {
        self.cur_offset
    }

    /// The size of the expanded content.
    pub open(crate) spec fn spec_size(&self) -> u64 {
        self.size
    }

    /// The blocks that are kept unpacked.
    pub open(crate) spec fn cached(&self) -> Map<u32, Vec<u8>> {
        self.cache@
    }

    /// The position lies within the content; at most
    /// [`ZLIB_MAX_CACHE_ENTRIES`] blocks are kept, and each of them holds the
    /// bytes of its block.
    pub open(crate) spec fn wf(&self) -> bool {
        &&& self.plain.wf()
        &&& self.payload().wf()
        &&& self.cur_offset <= self.size
        &&& self.cache@.dom().finite()
        &&& self.cache@.dom().len() <= ZLIB_MAX_CACHE_ENTRIES
        &&& forall|k: u32| #[trigger]
            self.cache@.contains_key(k) ==> k < self.payload().block_count()
                && self.payload().block(k as int) == Ok::<Seq<u8>, Error>(self.cache@[k]@)
    }

    /// Both are streams over the same payload.
    pub open(crate) spec fn same_payload(&self, other: &Self) -> bool {
        self.payload() == other.payload()
    }

    /// Both stand at the same position of the same payload and keep the
    /// same blocks.
    pub open(crate) spec fn same_state(&self, other: &Self) -> bool {
        &&& self.payload() == other.payload()
        &&& self.cur_offset == other.cur_offset
        &&& self.cache@ == other.cache@
    }

    /// A stream at position 0 over the blocked payload of `fentry` within
    /// `file`, with no block kept yet.
    pub fn from(file: &'a [u8], fentry: &FileTableEntry) -> (r: Result<FileDataZlib<'a>, Error>)
        ensures
            match spec_zlib_open(file@, fentry.offset as int, fentry.size as int) {
                Ok((size, blocksize)) => {
                    &&& r matches Ok(zlib)
                    &&& zlib.wf()
                    &&& zlib.position() == 0
                    &&& zlib.cached() == Map::<u32, Vec<u8>>::empty()
                    &&& zlib.payload() == BlockedPayload {
                        packed: spec_payload(file@, fentry.offset as int, fentry.size as int),
                        packed_size: fentry.size as int,
                        size: size as int,
                        blocksize: blocksize as int,
                    }
                },
                Err(e) => r matches Err(got) && got == e,
            },
    {
        broadcast use vstd::std_specs::hash::group_hash_axioms;

        let mut plain = FileDataPlain::from(file, fentry);
        let mut header: Vec<u8> = vec![0u8; 0xc];
        plain.read_exact(header.as_mut_slice())?;
        proof {
            let packed = plain.content();
            assert(header@ =~= packed.subrange(0, ZLIB_BLOCKTBL_OFFSET as int));
        }
        let (expanded_size, blocksize) = parse_header(header.as_slice())?;
        Ok(
            FileDataZlib {
                plain,
                size: expanded_size,
                blocksize,
                cur_offset: 0u64,
                cache: HashMap::new(),
            },
        )
    }

    /// The size of the expanded content.
    pub fn size(&self) -> (size: u64)
        ensures
            size == self.spec_size(),
    {
        self.size
    }

    /// The number of blocks that are kept unpacked.
    pub fn cached_len(&self) -> (count: usize)
        requires
            self.wf(),
        ensures
            count == self.cached().dom().len(),
            count <= ZLIB_MAX_CACHE_ENTRIES,
    {
        broadcast use vstd::std_specs::hash::group_hash_axioms;

        self.cache.len()
    }

    /// The number of blocks.
    pub fn num_blocks(&self) -> (count: u32)
        requires
            self.wf(),
        ensures
            count == self.payload().block_count(),
    {
        let partial_block_size: u64 = self.size % self.blocksize;
        proof {
            vstd::arithmetic::div_mod::lemma_div_is_ordered(
                self.size as int,
                u32::MAX as int,
                self.blocksize as int,
            );
            vstd::arithmetic::div_mod::lemma_div_pos_is_pos(
                self.size as int,
                self.blocksize as int,
            );
            vstd::arithmetic::div_mod::lemma_fundamental_div_mod(
                self.size as int,
                self.blocksize as int,
            );
            let q = self.size as int / self.blocksize as int;
            let b = self.blocksize as int;
            assert(q <= b * q) by (nonlinear_arith)
                requires
                    0 <= q,
                    0 < b,
            {
            }
        }
        if partial_block_size > 0 {
            ((self.size / self.blocksize) as u32) + 1
        } else {
            (self.size / self.blocksize) as u32
        }
    }

    /// Looks block `idx` up in the block table: where its packed bytes start,
    /// how many they are, and how many the block has once unpacked.
    pub fn read_block_offset_and_size(&mut self, idx: u32) -> (r: Result<(u64, u64, u64), Error>)
        requires
            old(self).wf(),
            idx < old(self).payload().block_count(),
        ensures
            final(self).wf(),
            final(self).same_state(old(self)),
            r == old(self).payload().span(idx as int),
    {
        let ghost payload = self.payload();
        let num_blocks: u32 = self.num_blocks();
        let last_block: u32 = num_blocks - 1;
        proof {
            payload.lemma_block_bounds(idx as int);
            payload.lemma_block_bounds(last_block as int);
        }
        let partial_block_size: u64 = self.size - last_block as u64 * self.blocksize;
        let mut buf: Vec<u8> = vec![0u8; 4];
        let tbl_entry_off: u64 = ZLIB_BLOCKTBL_OFFSET + (idx as u64 * 4);
        self.plain.seek(SeekFrom::Start(tbl_entry_off))?;
        self.plain.read_exact(buf.as_mut_slice())?;
        let start_off: u64 = read_u32(buf.as_slice()) as u64;
        proof {
            assert(buf@ =~= payload.packed.subrange(tbl_entry_off as int, tbl_entry_off + 4));
        }
        let (end_off, unpacked_size): (u64, u64) = if idx == last_block {
            (self.plain.size(), partial_block_size)
        } else {
            let mut buf: Vec<u8> = vec![0u8; 4];
            self.plain.read_exact(buf.as_mut_slice())?;
            proof {
                assert(buf@ =~= payload.packed.subrange(
                    tbl_entry_off + 4,
                    tbl_entry_off + 8,
                ));
            }
            (read_u32(buf.as_slice()) as u64, self.blocksize)
        };
        if end_off < start_off || end_off - start_off > self.blocksize {
            return Err(Error::BlockOverlarge);
        }
        Ok((start_off, end_off - start_off, unpacked_size))
    }

    /// Gives up one kept block other than `idx`: the one with the smallest
    /// index, or the one with the largest where the smallest is `idx`.
    pub fn evict_another_entry(&mut self, idx: u32)
        requires
            old(self).wf(),
            old(self).cached().dom().len() > 0,
            !(old(self).cached().dom().len() == 1 && old(self).cached().contains_key(idx)),
        ensures
            final(self).wf(),
            final(self).same_payload(old(self)),
            final(self).position() == old(self).position(),
            exists|victim: u32|
                {
                    &&& spec_is_victim(old(self).cached().dom(), idx, victim)
                    &&& victim != idx
                    &&& #[trigger] old(self).cached().remove(victim) == final(self).cached()
                },
            final(self).cached().dom().len() == old(self).cached().dom().len() - 1,
    {
        broadcast use vstd::std_specs::hash::group_hash_axioms;

        let ghost keys = self.cache@.dom();
        let min: u32 = match smallest_key(&self.cache) {
            Some(min) => min,
            None => {
                proof {
                    assert(keys.len() == 0);
                }
                return ;
            },
        };
        let victim: u32 = if min == idx {
            match largest_key(&self.cache) {
                Some(max) => max,
                None => min,
            }
        } else {
            min
        };
        proof {
            if victim == idx {
                assert forall|j: u32| keys.contains(j) implies j == idx by {}
                assert(keys =~= set![idx]);
            }
        }
        self.cache.remove(&victim);
        proof {
            assert(self.cache@ == old(self).cache@.remove(victim));
            assert(self.cache@.dom() =~= keys.remove(victim));
        }
    }

    /// The bytes of block `idx`: those kept, or else read from the payload,
    /// unpacked and kept from now on, in place of another block where
    /// [`ZLIB_MAX_CACHE_ENTRIES`] are kept already.
    pub fn get_block(&mut self, idx: u32) -> (r: Result<&Vec<u8>, Error>)
        requires
            old(self).wf(),
            idx < old(self).payload().block_count(),
        ensures
            final(self).wf(),
            final(self).same_payload(old(self)),
            final(self).position() == old(self).position(),
            match old(self).payload().block(idx as int) {
                Ok(bytes) => {
                    &&& r matches Ok(block)
                    &&& block@ == bytes
                    &&& final(self).cached().contains_key(idx)
                    &&& spec_kept_after(
                        old(self).cached().dom(),
                        idx,
                        final(self).cached().dom(),
                    )
                },
                Err(e) => {
                    &&& r matches Err(got)
                    &&& got == e
                    &&& final(self).cached() == old(self).cached()
                },
            },
    {
        broadcast use vstd::std_specs::hash::group_hash_axioms;

        if self.cache.contains_key(&idx) {
            return Ok(self.cache.get(&idx).unwrap());
        }
        let block: Vec<u8> = self.read_block(idx)?;
        let ghost keys = self.cache@.dom();
        while self.cache.len() >= ZLIB_MAX_CACHE_ENTRIES
            invariant
                self.wf(),
                self.same_payload(old(self)),
                self.position() == old(self).position(),
                !self.cached().contains_key(idx),
                keys == old(self).cached().dom(),
                keys.finite(),
                keys.len() <= ZLIB_MAX_CACHE_ENTRIES,
                self.cached().dom() == keys || (keys.len() >= ZLIB_MAX_CACHE_ENTRIES
                    && exists|victim: u32|
                    spec_is_victim(keys, idx, victim) && self.cached().dom()
                        == #[trigger] keys.remove(victim)),
            decreases self.cached().dom().len(),
        {
            self.evict_another_entry(idx);
        }
        self.cache.insert(idx, block);
        Ok(self.cache.get(&idx).unwrap())
    }

    /// Reads up to as many bytes as `buf` takes from the position on, block
    /// by block, and moves the position past them. Where a block cannot be
    /// had, the bytes before it are delivered all the same, and the error is
    /// returned.
    pub fn read(&mut self, buf: &mut [u8]) -> (r: Result<usize, Error>)
        requires
            old(self).wf(),
        ensures
            final(self).wf(),
            final(self).same_payload(old(self)),
            final(self).position() == old(self).position() + old(self).payload().read_count(
                old(self).position() as int,
                old(buf)@.len() as int,
            ),
            final(buf)@ == spec_filled(
                old(buf)@,
                old(self).payload().content().subrange(
                    old(self).position() as int,
                    final(self).position() as int,
                ),
            ),
            match old(self).payload().read_error(
                old(self).position() as int,
                old(buf)@.len() as int,
            ) {
                None => r == Ok::<usize, Error>(
                    (final(self).position() - old(self).position()) as usize,
                ),
                Some(e) => r == Err::<usize, Error>(e),
            },
    {
        let ghost payload = self.payload();
        let ghost before = buf@;
        let ghost start = self.cur_offset as int;
        let ghost want = buf@.len() as int;
        let mut out_pos: u64 = 0u64;
        let mut size_left: u64 = buf.len() as u64;
        if size_left > self.size - self.cur_offset {
            size_left = self.size - self.cur_offset;
        }
        let ghost total = size_left as int;
        proof {
            assert(buf@ =~= spec_filled(before, payload.content().subrange(start, start)));
            payload.lemma_reading_start(start, want);
        }
        while size_left > 0
            invariant
                self.wf(),
                self.payload() == payload,
                payload == old(self).payload(),
                payload.wf(),
                start == old(self).position(),
                before == old(buf)@,
                want == before.len(),
                buf@.len() == before.len(),
                total == payload.wanted(start, want),
                self.cur_offset == start + out_pos,
                out_pos + size_left == total,
                payload.reading(start, total, self.cur_offset as int),
                buf@ == spec_filled(
                    before,
                    payload.content().subrange(start, self.cur_offset as int),
                ),
            decreases size_left,
        {
            let ghost cur = self.cur_offset as int;
            let ghost filled = buf@;
            proof {
                payload.lemma_position_to_block(cur);
            }
            let idx: u32 = (self.cur_offset / self.blocksize) as u32;
            let block_offset: u64 = self.cur_offset % self.blocksize;
            let blockdata: &Vec<u8> = match self.get_block(idx) {
                Ok(blockdata) => blockdata,
                Err(e) => {
                    proof {
                        payload.lemma_reading_failure(start, want, cur);
                    }
                    return Err(e);
                },
            };
            proof {
                payload.lemma_block_len(idx as int);
                payload.lemma_block_bounds(idx as int);
            }
            let to_copy: u64 = if size_left < (blockdata.len() as u64 - block_offset) {
                size_left
            } else {
                blockdata.len() as u64 - block_offset
            };
            proof {
                payload.lemma_reading_step(start, total, cur, to_copy as int);
            }
            copy_bytes(
                buf,
                out_pos as usize,
                blockdata.as_slice(),
                block_offset as usize,
                to_copy as usize,
            );
            proof {
                let done = payload.content().subrange(start, cur);
                let more = payload.content().subrange(cur, cur + to_copy);
                lemma_filled_more(before, done, more);
                assert(done + more =~= payload.content().subrange(start, cur + to_copy));
            }
            out_pos += to_copy;
            size_left -= to_copy;
            self.cur_offset += to_copy;
        }
        proof {
            payload.lemma_reading_done(start, want);
        }
        Ok(out_pos as usize)
    }

    /// Moves the position to where `style` asks, if that lies within the
    /// expanded content. No byte of the payload is touched.
    pub fn seek(&mut self, style: SeekFrom) -> (r: Result<u64, Error>)
        requires
            old(self).wf(),
        ensures
            final(self).wf(),
            final(self).same_payload(old(self)),
            final(self).cached() == old(self).cached(),
            match spec_seek_target(old(self).spec_size(), old(self).position(), style) {
                Some(target) => r == Ok::<u64, Error>(target) && final(self).position() == target,
                None => r == Err::<u64, Error>(Error::SeekOutOfRange) && final(self).position()
                    == old(self).position(),
            },
    {
        let target: u64 = seek_target(self.size, self.cur_offset, style)?;
        self.cur_offset = target;
        Ok(target)
    }

    /// Reads block `idx` from the payload and unpacks it.
    pub fn read_block(&mut self, idx: u32) -> (r: Result<Vec<u8>, Error>)
        requires
            old(self).wf(),
            idx < old(self).payload().block_count(),
        ensures
            final(self).wf(),
            final(self).same_state(old(self)),
            bytes_are(r, old(self).payload().block(idx as int)),
    {
        let (pack_start, pack_size, unpack_size) = self.read_block_offset_and_size(idx)?;
        let mut plain_block: Vec<u8> = vec![0u8; pack_size as usize];
        self.plain.seek(SeekFrom::Start(pack_start))?;
        self.plain.read_exact(plain_block.as_mut_slice())?;
        proof {
            let payload = self.payload();
            let raw = payload.packed_bytes(pack_start as int, pack_size as int).unwrap();
            assert(plain_block@ =~= raw);
        }
        unpack(plain_block, unpack_size)
    }
}

} // verus!
