//! What seeking and reading give, whatever the view: a seek within the
//! content always succeeds, a read delivers the content from the position
//! on, and reading on to the end gives back all of it.

use crate::blocks::{
    spec_is_zlib_magic, spec_unpack, zlib_inflated, BlockedPayload, ZLIB_BLOCKTBL_OFFSET,
    ZLIB_MAX_CACHE_ENTRIES,
};
use crate::container::FileTableEntry;
use crate::error::Error;
use crate::filedata::{spec_source, FileData, Source};
use crate::le::spec_u32_at;
use crate::plain::{spec_payload, spec_seek_target, SeekFrom};
use vstd::prelude::*;

verus! {

/// The bytes that reads of up to `chunk` bytes deliver, one after the other
/// from `pos` on, until one of them delivers nothing or fails.
pub open spec fn spec_read_to_end(source: Source, pos: int, chunk: int) -> Seq<u8>
    decreases source.size() - pos,
{
    let count = source.read_count(pos, chunk);
    if count <= 0 || pos + count > source.size() {
        Seq::empty()
    } else if source.read_error(pos, chunk) is Some {
        source.delivered(pos, chunk)
    } else {
        source.delivered(pos, chunk) + spec_read_to_end(source, pos + count, chunk)
    }
}

/// A seek from the start succeeds exactly when its target lies within the
/// content, the end included, and then leads there.
pub proof fn lemma_seek_from_start(size: u64, cur: u64, target: u64)
    ensures
        target <= size ==> spec_seek_target(size, cur, SeekFrom::Start(target)) == Some(target),
        target > size ==> spec_seek_target(size, cur, SeekFrom::Start(target)) is None,
{
}

/// Seeking from the start to the same target twice is seeking there once:
/// the second seek succeeds or fails as the first did, and leads to the same
/// position.
pub proof fn lemma_seek_from_start_again(size: u64, cur: u64, target: u64)
    ensures
        ({
            let first = spec_seek_target(size, cur, SeekFrom::Start(target));
            let after = match first {
                Some(position) => position,
                None => cur,
            };
            let second = spec_seek_target(size, after, SeekFrom::Start(target));
            &&& second == first
            &&& (match second {
                Some(position) => position,
                None => after,
            }) == after
        }),
{
}

/// A read at a position within the content delivers the content from there
/// on: as many bytes as it says, none beyond the end, each the byte of the
/// content at its place.
pub proof fn lemma_read_delivers_content(source: Source, pos: int, want: int)
    requires
        source.wf(),
        0 <= pos <= source.size(),
        0 <= want,
    ensures
        0 <= source.read_count(pos, want) <= want,
        pos + source.read_count(pos, want) <= source.size(),
        source.delivered(pos, want).len() == source.read_count(pos, want),
        forall|i: int|
            0 <= i < source.read_count(pos, want) ==> pos + i < source.content().len()
                && #[trigger] source.delivered(pos, want)[i] == source.content()[pos + i],
        source.read_error(pos, want) is None && source.content().len() == source.size()
            ==> source.read_count(pos, want) == if want <= source.size() - pos {
            want
        } else {
            source.size() - pos
        },
{
    match source {
        Source::Plain { content, size } => {},
        Source::Blocked(payload) => {
            payload.lemma_read_count(pos, want);
        },
    }
}

/// A read at the end of the content delivers nothing and does not fail; and
/// a seek to the end succeeds.
pub proof fn lemma_read_at_end(source: Source, cur: u64, want: int)
    requires
        source.wf(),
        0 <= want,
    ensures
        spec_seek_target(source.size(), cur, SeekFrom::Start(source.size())) == Some(
            source.size(),
        ),
        source.read_count(source.size() as int, want) == 0,
        source.read_error(source.size() as int, want) is None,
        source.delivered(source.size() as int, want) == Seq::<u8>::empty(),
{
    match source {
        Source::Plain { content, size } => {},
        Source::Blocked(payload) => {
            let pos = payload.size;
            payload.lemma_read_count(pos, want);
            assert(payload.content().subrange(pos, pos) =~= Seq::<u8>::empty());
        },
    }
}

/// A view of content of length zero delivers nothing, from the first read on.
pub proof fn lemma_read_of_empty(source: Source, want: int)
    requires
        source.wf(),
        source.size() == 0,
        0 <= want,
    ensures
        source.read_count(0, want) == 0,
        source.read_error(0, want) is None,
        source.delivered(0, want) == Seq::<u8>::empty(),
        spec_read_to_end(source, 0, want) == Seq::<u8>::empty(),
{
    lemma_read_at_end(source, 0, want);
}

/// Stored bytes that the archive has in full are read back as they are:
/// every read delivers all that it asks for, and reading to the end from
/// `pos` gives all the bytes from `pos` on.
pub proof fn lemma_stored_bytes_read_back(stored: Seq<u8>, pos: int, chunk: int)
    requires
        stored.len() <= u32::MAX,
        0 <= pos <= stored.len(),
        0 < chunk,
    ensures
        ({
            let source = Source::Plain { content: stored, size: stored.len() as u64 };
            &&& source.read_error(pos, chunk) is None
            &&& source.read_count(pos, chunk) == if chunk <= stored.len() - pos {
                chunk
            } else {
                stored.len() - pos
            }
            &&& spec_read_to_end(source, pos, chunk) == stored.subrange(pos, stored.len() as int)
        }),
    decreases stored.len() - pos,
{
    let source = Source::Plain { content: stored, size: stored.len() as u64 };
    let count = source.read_count(pos, chunk);
    if count > 0 {
        lemma_stored_bytes_read_back(stored, pos + count, chunk);
        assert(source.delivered(pos, chunk) + stored.subrange(pos + count, stored.len() as int)
            =~= stored.subrange(pos, stored.len() as int));
    } else {
        assert(stored.subrange(pos, stored.len() as int) =~= Seq::<u8>::empty());
    }
}

/// Whether the blocks of `payload` are the pieces of `expanded`, cut at
/// every multiple of the block size.
pub open spec fn spec_holds(payload: BlockedPayload, expanded: Seq<u8>) -> bool {
    &&& expanded.len() == payload.size
    &&& forall|k: int|
        0 <= k < payload.block_count() ==> #[trigger] payload.block(k) == Ok::<Seq<u8>, Error>(
            expanded.subrange(
                k * payload.blocksize,
                k * payload.blocksize + payload.unpacked_len(k),
            ),
        )
}

/// The packed bytes of a block give the block's bytes in one of two ways:
/// stored raw, they have the block's length and are its bytes; deflated,
/// they have another length and inflate to its bytes.
pub proof fn lemma_raw_or_deflated(raw: Seq<u8>, block: Seq<u8>)
    ensures
        spec_unpack(raw, block.len() as int) == Ok::<Seq<u8>, Error>(block) <==> (raw.len()
            == block.len() && raw == block) || (raw.len() != block.len() && zlib_inflated(raw)
            == Some(block)),
{
}

/// A blocked payload whose blocks are the pieces of `expanded` has
/// `expanded` as its content.
pub proof fn lemma_blocks_make_content(payload: BlockedPayload, expanded: Seq<u8>)
    requires
        payload.wf(),
        spec_holds(payload, expanded),
    ensures
        payload.content() == expanded,
{
    assert forall|i: int| 0 <= i < payload.size implies payload.content()[i] == expanded[i] by {
        payload.lemma_position_to_block(i);
        let k = i / payload.blocksize;
        payload.lemma_block_bounds(k);
        assert(payload.block(k).unwrap() == expanded.subrange(
            k * payload.blocksize,
            k * payload.blocksize + payload.unpacked_len(k),
        ));
    }
    assert(payload.content() =~= expanded);
}

/// A blocked payload whose blocks are the pieces of `expanded` is read back
/// as `expanded`: no read fails, every read delivers all that it asks for,
/// and reading to the end from `pos` gives all the bytes from `pos` on.
pub proof fn lemma_blocks_read_back(
    payload: BlockedPayload,
    expanded: Seq<u8>,
    pos: int,
    chunk: int,
)
    requires
        payload.wf(),
        spec_holds(payload, expanded),
        0 <= pos <= expanded.len(),
        0 < chunk,
    ensures
        ({
            let source = Source::Blocked(payload);
            &&& source.read_error(pos, chunk) is None
            &&& source.read_count(pos, chunk) == if chunk <= expanded.len() - pos {
                chunk
            } else {
                expanded.len() - pos
            }
            &&& spec_read_to_end(source, pos, chunk) == expanded.subrange(
                pos,
                expanded.len() as int,
            )
        }),
    decreases expanded.len() - pos,
{
    let source = Source::Blocked(payload);
    let total = payload.wanted(pos, chunk);
    payload.lemma_first_failure(pos / payload.blocksize, payload.blocks_end(pos, total));
    match payload.read_failure(pos, chunk) {
        Some(k) => {
            vstd::arithmetic::div_mod::lemma_div_pos_is_pos(pos, payload.blocksize);
            payload.lemma_position_to_block(pos + total - 1);
            assert(false);
        },
        None => {},
    }
    lemma_blocks_make_content(payload, expanded);
    let count = source.read_count(pos, chunk);
    if count > 0 {
        lemma_blocks_read_back(payload, expanded, pos + count, chunk);
        assert(source.delivered(pos, chunk) + expanded.subrange(
            pos + count,
            expanded.len() as int,
        ) =~= expanded.subrange(pos, expanded.len() as int));
    } else {
        assert(expanded.subrange(pos, expanded.len() as int) =~= Seq::<u8>::empty());
    }
}

/// Whether `payload` is `expanded` packed: cut at every multiple of the
/// block size, with the block table giving for each piece a stretch of the
/// packed bytes that holds it, either raw or deflated in a zlib frame of
/// another length.
pub open spec fn spec_packs(payload: BlockedPayload, expanded: Seq<u8>) -> bool {
    &&& expanded.len() == payload.size
    &&& forall|k: int|
        0 <= k < payload.block_count() ==> match #[trigger] payload.span(k) {
            Ok((start, packed_len, unpacked_len)) => match payload.packed_bytes(
                start as int,
                packed_len as int,
            ) {
                Ok(raw) => {
                    let piece = expanded.subrange(
                        k * payload.blocksize,
                        k * payload.blocksize + payload.unpacked_len(k),
                    );
                    raw == piece || (raw.len() != piece.len() && zlib_inflated(raw) == Some(
                        piece,
                    ))
                },
                Err(_) => false,
            },
            Err(_) => false,
        }
}

/// A payload that is `expanded` packed has the pieces of `expanded` as its
/// blocks.
pub proof fn lemma_packed_blocks_hold(payload: BlockedPayload, expanded: Seq<u8>)
    requires
        payload.wf(),
        spec_packs(payload, expanded),
    ensures
        spec_holds(payload, expanded),
{
    assert forall|k: int| 0 <= k < payload.block_count() implies #[trigger] payload.block(k)
        == Ok::<Seq<u8>, Error>(
        expanded.subrange(
            k * payload.blocksize,
            k * payload.blocksize + payload.unpacked_len(k),
        ),
    ) by {
        payload.lemma_block_bounds(k);
        assert(0 <= k * payload.blocksize) by (nonlinear_arith)
            requires
                0 <= k,
                0 < payload.blocksize,
        {
        }
        let piece = expanded.subrange(
            k * payload.blocksize,
            k * payload.blocksize + payload.unpacked_len(k),
        );
        let (start, packed_len, unpacked_len) = payload.span(k).unwrap();
        let raw = payload.packed_bytes(start as int, packed_len as int).unwrap();
        lemma_raw_or_deflated(raw, piece);
    }
}

/// A payload that is `expanded` packed is read back as `expanded`: no read
/// fails, and reading to the end gives all of it.
pub proof fn lemma_packed_payload_reads_back(
    payload: BlockedPayload,
    expanded: Seq<u8>,
    chunk: int,
)
    requires
        payload.wf(),
        spec_packs(payload, expanded),
        0 < chunk,
    ensures
        payload.content() == expanded,
        spec_read_to_end(Source::Blocked(payload), 0, chunk) == expanded,
        forall|pos: int|
            0 <= pos <= expanded.len() ==> (#[trigger] Source::Blocked(payload).read_error(
                pos,
                chunk,
            )) is None,
{
    lemma_packed_blocks_hold(payload, expanded);
    lemma_blocks_make_content(payload, expanded);
    lemma_blocks_read_back(payload, expanded, 0, chunk);
    assert(expanded.subrange(0, expanded.len() as int) =~= expanded);
    assert forall|pos: int| 0 <= pos <= expanded.len() implies (#[trigger] Source::Blocked(
        payload,
    ).read_error(pos, chunk)) is None by {
        lemma_blocks_read_back(payload, expanded, pos, chunk);
    }
}

/// What a view of a file is a view of, by the first four bytes at the
/// file's offset: a blocked payload where they spell "ZLIB", with the size
/// that its header declares; else the stored bytes, with the size that the
/// file's row declares.
pub proof fn lemma_source_size(data: Seq<u8>, entry: FileTableEntry)
    ensures
        match spec_source(data, entry) {
            Ok(Source::Plain { content, size }) => {
                &&& !spec_is_zlib_magic(data.subrange(entry.offset as int, entry.offset + 4))
                &&& content == spec_payload(data, entry.offset as int, entry.size as int)
                &&& size == entry.size
            },
            Ok(Source::Blocked(payload)) => {
                &&& spec_is_zlib_magic(data.subrange(entry.offset as int, entry.offset + 4))
                &&& payload.packed == spec_payload(data, entry.offset as int, entry.size as int)
                &&& payload.packed.len() >= ZLIB_BLOCKTBL_OFFSET
                &&& payload.size == spec_u32_at(payload.packed, 4)
                &&& payload.blocksize == spec_u32_at(payload.packed, 8)
                &&& payload.wf()
            },
            Err(_) => true,
        },
        spec_source(data, entry) matches Ok(source) ==> source.wf(),
{
    let base = entry.offset as int;
    let stored = spec_payload(data, base, entry.size as int);
    if spec_source(data, entry) is Ok && spec_is_zlib_magic(data.subrange(base, base + 4)) {
        let header = stored.subrange(0, ZLIB_BLOCKTBL_OFFSET as int);
        assert(header.subrange(4, 8) =~= stored.subrange(4, 8));
        assert(header.subrange(8, 12) =~= stored.subrange(8, 12));
    }
}

/// A file whose stored bytes lie wholly within the archive, and do not
/// begin with "ZLIB", is read back as those bytes.
pub proof fn lemma_stored_file_reads_back(data: Seq<u8>, entry: FileTableEntry, chunk: int)
    requires
        entry.offset + 4 <= data.len(),
        entry.offset + entry.size <= data.len(),
        !spec_is_zlib_magic(data.subrange(entry.offset as int, entry.offset + 4)),
        0 < chunk,
    ensures
        spec_source(data, entry) matches Ok(source) && source.size() == entry.size
            && spec_read_to_end(source, 0, chunk) == data.subrange(
            entry.offset as int,
            entry.offset + entry.size,
        ),
{
    let stored = data.subrange(entry.offset as int, entry.offset + entry.size);
    lemma_stored_bytes_read_back(stored, 0, chunk);
    assert(stored.subrange(0, stored.len() as int) =~= stored);
}

/// A blocked payload of expanded size zero has no blocks, though it has its
/// header.
pub proof fn lemma_empty_payload_has_no_blocks(payload: BlockedPayload)
    requires
        payload.wf(),
        payload.size == 0,
    ensures
        payload.block_count() == 0,
        payload.content() == Seq::<u8>::empty(),
{
    assert(payload.content() =~= Seq::<u8>::empty());
}

/// A view never keeps more than [`ZLIB_MAX_CACHE_ENTRIES`] unpacked blocks.
pub proof fn lemma_cache_is_bounded(view: FileData)
    requires
        view.wf(),
    ensures
        view.cached_blocks().finite(),
        view.cached_blocks().len() <= ZLIB_MAX_CACHE_ENTRIES,
{
}

} // verus!
