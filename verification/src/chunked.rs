//! The chunked compressor: a record is matched chunk by chunk against the
//! cached records, the matches are grown into blocks, and the blocks are
//! written as a frame.

pub mod block;
pub mod expand;
pub mod frame;
pub mod matching;
pub mod select;

use vstd::prelude::*;
use crate::cache::RecordCache;
use crate::compressor::Compressor;
use crate::error::DecodeError;

pub use crate::chunked::block::{Block, BlockType};
pub use crate::chunked::expand::expand_blocks;
pub use crate::chunked::matching::{CHUNK_SIZE, chunk_match};

use crate::chunked::expand::lemma_tiles_each;
use crate::chunked::frame::{
    chosen_index, decode_blocks_into, decode_frame, encode_blocks, frame_of, lemma_round_trip,
};
use crate::chunked::select::select_haystack;

verus! {

/// The compressor that matches a record against the cache in chunks of
/// `CHUNK_SIZE` bytes.
#[derive(Debug, Clone, Copy)]
pub struct ChunkedCompressor {}

impl Compressor for ChunkedCompressor {
    open spec fn frame(&self, needle: Seq<u8>, cache: Seq<Seq<u8>>) -> Seq<u8> {
        frame_of(needle, cache)
    }

    open spec fn chosen(&self, needle: Seq<u8>, cache: Seq<Seq<u8>>) -> int {
        chosen_index(needle, cache)
    }

    open spec fn parse(&self, frame: Seq<u8>, cache: Seq<Seq<u8>>) -> Result<
        (Seq<u8>, int),
        DecodeError,
    > {
        decode_frame(frame, cache)
    }

    proof fn lemma_round_trip(&self, needle: Seq<u8>, cache: Seq<Seq<u8>>)
        ensures
            decode_frame(frame_of(needle, cache), cache) == Ok::<(Seq<u8>, int), DecodeError>(
                (needle, chosen_index(needle, cache)),
            ),
    {
        lemma_round_trip(needle, cache);
    }

    /// Appends the frame of `needle` against `cache` to `out_buf`, and
    /// returns the index of the cached record that the frame refers to
    /// (0 where the cache is empty).
    fn compress(&self, needle: &[u8], out_buf: &mut Vec<u8>, cache: &RecordCache) -> (index:
        usize)
        ensures
            final(out_buf)@ == old(out_buf)@ + frame_of(needle@, cache@),
            index == chosen_index(needle@, cache@),
    {
        if cache.len() == 0 {
            out_buf.push(0u8);
            let whole = Block {
                block_type: BlockType::Original,
                needle_off: 0,
                offset: 0,
                len: needle.len(),
            };
            whole.encode(needle, out_buf);
            assert(out_buf@ =~= old(out_buf)@ + frame_of(needle@, cache@));
            return 0;
        }
        let (best, blocks) = select_haystack(needle, cache);
        proof {
            let hay = cache@[best as int];
            cache.lemma_records_fit();
            assert forall|i: int| 0 <= i < blocks@.len() implies (#[trigger] blocks@[i]).encodable(
                needle@,
            ) by {
                lemma_tiles_each(blocks@, 0, needle@.len() as int, i);
                assert(blocks@[i].valid(needle@, hay));
            }
        }
        out_buf.push(best as u8);
        encode_blocks(&blocks, needle, out_buf);
        assert(out_buf@ =~= old(out_buf)@ + frame_of(needle@, cache@));
        best
    }

    /// Decodes the frame `buf` against `cache` and appends the record to
    /// `out_buf`. Returns the index of the cached record that the frame was
    /// decoded against (0 where the cache is empty). A frame that does not
    /// decode leaves `out_buf` as it was.
    fn decompress(&self, buf: &[u8], out_buf: &mut Vec<u8>, cache: &RecordCache) -> (r: Result<
        usize,
        DecodeError,
    >)
        ensures
            match decode_frame(buf@, cache@) {
                Ok((record, index)) => r == Ok::<usize, DecodeError>(index as usize)
                    && final(out_buf)@ == old(out_buf)@ + record,
                Err(e) => r == Err::<usize, DecodeError>(e) && final(out_buf)@ == old(out_buf)@,
            },
    {
        if buf.len() == 0 {
            return Err(DecodeError::FrameTooShort);
        }
        let hi: usize = buf[0] as usize;
        if cache.len() == 0 {
            return match decode_blocks_into(buf, 1, None, out_buf) {
                Ok(()) => Ok(0),
                Err(e) => Err(e),
            };
        }
        if hi >= cache.len() {
            return Err(DecodeError::HaystackIndexOutOfRange);
        }
        match decode_blocks_into(buf, 1, Some(cache.get(hi)), out_buf) {
            Ok(()) => Ok(hi),
            Err(e) => Err(e),
        }
    }
}

} // verus!
