//! Frames: the bytes that stand for one record, and what they decode to.

use vstd::prelude::*;
use crate::compressor::representable;
use crate::chunked::block::{Block, BlockType, append_range};
use crate::chunked::matching::{lemma_match_vector_sound, match_vector};
use crate::chunked::expand::{all_valid, lemma_blocks_of, tiles};
use crate::chunked::select::{best_index, blocks_against, lemma_best_index};
use crate::error::DecodeError;
use crate::varint::{
    Uvarint, lemma_parse_bounds, lemma_parse_of_bytes, lemma_uvarint_spec, uvarint, varint_bytes,
    varint_parse,
};

verus! {

/// The encodings of `blocks`, one after the other.
pub open spec fn blocks_encoding(blocks: Seq<Block>, needle: Seq<u8>) -> Seq<u8>
    decreases blocks.len(),
{
    if blocks.len() == 0 {
        Seq::empty()
    } else {
        blocks[0].encoding(needle) + blocks_encoding(blocks.skip(1), needle)
    }
}

/// The one literal block that spans a needle of `n` bytes.
pub open spec fn whole(n: nat) -> Block {
    Block { block_type: BlockType::Original, needle_off: 0, offset: 0, len: n as usize }
}

/// The index that the frame of `needle` names: 0 for an empty cache, else
/// that of the record chosen.
pub open spec fn chosen_index(needle: Seq<u8>, cache: Seq<Seq<u8>>) -> int {
    if cache.len() == 0 {
        0
    } else {
        best_index(needle, cache)
    }
}

/// The frame of `needle` against `cache`: the index byte, then the blocks.
/// Against an empty cache the index is 0 and one literal block holds the
/// whole needle, even an empty one.
pub open spec fn frame_of(needle: Seq<u8>, cache: Seq<Seq<u8>>) -> Seq<u8> {
    if cache.len() == 0 {
        seq![0u8] + whole(needle.len()).encoding(needle)
    } else {
        let h = best_index(needle, cache);
        seq![h as u8] + blocks_encoding(blocks_against(needle, cache[h]), needle)
    }
}

/// `head` before what `rest` decoded to, or the error of `rest`.
pub open spec fn prepend(head: Seq<u8>, rest: Result<Seq<u8>, DecodeError>) -> Result<
    Seq<u8>,
    DecodeError,
> {
    match rest {
        Ok(tail) => Ok(head + tail),
        Err(e) => Err(e),
    }
}

/// The first block in `rest`, read against the haystack `hay` if there is
/// one: the bytes it stands for, and how many bytes of `rest` it takes.
///
/// A block starts with a varint. Where that is 0, a length follows and
/// then as many literal bytes. Otherwise it is a haystack offset plus one,
/// a length follows, and the bytes are those of the haystack. A block that
/// asks for more bytes than the frame or the haystack has left is refused,
/// and so is an offset plus one of `2^64` or more, which no haystack reaches.
pub open spec fn decode_block(rest: Seq<u8>, hay: Option<Seq<u8>>) -> Result<
    (Seq<u8>, nat),
    DecodeError,
> {
    match varint_parse(rest) {
        None => Err(DecodeError::TruncatedVarint),
        Some((tag, n1)) => if tag != 0 && hay is None {
            Err(DecodeError::HaystackIndexOutOfRange)
        } else {
            match varint_parse(rest.skip(n1 as int)) {
                None => Err(DecodeError::TruncatedVarint),
                Some((len, n2)) => {
                    let body = rest.skip((n1 + n2) as int);
                    if tag == 0 {
                        if len > body.len() {
                            Err(DecodeError::FrameTooShort)
                        } else {
                            Ok((body.take(len as int), n1 + n2 + len))
                        }
                    } else {
                        let h = hay->Some_0;
                        if tag > u64::MAX || tag - 1 + len > h.len() {
                            Err(DecodeError::FrameTooShort)
                        } else {
                            Ok((h.subrange(tag - 1, tag - 1 + len), n1 + n2))
                        }
                    }
                },
            }
        },
    }
}

/// A block takes at least two bytes and no more than there are.
pub proof fn lemma_decode_block_bounds(rest: Seq<u8>, hay: Option<Seq<u8>>)
    ensures
        match decode_block(rest, hay) {
            Ok((_, used)) => 2 <= used <= rest.len(),
            Err(_) => true,
        },
{
    lemma_parse_bounds(rest);
    match varint_parse(rest) {
        None => {},
        Some((_, n1)) => {
            lemma_parse_bounds(rest.skip(n1 as int));
        },
    }
}

/// What the blocks in `rest` decode to: the bytes of each, one after the
/// other, up to the end of `rest`. The first block that fails decides the
/// error.
pub open spec fn decode_blocks(rest: Seq<u8>, hay: Option<Seq<u8>>) -> Result<Seq<u8>, DecodeError>
    decreases rest.len(),
{
    if rest.len() == 0 {
        Ok(Seq::empty())
    } else {
        match decode_block(rest, hay) {
            Err(e) => Err(e),
            Ok((piece, used)) => {
                proof {
                    lemma_decode_block_bounds(rest, hay);
                }
                prepend(piece, decode_blocks(rest.skip(used as int), hay))
            },
        }
    }
}

/// What `frame` decodes to against `cache`: the record and the index of
/// the cached record it was rebuilt from (0 for an empty cache, whose
/// frames carry literal blocks only and whose index byte is not looked at).
pub open spec fn decode_frame(frame: Seq<u8>, cache: Seq<Seq<u8>>) -> Result<
    (Seq<u8>, int),
    DecodeError,
> {
    if frame.len() == 0 {
        Err(DecodeError::FrameTooShort)
    } else if cache.len() == 0 {
        match decode_blocks(frame.skip(1), None) {
            Ok(record) => Ok((record, 0int)),
            Err(e) => Err(e),
        }
    } else if frame[0] >= cache.len() {
        Err(DecodeError::HaystackIndexOutOfRange)
    } else {
        match decode_blocks(frame.skip(1), Some(cache[frame[0] as int])) {
            Ok(record) => Ok((record, frame[0] as int)),
            Err(e) => Err(e),
        }
    }
}

/// One encoded block decodes to the bytes it spans and takes as many
/// bytes as its encoding has, whatever follows it.
pub proof fn lemma_decode_block(block: Block, needle: Seq<u8>, hay: Option<Seq<u8>>, tail: Seq<u8>)
    requires
        block.block_type is Delta ==> hay is Some,
        block.valid(needle, if hay is Some { hay->Some_0 } else { Seq::empty() }),
        block.encodable(needle),
    ensures
        decode_block(block.encoding(needle) + tail, hay) == Ok::<(Seq<u8>, nat), DecodeError>(
            (block.bytes(needle), block.encoding(needle).len()),
        ),
        decode_blocks(block.encoding(needle) + tail, hay) == prepend(
            block.bytes(needle),
            decode_blocks(tail, hay),
        ),
{
    let rest = block.encoding(needle) + tail;
    let length = varint_bytes(block.len as nat);
    match block.block_type {
        BlockType::Original => {
            let bytes = block.bytes(needle);
            assert(rest[0] == 0u8);
            assert(varint_parse(rest) == Some((0nat, 1nat)));
            assert(rest.skip(1) =~= length + (bytes + tail));
            lemma_parse_of_bytes(block.len as nat, bytes + tail);
            let body = rest.skip((1 + length.len()) as int);
            assert(body =~= bytes + tail);
            assert(body.take(block.len as int) =~= bytes);
        },
        BlockType::Delta => {
            let tag = varint_bytes((block.offset + 1) as nat);
            assert(rest =~= tag + (length + tail));
            lemma_parse_of_bytes((block.offset + 1) as nat, length + tail);
            assert(rest.skip(tag.len() as int) =~= length + tail);
            lemma_parse_of_bytes(block.len as nat, tail);
        },
    }
    assert(rest.skip(block.encoding(needle).len() as int) =~= tail);
}

/// Encoded blocks that lie end to end and are valid decode to the bytes of
/// the needle that they span.
pub proof fn lemma_decode_blocks(
    blocks: Seq<Block>,
    needle: Seq<u8>,
    hay: Seq<u8>,
    from: int,
    to: int,
)
    requires
        0 <= from <= needle.len(),
        hay.len() <= usize::MAX,
        tiles(blocks, from, to),
        all_valid(blocks, needle, hay),
    ensures
        from <= to <= needle.len(),
        decode_blocks(blocks_encoding(blocks, needle), Some(hay)) == Ok::<Seq<u8>, DecodeError>(
            needle.subrange(from, to),
        ),
    decreases blocks.len(),
{
    if blocks.len() == 0 {
        assert(needle.subrange(from, to) =~= Seq::<u8>::empty());
    } else {
        let first = blocks[0];
        let others = blocks.skip(1);
        assert(first.valid(needle, hay));
        assert forall|i: int| 0 <= i < others.len() implies (#[trigger] others[i]).valid(
            needle,
            hay,
        ) by {
            assert(others[i] == blocks[i + 1]);
        }
        lemma_decode_blocks(others, needle, hay, first.needle_end(), to);
        lemma_decode_block(first, needle, Some(hay), blocks_encoding(others, needle));
        assert(first.bytes(needle) + needle.subrange(first.needle_end(), to) =~= needle.subrange(
            from,
            to,
        ));
    }
}

/// Round trip: the frame of a record against a cache decodes, against the
/// same cache, to that record and to the index that the frame names.
pub proof fn lemma_round_trip(needle: Seq<u8>, cache: Seq<Seq<u8>>)
    requires
        representable(needle, cache),
    ensures
        decode_frame(frame_of(needle, cache), cache) == Ok::<(Seq<u8>, int), DecodeError>(
            (needle, chosen_index(needle, cache)),
        ),
{
    let frame = frame_of(needle, cache);
    if cache.len() == 0 {
        lemma_empty_cache(needle);
    } else {
        let h = best_index(needle, cache);
        lemma_best_index(needle, cache);
        let hay = cache[h];
        let blocks = blocks_against(needle, hay);
        lemma_match_vector_sound(needle, hay);
        lemma_blocks_of(needle, hay, match_vector(needle, hay));
        lemma_decode_blocks(blocks, needle, hay, 0, needle.len() as int);
        assert(frame[0] == h as u8);
        assert(frame.skip(1) =~= blocks_encoding(blocks, needle));
        assert(needle.subrange(0, needle.len() as int) =~= needle);
    }
}

/// The empty-cache path: against an empty cache the frame of any record
/// starts with the index byte 0, and it decodes to that record.
pub proof fn lemma_empty_cache(needle: Seq<u8>)
    requires
        needle.len() <= usize::MAX,
    ensures
        frame_of(needle, Seq::empty())[0] == 0u8,
        decode_frame(frame_of(needle, Seq::empty()), Seq::empty()) == Ok::<
            (Seq<u8>, int),
            DecodeError,
        >((needle, 0int)),
{
    let frame = frame_of(needle, Seq::empty());
    let block = whole(needle.len());
    let tail = Seq::<u8>::empty();
    assert(block.bytes(needle) =~= needle);
    lemma_decode_block(block, needle, None, tail);
    assert(frame.skip(1) =~= block.encoding(needle) + tail);
    assert(needle + tail =~= needle);
}

/// Encoding is a function of the record and the cache: two encodings of
/// one record against one cache give the same frame and the same index,
/// whatever the output buffers held before.
pub proof fn lemma_reencode_identical(
    needle: Seq<u8>,
    cache: Seq<Seq<u8>>,
    before1: Seq<u8>,
    after1: Seq<u8>,
    before2: Seq<u8>,
    after2: Seq<u8>,
)
    requires
        after1 == before1 + frame_of(needle, cache),
        after2 == before2 + frame_of(needle, cache),
    ensures
        after1.skip(before1.len() as int) == after2.skip(before2.len() as int),
        after1.skip(before1.len() as int) == frame_of(needle, cache),
{
    assert(after1.skip(before1.len() as int) =~= frame_of(needle, cache));
    assert(after2.skip(before2.len() as int) =~= frame_of(needle, cache));
}

/// Appends the encodings of `blocks`, in order, to `buf`.
pub fn encode_blocks(blocks: &Vec<Block>, needle: &[u8], buf: &mut Vec<u8>)
    requires
        forall|i: int| 0 <= i < blocks@.len() ==> (#[trigger] blocks@[i]).encodable(needle@),
    ensures
        final(buf)@ == old(buf)@ + blocks_encoding(blocks@, needle@),
{
    let mut i: usize = 0;
    assert(blocks@.skip(0) =~= blocks@);
    while i < blocks.len()
        invariant
            i <= blocks@.len(),
            forall|i: int| 0 <= i < blocks@.len() ==> (#[trigger] blocks@[i]).encodable(needle@),
            old(buf)@ + blocks_encoding(blocks@, needle@) == buf@ + blocks_encoding(
                blocks@.skip(i as int),
                needle@,
            ),
        decreases blocks@.len() - i,
    {
        let ghost before = buf@;
        let ghost rest = blocks@.skip(i as int);
        assert(rest.skip(1) =~= blocks@.skip(i + 1));
        assert(rest[0] == blocks@[i as int]);
        blocks[i].encode(needle, buf);
        assert(buf@ + blocks_encoding(rest.skip(1), needle@) =~= before + blocks_encoding(
            rest,
            needle@,
        ));
        i = i + 1;
    }
    assert(buf@ + Seq::<u8>::empty() =~= buf@);
}

/// The haystack as the specifications see it.
pub open spec fn hay_view(hay: Option<&Vec<u8>>) -> Option<Seq<u8>> {
    match hay {
        Some(h) => Some(h@),
        None => None,
    }
}

/// Decodes the block that starts at `pos` in `buf` and appends the bytes
/// it stands for to `out`. Returns where the next block starts. On an
/// error `out` is left as it was.
pub fn decode_block_at(buf: &[u8], pos: usize, hay: Option<&Vec<u8>>, out: &mut Vec<u8>) -> (r:
    Result<usize, DecodeError>)
    requires
        pos <= buf@.len(),
    ensures
        match decode_block(buf@.skip(pos as int), hay_view(hay)) {
            Ok((piece, used)) => r == Ok::<usize, DecodeError>((pos + used) as usize)
                && pos + used <= buf@.len() && final(out)@ == old(out)@ + piece,
            Err(e) => r == Err::<usize, DecodeError>(e) && final(out)@ == old(out)@,
        },
{
    let end: usize = buf.len();
    let ghost rest = buf@.skip(pos as int);
    proof {
        lemma_uvarint_spec(rest);
        lemma_decode_block_bounds(rest, hay_view(hay));
    }
    let (literal, offset, n1): (bool, Option<u64>, usize) = match uvarint(buf, pos) {
        Uvarint::Truncated => {
            return Err(DecodeError::TruncatedVarint);
        },
        Uvarint::Value { value, len } => {
            if value == 0 {
                (true, None, len)
            } else {
                (false, Some(value - 1), len)
            }
        },
        Uvarint::TooLarge { len } => (false, None, len),
    };
    if !literal && hay.is_none() {
        return Err(DecodeError::HaystackIndexOutOfRange);
    }
    proof {
        assert(rest.skip(n1 as int) =~= buf@.skip(pos + n1));
        lemma_uvarint_spec(rest.skip(n1 as int));
    }
    let (length, n2): (Option<u64>, usize) = match uvarint(buf, pos + n1) {
        Uvarint::Truncated => {
            return Err(DecodeError::TruncatedVarint);
        },
        Uvarint::Value { value, len } => (Some(value), len),
        Uvarint::TooLarge { len } => (None, len),
    };
    let body: usize = pos + n1 + n2;
    proof {
        assert(rest.skip((n1 + n2) as int) =~= buf@.skip(body as int));
    }
    if literal {
        let fits: bool = match length {
            Some(l) => l <= (end - body) as u64,
            None => false,
        };
        if !fits {
            return Err(DecodeError::FrameTooShort);
        }
        let stop: usize = body + length.unwrap() as usize;
        append_range(out, buf, body, stop);
        assert(buf@.skip(body as int).take(stop - body) =~= buf@.subrange(body as int, stop as int));
        Ok(stop)
    } else {
        let h: &Vec<u8> = hay.unwrap();
        let hay_len: u64 = h.len() as u64;
        let fits: bool = match (offset, length) {
            (Some(o), Some(l)) => o <= hay_len && l <= hay_len - o,
            _ => false,
        };
        if !fits {
            return Err(DecodeError::FrameTooShort);
        }
        let from: usize = offset.unwrap() as usize;
        let to: usize = from + length.unwrap() as usize;
        append_range(out, h.as_slice(), from, to);
        Ok(body)
    }
}

/// Decodes the blocks that `buf` holds from `start` on and appends what
/// they decode to to `out`. On an error `out` is left as it was.
pub fn decode_blocks_into(buf: &[u8], start: usize, hay: Option<&Vec<u8>>, out: &mut Vec<u8>) -> (r:
    Result<(), DecodeError>)
    requires
        start <= buf@.len(),
    ensures
        match decode_blocks(buf@.skip(start as int), hay_view(hay)) {
            Ok(record) => r == Ok::<(), DecodeError>(()) && final(out)@ == old(out)@ + record,
            Err(e) => r == Err::<(), DecodeError>(e) && final(out)@ == old(out)@,
        },
{
    let end: usize = buf.len();
    let kept: usize = out.len();
    let ghost hv = hay_view(hay);
    let ghost whole = decode_blocks(buf@.skip(start as int), hv);
    let ghost mut done = Seq::<u8>::empty();
    let mut bi: usize = start;
    assert(out@ =~= old(out)@ + done);
    while bi < end
        invariant
            start <= bi <= end == buf@.len(),
            kept == old(out)@.len(),
            out@ == old(out)@ + done,
            hv == hay_view(hay),
            whole == decode_blocks(buf@.skip(start as int), hv),
            whole == prepend(done, decode_blocks(buf@.skip(bi as int), hv)),
        decreases end - bi,
    {
        let ghost rest = buf@.skip(bi as int);
        let ghost before = out@;
        proof {
            lemma_decode_block_bounds(rest, hv);
        }
        match decode_block_at(buf, bi, hay, out) {
            Err(e) => {
                assert(out@ == before);
                out.truncate(kept);
                assert(out@ =~= old(out)@);
                return Err(e);
            },
            Ok(next) => {
                proof {
                    let piece = decode_block(rest, hv)->Ok_0.0;
                    let used = decode_block(rest, hv)->Ok_0.1;
                    assert(rest.skip(used as int) =~= buf@.skip(next as int));
                    lemma_prepend_twice(done, piece, decode_blocks(buf@.skip(next as int), hv));
                    assert(out@ =~= old(out)@ + (done + piece));
                    done = done + piece;
                }
                bi = next;
            },
        }
    }
    proof {
        assert(buf@.skip(bi as int) =~= Seq::<u8>::empty());
        assert(done + Seq::<u8>::empty() =~= done);
    }
    Ok(())
}

/// Putting two pieces in front, one after the other, is putting their
/// concatenation in front.
pub proof fn lemma_prepend_twice(a: Seq<u8>, b: Seq<u8>, rest: Result<Seq<u8>, DecodeError>)
    ensures
        prepend(a, prepend(b, rest)) == prepend(a + b, rest),
{
    match rest {
        Ok(tail) => {
            assert(a + (b + tail) =~= (a + b) + tail);
        },
        Err(_) => {},
    }
}

} // verus!
