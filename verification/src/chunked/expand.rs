//! Match expansion: from a match vector to the blocks that rebuild the
//! needle, each byte of it in exactly one block.

use vstd::prelude::*;
use crate::chunked::block::{Block, BlockType};
use crate::chunked::matching::{CHUNK_SIZE, chunk_at, chunk_end, matches_sound, occurs_at};

verus! {

/// Whether chunk `c` was found right behind chunk `c - 1` in the haystack.
pub open spec fn continues(m: Seq<usize>, c: int) -> bool {
    m[c] == m[c - 1] + CHUNK_SIZE
}

/// The end of the run that reaches up to chunk `c`: the first chunk from
/// `c` on that does not continue the chunk before it.
pub open spec fn run_end(m: Seq<usize>, c: int) -> int
    decreases m.len() - c,
{
    if 1 <= c < m.len() && continues(m, c) {
        run_end(m, c + 1)
    } else {
        c
    }
}

/// The block that the run of chunks from `c` up to `end` proposes before it
/// is grown: the chunks' span of a needle of `n` bytes, found in the
/// haystack where the first of them was found.
pub open spec fn candidate(n: nat, m: Seq<usize>, c: int, end: int) -> Block {
    Block {
        block_type: BlockType::Delta,
        needle_off: (c * CHUNK_SIZE) as usize,
        offset: (m[c] - 1) as usize,
        len: (chunk_end(n, end - 1) - c * CHUNK_SIZE) as usize,
    }
}

/// The literal block that fills the needle from `from` up to `to`, if
/// there is anything to fill.
pub open spec fn gap(from: int, to: int) -> Seq<Block> {
    if from < to {
        seq![
            Block {
                block_type: BlockType::Original,
                needle_off: from as usize,
                offset: 0,
                len: (to - from) as usize,
            },
        ]
    } else {
        Seq::empty()
    }
}

/// A run ends behind where it is entered and within the vector, every
/// chunk in between continues the one before it, and the chunk at the end
/// does not.
pub proof fn lemma_run_end(m: Seq<usize>, c: int)
    requires
        1 <= c <= m.len(),
    ensures
        c <= run_end(m, c) <= m.len(),
        forall|k: int| c <= k < run_end(m, c) ==> continues(m, k),
        run_end(m, c) < m.len() ==> !continues(m, run_end(m, c)),
    decreases m.len() - c,
{
    if c < m.len() && continues(m, c) {
        lemma_run_end(m, c + 1);
    }
}

/// Within a run each chunk was found `CHUNK_SIZE` bytes behind the one before.
pub proof fn lemma_run_offsets(m: Seq<usize>, c: int, k: int)
    requires
        0 <= c <= k < run_end(m, c + 1),
        c < m.len(),
    ensures
        m[k] == m[c] + CHUNK_SIZE * (k - c),
    decreases k - c,
{
    lemma_run_end(m, c + 1);
    if k > c {
        lemma_run_offsets(m, c, k - 1);
        assert(continues(m, k));
    }
}

/// The blocks for the chunks from `c` on, when those before `c` have
/// already covered the needle up to `covered`.
///
/// A chunk that was not found contributes nothing of its own. A chunk that
/// was found opens a run; the run's block is grown as far as needle and
/// haystack agree, then loses what earlier blocks already cover, and is
/// dropped if nothing is left. Literal blocks fill what lies between.
pub open spec fn blocks_from(needle: Seq<u8>, hay: Seq<u8>, m: Seq<usize>, c: int, covered: int)
    -> Seq<Block>
    decreases m.len() - c,
{
    if c < 0 || c >= m.len() {
        gap(covered, needle.len() as int)
    } else if m[c] == 0 {
        blocks_from(needle, hay, m, c + 1, covered)
    } else {
        let end = run_end(m, c + 1);
        let block = candidate(needle.len(), m, c, end).fitted(needle, hay).trimmed(covered);
        proof {
            lemma_run_end(m, c + 1);
        }
        if block.len == 0 {
            blocks_from(needle, hay, m, end, covered)
        } else {
            gap(covered, block.needle_off as int) + seq![block] + blocks_from(
                needle,
                hay,
                m,
                end,
                block.needle_end(),
            )
        }
    }
}

/// The blocks that the match vector `m` of `needle` against `hay` expands to.
pub open spec fn blocks_of(needle: Seq<u8>, hay: Seq<u8>, m: Seq<usize>) -> Seq<Block> {
    blocks_from(needle, hay, m, 0, 0)
}

/// Whether the spans of `blocks`, in order, lie end to end from `from` up
/// to `to`, none of them empty.
pub open spec fn tiles(blocks: Seq<Block>, from: int, to: int) -> bool
    decreases blocks.len(),
{
    if blocks.len() == 0 {
        from == to
    } else {
        &&& blocks[0].needle_off == from
        &&& blocks[0].len > 0
        &&& tiles(blocks.skip(1), blocks[0].needle_end(), to)
    }
}

/// Whether `blocks` partition a needle of `n` bytes.
pub open spec fn is_partition(blocks: Seq<Block>, n: nat) -> bool {
    tiles(blocks, 0, n as int)
}

/// Whether every block of `blocks` is valid for `needle` and `hay`.
pub open spec fn all_valid(blocks: Seq<Block>, needle: Seq<u8>, hay: Seq<u8>) -> bool {
    forall|i: int| 0 <= i < blocks.len() ==> (#[trigger] blocks[i]).valid(needle, hay)
}

/// The block that a run proposes is a valid one: the run's chunks stand in
/// the haystack one behind the other, from where the first was found.
pub proof fn lemma_candidate_valid(needle: Seq<u8>, hay: Seq<u8>, m: Seq<usize>, c: int)
    requires
        matches_sound(needle, hay, m),
        0 <= c < m.len(),
        m[c] != 0,
        needle.len() <= usize::MAX,
        hay.len() <= usize::MAX,
    ensures
        c < run_end(m, c + 1) <= m.len(),
        candidate(needle.len(), m, c, run_end(m, c + 1)).valid(needle, hay),
        candidate(needle.len(), m, c, run_end(m, c + 1)).needle_off == c * CHUNK_SIZE,
        candidate(needle.len(), m, c, run_end(m, c + 1)).needle_end() == chunk_end(
            needle.len(),
            run_end(m, c + 1) - 1,
        ),
{
    let n = needle.len();
    let end = run_end(m, c + 1);
    lemma_run_end(m, c + 1);
    let b = candidate(n, m, c, end);
    let last = end - 1;
    lemma_run_offsets(m, c, last);
    assert(m[last] != 0);
    assert(occurs_at(hay, chunk_at(needle, last), m[last] - 1));
    assert(b.needle_off == c * CHUNK_SIZE);
    assert(b.offset == m[c] - 1);
    assert(b.len == chunk_end(n, last) - c * CHUNK_SIZE);
    let x = b.bytes(needle);
    let y = b.source(needle, hay);
    assert forall|t: int| 0 <= t < b.len implies x[t] == y[t] by {
        let k = c + t / (CHUNK_SIZE as int);
        let r = t % (CHUNK_SIZE as int);
        lemma_run_offsets(m, c, k);
        assert(m[k] != 0);
        assert(occurs_at(hay, chunk_at(needle, k), m[k] - 1));
        let chunk = chunk_at(needle, k);
        let window = hay.subrange(m[k] - 1, m[k] - 1 + chunk.len());
        assert(chunk[r] == window[r]);
    }
    assert(x =~= y);
}

/// From any chunk on, and whatever is covered so far, the blocks lie end
/// to end from there to the needle's end, and each of them is valid.
pub proof fn lemma_blocks_from(needle: Seq<u8>, hay: Seq<u8>, m: Seq<usize>, c: int, covered: int)
    requires
        matches_sound(needle, hay, m),
        0 <= c <= m.len(),
        0 <= covered <= needle.len(),
        needle.len() <= usize::MAX,
        hay.len() <= usize::MAX,
    ensures
        tiles(blocks_from(needle, hay, m, c, covered), covered, needle.len() as int),
        all_valid(blocks_from(needle, hay, m, c, covered), needle, hay),
    decreases m.len() - c,
{
    let n = needle.len() as int;
    let out = blocks_from(needle, hay, m, c, covered);
    if c >= m.len() {
        lemma_gap(covered, n, needle, hay);
    } else if m[c] == 0 {
        lemma_blocks_from(needle, hay, m, c + 1, covered);
    } else {
        let end = run_end(m, c + 1);
        let cand = candidate(needle.len(), m, c, end);
        lemma_candidate_valid(needle, hay, m, c);
        cand.lemma_fitted_valid(needle, hay);
        let grown = cand.fitted(needle, hay);
        grown.lemma_trimmed_valid(covered, needle, hay);
        let block = grown.trimmed(covered);
        if block.len == 0 {
            lemma_blocks_from(needle, hay, m, end, covered);
        } else {
            let head = gap(covered, block.needle_off as int);
            let rest = blocks_from(needle, hay, m, end, block.needle_end());
            lemma_blocks_from(needle, hay, m, end, block.needle_end());
            lemma_gap(covered, block.needle_off as int, needle, hay);
            let tail = seq![block] + rest;
            assert(tail.skip(1) =~= rest);
            assert(tiles(tail, block.needle_off as int, n));
            lemma_tiles_join(head, tail, covered, block.needle_off as int, n);
            assert(out =~= head + tail);
            assert forall|i: int| 0 <= i < out.len() implies (#[trigger] out[i]).valid(
                needle,
                hay,
            ) by {
                if i < head.len() {
                    assert(out[i] == head[i]);
                } else if i == head.len() {
                    assert(out[i] == block);
                } else {
                    assert(out[i] == rest[i - head.len() - 1]);
                }
            }
        }
    }
}

/// A gap is tiled by its literal block, which is valid where the gap lies
/// in the needle.
pub proof fn lemma_gap(from: int, to: int, needle: Seq<u8>, hay: Seq<u8>)
    requires
        0 <= from <= to <= needle.len() <= usize::MAX,
    ensures
        tiles(gap(from, to), from, to),
        all_valid(gap(from, to), needle, hay),
{
    if from < to {
        let g = gap(from, to);
        assert(g[0].needle_off == from && g[0].needle_end() == to);
        assert(g.skip(1) =~= Seq::<Block>::empty());
        assert(tiles(g.skip(1), to, to));
    }
}

/// Each of the blocks that lie end to end is not empty and lies between
/// the two ends.
pub proof fn lemma_tiles_each(blocks: Seq<Block>, from: int, to: int, i: int)
    requires
        tiles(blocks, from, to),
        0 <= i < blocks.len(),
    ensures
        blocks[i].len > 0,
        from <= blocks[i].needle_off,
        blocks[i].needle_end() <= to,
    decreases i,
{
    lemma_tiles_ends(blocks.skip(1), blocks[0].needle_end(), to);
    if i > 0 {
        lemma_tiles_each(blocks.skip(1), blocks[0].needle_end(), to, i - 1);
        assert(blocks.skip(1)[i - 1] == blocks[i]);
    }
}

/// Blocks that lie end to end from `from` up to `to` end no earlier than
/// they start.
pub proof fn lemma_tiles_ends(blocks: Seq<Block>, from: int, to: int)
    requires
        tiles(blocks, from, to),
    ensures
        from <= to,
        blocks.len() > 0 ==> from < to,
    decreases blocks.len(),
{
    if blocks.len() > 0 {
        lemma_tiles_ends(blocks.skip(1), blocks[0].needle_end(), to);
    }
}

/// Of blocks that lie end to end, an earlier one ends where a later one
/// starts, or before.
pub proof fn lemma_tiles_ordered(blocks: Seq<Block>, from: int, to: int, i: int, j: int)
    requires
        tiles(blocks, from, to),
        0 <= i < j < blocks.len(),
    ensures
        blocks[i].needle_end() <= blocks[j].needle_off,
    decreases i,
{
    let others = blocks.skip(1);
    assert(others[j - 1] == blocks[j]);
    if i == 0 {
        lemma_tiles_each(others, blocks[0].needle_end(), to, j - 1);
    } else {
        assert(others[i - 1] == blocks[i]);
        lemma_tiles_ordered(others, blocks[0].needle_end(), to, i - 1, j - 1);
    }
}

/// Whether the byte at `x` of the needle lies in the span of one of `blocks`.
pub open spec fn covered_by(blocks: Seq<Block>, x: int) -> bool {
    exists|i: int|
        0 <= i < blocks.len() && (#[trigger] blocks[i]).needle_off <= x < blocks[i].needle_end()
}

/// Blocks that lie end to end from `from` up to `to` cover every byte in
/// between.
pub proof fn lemma_tiles_cover(blocks: Seq<Block>, from: int, to: int, x: int)
    requires
        tiles(blocks, from, to),
        from <= x < to,
    ensures
        covered_by(blocks, x),
    decreases blocks.len(),
{
    if x < blocks[0].needle_end() {
        assert(blocks[0].needle_off <= x < blocks[0].needle_end());
    } else {
        let others = blocks.skip(1);
        lemma_tiles_cover(others, blocks[0].needle_end(), to, x);
        let i = choose|i: int|
            0 <= i < others.len() && (#[trigger] others[i]).needle_off <= x < others[i].needle_end();
        assert(others[i] == blocks[i + 1]);
    }
}

/// The partition invariant: the spans of a partition of a needle of `n`
/// bytes lie within it, none of them is empty, they come in ascending
/// order without overlap, and every byte of the needle lies in one of them.
pub proof fn lemma_partition(blocks: Seq<Block>, n: nat)
    requires
        is_partition(blocks, n),
    ensures
        forall|i: int|
            0 <= i < blocks.len() ==> (#[trigger] blocks[i]).len > 0 && blocks[i].needle_end() <= n,
        forall|i: int, j: int|
            0 <= i < j < blocks.len() ==> (#[trigger] blocks[i]).needle_end() <= (
            #[trigger] blocks[j]).needle_off,
        forall|x: int| 0 <= x < n ==> #[trigger] covered_by(blocks, x),
{
    assert forall|i: int| 0 <= i < blocks.len() implies (#[trigger] blocks[i]).len > 0
        && blocks[i].needle_end() <= n by {
        lemma_tiles_each(blocks, 0, n as int, i);
    }
    assert forall|i: int, j: int| 0 <= i < j < blocks.len() implies (
    #[trigger] blocks[i]).needle_end() <= (#[trigger] blocks[j]).needle_off by {
        lemma_tiles_ordered(blocks, 0, n as int, i, j);
    }
    assert forall|x: int| 0 <= x < n implies #[trigger] covered_by(blocks, x) by {
        lemma_tiles_cover(blocks, 0, n as int, x);
    }
}

/// What a sound match vector expands to is a partition of the needle into
/// valid blocks.
pub proof fn lemma_blocks_of(needle: Seq<u8>, hay: Seq<u8>, m: Seq<usize>)
    requires
        matches_sound(needle, hay, m),
        needle.len() <= usize::MAX,
        hay.len() <= usize::MAX,
    ensures
        is_partition(blocks_of(needle, hay, m), needle.len()),
        all_valid(blocks_of(needle, hay, m), needle, hay),
{
    lemma_blocks_from(needle, hay, m, 0, 0);
}

/// Blocks that tile up to a point, followed by blocks that tile from it,
/// tile the whole.
pub proof fn lemma_tiles_join(a: Seq<Block>, b: Seq<Block>, from: int, mid: int, to: int)
    requires
        tiles(a, from, mid),
        tiles(b, mid, to),
    ensures
        tiles(a + b, from, to),
    decreases a.len(),
{
    if a.len() == 0 {
        assert(a + b =~= b);
    } else {
        lemma_tiles_join(a.skip(1), b, a[0].needle_end(), mid, to);
        assert((a + b).skip(1) =~= a.skip(1) + b);
    }
}

/// Expands the match vector `result` of `needle` against `haystack` into
/// blocks, in the order of the needle.
///
/// Each run of chunks that were found one behind the other in the haystack
/// becomes a `Delta` block, grown byte by byte beyond the run's ends and cut
/// back where it would reach into the block before it. `Original` blocks
/// fill what the `Delta` blocks leave. No block is empty. An empty needle
/// gives no block.
pub fn expand_blocks(needle: &[u8], haystack: &Vec<u8>, result: &Vec<usize>) -> (blocks: Vec<Block>)
    requires
        matches_sound(needle@, haystack@, result@),
    ensures
        blocks@ == blocks_of(needle@, haystack@, result@),
        is_partition(blocks@, needle@.len()),
        all_valid(blocks@, needle@, haystack@),
{
    let n: usize = needle.len();
    let count: usize = result.len();
    assert(haystack@.len() == haystack.len());
    let ghost m = result@;
    let ghost all = blocks_of(needle@, haystack@, m);
    let mut blocks: Vec<Block> = Vec::new();
    let mut covered: usize = 0;
    let mut ri: usize = 0;
    while ri < count
        invariant
            matches_sound(needle@, haystack@, m),
            m == result@,
            n == needle@.len(),
            haystack@.len() <= usize::MAX,
            count == m.len(),
            ri <= count,
            covered <= n,
            all == blocks@ + blocks_from(needle@, haystack@, m, ri as int, covered as int),
        decreases count - ri,
    {
        if result[ri] == 0 {
            ri = ri + 1;
        } else {
            let start: usize = ri;
            ri = ri + 1;
            while ri < count && result[ri] >= CHUNK_SIZE && result[ri] - CHUNK_SIZE == result[ri
                - 1]
                invariant
                    m == result@,
                    count == m.len(),
                    start < ri <= count,
                    run_end(m, start + 1) == run_end(m, ri as int),
                decreases count - ri,
            {
                assert(continues(m, ri as int));
                ri = ri + 1;
            }
            assert(ri < count ==> !continues(m, ri as int));
            let end_off: usize = if ri == count { n } else { ri * CHUNK_SIZE };
            let mut block = Block {
                block_type: BlockType::Delta,
                needle_off: start * CHUNK_SIZE,
                offset: result[start] - 1,
                len: end_off - start * CHUNK_SIZE,
            };
            let ghost cand = candidate(n as nat, m, start as int, ri as int);
            let ghost grown = cand.fitted(needle@, haystack@);
            let ghost before = blocks@;
            proof {
                lemma_candidate_valid(needle@, haystack@, m, start as int);
                assert(block == cand);
                cand.lemma_fitted_valid(needle@, haystack@);
                grown.lemma_trimmed_valid(covered as int, needle@, haystack@);
            }
            block.fit(needle, haystack);
            block.trim_front(covered);
            if block.len != 0 {
                if covered < block.needle_off {
                    blocks.push(
                        Block {
                            block_type: BlockType::Original,
                            needle_off: covered,
                            offset: 0,
                            len: block.needle_off - covered,
                        },
                    );
                }
                blocks.push(block);
                proof {
                    let rest = blocks_from(
                        needle@,
                        haystack@,
                        m,
                        ri as int,
                        block.needle_end(),
                    );
                    assert(blocks@ =~= before + gap(covered as int, block.needle_off as int)
                        + seq![block]);
                    assert(all =~= blocks@ + rest);
                }
                covered = block.needle_off + block.len;
            }
        }
    }
    let ghost before = blocks@;
    if covered < n {
        blocks.push(
            Block { block_type: BlockType::Original, needle_off: covered, offset: 0, len: n - covered },
        );
    }
    proof {
        assert(blocks@ =~= before + gap(covered as int, n as int));
        lemma_blocks_from(needle@, haystack@, m, 0, 0);
    }
    blocks
}

} // verus!
