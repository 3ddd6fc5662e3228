//! Selection: which cached record a needle is encoded against.

use vstd::prelude::*;
use crate::cache::RecordCache;
use crate::chunked::block::{Block, BlockType};
use crate::chunked::expand::{all_valid, blocks_of, expand_blocks, is_partition, tiles};
use crate::chunked::matching::{chunk_match, match_vector, matches_sound};

verus! {

/// The number of entries of a match vector that are not 0: the chunks found.
pub open spec fn matched_count(m: Seq<usize>) -> nat
    decreases m.len(),
{
    if m.len() == 0 {
        0
    } else {
        (if m[0] != 0 { 1nat } else { 0nat }) + matched_count(m.skip(1))
    }
}

/// The delta score of a block list: the bytes that its `Delta` blocks span.
pub open spec fn delta_score(blocks: Seq<Block>) -> nat
    decreases blocks.len(),
{
    if blocks.len() == 0 {
        0
    } else {
        (if blocks[0].block_type is Delta { blocks[0].len as nat } else { 0nat }) + delta_score(
            blocks.skip(1),
        )
    }
}

/// The number of chunks of `needle` found in `hay`.
pub open spec fn count_of(needle: Seq<u8>, hay: Seq<u8>) -> nat {
    matched_count(match_vector(needle, hay))
}

/// The blocks that `needle` expands to against `hay`.
pub open spec fn blocks_against(needle: Seq<u8>, hay: Seq<u8>) -> Seq<Block> {
    blocks_of(needle, hay, match_vector(needle, hay))
}

/// The delta score that `needle` reaches against `hay`.
pub open spec fn score_of(needle: Seq<u8>, hay: Seq<u8>) -> nat {
    delta_score(blocks_against(needle, hay))
}

/// The greatest number of chunks found in any of the first `n` cached records.
pub open spec fn max_count(needle: Seq<u8>, cache: Seq<Seq<u8>>, n: nat) -> nat
    decreases n,
{
    if n == 0 {
        0
    } else {
        let before = max_count(needle, cache, (n - 1) as nat);
        let here = count_of(needle, cache[n - 1]);
        if here > before {
            here
        } else {
            before
        }
    }
}

/// Among the first `n` cached records in which exactly `top` chunks were
/// found, the one with the greatest delta score, the later one where two
/// score the same; `None` where there is no such record.
pub open spec fn pick(needle: Seq<u8>, cache: Seq<Seq<u8>>, top: nat, n: nat) -> Option<int>
    decreases n,
{
    if n == 0 {
        None
    } else {
        let before = pick(needle, cache, top, (n - 1) as nat);
        if count_of(needle, cache[n - 1]) != top {
            before
        } else {
            match before {
                None => Some(n - 1),
                Some(b) => if score_of(needle, cache[b]) <= score_of(needle, cache[n - 1]) {
                    Some(n - 1)
                } else {
                    Some(b)
                },
            }
        }
    }
}

/// The index of the cached record that `needle` is encoded against: of the
/// records in which the most chunks were found, the one with the greatest
/// delta score, and of several such the last.
pub open spec fn best_index(needle: Seq<u8>, cache: Seq<Seq<u8>>) -> int {
    match pick(needle, cache, max_count(needle, cache, cache.len()), cache.len()) {
        Some(h) => h,
        None => 0,
    }
}

/// Blocks that lie end to end span no more bytes than lie between their ends.
pub proof fn lemma_score_bound(blocks: Seq<Block>, from: int, to: int)
    requires
        tiles(blocks, from, to),
    ensures
        from + delta_score(blocks) <= to,
    decreases blocks.len(),
{
    if blocks.len() > 0 {
        lemma_score_bound(blocks.skip(1), blocks[0].needle_end(), to);
    }
}

/// The greatest count is the count of one of the records, and no record has more.
pub proof fn lemma_max_count(needle: Seq<u8>, cache: Seq<Seq<u8>>, n: nat)
    requires
        n <= cache.len(),
    ensures
        forall|j: int| 0 <= j < n ==> count_of(needle, #[trigger] cache[j]) <= max_count(needle, cache, n),
        n > 0 ==> exists|j: int| 0 <= j < n && count_of(needle, #[trigger] cache[j]) == max_count(needle, cache, n),
    decreases n,
{
    if n > 0 {
        lemma_max_count(needle, cache, (n - 1) as nat);
        let before = max_count(needle, cache, (n - 1) as nat);
        let here = count_of(needle, cache[n - 1]);
        if here > before || n == 1 {
            assert(count_of(needle, cache[n - 1]) == max_count(needle, cache, n));
        } else {
            let j = choose|j: int| 0 <= j < n - 1 && count_of(needle, #[trigger] cache[j]) == before;
            assert(count_of(needle, cache[j]) == max_count(needle, cache, n));
        }
    }
}

/// What is picked is a record with `top` chunks found; no other such
/// record scores more, and none behind it scores as much. Nothing is picked
/// only where no record has `top` chunks found.
pub proof fn lemma_pick(needle: Seq<u8>, cache: Seq<Seq<u8>>, top: nat, n: nat)
    requires
        n <= cache.len(),
    ensures
        match pick(needle, cache, top, n) {
            None => forall|j: int| 0 <= j < n ==> count_of(needle, #[trigger] cache[j]) != top,
            Some(h) => {
                &&& 0 <= h < n
                &&& count_of(needle, cache[h]) == top
                &&& forall|j: int|
                    0 <= j < n && count_of(needle, #[trigger] cache[j]) == top ==> {
                        &&& score_of(needle, cache[j]) <= score_of(needle, cache[h])
                        &&& j > h ==> score_of(needle, cache[j]) < score_of(needle, cache[h])
                    }
            },
        },
    decreases n,
{
    if n > 0 {
        lemma_pick(needle, cache, top, (n - 1) as nat);
    }
}

/// What is chosen from a cache that is not empty is one of the records in
/// which the most chunks were found; none of these scores more, and none
/// behind it scores as much.
pub proof fn lemma_best_index(needle: Seq<u8>, cache: Seq<Seq<u8>>)
    requires
        cache.len() > 0,
    ensures
        0 <= best_index(needle, cache) < cache.len(),
        forall|j: int|
            0 <= j < cache.len() ==> count_of(needle, #[trigger] cache[j]) <= count_of(
                needle,
                cache[best_index(needle, cache)],
            ),
        forall|j: int|
            0 <= j < cache.len() && count_of(needle, #[trigger] cache[j]) == count_of(
                needle,
                cache[best_index(needle, cache)],
            ) ==> {
                &&& score_of(needle, cache[j]) <= score_of(needle, cache[best_index(needle, cache)])
                &&& j > best_index(needle, cache) ==> score_of(needle, cache[j]) < score_of(
                    needle,
                    cache[best_index(needle, cache)],
                )
            },
{
    lemma_max_count(needle, cache, cache.len());
    lemma_pick(needle, cache, max_count(needle, cache, cache.len()), cache.len());
}

/// The tie-break: of two records with as many chunks found and the same
/// delta score, the earlier one is never chosen.
pub proof fn lemma_tie_break(needle: Seq<u8>, cache: Seq<Seq<u8>>, i: int, j: int)
    requires
        0 <= i < j < cache.len(),
        count_of(needle, cache[i]) == count_of(needle, cache[j]),
        score_of(needle, cache[i]) == score_of(needle, cache[j]),
    ensures
        best_index(needle, cache) != i,
{
    lemma_best_index(needle, cache);
}

/// The number of entries of `m` that are not 0.
pub fn count_matched(m: &Vec<usize>) -> (count: usize)
    ensures
        count == matched_count(m@),
{
    let mut count: usize = 0;
    let mut i: usize = 0;
    assert(m@.skip(0) =~= m@);
    while i < m.len()
        invariant
            i <= m@.len(),
            count <= i,
            matched_count(m@) == count + matched_count(m@.skip(i as int)),
        decreases m@.len() - i,
    {
        assert(m@.skip(i as int).skip(1) =~= m@.skip(i + 1));
        if m[i] != 0 {
            count = count + 1;
        }
        i = i + 1;
    }
    count
}

/// The bytes that the `Delta` blocks of a partition span.
pub fn delta_len(blocks: &Vec<Block>, needle_len: usize) -> (score: usize)
    requires
        is_partition(blocks@, needle_len as nat),
    ensures
        score == delta_score(blocks@),
{
    let mut score: usize = 0;
    let mut i: usize = 0;
    proof {
        assert(blocks@.skip(0) =~= blocks@);
        lemma_score_bound(blocks@, 0, needle_len as int);
    }
    while i < blocks.len()
        invariant
            i <= blocks@.len(),
            delta_score(blocks@) <= needle_len,
            delta_score(blocks@) == score + delta_score(blocks@.skip(i as int)),
        decreases blocks@.len() - i,
    {
        assert(blocks@.skip(i as int).skip(1) =~= blocks@.skip(i + 1));
        if blocks[i].block_type == BlockType::Delta {
            score = score + blocks[i].len;
        }
        i = i + 1;
    }
    score
}

/// Chooses the cached record to encode `needle` against, and returns its
/// index with the blocks that `needle` expands to against it.
pub fn select_haystack(needle: &[u8], cache: &RecordCache) -> (chosen: (usize, Vec<Block>))
    requires
        cache@.len() > 0,
    ensures
        chosen.0 == best_index(needle@, cache@),
        chosen.0 < cache@.len(),
        chosen.1@ == blocks_against(needle@, cache@[chosen.0 as int]),
        is_partition(chosen.1@, needle@.len()),
        all_valid(chosen.1@, needle@, cache@[chosen.0 as int]),
{
    let matches = chunk_match(needle, cache);
    let total: usize = cache.len();
    let mut max: usize = 0;
    let mut h: usize = 0;
    while h < total
        invariant
            h <= total == cache@.len() == matches@.len(),
            forall|j: int|
                0 <= j < total ==> (#[trigger] matches@[j])@ == match_vector(needle@, cache@[j]),
            max == max_count(needle@, cache@, h as nat),
        decreases total - h,
    {
        let count = count_matched(&matches[h]);
        if count > max {
            max = count;
        }
        h = h + 1;
    }
    let mut found: bool = false;
    let mut best: usize = 0;
    let mut best_score: usize = 0;
    let mut best_blocks: Vec<Block> = Vec::new();
    let mut hi: usize = 0;
    while hi < total
        invariant
            hi <= total == cache@.len() == matches@.len(),
            forall|j: int|
                0 <= j < total ==> (#[trigger] matches@[j])@ == match_vector(needle@, cache@[j]),
            forall|j: int|
                0 <= j < total ==> matches_sound(needle@, cache@[j], (#[trigger] matches@[j])@),
            pick(needle@, cache@, max as nat, hi as nat) == if found {
                Some(best as int)
            } else {
                None::<int>
            },
            found ==> {
                &&& best < hi
                &&& best_score == score_of(needle@, cache@[best as int])
                &&& best_blocks@ == blocks_against(needle@, cache@[best as int])
                &&& is_partition(best_blocks@, needle@.len())
                &&& all_valid(best_blocks@, needle@, cache@[best as int])
            },
        decreases total - hi,
    {
        if count_matched(&matches[hi]) == max {
            let haystack = cache.get(hi);
            let blocks = expand_blocks(needle, haystack, &matches[hi]);
            let score = delta_len(&blocks, needle.len());
            if !found || best_score <= score {
                found = true;
                best = hi;
                best_score = score;
                best_blocks = blocks;
            }
        }
        hi = hi + 1;
    }
    proof {
        lemma_max_count(needle@, cache@, total as nat);
        lemma_pick(needle@, cache@, max as nat, total as nat);
    }
    (best, best_blocks)
}

} // verus!
