//! Chunk matching: where each fixed-size chunk of a needle first occurs in a
//! haystack.

use vstd::prelude::*;
use crate::cache::RecordCache;

verus! {

/// The length of a chunk; only the last chunk of a needle may be shorter.
pub const CHUNK_SIZE: usize = 4;

/// The number of chunks that a needle of `n` bytes splits into.
pub open spec fn chunk_count(n: nat) -> nat {
    (n + CHUNK_SIZE - 1) as nat / CHUNK_SIZE as nat
}

/// Where the `c`-th chunk of a needle of `n` bytes ends.
pub open spec fn chunk_end(n: nat, c: int) -> int {
    if (c + 1) * CHUNK_SIZE <= n {
        (c + 1) * CHUNK_SIZE
    } else {
        n as int
    }
}

/// The `c`-th chunk of `needle`.
pub open spec fn chunk_at(needle: Seq<u8>, c: int) -> Seq<u8> {
    needle.subrange(c * CHUNK_SIZE, chunk_end(needle.len(), c))
}

/// Whether `pat` stands in `hay` at position `p`, one of the positions that
/// are scanned: those at which a window of `CHUNK_SIZE` bytes still fits.
pub open spec fn occurs_at(hay: Seq<u8>, pat: Seq<u8>, p: int) -> bool {
    &&& 0 <= p
    &&& p + CHUNK_SIZE <= hay.len()
    &&& pat.len() <= CHUNK_SIZE
    &&& hay.subrange(p, p + pat.len()) == pat
}

/// The entry for `pat` when the scan of `hay` starts at `p`: one more than
/// the first scanned position from `p` on at which `pat` stands, or 0.
pub open spec fn scan_from(hay: Seq<u8>, pat: Seq<u8>, p: int) -> usize
    decreases hay.len() - p,
{
    if p < 0 || p + CHUNK_SIZE > hay.len() || hay.len() > usize::MAX {
        0
    } else if occurs_at(hay, pat, p) {
        (p + 1) as usize
    } else {
        scan_from(hay, pat, p + 1)
    }
}

/// The entry of a match vector for the chunk `pat`: 0 where `pat` stands at
/// no scanned position of `hay`, else one more than the first such position.
pub open spec fn first_match(hay: Seq<u8>, pat: Seq<u8>) -> usize {
    scan_from(hay, pat, 0)
}

/// The match vector of `needle` against `hay`: one entry per chunk.
pub open spec fn match_vector(needle: Seq<u8>, hay: Seq<u8>) -> Seq<usize> {
    Seq::new(chunk_count(needle.len()), |c: int| first_match(hay, chunk_at(needle, c)))
}

/// Whether `m` can serve as the match vector of `needle` against `hay`: it
/// has one entry per chunk, and each entry that is not 0 is one more than a
/// scanned position at which its chunk stands.
pub open spec fn matches_sound(needle: Seq<u8>, hay: Seq<u8>, m: Seq<usize>) -> bool {
    &&& m.len() == chunk_count(needle.len())
    &&& forall|c: int|
        0 <= c < m.len() && m[c] != 0 ==> occurs_at(hay, chunk_at(needle, c), m[c] - 1)
}

/// An entry of a scan is 0 exactly where the chunk stands nowhere from `p`
/// on, and else names the earliest position from `p` on at which it stands.
pub proof fn lemma_scan_finds_earliest(hay: Seq<u8>, pat: Seq<u8>, p: int)
    requires
        0 <= p,
        hay.len() <= usize::MAX,
    ensures
        scan_from(hay, pat, p) == 0 ==> forall|q: int| p <= q ==> !occurs_at(hay, pat, q),
        scan_from(hay, pat, p) != 0 ==> {
            &&& p <= scan_from(hay, pat, p) - 1
            &&& occurs_at(hay, pat, scan_from(hay, pat, p) - 1)
            &&& forall|q: int| p <= q < scan_from(hay, pat, p) - 1 ==> !occurs_at(hay, pat, q)
        },
    decreases hay.len() - p,
{
    if p + CHUNK_SIZE <= hay.len() && !occurs_at(hay, pat, p) {
        lemma_scan_finds_earliest(hay, pat, p + 1);
    }
}

/// The match vector of a needle against a haystack is sound.
pub proof fn lemma_match_vector_sound(needle: Seq<u8>, hay: Seq<u8>)
    requires
        hay.len() <= usize::MAX,
    ensures
        matches_sound(needle, hay, match_vector(needle, hay)),
{
    let m = match_vector(needle, hay);
    assert forall|c: int| 0 <= c < m.len() && m[c] != 0 implies occurs_at(
        hay,
        chunk_at(needle, c),
        m[c] - 1,
    ) by {
        lemma_scan_finds_earliest(hay, chunk_at(needle, c), 0);
    }
}

/// Whether the `len` bytes of `hay` from `p` equal those of `needle` from `start`.
fn window_eq(hay: &[u8], p: usize, needle: &[u8], start: usize, len: usize) -> (same: bool)
    requires
        p + len <= hay@.len(),
        start + len <= needle@.len(),
    ensures
        same == (hay@.subrange(p as int, p + len) == needle@.subrange(start as int, start + len)),
{
    let ghost a = hay@.subrange(p as int, p + len);
    let ghost b = needle@.subrange(start as int, start + len);
    assert(hay@.len() == hay.len() && needle@.len() == needle.len());
    let mut t: usize = 0;
    while t < len
        invariant
            t <= len,
            hay@.len() <= usize::MAX,
            needle@.len() <= usize::MAX,
            p + len <= hay@.len(),
            start + len <= needle@.len(),
            a == hay@.subrange(p as int, p + len),
            b == needle@.subrange(start as int, start + len),
            forall|j: int| 0 <= j < t ==> a[j] == b[j],
        decreases len - t,
    {
        if hay[p + t] != needle[start + t] {
            assert(a[t as int] != b[t as int]);
            return false;
        }
        t = t + 1;
    }
    assert(a =~= b);
    true
}

/// The entry for the chunk `needle[start..end]` in the match vector against `hay`.
fn find_chunk(hay: &[u8], needle: &[u8], start: usize, end: usize) -> (entry: usize)
    requires
        start <= end <= needle@.len(),
        end - start <= CHUNK_SIZE,
    ensures
        entry == first_match(hay@, needle@.subrange(start as int, end as int)),
{
    let ghost pat = needle@.subrange(start as int, end as int);
    if hay.len() < CHUNK_SIZE {
        return 0;
    }
    let last: usize = hay.len() - CHUNK_SIZE;
    let mut p: usize = 0;
    while p <= last
        invariant
            p <= last + 1,
            last + CHUNK_SIZE == hay@.len(),
            hay@.len() <= usize::MAX,
            start <= end <= needle@.len(),
            end - start <= CHUNK_SIZE,
            pat == needle@.subrange(start as int, end as int),
            first_match(hay@, pat) == scan_from(hay@, pat, p as int),
        decreases last + 1 - p,
    {
        if window_eq(hay, p, needle, start, end - start) {
            return p + 1;
        }
        p = p + 1;
    }
    0
}

/// The match vector of `needle` against the one haystack `hay`.
pub fn match_chunks(needle: &[u8], hay: &[u8]) -> (entries: Vec<usize>)
    ensures
        entries@ == match_vector(needle@, hay@),
        matches_sound(needle@, hay@, entries@),
{
    let n: usize = needle.len();
    assert(hay@.len() == hay.len());
    let mut entries: Vec<usize> = Vec::new();
    let mut start: usize = 0;
    while start < n
        invariant
            n == needle@.len(),
            start <= n,
            start == if CHUNK_SIZE * entries@.len() <= n { CHUNK_SIZE * entries@.len() } else { n as int },
            entries@.len() <= chunk_count(n as nat),
            forall|c: int| 0 <= c < entries@.len() ==> entries@[c] == first_match(hay@, chunk_at(needle@, c)),
        decreases n - start,
    {
        let end: usize = if n - start >= CHUNK_SIZE { start + CHUNK_SIZE } else { n };
        let entry: usize = find_chunk(hay, needle, start, end);
        entries.push(entry);
        start = end;
    }
    proof {
        assert(entries@ =~= match_vector(needle@, hay@));
        lemma_match_vector_sound(needle@, hay@);
    }
    entries
}

/// For each haystack of the cache, in order, the match vector of `needle`
/// against it: per chunk of the needle, 0 where the chunk was not found and
/// else one more than the first position at which it stands.
pub fn chunk_match(needle: &[u8], haystacks: &RecordCache) -> (results: Vec<Vec<usize>>)
    ensures
        results@.len() == haystacks@.len(),
        forall|h: int|
            0 <= h < results@.len() ==> (#[trigger] results@[h])@ == match_vector(
                needle@,
                haystacks@[h],
            ),
        forall|h: int|
            0 <= h < results@.len() ==> matches_sound(
                needle@,
                haystacks@[h],
                (#[trigger] results@[h])@,
            ),
{
    let mut results: Vec<Vec<usize>> = Vec::new();
    let mut h: usize = 0;
    while h < haystacks.len()
        invariant
            h <= haystacks@.len(),
            results@.len() == h,
            forall|j: int|
                0 <= j < h ==> (#[trigger] results@[j])@ == match_vector(needle@, haystacks@[j]),
            forall|j: int|
                0 <= j < h ==> matches_sound(needle@, haystacks@[j], (#[trigger] results@[j])@),
        decreases haystacks@.len() - h,
    {
        let entries = match_chunks(needle, haystacks.get(h).as_slice());
        results.push(entries);
        h = h + 1;
    }
    results
}

} // verus!
