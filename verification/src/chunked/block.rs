//! Blocks: the spans that a needle is rebuilt from, each either copied from
//! the haystack or carried in the frame.

use vstd::prelude::*;
use vstd::slice::slice_subrange;
use crate::varint::{put_uvarint, varint_bytes};

verus! {

/// Where the bytes of a block come from.
#[derive(Debug, Clone, Copy, PartialEq, Eq, Structural)]
pub enum BlockType {
    /// From the haystack.
    Delta,
    /// From the frame, where they stand as in the needle.
    Original,
}

/// A span of the needle: `len` bytes from `needle_off`. A `Delta` block
/// finds them in the haystack from `offset`; an `Original` block has
/// `offset` 0.
#[derive(Debug, Clone, Copy, PartialEq, Eq, Structural)]
pub struct Block {
    pub block_type: BlockType,
    pub needle_off: usize,
    pub offset: usize,
    pub len: usize,
}

/// The length of the longest common prefix of `a` and `b`.
pub open spec fn common_prefix_len(a: Seq<u8>, b: Seq<u8>) -> nat
    decreases a.len(),
{
    if a.len() > 0 && b.len() > 0 && a[0] == b[0] {
        1 + common_prefix_len(a.skip(1), b.skip(1))
    } else {
        0
    }
}

/// The length of the longest common suffix of `a` and `b`.
pub open spec fn common_suffix_len(a: Seq<u8>, b: Seq<u8>) -> nat
    decreases a.len(),
{
    if a.len() > 0 && b.len() > 0 && a.last() == b.last() {
        1 + common_suffix_len(a.drop_last(), b.drop_last())
    } else {
        0
    }
}

/// The common prefix is no longer than either sequence, and the two agree on it.
pub proof fn lemma_common_prefix(a: Seq<u8>, b: Seq<u8>)
    ensures
        common_prefix_len(a, b) <= a.len(),
        common_prefix_len(a, b) <= b.len(),
        a.take(common_prefix_len(a, b) as int) == b.take(common_prefix_len(a, b) as int),
    decreases a.len(),
{
    let l = common_prefix_len(a, b) as int;
    if a.len() > 0 && b.len() > 0 && a[0] == b[0] {
        lemma_common_prefix(a.skip(1), b.skip(1));
        assert(a.take(l) =~= seq![a[0]] + a.skip(1).take(l - 1));
        assert(b.take(l) =~= seq![b[0]] + b.skip(1).take(l - 1));
    } else {
        assert(a.take(l) =~= b.take(l));
    }
}

/// The common suffix is no longer than either sequence, and the two agree on it.
pub proof fn lemma_common_suffix(a: Seq<u8>, b: Seq<u8>)
    ensures
        common_suffix_len(a, b) <= a.len(),
        common_suffix_len(a, b) <= b.len(),
        a.skip(a.len() - common_suffix_len(a, b)) == b.skip(b.len() - common_suffix_len(a, b)),
    decreases a.len(),
{
    let l = common_suffix_len(a, b) as int;
    if a.len() > 0 && b.len() > 0 && a.last() == b.last() {
        let a1 = a.drop_last();
        let b1 = b.drop_last();
        lemma_common_suffix(a1, b1);
        assert(a.skip(a.len() - l) =~= a1.skip(a1.len() - (l - 1)) + seq![a.last()]);
        assert(b.skip(b.len() - l) =~= b1.skip(b1.len() - (l - 1)) + seq![b.last()]);
    } else {
        assert(a.skip(a.len() - l) =~= b.skip(b.len() - l));
    }
}

/// Appends `src[from..to]` to `buf`.
pub fn append_range(buf: &mut Vec<u8>, src: &[u8], from: usize, to: usize)
    requires
        from <= to <= src@.len(),
    ensures
        final(buf)@ == old(buf)@ + src@.subrange(from as int, to as int),
{
    buf.extend_from_slice(slice_subrange(src, from, to));
    assert(buf@ =~= old(buf)@ + src@.subrange(from as int, to as int));
}

impl Block {
    /// Where the span ends in the needle.
    pub open spec fn needle_end(self) -> int {
        self.needle_off + self.len
    }

    /// Whether the span lies in `needle` and, for a `Delta` block, its
    /// source lies in `hay`.
    pub open spec fn in_bounds(self, needle: Seq<u8>, hay: Seq<u8>) -> bool {
        &&& self.needle_off + self.len <= needle.len()
        &&& self.block_type is Delta ==> self.offset + self.len <= hay.len()
    }

    /// The bytes of `needle` that the block spans.
    pub open spec fn bytes(self, needle: Seq<u8>) -> Seq<u8> {
        needle.subrange(self.needle_off as int, self.needle_off + self.len)
    }

    /// Whether `encode` can write the block: a literal block lies in the
    /// needle, and the offset of a `Delta` block is not the greatest `usize`.
    pub open spec fn encodable(self, needle: Seq<u8>) -> bool {
        match self.block_type {
            BlockType::Delta => self.offset < usize::MAX,
            BlockType::Original => self.needle_off + self.len <= needle.len(),
        }
    }

    /// The block without the bytes that lie before `covered` in the needle.
    pub open spec fn trimmed(self, covered: int) -> Block {
        if self.needle_off >= covered {
            self
        } else {
            let cut = if covered - self.needle_off < self.len {
                covered - self.needle_off
            } else {
                self.len as int
            };
            Block {
                block_type: self.block_type,
                needle_off: (self.needle_off + cut) as usize,
                offset: (self.offset + cut) as usize,
                len: (self.len - cut) as usize,
            }
        }
    }

    /// The bytes that the block is rebuilt from: for a `Delta` block those
    /// of the haystack, for an `Original` block those of the needle.
    pub open spec fn source(self, needle: Seq<u8>, hay: Seq<u8>) -> Seq<u8> {
        match self.block_type {
            BlockType::Delta => hay.subrange(self.offset as int, self.offset + self.len),
            BlockType::Original => self.bytes(needle),
        }
    }

    /// Whether the block is in bounds and rebuilds its span of `needle` truly.
    pub open spec fn valid(self, needle: Seq<u8>, hay: Seq<u8>) -> bool {
        &&& self.in_bounds(needle, hay)
        &&& self.source(needle, hay) == self.bytes(needle)
    }

    /// The block grown byte by byte in both directions for as long as needle
    /// and haystack agree and neither runs out.
    pub open spec fn fitted(self, needle: Seq<u8>, hay: Seq<u8>) -> Block {
        match self.block_type {
            BlockType::Original => self,
            BlockType::Delta => {
                let back = common_suffix_len(
                    needle.take(self.needle_off as int),
                    hay.take(self.offset as int),
                );
                let fwd = common_prefix_len(
                    needle.skip(self.needle_off + self.len),
                    hay.skip(self.offset + self.len),
                );
                Block {
                    block_type: BlockType::Delta,
                    needle_off: (self.needle_off - back) as usize,
                    offset: (self.offset - back) as usize,
                    len: (self.len + back + fwd) as usize,
                }
            },
        }
    }

    /// Growing a valid `Delta` block keeps it valid and `Delta`, and it
    /// still spans what it spanned.
    pub proof fn lemma_fitted_valid(self, needle: Seq<u8>, hay: Seq<u8>)
        requires
            self.block_type is Delta,
            self.valid(needle, hay),
            needle.len() <= usize::MAX,
            hay.len() <= usize::MAX,
        ensures
            self.fitted(needle, hay).block_type is Delta,
            self.fitted(needle, hay).valid(needle, hay),
            self.fitted(needle, hay).needle_off <= self.needle_off,
            self.fitted(needle, hay).needle_end() >= self.needle_end(),
    {
        let na = needle.take(self.needle_off as int);
        let ha = hay.take(self.offset as int);
        let nb = needle.skip(self.needle_off + self.len);
        let hb = hay.skip(self.offset + self.len);
        let back = common_suffix_len(na, ha) as int;
        let fwd = common_prefix_len(nb, hb) as int;
        lemma_common_suffix(na, ha);
        lemma_common_prefix(nb, hb);
        let f = self.fitted(needle, hay);
        assert(f.needle_off == self.needle_off - back);
        assert(f.offset == self.offset - back);
        assert(f.len == self.len + back + fwd);
        assert(f.bytes(needle) =~= na.skip(na.len() - back) + self.bytes(needle) + nb.take(fwd));
        assert(f.source(needle, hay) =~= ha.skip(ha.len() - back) + self.source(needle, hay)
            + hb.take(fwd));
    }

    /// Trimming a valid block keeps it valid and of its type; it keeps its
    /// end, and starts at `covered` or later unless nothing is left of it.
    pub proof fn lemma_trimmed_valid(self, covered: int, needle: Seq<u8>, hay: Seq<u8>)
        requires
            self.valid(needle, hay),
            needle.len() <= usize::MAX,
            hay.len() <= usize::MAX,
        ensures
            self.trimmed(covered).block_type == self.block_type,
            self.trimmed(covered).valid(needle, hay),
            self.trimmed(covered).needle_end() == self.needle_end(),
            self.trimmed(covered).len > 0 ==> self.trimmed(covered).needle_off >= covered,
            self.trimmed(covered).len == 0 ==> self.needle_end() <= covered || self.len == 0,
    {
        let t = self.trimmed(covered);
        let cut = t.needle_off - self.needle_off;
        assert(t.bytes(needle) =~= self.bytes(needle).skip(cut));
        assert(t.source(needle, hay) =~= self.source(needle, hay).skip(cut));
    }

    /// Drops from the front of the block what lies before `covered` in the needle.
    pub fn trim_front(&mut self, covered: usize)
        requires
            old(self).needle_off + old(self).len <= usize::MAX,
            old(self).offset + old(self).len <= usize::MAX,
        ensures
            *final(self) == old(self).trimmed(covered as int),
    {
        if self.needle_off < covered {
            let cut: usize = if covered - self.needle_off < self.len {
                covered - self.needle_off
            } else {
                self.len
            };
            self.needle_off = self.needle_off + cut;
            self.offset = self.offset + cut;
            self.len = self.len - cut;
        }
    }

    /// The bytes that stand for the block in a frame.
    pub open spec fn encoding(self, needle: Seq<u8>) -> Seq<u8> {
        match self.block_type {
            BlockType::Delta => varint_bytes((self.offset + 1) as nat) + varint_bytes(
                self.len as nat,
            ),
            BlockType::Original => seq![0u8] + varint_bytes(self.len as nat) + self.bytes(needle),
        }
    }

    /// Grows a `Delta` block beyond its ends, backward and forward, while
    /// the neighbouring bytes of needle and haystack are equal. An
    /// `Original` block is left as it is.
    pub fn fit(&mut self, needle: &[u8], haystack: &Vec<u8>)
        requires
            old(self).block_type is Delta ==> old(self).in_bounds(needle@, haystack@),
        ensures
            *final(self) == old(self).fitted(needle@, haystack@),
    {
        if self.block_type != BlockType::Delta {
            return;
        }
        let needle_off: usize = self.needle_off;
        let offset: usize = self.offset;
        let len: usize = self.len;
        let needle_len: usize = needle.len();
        let hay_len: usize = haystack.len();
        let ghost na = needle@.take(needle_off as int);
        let ghost ha = haystack@.take(offset as int);
        let mut back: usize = 0;
        assert(na.take(na.len() - 0) =~= na);
        assert(ha.take(ha.len() - 0) =~= ha);
        while back < needle_off && back < offset && needle[needle_off - 1 - back] == haystack[offset
            - 1 - back]
            invariant
                back <= needle_off <= needle@.len(),
                back <= offset <= haystack@.len(),
                na == needle@.take(needle_off as int),
                ha == haystack@.take(offset as int),
                common_suffix_len(na, ha) == back + common_suffix_len(
                    na.take(na.len() - back),
                    ha.take(ha.len() - back),
                ),
            decreases needle_off - back,
        {
            proof {
                let a = na.take(na.len() - back);
                let b = ha.take(ha.len() - back);
                assert(a.last() == needle@[needle_off - 1 - back]);
                assert(b.last() == haystack@[offset - 1 - back]);
                assert(a.drop_last() =~= na.take(na.len() - back - 1));
                assert(b.drop_last() =~= ha.take(ha.len() - back - 1));
            }
            back = back + 1;
        }
        proof {
            let a = na.take(na.len() - back);
            let b = ha.take(ha.len() - back);
            if a.len() > 0 && b.len() > 0 {
                assert(a.last() == needle@[needle_off - 1 - back]);
                assert(b.last() == haystack@[offset - 1 - back]);
            }
            assert(common_suffix_len(a, b) == 0);
        }
        let needle_end: usize = needle_off + len;
        let hay_end: usize = offset + len;
        let needle_left: usize = needle_len - needle_end;
        let hay_left: usize = hay_len - hay_end;
        let ghost nb = needle@.skip(needle_end as int);
        let ghost hb = haystack@.skip(hay_end as int);
        let mut fwd: usize = 0;
        assert(nb.skip(0) =~= nb);
        assert(hb.skip(0) =~= hb);
        while fwd < needle_left && fwd < hay_left && needle[needle_end + fwd] == haystack[hay_end
            + fwd]
            invariant
                fwd <= needle_left,
                fwd <= hay_left,
                needle_end + needle_left == needle_len == needle@.len(),
                hay_end + hay_left == hay_len == haystack@.len(),
                nb == needle@.skip(needle_end as int),
                hb == haystack@.skip(hay_end as int),
                common_prefix_len(nb, hb) == fwd + common_prefix_len(
                    nb.skip(fwd as int),
                    hb.skip(fwd as int),
                ),
            decreases needle_left - fwd,
        {
            proof {
                let a = nb.skip(fwd as int);
                let b = hb.skip(fwd as int);
                assert(a[0] == needle@[needle_end + fwd]);
                assert(b[0] == haystack@[hay_end + fwd]);
                assert(a.skip(1) =~= nb.skip(fwd + 1));
                assert(b.skip(1) =~= hb.skip(fwd + 1));
            }
            fwd = fwd + 1;
        }
        proof {
            let a = nb.skip(fwd as int);
            let b = hb.skip(fwd as int);
            if a.len() > 0 && b.len() > 0 {
                assert(a[0] == needle@[needle_end + fwd]);
                assert(b[0] == haystack@[hay_end + fwd]);
            }
            assert(common_prefix_len(a, b) == 0);
        }
        self.needle_off = needle_off - back;
        self.offset = offset - back;
        self.len = len + back + fwd;
    }

    /// Appends the block's encoding to `buf`: for a `Delta` block its
    /// haystack offset plus one and its length, both as varints; for an
    /// `Original` block a zero byte, its length as a varint, and its bytes
    /// of `needle`.
    pub fn encode(&self, needle: &[u8], buf: &mut Vec<u8>)
        requires
            self.encodable(needle@),
        ensures
            final(buf)@ == old(buf)@ + self.encoding(needle@),
    {
        match self.block_type {
            BlockType::Delta => {
                put_uvarint(buf, (self.offset + 1) as u64);
                put_uvarint(buf, self.len as u64);
                assert(buf@ =~= old(buf)@ + self.encoding(needle@));
            },
            BlockType::Original => {
                assert(needle@.len() == needle.len());
                buf.push(0u8);
                put_uvarint(buf, self.len as u64);
                append_range(buf, needle, self.needle_off, self.needle_off + self.len);
                assert(buf@ =~= old(buf)@ + self.encoding(needle@));
            },
        }
    }
}

} // verus!
