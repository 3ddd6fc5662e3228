//! What a matching strategy offers: frames from records, records from
//! frames, and the promise that the second undoes the first.

use vstd::prelude::*;
use crate::cache::{MAX_RECORDS, RecordCache};
use crate::error::DecodeError;

verus! {

/// Whether a record and a cache are such as a machine can hold: lengths
/// fit in `usize`, and the cache has no more records than an index byte can
/// name.
pub open spec fn representable(record: Seq<u8>, cache: Seq<Seq<u8>>) -> bool {
    &&& record.len() <= usize::MAX
    &&& cache.len() <= MAX_RECORDS
    &&& forall|i: int| 0 <= i < cache.len() ==> (#[trigger] cache[i]).len() <= usize::MAX
}

/// A way of encoding one record against a cache of earlier records.
pub trait Compressor {
    /// The frame of `needle` against `cache`.
    spec fn frame(&self, needle: Seq<u8>, cache: Seq<Seq<u8>>) -> Seq<u8>;

    /// The index of the cached record that the frame of `needle` refers to.
    spec fn chosen(&self, needle: Seq<u8>, cache: Seq<Seq<u8>>) -> int;

    /// What `frame` decodes to against `cache`: the record, and the index
    /// of the cached record that the frame refers to.
    spec fn parse(&self, frame: Seq<u8>, cache: Seq<Seq<u8>>) -> Result<(Seq<u8>, int), DecodeError>;

    /// Round trip: the frame of a record against a cache decodes, against
    /// the same cache, to that record and to the index that the frame
    /// refers to.
    proof fn lemma_round_trip(&self, needle: Seq<u8>, cache: Seq<Seq<u8>>)
        requires
            representable(needle, cache),
        ensures
            self.parse(self.frame(needle, cache), cache) == Ok::<(Seq<u8>, int), DecodeError>(
                (needle, self.chosen(needle, cache)),
            ),
    ;

    /// Appends the frame of `needle` against `cache` to `out_buf`, and
    /// returns the index of the cached record that the frame refers to.
    fn compress(&self, needle: &[u8], out_buf: &mut Vec<u8>, cache: &RecordCache) -> (index: usize)
        ensures
            final(out_buf)@ == old(out_buf)@ + self.frame(needle@, cache@),
            index == self.chosen(needle@, cache@),
    ;

    /// Decodes the frame `buf` against `cache` and appends the record to
    /// `out_buf`. Returns the index of the cached record that the frame
    /// refers to. A frame that does not decode leaves `out_buf` as it was.
    fn decompress(&self, buf: &[u8], out_buf: &mut Vec<u8>, cache: &RecordCache) -> (r: Result<
        usize,
        DecodeError,
    >)
        ensures
            match self.parse(buf@, cache@) {
                Ok((record, index)) => r == Ok::<usize, DecodeError>(index as usize)
                    && final(out_buf)@ == old(out_buf)@ + record,
                Err(e) => r == Err::<usize, DecodeError>(e) && final(out_buf)@ == old(out_buf)@,
            },
    ;
}

} // verus!
