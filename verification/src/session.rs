//! Sessions: an encoder and a decoder that each own a cache and admit
//! records to it by one rule, so that the two caches stay the same.

use vstd::prelude::*;
use vstd::slice::slice_to_vec;
use crate::cache::{MAX_RECORDS, RecordCache};
use crate::compressor::{Compressor, representable};
use crate::error::DecodeError;

verus! {

/// The parts that a threshold of 1 has.
pub const THRESHOLD_ONE: u32 = 1_000_000;

/// The threshold of a session made by default: one half.
pub const DEFAULT_THRESHOLD: u32 = 500_000;

/// The share of its own length that a record's frame must reach for the
/// record to be admitted to the cache, in millionths, from 0 to 1.
#[derive(Debug, Clone, Copy, PartialEq, Eq, Structural)]
pub struct Threshold {
    millionths: u32,
}

impl Threshold {
    #[verifier::type_invariant]
    spec fn in_range(&self) -> bool {
        self.millionths <= THRESHOLD_ONE
    }

    /// The threshold in millionths.
    pub closed spec fn value(&self) -> nat {
        self.millionths as nat
    }

    /// The threshold of `millionths` millionths, or `None` where that is
    /// more than 1.
    pub fn new(millionths: u32) -> (threshold: Option<Self>)
        ensures
            threshold is Some <==> millionths <= THRESHOLD_ONE,
            threshold is Some ==> threshold->Some_0.value() == millionths,
    {
        if millionths <= THRESHOLD_ONE {
            Some(Threshold { millionths })
        } else {
            None
        }
    }

    /// The threshold in millionths, never more than `THRESHOLD_ONE`.
    pub fn millionths(&self) -> (millionths: u32)
        ensures
            millionths == self.value(),
            millionths <= THRESHOLD_ONE,
    {
        proof {
            use_type_invariant(self);
        }
        self.millionths
    }

    /// Whether a record of `record_len` bytes whose frame has `frame_len`
    /// bytes is admitted.
    pub fn admits(&self, frame_len: usize, record_len: usize) -> (admitted: bool)
        ensures
            admitted == admits(self.value(), frame_len as nat, record_len as nat),
    {
        proof {
            use_type_invariant(self);
        }
        let share: u128 = self.millionths as u128;
        assert(share * record_len <= THRESHOLD_ONE * record_len) by (nonlinear_arith)
            requires
                share <= THRESHOLD_ONE,
                record_len >= 0,
        ;
        (frame_len as u128) * (THRESHOLD_ONE as u128) >= share * (record_len as u128)
    }
}

impl Default for Threshold {
    /// One half.
    fn default() -> (threshold: Self)
        ensures
            threshold.value() == DEFAULT_THRESHOLD,
    {
        Threshold { millionths: DEFAULT_THRESHOLD }
    }
}

/// The admission rule: a record is admitted where its frame is at least
/// `millionths` millionths as long as the record itself.
pub open spec fn admits(millionths: nat, frame_len: nat, record_len: nat) -> bool {
    frame_len * THRESHOLD_ONE >= millionths * record_len
}

/// The cache after a record with a frame of `frame_len` bytes was
/// processed: with the record at its end where the rule admits it and the
/// cache is not full, else unchanged.
pub open spec fn cache_after(
    cache: Seq<Seq<u8>>,
    millionths: nat,
    record: Seq<u8>,
    frame_len: nat,
) -> Seq<Seq<u8>> {
    if admits(millionths, frame_len, record.len()) && cache.len() < MAX_RECORDS {
        cache.push(record)
    } else {
        cache
    }
}

/// One step of an encoder: the frame of `record`, and the cache after it.
pub open spec fn encoder_step<C: Compressor>(
    comp: C,
    cache: Seq<Seq<u8>>,
    millionths: nat,
    record: Seq<u8>,
) -> (Seq<u8>, Seq<Seq<u8>>) {
    let frame = comp.frame(record, cache);
    (frame, cache_after(cache, millionths, record, frame.len()))
}

/// One step of a decoder: the record of `frame`, and the cache after it;
/// or the error, with which the cache stays as it is.
pub open spec fn decoder_step<C: Compressor>(
    comp: C,
    cache: Seq<Seq<u8>>,
    millionths: nat,
    frame: Seq<u8>,
) -> Result<(Seq<u8>, Seq<Seq<u8>>), DecodeError> {
    match comp.parse(frame, cache) {
        Ok((record, _)) => Ok((record, cache_after(cache, millionths, record, frame.len()))),
        Err(e) => Err(e),
    }
}

/// The frames of `records`, encoded one after the other from `cache` on,
/// and the cache after the last.
pub open spec fn encode_all<C: Compressor>(
    comp: C,
    cache: Seq<Seq<u8>>,
    millionths: nat,
    records: Seq<Seq<u8>>,
) -> (Seq<Seq<u8>>, Seq<Seq<u8>>)
    decreases records.len(),
{
    if records.len() == 0 {
        (Seq::empty(), cache)
    } else {
        let (frame, next) = encoder_step(comp, cache, millionths, records[0]);
        let (frames, last) = encode_all(comp, next, millionths, records.skip(1));
        (seq![frame] + frames, last)
    }
}

/// The records of `frames`, decoded one after the other from `cache` on,
/// and the cache after the last; or the error of the first frame that does
/// not decode.
pub open spec fn decode_all<C: Compressor>(
    comp: C,
    cache: Seq<Seq<u8>>,
    millionths: nat,
    frames: Seq<Seq<u8>>,
) -> Result<(Seq<Seq<u8>>, Seq<Seq<u8>>), DecodeError>
    decreases frames.len(),
{
    if frames.len() == 0 {
        Ok((Seq::empty(), cache))
    } else {
        match decoder_step(comp, cache, millionths, frames[0]) {
            Err(e) => Err(e),
            Ok((record, next)) => match decode_all(comp, next, millionths, frames.skip(1)) {
                Err(e) => Err(e),
                Ok((records, last)) => Ok((seq![record] + records, last)),
            },
        }
    }
}

/// Whether every record of `records` is of a length that fits in `usize`.
pub open spec fn all_fit(records: Seq<Seq<u8>>) -> bool {
    forall|i: int| 0 <= i < records.len() ==> (#[trigger] records[i]).len() <= usize::MAX
}

/// Lockstep, one record: a decoder that holds the cache the encoder held
/// gets the record back from the encoder's frame, and then holds the cache
/// that the encoder holds.
pub proof fn lemma_step_lockstep<C: Compressor>(
    comp: C,
    cache: Seq<Seq<u8>>,
    millionths: nat,
    record: Seq<u8>,
)
    requires
        representable(record, cache),
    ensures
        decoder_step(comp, cache, millionths, encoder_step(comp, cache, millionths, record).0)
            == Ok::<(Seq<u8>, Seq<Seq<u8>>), DecodeError>(
            (record, encoder_step(comp, cache, millionths, record).1),
        ),
        representable(record, encoder_step(comp, cache, millionths, record).1),
        all_fit(encoder_step(comp, cache, millionths, record).1),
{
    comp.lemma_round_trip(record, cache);
}

/// Lockstep, any number of records: a decoder that starts from the cache
/// the encoder started from gets every record back, in order, from the
/// encoder's frames, and ends with the cache that the encoder ends with.
pub proof fn lemma_lockstep<C: Compressor>(
    comp: C,
    cache: Seq<Seq<u8>>,
    millionths: nat,
    records: Seq<Seq<u8>>,
)
    requires
        cache.len() <= MAX_RECORDS,
        all_fit(cache),
        all_fit(records),
    ensures
        decode_all(comp, cache, millionths, encode_all(comp, cache, millionths, records).0) == Ok::<
            (Seq<Seq<u8>>, Seq<Seq<u8>>),
            DecodeError,
        >((records, encode_all(comp, cache, millionths, records).1)),
    decreases records.len(),
{
    if records.len() == 0 {
        assert(records =~= Seq::<Seq<u8>>::empty());
    } else {
        let record = records[0];
        let others = records.skip(1);
        let (frame, next) = encoder_step(comp, cache, millionths, record);
        let (frames, last) = encode_all(comp, next, millionths, others);
        let all = encode_all(comp, cache, millionths, records).0;
        assert(all_fit(others)) by {
            assert forall|i: int| 0 <= i < others.len() implies (#[trigger] others[i]).len()
                <= usize::MAX by {
                assert(others[i] == records[i + 1]);
            }
        }
        lemma_step_lockstep(comp, cache, millionths, record);
        lemma_lockstep(comp, next, millionths, others);
        assert(all == seq![frame] + frames);
        assert(all[0] == frame);
        assert(all.skip(1) =~= frames);
        assert(seq![record] + others =~= records);
        assert(decoder_step(comp, cache, millionths, all[0]) == Ok::<
            (Seq<u8>, Seq<Seq<u8>>),
            DecodeError,
        >((record, next)));
    }
}

/// The sending side of a stream: it turns records into frames and keeps
/// the cache that the frames refer to.
pub struct DSSCEncoder<C: Compressor> {
    comp: C,
    cache: RecordCache,
    threshold: Threshold,
}

impl<C: Compressor> View for DSSCEncoder<C> {
    type V = Seq<Seq<u8>>;

    /// The records in the cache.
    closed spec fn view(&self) -> Seq<Seq<u8>> {
        self.cache@
    }
}

impl<C: Compressor> DSSCEncoder<C> {
    /// The compressor of the session.
    pub closed spec fn comp(&self) -> C {
        self.comp
    }

    /// The threshold of the session, in millionths.
    pub closed spec fn threshold(&self) -> nat {
        self.threshold.value()
    }

    /// An encoder with an empty cache.
    pub fn new(comp: C, threshold: Threshold) -> (encoder: Self)
        ensures
            encoder@ == Seq::<Seq<u8>>::empty(),
            encoder.comp() == comp,
            encoder.threshold() == threshold.value(),
    {
        DSSCEncoder { comp, cache: RecordCache::new(), threshold }
    }

    /// The number of records in the cache.
    pub fn cache_len(&self) -> (n: usize)
        ensures
            n == self@.len(),
            n <= MAX_RECORDS,
    {
        self.cache.len()
    }

    /// Encodes `record` against the cache and returns its frame. Then
    /// admits the record to the cache where the rule says so.
    pub fn encode(&mut self, record: &[u8]) -> (frame: Vec<u8>)
        ensures
            (frame@, final(self)@) == encoder_step(
                old(self).comp(),
                old(self)@,
                old(self).threshold(),
                record@,
            ),
            final(self).comp() == old(self).comp(),
            final(self).threshold() == old(self).threshold(),
    {
        let mut frame: Vec<u8> = Vec::new();
        self.comp.compress(record, &mut frame, &self.cache);
        assert(frame@ =~= self.comp.frame(record@, self.cache@));
        if self.threshold.admits(frame.len(), record.len()) {
            self.cache.push(slice_to_vec(record));
        }
        frame
    }
}

/// The receiving side of a stream: it turns frames back into records and
/// keeps the cache that the frames refer to.
pub struct DSSCDecoder<C: Compressor> {
    comp: C,
    cache: RecordCache,
    threshold: Threshold,
}

impl<C: Compressor> View for DSSCDecoder<C> {
    type V = Seq<Seq<u8>>;

    /// The records in the cache.
    closed spec fn view(&self) -> Seq<Seq<u8>> {
        self.cache@
    }
}

impl<C: Compressor> DSSCDecoder<C> {
    /// The compressor of the session.
    pub closed spec fn comp(&self) -> C {
        self.comp
    }

    /// The threshold of the session, in millionths.
    pub closed spec fn threshold(&self) -> nat {
        self.threshold.value()
    }

    /// A decoder with an empty cache.
    pub fn new(comp: C, threshold: Threshold) -> (decoder: Self)
        ensures
            decoder@ == Seq::<Seq<u8>>::empty(),
            decoder.comp() == comp,
            decoder.threshold() == threshold.value(),
    {
        DSSCDecoder { comp, cache: RecordCache::new(), threshold }
    }

    /// The number of records in the cache.
    pub fn cache_len(&self) -> (n: usize)
        ensures
            n == self@.len(),
            n <= MAX_RECORDS,
    {
        self.cache.len()
    }

    /// Decodes `frame` against the cache and returns its record. Then
    /// admits the record to the cache where the rule says so. A frame that
    /// does not decode leaves the cache as it was.
    pub fn decode(&mut self, frame: &[u8]) -> (r: Result<Vec<u8>, DecodeError>)
        ensures
            match decoder_step(old(self).comp(), old(self)@, old(self).threshold(), frame@) {
                Ok((record, cache)) => r is Ok && r->Ok_0@ == record && final(self)@ == cache,
                Err(e) => r == Err::<Vec<u8>, DecodeError>(e) && final(self)@ == old(self)@,
            },
            final(self).comp() == old(self).comp(),
            final(self).threshold() == old(self).threshold(),
    {
        let mut record: Vec<u8> = Vec::new();
        match self.comp.decompress(frame, &mut record, &self.cache) {
            Err(e) => Err(e),
            Ok(_) => {
                assert(record@ =~= self.comp.parse(frame@, self.cache@)->Ok_0.0);
                if self.threshold.admits(frame.len(), record.len()) {
                    self.cache.push(slice_to_vec(record.as_slice()));
                }
                Ok(record)
            },
        }
    }
}

} // verus!
