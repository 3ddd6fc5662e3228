//! The record cache: the earlier records that a new record is compressed
//! against, in the order in which they were admitted.

use vstd::prelude::*;

verus! {

/// The most records a cache holds: a frame names its haystack in one byte.
pub const MAX_RECORDS: usize = 256;

/// An append-only sequence of records, indexed by order of admission.
pub struct RecordCache {
    records: Vec<Vec<u8>>,
}

impl View for RecordCache {
    type V = Seq<Seq<u8>>;

    closed spec fn view(&self) -> Seq<Seq<u8>> {
        Seq::new(self.records@.len(), |i: int| self.records@[i]@)
    }
}

impl RecordCache {
    #[verifier::type_invariant]
    spec fn bounded(&self) -> bool {
        self.records@.len() <= MAX_RECORDS
    }

    /// An empty cache.
    pub fn new() -> (cache: Self)
        ensures
            cache@ == Seq::<Seq<u8>>::empty(),
    {
        let cache = RecordCache { records: Vec::new() };
        assert(cache@ =~= Seq::<Seq<u8>>::empty());
        cache
    }

    /// The number of records held, never more than `MAX_RECORDS`.
    pub fn len(&self) -> (n: usize)
        ensures
            n == self@.len(),
            n <= MAX_RECORDS,
    {
        proof {
            use_type_invariant(self);
        }
        self.records.len()
    }

    /// Every record is of a length that fits in `usize`.
    pub proof fn lemma_records_fit(&self)
        ensures
            forall|i: int| 0 <= i < self@.len() ==> (#[trigger] self@[i]).len() <= usize::MAX,
    {
        assert forall|i: int| 0 <= i < self@.len() implies (#[trigger] self@[i]).len()
            <= usize::MAX by {
            assert(self.records@[i].len() == self.records@[i]@.len());
        }
    }

    /// The record admitted as the `index`-th.
    pub fn get(&self, index: usize) -> (record: &Vec<u8>)
        requires
            index < self@.len(),
        ensures
            record@ == self@[index as int],
    {
        &self.records[index]
    }

    /// Appends `record` unless the cache is full, and says whether it did.
    pub fn push(&mut self, record: Vec<u8>) -> (admitted: bool)
        ensures
            admitted == (old(self)@.len() < MAX_RECORDS),
            admitted ==> final(self)@ == old(self)@.push(record@),
            !admitted ==> final(self)@ == old(self)@,
    {
        proof {
            use_type_invariant(&*self);
        }
        if self.records.len() >= MAX_RECORDS {
            return false;
        }
        let mut records: Vec<Vec<u8>> = Vec::new();
        core::mem::swap(&mut self.records, &mut records);
        records.push(record);
        core::mem::swap(&mut self.records, &mut records);
        assert(self@ =~= old(self)@.push(record@));
        true
    }
}

} // verus!
