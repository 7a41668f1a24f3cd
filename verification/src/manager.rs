//! The engine facade: owns the live segment, exposes `put`/`get`, and decides
//! when the merger must be told to flush. The notification channel itself is
//! outside work; `put` returns the decision.

use vstd::prelude::*;
use crate::segment::Segment;

verus! {

/// Flush threshold: once the live segment holds at least this many bytes of
/// value payload, a write asks for a flush.
pub const MAX_SEGMENT_SIZE: usize = 2048;

/// Owns the live (write-accepting) segment.
pub struct SegmentManager {
    pub current_segment: Segment,
}

impl View for SegmentManager {
    type V = Map<Seq<char>, Seq<u8>>;

    open spec fn view(&self) -> Map<Seq<char>, Seq<u8>> {
        self.current_segment@
    }
}

impl SegmentManager {
    pub open spec fn wf(&self) -> bool {
        self.current_segment.wf()
    }

    /// The manager over a fresh, empty live segment.
    pub fn new() -> (r: SegmentManager)
        ensures
            r.wf(),
            r@ == Map::<Seq<char>, Seq<u8>>::empty(),
            r.current_segment.segment_size == 0,
    {
        SegmentManager { current_segment: Segment::new() }
    }

    /// Writes into the live segment. Returns whether the live segment's size
    /// now stands at or above [`MAX_SEGMENT_SIZE`], i.e. whether the caller
    /// must signal the merger to flush (exactly the writes that cross or sit
    /// above the threshold ask for one). The write itself never fails;
    /// durability is asynchronous.
    pub fn put(&mut self, key: String, value: Vec<u8>) -> (needs_flush: bool)
        requires
            old(self).wf(),
            old(self).current_segment.spec_size_after(key@, value@) <= usize::MAX,
        ensures
            final(self).wf(),
            final(self)@ == old(self)@.insert(key@, value@),
            final(self).current_segment.segment_size == old(self).current_segment.spec_size_after(
                key@,
                value@,
            ),
            needs_flush == (final(self).current_segment.segment_size >= MAX_SEGMENT_SIZE),
    {
        self.current_segment.write_segment(key, value);
        self.current_segment.size() >= MAX_SEGMENT_SIZE
    }

    /// Reads from the live segment only: a value already flushed to disk is
    /// not visible here. Absence is a normal result, not a failure.
    pub fn get(&self, key: String) -> (r: Option<Vec<u8>>)
        requires
            self.wf(),
        ensures
            match r {
                Some(v) => self@.contains_key(key@) && v@ == self@[key@],
                None => !self@.contains_key(key@),
            },
    {
        self.current_segment.read_segment(key)
    }

    /// Byte total of the values the live segment currently holds.
    pub fn size(&self) -> (r: usize)
        ensures
            r == self.current_segment.segment_size,
    {
        self.current_segment.size()
    }
}

} // verus!
