use vstd::prelude::*;

use std::ops::Range;

verus! {

/// A run of bytes of a file, with the range of file offsets it covers.
pub struct SegmentRaw<Buf> {
    range: Range<u64>,
    data: Buf,
}

impl<Buf> SegmentRaw<Buf> {
    /// The first file offset the segment covers.
    pub closed spec fn range_start(&self) -> u64 {
        self.range.start
    }

    /// The file offset just past the segment.
    pub closed spec fn range_end(&self) -> u64 {
        self.range.end
    }

    /// The bytes of the segment.
    pub closed spec fn contents(&self) -> Buf {
        self.data
    }

    /// A segment holding `data` for the file offsets `range`.
    pub fn new(range: Range<u64>, data: Buf) -> (r: Self)
        requires
            range.start <= range.end,
        ensures
            r.range_start() == range.start,
            r.range_end() == range.end,
            r.contents() == data,
    {
        SegmentRaw { range, data }
    }

    /// The bytes of the segment.
    pub fn data(&self) -> (r: &Buf)
        ensures
            *r == self.contents(),
    {
        &self.data
    }

    /// The first file offset the segment covers.
    pub fn start(&self) -> (r: u64)
        ensures
            r == self.range_start(),
    {
        self.range.start
    }

    /// The position within the segment of file offset `start`, which lies
    /// in the segment or at its end.
    pub fn translate_inner_data_index(&self, start: u64) -> (r: u64)
        requires
            self.range_start() <= start <= self.range_end(),
        ensures
            r == start - self.range_start(),
    {
        start - self.range.start
    }

    /// The positions within the segment of the file offsets `start..end`.
    pub fn translate_inner_data_range(&self, start: u64, end: u64) -> (r: Range<u64>)
        requires
            self.range_start() <= start <= self.range_end(),
            self.range_start() <= end <= self.range_end(),
        ensures
            r.start == start - self.range_start(),
            r.end == end - self.range_start(),
    {
        let s = self.translate_inner_data_index(start);
        let e = self.translate_inner_data_index(end);
        s..e
    }
}

} // verus!
