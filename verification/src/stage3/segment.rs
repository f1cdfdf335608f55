//! The log file that is being written.

use vstd::prelude::*;

verus! {

/// Where the open log file stands.
#[derive(Debug, Clone, Copy, PartialEq, Eq, Structural)]
pub struct Segment {
    offset: u64,
    fsync_offset: u64,
    start_lsn: u64,
}

/// What a segment remembers.
pub struct SegmentView {
    /// Where the next write goes.
    pub offset: u64,
    /// Up to here a flush has been asked for.
    pub fsync_offset: u64,
    /// The sequence number that the file is named after.
    pub start_lsn: u64,
}

impl View for Segment {
    type V = SegmentView;

    closed spec fn view(&self) -> SegmentView {
        SegmentView {
            offset: self.offset,
            fsync_offset: self.fsync_offset,
            start_lsn: self.start_lsn,
        }
    }
}

impl SegmentView {
    /// A file that holds `len` bytes, all of them flushed.
    pub open spec fn opened(start_lsn: u64, len: u64) -> SegmentView {
        SegmentView { offset: len, fsync_offset: len, start_lsn }
    }

    /// After room for `n` more bytes was taken.
    pub open spec fn advanced(self, n: int) -> SegmentView {
        SegmentView { offset: (self.offset + n) as u64, ..self }
    }

    /// After a flush of everything so far was asked for.
    pub open spec fn fsynced(self) -> SegmentView {
        SegmentView { fsync_offset: self.offset, ..self }
    }

    /// No flush was asked for beyond what was written.
    pub open spec fn valid(self) -> bool {
        self.fsync_offset <= self.offset
    }
}

impl Segment {
    /// Starts at the end of a file that holds `len` bytes.
    pub fn open(start_lsn: u64, len: u64) -> (r: Self)
        ensures
            r@ == SegmentView::opened(start_lsn, len),
            r@.valid(),
    {
        Segment { offset: len, fsync_offset: len, start_lsn }
    }

    /// The sequence number that the file is named after.
    pub fn start_lsn(&self) -> (r: u64)
        ensures
            r == self@.start_lsn,
    {
        self.start_lsn
    }

    /// Where the next write goes.
    pub fn offset(&self) -> (r: u64)
        ensures
            r == self@.offset,
    {
        self.offset
    }

    /// Takes room for so many bytes and returns where it starts and ends.
    pub fn advance_offset(&mut self, bytes_size: u64) -> (r: (u64, u64))
        requires
            old(self)@.offset + bytes_size <= u64::MAX,
        ensures
            final(self)@ == old(self)@.advanced(bytes_size as int),
            r == (old(self)@.offset, (old(self)@.offset + bytes_size) as u64),
    {
        let o = self.offset;
        self.offset = o + bytes_size;
        (o, o + bytes_size)
    }

    /// A flush of everything so far was asked for.
    pub fn mark_fsynced(&mut self)
        ensures
            final(self)@ == old(self)@.fsynced(),
            final(self)@.valid(),
    {
        self.fsync_offset = self.offset;
    }
}

/// Consecutive writes lie next to each other in the file, in order and without
/// a gap.
pub proof fn law_writes_are_contiguous(seg: SegmentView, a: u64, b: u64)
    requires
        seg.offset + a + b <= u64::MAX,
    ensures
        seg.advanced(a as int).offset == seg.offset + a,
        seg.advanced(a as int).advanced(b as int) == seg.advanced(a + b),
        seg.valid() ==> seg.advanced(a as int).valid(),
{
}

/// A file that is opened goes on at its end, all of it counted as flushed; asking
/// for a flush covers everything up to there.
pub proof fn law_files_go_on_at_their_end(seg: SegmentView, start_lsn: u64, len: u64, n: int)
    requires
        0 <= n,
        seg.offset + n <= u64::MAX,
    ensures
        SegmentView::opened(start_lsn, len).offset == len,
        SegmentView::opened(start_lsn, len).fsync_offset == len,
        SegmentView::opened(start_lsn, len).start_lsn == start_lsn,
        seg.advanced(n).offset == seg.offset + n,
        seg.advanced(n).fsync_offset == seg.fsync_offset,
        seg.advanced(n).start_lsn == seg.start_lsn,
        seg.fsynced().fsync_offset == seg.offset,
        seg.fsynced().offset == seg.offset,
        seg.fsynced().start_lsn == seg.start_lsn,
{
}

} // verus!
