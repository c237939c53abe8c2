//! Where a record stands on disk.

use vstd::prelude::*;

verus! {

/// The place of one `Put` record: the segment, the offset of the record's
/// first byte in it, and the number of bytes of the whole record.
#[derive(Clone, Copy, Debug, PartialEq, Eq, Structural)]
pub struct LogPointer {
    /// The generation of the segment.
    pub generation: u64,
    /// The offset of the record in the segment.
    pub offset: u64,
    /// The length of the encoded record.
    pub length: u64,
}

impl LogPointer {
    /// The pointer to the bytes from `start` up to `end` of a segment.
    pub fn spanning(generation: u64, start: u64, end: u64) -> (p: LogPointer)
        requires
            start <= end,
        ensures
            p == (LogPointer { generation, offset: start, length: (end - start) as u64 }),
    {
        LogPointer { generation, offset: start, length: end - start }
    }

    /// The offset just behind the record.
    pub open spec fn end(self) -> int {
        self.offset + self.length
    }
}

} // verus!
