//! Hole punching: the range handed to the system call, and the capability
//! that every platform offers.
use vstd::prelude::*;

use crate::error::ScanError;
use crate::segment::Segment;

verus! {

/// The bytes that a hole punch deallocates: `length` bytes from `offset` on.
#[derive(Debug, Clone, Copy, PartialEq, Eq, Structural)]
pub struct PunchRange {
    pub offset: u64,
    pub length: u64,
}

impl PunchRange {
    pub open spec fn spec_end(self) -> int {
        self.offset + self.length
    }

    /// The punch of the half-open range `[start, end)`.
    pub fn between(start: u64, end: u64) -> (r: PunchRange)
        requires
            start <= end,
        ensures
            r.offset == start,
            r.spec_end() == end,
    {
        PunchRange { offset: start, length: end - start }
    }

    /// The first byte past the range.
    pub fn end(&self) -> (r: u64)
        requires
            self.spec_end() <= u64::MAX,
        ensures
            r == self.spec_end(),
    {
        self.offset + self.length
    }
}

/// Finding the segments of a file, and deallocating a range of it.
pub trait SparseFile {
    /// Scans the file for its segments, ordered by start. They cover every
    /// byte of the file; hole segments hold no data.
    fn scan_chunks(&mut self) -> Result<Vec<Segment>, ScanError>;

    /// Deallocates `[start, end)`: later reads there return zeros, and the
    /// file keeps its length.
    fn drill_hole(&self, start: u64, end: u64) -> Result<(), ScanError>;
}

/// A file on a platform where no sparse file support exists: every operation
/// fails with `UnsupportedPlatform`.
#[derive(Debug, Clone, Copy, PartialEq, Eq, Structural)]
pub struct UnsupportedPlatformFile;

impl SparseFile for UnsupportedPlatformFile {
    fn scan_chunks(&mut self) -> (r: Result<Vec<Segment>, ScanError>)
        ensures
            r matches Err(ScanError::UnsupportedPlatform),
    {
        Err(ScanError::UnsupportedPlatform)
    }

    fn drill_hole(&self, start: u64, end: u64) -> (r: Result<(), ScanError>)
        ensures
            r matches Err(ScanError::UnsupportedPlatform),
    {
        Err(ScanError::UnsupportedPlatform)
    }
}

} // verus!
