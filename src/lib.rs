//! Classifies the byte ranges of a sparse file into data and holes, and
//! prepares hole punching.
//!
//! The operating system is reached by the caller. The scanners here are state
//! machines: each says which query to make next on the file and turns the
//! answers into the canonical list of segments, which covers the file from
//! offset 0 to its length with non-empty segments whose types alternate.

mod error;
mod extent_scan;
mod layout;
mod punch;
mod seek_scan;
mod segment;

pub use error::ScanError;
pub use extent_scan::{
    allocated, data_extents, extents_layout, lemma_extents_round_trip, segments_from_allocated,
    sorted_by_offset, ExtentReply,
    ExtentRequest, ExtentScan, ExtentScanView, ExtentStage, FileAllocatedRange,
};
pub use layout::{
    describes, layout_of, lemma_description_unique, lemma_layout_of, lemma_next_of,
    lemma_punch_holes_unchanged, lemma_punch_idempotent, lemma_punch_in_hole_segment, next_of,
    punched, type_at, types_match,
};
pub use punch::{PunchRange, SparseFile, UnsupportedPlatformFile};
pub use seek_scan::{
    answer, lemma_next_wf, lemma_scan_after_needless_punch, lemma_scan_after_second_punch,
    lemma_scan_finds_layout, lemma_scan_holes_hold_no_data, lemma_scan_round_trip, run,
    ScanStage, SeekReply, SeekRequest, SeekScan, SeekScanView,
};
pub use segment::{
    alternates, contiguous, covers, is_canonical, nonempty_ranges, ranges_of_type, Segment,
    SegmentIter, SegmentType, Segments,
};
