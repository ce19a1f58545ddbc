//! The scanner for systems that report the allocated extents of a file and
//! mark the files that may hold holes.
//!
//! Its caller finds the file's length, starts an `ExtentScan` with it, makes
//! each query that `request` names and hands the answer to `step`, until the
//! request is `Finished`.
use std::ops::Range;
use vstd::prelude::*;

use crate::error::ScanError;
use crate::layout::{describes, layout_of, lemma_description_unique, lemma_layout_of, type_at};
use crate::segment::{contiguous, is_canonical, nonempty_ranges, Segment, SegmentType};

verus! {

/// An allocated extent of a file: `length` bytes from `offset` on.
#[derive(Debug, Clone, Copy, PartialEq, Eq, Structural)]
pub struct FileAllocatedRange {
    pub offset: u64,
    pub length: u64,
}

impl FileAllocatedRange {
    pub open spec fn holds(self, b: int) -> bool {
        self.offset <= b < self.offset + self.length
    }
}

/// Each extent starts no earlier than the one before it.
pub open spec fn sorted_by_offset(ranges: Seq<FileAllocatedRange>) -> bool {
    forall|i: int, j: int| 0 <= i < j < ranges.len() ==> #[trigger] ranges[i].offset <= #[trigger] ranges[j].offset
}

/// Some extent holds byte `b`.
pub open spec fn allocated(ranges: Seq<FileAllocatedRange>, b: int) -> bool {
    exists|j: int| 0 <= j < ranges.len() && #[trigger] ranges[j].holds(b)
}

/// The layout of a file of `len` bytes whose allocated extents are `ranges`.
pub open spec fn extents_layout(ranges: Seq<FileAllocatedRange>, len: nat) -> Seq<SegmentType> {
    Seq::new(
        len,
        |b: int|
            if allocated(ranges, b) {
                SegmentType::Data
            } else {
                SegmentType::Hole
            },
    )
}

/// What holds after the first `i` extents were read and the segments reach
/// `prev_end`.
spec fn rebuilt_so_far(
    segs: Seq<Segment>,
    ranges: Seq<FileAllocatedRange>,
    len: u64,
    i: int,
    prev_end: u64,
) -> bool {
    &&& prev_end <= len
    &&& is_canonical(segs, prev_end as int)
    &&& (segs.len() > 0 ==> segs.last().segment_type == SegmentType::Data)
    &&& forall|k: int, b: int|
        #![trigger segs[k].spec_contains(b)]
        0 <= k < segs.len() && segs[k].spec_contains(b) ==> (segs[k].segment_type
            == SegmentType::Data ==> allocated(ranges, b)) && (segs[k].segment_type
            == SegmentType::Hole && sorted_by_offset(ranges) ==> !allocated(ranges, b))
    &&& forall|j: int, b: int|
        #![trigger ranges[j].holds(b)]
        0 <= j < i && prev_end <= b < len ==> !ranges[j].holds(b)
}

/// The finished list: canonical, data only where an extent is, and holes
/// where none is when the extents come in order.
spec fn rebuilt(segs: Seq<Segment>, ranges: Seq<FileAllocatedRange>, len: u64) -> bool {
    &&& is_canonical(segs, len as int)
    &&& forall|k: int, b: int|
        #![trigger segs[k].spec_contains(b)]
        0 <= k < segs.len() && segs[k].spec_contains(b) ==> (segs[k].segment_type
            == SegmentType::Data ==> allocated(ranges, b)) && (segs[k].segment_type
            == SegmentType::Hole && sorted_by_offset(ranges) ==> !allocated(ranges, b))
}

/// Where an extent ends once cut to the file's length.
spec fn extent_stop(r: FileAllocatedRange, len: u64) -> int {
    if r.offset + r.length < len {
        r.offset + r.length
    } else {
        len as int
    }
}

proof fn lemma_gap_then_extent(
    segs: Seq<Segment>,
    ranges: Seq<FileAllocatedRange>,
    len: u64,
    i: int,
    prev_end: u64,
    start: u64,
    stop: u64,
)
    requires
        rebuilt_so_far(segs, ranges, len, i, prev_end),
        0 <= i < ranges.len(),
        start == ranges[i].offset,
        prev_end < start < stop,
        stop == extent_stop(ranges[i], len),
    ensures
        rebuilt_so_far(
            segs.push(
                Segment { segment_type: SegmentType::Hole, range: Range { start: prev_end, end: start } },
            ).push(Segment { segment_type: SegmentType::Data, range: Range { start, end: stop } }),
            ranges,
            len,
            i + 1,
            stop,
        ),
{
    let hole = Segment { segment_type: SegmentType::Hole, range: Range { start: prev_end, end: start } };
    let data = Segment { segment_type: SegmentType::Data, range: Range { start, end: stop } };
    let t = segs.push(hole).push(data);
    let k0 = segs.len() as int;
    assert(t[k0] == hole);
    assert(t[k0 + 1] == data);
    assert forall|k: int| 0 <= k < k0 implies #[trigger] t[k] == segs[k] by {}
    if k0 > 0 {
        assert(segs[k0 - 1].range.end == prev_end);
        assert(t[0] == segs[0]);
    }
    assert forall|k: int| 0 <= k < t.len() implies #[trigger] t[k].range.start < t[k].range.end by {
        if k < k0 {
            assert(segs[k].range.start < segs[k].range.end);
        }
    }
    assert forall|k: int| 0 <= k < t.len() - 1 implies #[trigger] t[k].range.end == t[k
        + 1].range.start by {
        if k + 1 < k0 {
            assert(segs[k].range.end == segs[k + 1].range.start);
        }
    }
    assert forall|a: int, b: int|
        0 <= a && b == a + 1 && b < t.len() implies #[trigger] t[a].segment_type
        != #[trigger] t[b].segment_type by {
        if b < k0 {
            assert(segs[a].segment_type != segs[b].segment_type);
        }
    }
    assert forall|k: int, b: int|
        #![trigger t[k].spec_contains(b)]
        0 <= k < t.len() && t[k].spec_contains(b) implies (t[k].segment_type == SegmentType::Data
        ==> allocated(ranges, b)) && (t[k].segment_type == SegmentType::Hole && sorted_by_offset(
        ranges,
    ) ==> !allocated(ranges, b)) by {
        if k < k0 {
            assert(segs[k].spec_contains(b));
        } else if k == k0 {
            if sorted_by_offset(ranges) {
                assert forall|j: int| 0 <= j < ranges.len() implies !#[trigger] ranges[j].holds(b) by {
                    if j < i {
                        assert(!ranges[j].holds(b));
                    } else if j > i {
                        assert(ranges[i].offset <= ranges[j].offset);
                    }
                }
            }
        } else {
            assert(ranges[i].holds(b));
        }
    }
    assert forall|j: int, b: int|
        #![trigger ranges[j].holds(b)]
        0 <= j < i + 1 && stop <= b < len implies !ranges[j].holds(b) by {}
}

proof fn lemma_extend_last(
    segs: Seq<Segment>,
    ranges: Seq<FileAllocatedRange>,
    len: u64,
    i: int,
    prev_end: u64,
    stop: u64,
)
    requires
        rebuilt_so_far(segs, ranges, len, i, prev_end),
        0 <= i < ranges.len(),
        segs.len() > 0,
        ranges[i].offset <= prev_end < stop,
        stop == extent_stop(ranges[i], len),
    ensures
        rebuilt_so_far(
            segs.drop_last().push(
                Segment {
                    segment_type: SegmentType::Data,
                    range: Range { start: segs.last().range.start, end: stop },
                },
            ),
            ranges,
            len,
            i + 1,
            stop,
        ),
{
    let last = segs.last();
    let data = Segment {
        segment_type: SegmentType::Data,
        range: Range { start: last.range.start, end: stop },
    };
    let t = segs.drop_last().push(data);
    let k0 = segs.len() - 1;
    assert(t[k0] == data);
    assert forall|k: int| 0 <= k < k0 implies #[trigger] t[k] == segs[k] by {}
    assert(last.range.end == prev_end);
    assert(last.range.start < last.range.end);
    if k0 > 0 {
        assert(t[0] == segs[0]);
        assert(segs[k0 - 1].range.end == segs[k0].range.start);
        assert(segs[k0 - 1].segment_type != segs[k0].segment_type);
    }
    assert forall|k: int| 0 <= k < t.len() implies #[trigger] t[k].range.start < t[k].range.end by {
        if k < k0 {
            assert(segs[k].range.start < segs[k].range.end);
        }
    }
    assert forall|k: int| 0 <= k < t.len() - 1 implies #[trigger] t[k].range.end == t[k
        + 1].range.start by {
        assert(segs[k].range.end == segs[k + 1].range.start);
    }
    assert forall|a: int, b: int|
        0 <= a && b == a + 1 && b < t.len() implies #[trigger] t[a].segment_type
        != #[trigger] t[b].segment_type by {
        assert(segs[a].segment_type != segs[b].segment_type);
    }
    assert forall|k: int, b: int|
        #![trigger t[k].spec_contains(b)]
        0 <= k < t.len() && t[k].spec_contains(b) implies (t[k].segment_type == SegmentType::Data
        ==> allocated(ranges, b)) && (t[k].segment_type == SegmentType::Hole && sorted_by_offset(
        ranges,
    ) ==> !allocated(ranges, b)) by {
        if k < k0 {
            assert(segs[k].spec_contains(b));
        } else if b < prev_end {
            assert(segs[k0].spec_contains(b));
        } else {
            assert(ranges[i].holds(b));
        }
    }
    assert forall|j: int, b: int|
        #![trigger ranges[j].holds(b)]
        0 <= j < i + 1 && stop <= b < len implies !ranges[j].holds(b) by {}
}

proof fn lemma_first_extent(ranges: Seq<FileAllocatedRange>, len: u64, i: int, stop: u64)
    requires
        rebuilt_so_far(Seq::empty(), ranges, len, i, 0),
        0 <= i < ranges.len(),
        ranges[i].offset == 0,
        0 < stop,
        stop == extent_stop(ranges[i], len),
    ensures
        rebuilt_so_far(
            Seq::empty().push(
                Segment { segment_type: SegmentType::Data, range: Range { start: 0, end: stop } },
            ),
            ranges,
            len,
            i + 1,
            stop,
        ),
{
    let t = Seq::empty().push(
        Segment { segment_type: SegmentType::Data, range: Range { start: 0, end: stop } },
    );
    assert forall|k: int, b: int|
        #![trigger t[k].spec_contains(b)]
        0 <= k < t.len() && t[k].spec_contains(b) implies (t[k].segment_type == SegmentType::Data
        ==> allocated(ranges, b)) && (t[k].segment_type == SegmentType::Hole && sorted_by_offset(
        ranges,
    ) ==> !allocated(ranges, b)) by {
        assert(ranges[i].holds(b));
    }
    assert forall|j: int, b: int|
        #![trigger ranges[j].holds(b)]
        0 <= j < i + 1 && stop <= b < len implies !ranges[j].holds(b) by {}
}

proof fn lemma_trailing_hole(segs: Seq<Segment>, ranges: Seq<FileAllocatedRange>, len: u64, prev_end: u64)
    requires
        rebuilt_so_far(segs, ranges, len, ranges.len() as int, prev_end),
        prev_end < len,
    ensures
        rebuilt(
            segs.push(
                Segment { segment_type: SegmentType::Hole, range: Range { start: prev_end, end: len } },
            ),
            ranges,
            len,
        ),
{
    let hole = Segment { segment_type: SegmentType::Hole, range: Range { start: prev_end, end: len } };
    let t = segs.push(hole);
    let k0 = segs.len() as int;
    assert(t[k0] == hole);
    assert forall|k: int| 0 <= k < k0 implies #[trigger] t[k] == segs[k] by {}
    if k0 > 0 {
        assert(segs[k0 - 1].range.end == prev_end);
        assert(t[0] == segs[0]);
    }
    assert forall|k: int| 0 <= k < t.len() implies #[trigger] t[k].range.start < t[k].range.end by {
        if k < k0 {
            assert(segs[k].range.start < segs[k].range.end);
        }
    }
    assert forall|k: int| 0 <= k < t.len() - 1 implies #[trigger] t[k].range.end == t[k
        + 1].range.start by {
        if k + 1 < k0 {
            assert(segs[k].range.end == segs[k + 1].range.start);
        }
    }
    assert forall|a: int, b: int|
        0 <= a && b == a + 1 && b < t.len() implies #[trigger] t[a].segment_type
        != #[trigger] t[b].segment_type by {
        if b < k0 {
            assert(segs[a].segment_type != segs[b].segment_type);
        }
    }
    assert forall|k: int, b: int|
        #![trigger t[k].spec_contains(b)]
        0 <= k < t.len() && t[k].spec_contains(b) implies (t[k].segment_type == SegmentType::Data
        ==> allocated(ranges, b)) && (t[k].segment_type == SegmentType::Hole && sorted_by_offset(
        ranges,
    ) ==> !allocated(ranges, b)) by {
        if k < k0 {
            assert(segs[k].spec_contains(b));
        } else {
            assert forall|j: int| 0 <= j < ranges.len() implies !#[trigger] ranges[j].holds(b) by {}
        }
    }
}

proof fn lemma_rebuilt_describes(segs: Seq<Segment>, ranges: Seq<FileAllocatedRange>, len: u64)
    requires
        rebuilt(segs, ranges, len),
    ensures
        sorted_by_offset(ranges) ==> describes(segs, extents_layout(ranges, len as nat)),
{
    if sorted_by_offset(ranges) {
        let layout = extents_layout(ranges, len as nat);
        assert forall|k: int, b: int|
            #![trigger segs[k], layout[b]]
            0 <= k < segs.len() && segs[k].range.start <= b < segs[k].range.end implies layout[b]
                == segs[k].segment_type by {
            assert(segs[k].spec_contains(b));
            crate::layout::lemma_canonical_bounds(segs, len as int);
        }
    }
}

/// Rebuilds the segments of a file of `len` bytes from its allocated extents:
/// the gaps between them are holes. Extents are cut to the file's length and
/// to where the bytes before them are already placed.
pub fn segments_from_allocated(ranges: &Vec<FileAllocatedRange>, len: u64) -> (r: Vec<Segment>)
    ensures
        is_canonical(r@, len as int),
        sorted_by_offset(ranges@) ==> describes(r@, extents_layout(ranges@, len as nat)),
{
    let mut segments: Vec<Segment> = Vec::new();
    let mut prev_end: u64 = 0;
    let n = ranges.len();
    let mut i: usize = 0;
    while i < n
        invariant
            n == ranges@.len(),
            i <= n,
            rebuilt_so_far(segments@, ranges@, len, i as int, prev_end),
        decreases n - i,
    {
        let r = ranges[i];
        let stop: u64 = if r.offset >= len {
            len
        } else if r.length >= len - r.offset {
            len
        } else {
            r.offset + r.length
        };
        assert(stop == extent_stop(r, len));
        let start: u64 = if r.offset > prev_end {
            r.offset
        } else {
            prev_end
        };
        if start < stop {
            let ghost old_segs = segments@;
            if start > prev_end {
                segments.push(
                    Segment { segment_type: SegmentType::Hole, range: Range { start: prev_end, end: start } },
                );
                segments.push(
                    Segment { segment_type: SegmentType::Data, range: Range { start, end: stop } },
                );
                proof {
                    lemma_gap_then_extent(old_segs, ranges@, len, i as int, prev_end, start, stop);
                }
            } else if segments.len() > 0 {
                let last_start = segments[segments.len() - 1].range.start;
                segments.pop();
                segments.push(
                    Segment { segment_type: SegmentType::Data, range: Range { start: last_start, end: stop } },
                );
                proof {
                    lemma_extend_last(old_segs, ranges@, len, i as int, prev_end, stop);
                }
            } else {
                segments.push(
                    Segment { segment_type: SegmentType::Data, range: Range { start: 0, end: stop } },
                );
                proof {
                    lemma_first_extent(ranges@, len, i as int, stop);
                }
            }
            prev_end = stop;
        } else {
            proof {
                assert forall|j: int, b: int|
                    #![trigger ranges@[j].holds(b)]
                    0 <= j < i + 1 && prev_end <= b < len implies !ranges@[j].holds(b) by {
                }
            }
        }
        i = i + 1;
    }
    if prev_end < len {
        let ghost old_segs = segments@;
        segments.push(
            Segment { segment_type: SegmentType::Hole, range: Range { start: prev_end, end: len } },
        );
        proof {
            lemma_trailing_hole(old_segs, ranges@, len, prev_end);
        }
    }
    proof {
        if prev_end == len {
            assert(rebuilt(segments@, ranges@, len));
        }
        lemma_rebuilt_describes(segments@, ranges@, len);
    }
    segments
}

/// The allocated extents of a file built from a segment list: one for each
/// data segment, in order.
pub open spec fn data_extents(segs: Seq<Segment>) -> Seq<FileAllocatedRange>
    decreases segs.len(),
{
    if segs.len() == 0 {
        Seq::empty()
    } else if segs[0].segment_type == SegmentType::Data {
        seq![
            FileAllocatedRange {
                offset: segs[0].range.start,
                length: (segs[0].range.end - segs[0].range.start) as u64,
            },
        ].add(data_extents(segs.drop_first()))
    } else {
        data_extents(segs.drop_first())
    }
}

proof fn lemma_rest_ordered(segs: Seq<Segment>)
    requires
        nonempty_ranges(segs),
        contiguous(segs),
        segs.len() > 0,
    ensures
        nonempty_ranges(segs.drop_first()),
        contiguous(segs.drop_first()),
        segs.len() > 1 ==> segs.drop_first()[0].range.start == segs[0].range.end,
{
    let rest = segs.drop_first();
    assert forall|i: int| 0 <= i < rest.len() implies #[trigger] rest[i].range.start
        < rest[i].range.end by {
        assert(segs[i + 1].range.start < segs[i + 1].range.end);
    }
    assert forall|i: int| 0 <= i < rest.len() - 1 implies #[trigger] rest[i].range.end
        == rest[i + 1].range.start by {
        assert(segs[i + 1].range.end == segs[i + 2].range.start);
    }
    if segs.len() > 1 {
        assert(segs[0].range.end == segs[1].range.start);
    }
}

proof fn lemma_type_before(segs: Seq<Segment>, b: int)
    requires
        nonempty_ranges(segs),
        contiguous(segs),
        segs.len() > 0 ==> b < segs[0].range.start,
    ensures
        type_at(segs, b) == SegmentType::Hole,
    decreases segs.len(),
{
    if segs.len() > 0 {
        assert(segs[0].range.start < segs[0].range.end);
        lemma_rest_ordered(segs);
        lemma_type_before(segs.drop_first(), b);
    }
}

proof fn lemma_allocated_cons(e: FileAllocatedRange, rest: Seq<FileAllocatedRange>, b: int)
    ensures
        allocated(seq![e].add(rest), b) == (e.holds(b) || allocated(rest, b)),
{
    let all = seq![e].add(rest);
    if allocated(all, b) {
        let j = choose|j: int| 0 <= j < all.len() && #[trigger] all[j].holds(b);
        if j > 0 {
            assert(rest[j - 1].holds(b));
        }
    }
    if e.holds(b) {
        assert(all[0].holds(b));
    }
    if allocated(rest, b) {
        let j = choose|j: int| 0 <= j < rest.len() && #[trigger] rest[j].holds(b);
        assert(all[j + 1].holds(b));
    }
}

proof fn lemma_data_extents(segs: Seq<Segment>)
    requires
        nonempty_ranges(segs),
        contiguous(segs),
    ensures
        sorted_by_offset(data_extents(segs)),
        segs.len() > 0 ==> forall|i: int|
            0 <= i < data_extents(segs).len() ==> segs[0].range.start
                <= #[trigger] data_extents(segs)[i].offset,
        forall|b: int| #[trigger]
            allocated(data_extents(segs), b) == (type_at(segs, b) == SegmentType::Data),
    decreases segs.len(),
{
    if segs.len() > 0 {
        let rest = segs.drop_first();
        lemma_rest_ordered(segs);
        lemma_data_extents(rest);
        assert(segs[0].range.start < segs[0].range.end);
        let ext = data_extents(segs);
        let rest_ext = data_extents(rest);
        if segs[0].segment_type == SegmentType::Data {
            let e = FileAllocatedRange {
                offset: segs[0].range.start,
                length: (segs[0].range.end - segs[0].range.start) as u64,
            };
            assert(ext == seq![e].add(rest_ext));
            assert forall|i: int, j: int| 0 <= i < j < ext.len() implies #[trigger] ext[i].offset
                <= #[trigger] ext[j].offset by {
                if i > 0 {
                    assert(rest_ext[i - 1].offset <= rest_ext[j - 1].offset);
                } else {
                    assert(rest_ext[j - 1].offset >= rest[0].range.start);
                }
            }
            assert forall|i: int| 0 <= i < ext.len() implies segs[0].range.start
                <= #[trigger] ext[i].offset by {
                if i > 0 {
                    assert(rest_ext[i - 1].offset >= rest[0].range.start);
                }
            }
            assert forall|b: int| #[trigger]
                allocated(ext, b) == (type_at(segs, b) == SegmentType::Data) by {
                lemma_allocated_cons(e, rest_ext, b);
                assert(allocated(rest_ext, b) == (type_at(rest, b) == SegmentType::Data));
                if segs[0].spec_contains(b) && rest.len() > 0 {
                    lemma_type_before(rest, b);
                }
            }
        } else {
            assert(ext == rest_ext);
            assert forall|i: int| 0 <= i < ext.len() implies segs[0].range.start
                <= #[trigger] ext[i].offset by {
                assert(rest_ext[i].offset >= rest[0].range.start);
            }
            assert forall|b: int| #[trigger]
                allocated(ext, b) == (type_at(segs, b) == SegmentType::Data) by {
                assert(allocated(rest_ext, b) == (type_at(rest, b) == SegmentType::Data));
                if segs[0].spec_contains(b) && rest.len() > 0 {
                    lemma_type_before(rest, b);
                }
            }
        }
    }
}

/// A file whose allocated extents are the data segments of a canonical
/// description has the layout of that description, so the extents rebuild
/// to the description itself.
pub proof fn lemma_extents_round_trip(desc: Seq<Segment>, len: u64)
    requires
        is_canonical(desc, len as int),
    ensures
        sorted_by_offset(data_extents(desc)),
        extents_layout(data_extents(desc), len as nat) == layout_of(desc, len as nat),
        forall|found: Seq<Segment>|
            describes(found, extents_layout(data_extents(desc), len as nat)) ==> found == desc,
{
    lemma_data_extents(desc);
    assert(extents_layout(data_extents(desc), len as nat) =~= layout_of(desc, len as nat));
    lemma_layout_of(desc, len as nat);
    assert forall|found: Seq<Segment>|
        describes(found, extents_layout(data_extents(desc), len as nat)) implies found == desc by {
        lemma_description_unique(found, desc, layout_of(desc, len as nat));
    }
}

/// A query that the scan asks its caller to make on the file.
#[derive(Debug, Clone, Copy, PartialEq, Eq, Structural)]
pub enum ExtentRequest {
    /// Whether the file is marked as sparse.
    SparseFlag,
    /// The allocated extents among the first this many bytes.
    AllocatedRanges(u64),
    /// Nothing more to ask: the result is ready.
    Finished,
}

/// The answer to an `ExtentRequest`.
#[derive(Debug)]
pub enum ExtentReply {
    /// Whether the file is marked as sparse.
    SparseFlag(bool),
    /// The allocated extents, in the order the system gave them.
    AllocatedRanges(Vec<FileAllocatedRange>),
    /// The query failed.
    Failed(std::io::Error),
}

/// How far an extent scan has come.
#[derive(Debug, Clone, Copy, PartialEq, Eq, Structural)]
pub enum ExtentStage {
    /// Waiting for the sparse mark.
    SparseFlag,
    /// Waiting for the allocated extents.
    AllocatedRanges,
    /// Finished, with the segments or with an error.
    Done,
}

/// What an extent scan knows at one point.
pub struct ExtentScanView {
    pub stage: ExtentStage,
    /// The length of the file.
    pub len: u64,
    pub segments: Seq<Segment>,
    pub failure: Option<ScanError>,
}

impl ExtentScanView {
    pub open spec fn wf(self) -> bool {
        &&& (self.failure is Some ==> self.stage is Done)
        &&& (self.stage is Done && self.failure is None ==> is_canonical(self.segments, self.len as int))
        &&& (!(self.stage is Done) ==> self.len > 0)
    }

    pub open spec fn request(self) -> ExtentRequest {
        match self.stage {
            ExtentStage::SparseFlag => ExtentRequest::SparseFlag,
            ExtentStage::AllocatedRanges => ExtentRequest::AllocatedRanges(self.len),
            ExtentStage::Done => ExtentRequest::Finished,
        }
    }
}

/// A scan by allocated extents in progress.
pub struct ExtentScan {
    stage: ExtentStage,
    len: u64,
    segments: Vec<Segment>,
    failure: Option<ScanError>,
}

impl View for ExtentScan {
    type V = ExtentScanView;

    closed spec fn view(&self) -> ExtentScanView {
        ExtentScanView {
            stage: self.stage,
            len: self.len,
            segments: self.segments@,
            failure: self.failure,
        }
    }
}

impl ExtentScan {
    /// A scan of a file of `len` bytes. An empty file needs no query: it has
    /// no segments.
    pub fn new(len: u64) -> (r: ExtentScan)
        ensures
            r@.wf(),
            r@.len == len,
            r@.failure is None,
            len == 0 ==> r@.stage is Done && r@.segments.len() == 0,
            len > 0 ==> r@.stage is SparseFlag,
    {
        ExtentScan {
            stage: if len == 0 {
                ExtentStage::Done
            } else {
                ExtentStage::SparseFlag
            },
            len,
            segments: Vec::new(),
            failure: None,
        }
    }

    /// The query to make next, or `Finished`.
    pub fn request(&self) -> (r: ExtentRequest)
        ensures
            r == self@.request(),
    {
        match self.stage {
            ExtentStage::SparseFlag => ExtentRequest::SparseFlag,
            ExtentStage::AllocatedRanges => ExtentRequest::AllocatedRanges(self.len),
            ExtentStage::Done => ExtentRequest::Finished,
        }
    }

    /// Takes the answer to the last request and returns the next request. A
    /// file that is not marked sparse is taken as all data; a reply that
    /// answers another query than the one asked changes nothing.
    pub fn step(&mut self, reply: ExtentReply) -> (r: ExtentRequest)
        requires
            old(self)@.wf(),
        ensures
            final(self)@.wf(),
            r == final(self)@.request(),
            final(self)@.len == old(self)@.len,
            old(self)@.stage is Done ==> final(self)@ == old(self)@,
            !(old(self)@.stage is Done) ==> match reply {
                ExtentReply::Failed(e) => final(self)@ == ExtentScanView {
                    stage: ExtentStage::Done,
                    failure: Some(ScanError::IO(e)),
                    ..old(self)@
                },
                ExtentReply::SparseFlag(sparse) => {
                    if !(old(self)@.stage is SparseFlag) {
                        final(self)@ == old(self)@
                    } else if sparse {
                        final(self)@ == ExtentScanView {
                            stage: ExtentStage::AllocatedRanges,
                            ..old(self)@
                        }
                    } else {
                        &&& final(self)@.stage is Done
                        &&& final(self)@.failure is None
                        &&& final(self)@.segments == seq![
                            Segment {
                                segment_type: SegmentType::Data,
                                range: Range { start: 0, end: old(self)@.len },
                            },
                        ]
                    }
                },
                ExtentReply::AllocatedRanges(v) => {
                    if !(old(self)@.stage is AllocatedRanges) {
                        final(self)@ == old(self)@
                    } else {
                        &&& final(self)@.stage is Done
                        &&& final(self)@.failure is None
                        &&& is_canonical(final(self)@.segments, old(self)@.len as int)
                        &&& sorted_by_offset(v@) ==> describes(
                            final(self)@.segments,
                            extents_layout(v@, old(self)@.len as nat),
                        )
                    }
                },
            },
    {
        if self.stage == ExtentStage::Done {
            return self.request();
        }
        match reply {
            ExtentReply::Failed(e) => {
                self.stage = ExtentStage::Done;
                self.failure = Some(ScanError::IO(e));
            },
            ExtentReply::SparseFlag(sparse) => {
                if self.stage == ExtentStage::SparseFlag {
                    if sparse {
                        self.stage = ExtentStage::AllocatedRanges;
                    } else {
                        let mut segments: Vec<Segment> = Vec::new();
                        segments.push(
                            Segment {
                                segment_type: SegmentType::Data,
                                range: Range { start: 0, end: self.len },
                            },
                        );
                        self.segments = segments;
                        self.stage = ExtentStage::Done;
                        proof {
                            assert(self.segments@ =~= seq![
                                Segment {
                                    segment_type: SegmentType::Data,
                                    range: Range { start: 0, end: self.len },
                                },
                            ]);
                        }
                    }
                }
            },
            ExtentReply::AllocatedRanges(v) => {
                if self.stage == ExtentStage::AllocatedRanges {
                    self.segments = segments_from_allocated(&v, self.len);
                    self.stage = ExtentStage::Done;
                }
            },
        }
        self.request()
    }

    /// The outcome of a finished scan: the segments, or the error that ended
    /// it. `None` while the scan still has requests.
    pub fn into_result(self) -> (r: Option<Result<Vec<Segment>, ScanError>>)
        requires
            self@.wf(),
        ensures
            !(self@.stage is Done) ==> r is None,
            self@.stage is Done && self@.failure is None ==> (r matches Some(Ok(v)) && v@
                == self@.segments && is_canonical(v@, self@.len as int)),
            self@.stage is Done && self@.failure is Some ==> r == Some(
                Err::<Vec<Segment>, ScanError>(self@.failure->0),
            ),
    {
        if self.stage != ExtentStage::Done {
            return None;
        }
        match self.failure {
            Some(e) => Some(Err(e)),
            None => Some(Ok(self.segments)),
        }
    }
}

} // verus!
