use std::ops::Range;
use vstd::prelude::*;

verus! {

/// Whether a byte range is backed by storage or reads as zero.
#[derive(Debug, Clone, Copy, PartialEq, Eq, Structural)]
pub enum SegmentType {
    Hole,
    Data,
}

impl SegmentType {
    pub open spec fn spec_opposite(self) -> SegmentType {
        match self {
            SegmentType::Hole => SegmentType::Data,
            SegmentType::Data => SegmentType::Hole,
        }
    }

    /// The other type: `Hole` for `Data` and `Data` for `Hole`.
    pub fn opposite(&self) -> (r: SegmentType)
        ensures
            r == self.spec_opposite(),
    {
        match self {
            SegmentType::Hole => SegmentType::Data,
            SegmentType::Data => SegmentType::Hole,
        }
    }
}

/// A half-open range of bytes of a file, with its type.
#[derive(Debug, PartialEq, Eq)]
pub struct Segment {
    /// Marks this segment as either containing a hole, or containing data
    pub segment_type: SegmentType,
    /// The (half-open) range of bytes in the file covered by this segment
    pub range: Range<u64>,
}

impl Clone for Segment {
    fn clone(&self) -> (r: Segment)
        ensures
            r == *self,
    {
        Segment {
            segment_type: self.segment_type,
            range: Range { start: self.range.start, end: self.range.end },
        }
    }
}

impl Segment {
    pub open spec fn spec_contains(&self, offset: int) -> bool {
        self.range.start <= offset < self.range.end
    }

    /// Returns true if the provided offset is within the range of bytes this
    /// segment specifies.
    pub fn contains(&self, offset: &u64) -> (r: bool)
        ensures
            r == self.spec_contains(*offset as int),
    {
        self.range.start <= *offset && *offset < self.range.end
    }

    /// Returns true if this segment is a hole.
    pub fn is_hole(&self) -> (r: bool)
        ensures
            r == (self.segment_type == SegmentType::Hole),
    {
        self.segment_type == SegmentType::Hole
    }

    /// Returns true if this segment contains data.
    pub fn is_data(&self) -> (r: bool)
        ensures
            r == (self.segment_type == SegmentType::Data),
    {
        self.segment_type == SegmentType::Data
    }

    /// The starting position of this segment.
    pub fn start(&self) -> (r: u64)
        ensures
            r == self.range.start,
    {
        self.range.start
    }

    /// The number of bytes in this segment.
    pub fn len(&self) -> (r: u64)
        requires
            self.range.start <= self.range.end,
        ensures
            r == self.range.end - self.range.start,
    {
        self.range.end - self.range.start
    }
}

/// Every segment holds at least one byte.
pub open spec fn nonempty_ranges(segs: Seq<Segment>) -> bool {
    forall|i: int| 0 <= i < segs.len() ==> #[trigger] segs[i].range.start < segs[i].range.end
}

/// Each segment ends where the next one starts.
pub open spec fn contiguous(segs: Seq<Segment>) -> bool {
    forall|i: int|
        0 <= i < segs.len() - 1 ==> #[trigger] segs[i].range.end == segs[i + 1].range.start
}

/// No two neighbouring segments have the same type.
pub open spec fn alternates(segs: Seq<Segment>) -> bool {
    forall|i: int, j: int|
        0 <= i && j == i + 1 && j < segs.len() ==> #[trigger] segs[i].segment_type
            != #[trigger] segs[j].segment_type
}

/// The segments run from offset 0 to `len`; an empty list covers only a
/// length of 0.
pub open spec fn covers(segs: Seq<Segment>, len: int) -> bool {
    if segs.len() == 0 {
        len == 0
    } else {
        &&& segs[0].range.start == 0
        &&& segs.last().range.end == len
    }
}

/// The form of every scan result: non-empty, contiguous, alternating segments
/// that cover `[0, len)` exactly.
pub open spec fn is_canonical(segs: Seq<Segment>, len: int) -> bool {
    &&& nonempty_ranges(segs)
    &&& contiguous(segs)
    &&& alternates(segs)
    &&& covers(segs, len)
}

/// The ranges of the segments of type `t`, in their order.
pub open spec fn ranges_of_type(segs: Seq<Segment>, t: SegmentType) -> Seq<Range<u64>>
    decreases segs.len(),
{
    if segs.len() == 0 {
        Seq::empty()
    } else if segs[0].segment_type == t {
        seq![segs[0].range].add(ranges_of_type(segs.drop_first(), t))
    } else {
        ranges_of_type(segs.drop_first(), t)
    }
}

/// The ranges of one type of segment in a list, one after another.
#[derive(Debug)]
pub struct SegmentIter<'a> {
    segment_type: SegmentType,
    segments: &'a Vec<Segment>,
    position: usize,
}

impl<'a> SegmentIter<'a> {
    pub closed spec fn kind(&self) -> SegmentType {
        self.segment_type
    }

    /// The ranges that are still to come.
    pub closed spec fn remaining(&self) -> Seq<Range<u64>> {
        ranges_of_type(self.segments@.subrange(self.position as int, self.segments@.len() as int), self.segment_type)
    }

    pub closed spec fn wf(&self) -> bool {
        self.position <= self.segments@.len()
    }

    fn over(segments: &'a Vec<Segment>, segment_type: SegmentType) -> (r: SegmentIter<'a>)
        ensures
            r.wf(),
            r.kind() == segment_type,
            r.remaining() == ranges_of_type(segments@, segment_type),
    {
        let r = SegmentIter { segment_type, segments, position: 0 };
        assert(segments@.subrange(0, segments@.len() as int) =~= segments@);
        r
    }

    /// The next range of the selected type, or `None` once all were given.
    pub fn next(&mut self) -> (r: Option<&'a Range<u64>>)
        requires
            old(self).wf(),
        ensures
            final(self).wf(),
            final(self).kind() == old(self).kind(),
            old(self).remaining().len() == 0 ==> r is None && final(self).remaining().len() == 0,
            old(self).remaining().len() > 0 ==> (r matches Some(x) && *x == old(self).remaining()[0]
                && final(self).remaining() == old(self).remaining().drop_first()),
    {
        let segs: &'a Vec<Segment> = self.segments;
        while self.position < segs.len()
            invariant
                self.segments == segs,
                self.position <= segs@.len(),
                self.segment_type == old(self).segment_type,
                self.remaining() == old(self).remaining(),
            decreases segs@.len() - self.position,
        {
            let i = self.position;
            proof {
                let rest = segs@.subrange(i as int, segs@.len() as int);
                assert(rest.drop_first() =~= segs@.subrange(i + 1, segs@.len() as int));
            }
            self.position = i + 1;
            if segs[i].segment_type == self.segment_type {
                return Some(&segs[i].range);
            }
        }
        proof {
            assert(segs@.subrange(self.position as int, segs@.len() as int) =~= Seq::<Segment>::empty());
        }
        None
    }
}

/// Selects the hole or the data segments of a list.
pub trait Segments {
    spec fn segment_seq(&self) -> Seq<Segment>;

    /// The ranges of the data segments, in order.
    fn data(&self) -> (r: SegmentIter<'_>)
        ensures
            r.wf(),
            r.kind() == SegmentType::Data,
            r.remaining() == ranges_of_type(self.segment_seq(), SegmentType::Data),
    ;

    /// The ranges of the hole segments, in order.
    fn holes(&self) -> (r: SegmentIter<'_>)
        ensures
            r.wf(),
            r.kind() == SegmentType::Hole,
            r.remaining() == ranges_of_type(self.segment_seq(), SegmentType::Hole),
    ;
}

impl Segments for Vec<Segment> {
    open spec fn segment_seq(&self) -> Seq<Segment> {
        self@
    }

    fn data(&self) -> (r: SegmentIter<'_>) {
        SegmentIter::over(self, SegmentType::Data)
    }

    fn holes(&self) -> (r: SegmentIter<'_>) {
        SegmentIter::over(self, SegmentType::Hole)
    }
}

} // verus!
