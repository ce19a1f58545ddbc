//! The scanner for systems whose seek call can look for the next hole or the
//! next data from an offset.
//!
//! The scan is a state machine. Its caller makes each seek that `request`
//! names on the file and hands the answer to `step`, until the request is
//! `Finished`; `into_result` then gives the segments.
use std::ops::Range;
use vstd::prelude::*;

use crate::error::ScanError;
use crate::layout::{
    describes, layout_of, lemma_canonical_bounds, lemma_description_unique, lemma_layout_of,
    lemma_next_of, lemma_punch_holes_unchanged, lemma_punch_idempotent, next_of, punched,
};
use crate::segment::{is_canonical, Segment, SegmentType};

verus! {

/// A seek that the scanner asks its caller to make on the file.
#[derive(Debug, Clone, Copy, PartialEq, Eq, Structural)]
pub enum SeekRequest {
    /// Seek to the end of the file: the answer is the file's length.
    End,
    /// Find the first offset at or after this one that lies in a hole.
    Hole(u64),
    /// Find the first offset at or after this one that lies in data.
    Data(u64),
    /// Nothing more to ask: the result is ready.
    Finished,
}

/// The outcome of a seek.
#[derive(Debug)]
pub enum SeekReply {
    /// The offset that the seek reached.
    Offset(u64),
    /// There is no such offset before the end of the file.
    NoOffset,
    /// The file system cannot report holes and data.
    Unsupported,
    /// Any other failure of the seek.
    Failed(std::io::Error),
}

/// How far a scan has come.
#[derive(Debug, Clone, Copy, PartialEq, Eq, Structural)]
pub enum ScanStage {
    /// Waiting for the length of the file.
    Length,
    /// Waiting for the first hole.
    FirstHole,
    /// Waiting for the end of the segment that starts at the cursor.
    Walk,
    /// Finished, with the segments or with an error.
    Done,
}

/// What a scan knows at one point.
pub struct SeekScanView {
    pub stage: ScanStage,
    /// The length of the file.
    pub end: u64,
    /// Where the segments found so far end.
    pub cursor: u64,
    /// The type of the bytes from the cursor on.
    pub current: SegmentType,
    pub segments: Seq<Segment>,
    pub failure: Option<ScanError>,
}

impl SeekScanView {
    pub open spec fn initial() -> SeekScanView {
        SeekScanView {
            stage: ScanStage::Length,
            end: 0,
            cursor: 0,
            current: SegmentType::Hole,
            segments: Seq::empty(),
            failure: None,
        }
    }

    /// What holds at every point of a scan, whatever the answers were.
    pub open spec fn wf(self) -> bool {
        &&& self.cursor <= self.end
        &&& is_canonical(self.segments, self.cursor as int)
        &&& (self.stage is Length ==> self.cursor == 0)
        &&& (self.stage is FirstHole ==> self.cursor == 0 && self.end > 0)
        &&& (self.stage is Walk ==> self.cursor < self.end && (self.segments.len() > 0
            ==> self.segments.last().segment_type != self.current))
        &&& (self.failure is Some ==> self.stage is Done)
        &&& (self.stage is Done && self.failure is None ==> self.cursor == self.end)
    }

    /// The seek to make next.
    pub open spec fn request(self) -> SeekRequest {
        match self.stage {
            ScanStage::Length => SeekRequest::End,
            ScanStage::FirstHole => SeekRequest::Hole(0),
            ScanStage::Walk => {
                if self.current == SegmentType::Hole {
                    SeekRequest::Data(self.cursor)
                } else {
                    SeekRequest::Hole(self.cursor)
                }
            },
            ScanStage::Done => SeekRequest::Finished,
        }
    }

    /// The scan after a seek found `found` (`None`: nothing before the end).
    ///
    /// An offset past the end of the file, or one that does not move past the
    /// cursor, is taken as no transition: the rest of the file is of the
    /// current type.
    pub open spec fn advance(self, found: Option<u64>) -> SeekScanView {
        match self.stage {
            ScanStage::Length => {
                let end = match found {
                    Some(x) => x,
                    None => 0,
                };
                SeekScanView {
                    stage: if end == 0 {
                        ScanStage::Done
                    } else {
                        ScanStage::FirstHole
                    },
                    end,
                    ..self
                }
            },
            ScanStage::FirstHole => {
                let h = match found {
                    Some(x) => if x <= self.end {
                        x
                    } else {
                        self.end
                    },
                    None => self.end,
                };
                SeekScanView {
                    stage: if h == self.end {
                        ScanStage::Done
                    } else {
                        ScanStage::Walk
                    },
                    cursor: h,
                    current: SegmentType::Hole,
                    segments: if h > 0 {
                        seq![
                            Segment {
                                segment_type: SegmentType::Data,
                                range: Range { start: 0, end: h },
                            },
                        ]
                    } else {
                        Seq::empty()
                    },
                    ..self
                }
            },
            ScanStage::Walk => {
                let n = match found {
                    Some(x) => if self.cursor < x && x <= self.end {
                        x
                    } else {
                        self.end
                    },
                    None => self.end,
                };
                SeekScanView {
                    stage: if n == self.end {
                        ScanStage::Done
                    } else {
                        ScanStage::Walk
                    },
                    cursor: n,
                    current: self.current.spec_opposite(),
                    segments: self.segments.push(
                        Segment { segment_type: self.current, range: Range { start: self.cursor, end: n } },
                    ),
                    ..self
                }
            },
            ScanStage::Done => self,
        }
    }

    /// The scan after the answer `reply` to its request.
    pub open spec fn next(self, reply: SeekReply) -> SeekScanView {
        if self.stage is Done {
            self
        } else {
            match reply {
                SeekReply::Offset(x) => self.advance(Some(x)),
                SeekReply::NoOffset => self.advance(None),
                SeekReply::Unsupported => SeekScanView {
                    stage: ScanStage::Done,
                    failure: Some(ScanError::UnsupportedFileSystem),
                    ..self
                },
                SeekReply::Failed(e) => SeekScanView {
                    stage: ScanStage::Done,
                    failure: Some(ScanError::IO(e)),
                    ..self
                },
            }
        }
    }
}

/// Each answer keeps a scan well formed.
pub proof fn lemma_next_wf(s: SeekScanView, reply: SeekReply)
    requires
        s.wf(),
    ensures
        s.next(reply).wf(),
{
    if s.stage is Walk && !(reply is Unsupported) && !(reply is Failed) {
        let found = match reply {
            SeekReply::Offset(x) => Some(x),
            _ => None,
        };
        let t = s.advance(found);
        let segs = t.segments;
        let k = s.segments.len() as int;
        assert(segs[k].range.start == s.cursor);
        assert(segs[k].range.end == t.cursor);
        assert(t.cursor > s.cursor);
        assert forall|i: int, j: int|
            0 <= i && j == i + 1 && j < segs.len() implies #[trigger] segs[i].segment_type
            != #[trigger] segs[j].segment_type by {
            if j < k {
                assert(s.segments[i] == segs[i]);
                assert(s.segments[j] == segs[j]);
            } else {
                assert(s.segments.last() == segs[i]);
            }
        }
        assert forall|i: int| 0 <= i < segs.len() - 1 implies #[trigger] segs[i].range.end
            == segs[i + 1].range.start by {
            if i + 1 < k {
                assert(s.segments[i] == segs[i]);
                assert(s.segments[i + 1] == segs[i + 1]);
            } else {
                assert(s.segments.last() == segs[i]);
            }
        }
        assert forall|i: int| 0 <= i < segs.len() implies #[trigger] segs[i].range.start
            < segs[i].range.end by {
            if i < k {
                assert(s.segments[i] == segs[i]);
                assert(s.segments[i].range.start < s.segments[i].range.end);
            }
        }
        if k > 0 {
            assert(segs[0] == s.segments[0]);
        }
        assert(t.wf());
    }
    if s.stage is FirstHole && !(reply is Unsupported) && !(reply is Failed) {
        assert(s.next(reply).wf());
    }
    if s.stage is Length {
        assert(s.next(reply).wf());
    }
}

/// The answer that seeking gives on a file laid out as `layout`.
///
/// Past the last data there is no data to find; past the last byte there is
/// no hole either, but the end of the file counts as one.
pub open spec fn answer(layout: Seq<SegmentType>, q: SeekRequest) -> SeekReply {
    match q {
        SeekRequest::End => SeekReply::Offset(layout.len() as u64),
        SeekRequest::Hole(off) => {
            if off < layout.len() {
                SeekReply::Offset(next_of(layout, off as int, SegmentType::Hole) as u64)
            } else {
                SeekReply::NoOffset
            }
        },
        SeekRequest::Data(off) => {
            if off < layout.len() && next_of(layout, off as int, SegmentType::Data) < layout.len() {
                SeekReply::Offset(next_of(layout, off as int, SegmentType::Data) as u64)
            } else {
                SeekReply::NoOffset
            }
        },
        SeekRequest::Finished => SeekReply::NoOffset,
    }
}

/// A scan after at most `fuel` requests, each answered as `layout` dictates.
pub open spec fn run(s: SeekScanView, layout: Seq<SegmentType>, fuel: nat) -> SeekScanView
    decreases fuel,
{
    if fuel == 0 || s.stage is Done {
        s
    } else {
        run(s.next(answer(layout, s.request())), layout, (fuel - 1) as nat)
    }
}

proof fn lemma_walk_step(s: SeekScanView, layout: Seq<SegmentType>)
    requires
        s.wf(),
        s.stage is Walk,
        s.failure is None,
        s.end == layout.len(),
        layout[s.cursor as int] == s.current,
    ensures
        ({
            let n = next_of(layout, s.cursor as int, s.current.spec_opposite());
            let t = s.next(answer(layout, s.request()));
            &&& s.cursor < n <= layout.len()
            &&& t.wf()
            &&& t.cursor == n
            &&& t.current == s.current.spec_opposite()
            &&& t.end == s.end
            &&& t.failure is None
            &&& t.stage == if n == layout.len() {
                ScanStage::Done
            } else {
                ScanStage::Walk
            }
            &&& t.segments == s.segments.push(
                Segment { segment_type: s.current, range: Range { start: s.cursor, end: n as u64 } },
            )
        }),
{
    let c = s.cursor as int;
    lemma_next_of(layout, c, s.current.spec_opposite());
    lemma_next_wf(s, answer(layout, s.request()));
}

proof fn lemma_walk(s: SeekScanView, layout: Seq<SegmentType>, fuel: nat)
    requires
        s.wf(),
        s.stage is Walk,
        s.failure is None,
        s.end == layout.len(),
        describes(s.segments, layout.subrange(0, s.cursor as int)),
        layout[s.cursor as int] == s.current,
        fuel >= layout.len() - s.cursor,
    ensures
        run(s, layout, fuel).stage is Done,
        run(s, layout, fuel).failure is None,
        describes(run(s, layout, fuel).segments, layout),
    decreases layout.len() - s.cursor,
{
    let len = layout.len() as int;
    let c = s.cursor as int;
    let want = s.current.spec_opposite();
    lemma_next_of(layout, c, want);
    lemma_walk_step(s, layout);
    let n = next_of(layout, c, want);
    let t = s.next(answer(layout, s.request()));
    assert(run(s, layout, fuel) == run(t, layout, (fuel - 1) as nat));
    let prefix = layout.subrange(0, n);
    let old_prefix = layout.subrange(0, c);
    let k = s.segments.len() as int;
    assert forall|j: int, b: int|
        #![trigger t.segments[j], prefix[b]]
        0 <= j < t.segments.len() && t.segments[j].range.start <= b < t.segments[j].range.end
            implies prefix[b] == t.segments[j].segment_type by {
        if j < k {
            assert(t.segments[j] == s.segments[j]);
            assert(old_prefix[b] == s.segments[j].segment_type);
            assert(b < c) by {
                if c > 0 {
                    assert(s.segments.last().range.end == c);
                    crate::layout::lemma_canonical_bounds(s.segments, c);
                }
            }
            assert(prefix[b] == old_prefix[b]);
        } else {
            assert(layout[b] != want);
        }
    }
    if n < len {
        lemma_walk(t, layout, (fuel - 1) as nat);
    } else {
        assert(prefix =~= layout);
        assert(run(t, layout, (fuel - 1) as nat) == t);
    }
}

/// Answering every request as the file's layout dictates, a scan finishes
/// within `len + 2` requests with the one canonical description of the file:
/// no hole segment holds a data byte and no data segment a hole byte.
pub proof fn lemma_scan_finds_layout(layout: Seq<SegmentType>)
    requires
        layout.len() <= u64::MAX,
    ensures
        run(SeekScanView::initial(), layout, layout.len() + 2).stage is Done,
        run(SeekScanView::initial(), layout, layout.len() + 2).failure is None,
        describes(run(SeekScanView::initial(), layout, layout.len() + 2).segments, layout),
{
    let len = layout.len() as int;
    let s0 = SeekScanView::initial();
    let s1 = s0.next(answer(layout, s0.request()));
    lemma_next_wf(s0, answer(layout, s0.request()));
    assert(s1.end == len);
    if len == 0 {
        assert(s1.stage is Done);
        assert(run(s1, layout, (len + 1) as nat) == s1);
        assert(s1.segments =~= Seq::<Segment>::empty());
    } else {
        assert(s1.stage is FirstHole);
        lemma_next_of(layout, 0, SegmentType::Hole);
        let h = next_of(layout, 0, SegmentType::Hole);
        let s2 = s1.next(answer(layout, s1.request()));
        lemma_next_wf(s1, answer(layout, s1.request()));
        assert(s2.cursor == h);
        let prefix = layout.subrange(0, h);
        assert forall|j: int, b: int|
            #![trigger s2.segments[j], prefix[b]]
            0 <= j < s2.segments.len() && s2.segments[j].range.start <= b < s2.segments[j].range.end
                implies prefix[b] == s2.segments[j].segment_type by {
            assert(layout[b] != SegmentType::Hole);
        }
        if h < len {
            assert(s2.stage is Walk);
            lemma_walk(s2, layout, len as nat);
        } else {
            assert(prefix =~= layout);
            assert(s2.stage is Done);
            assert(run(s2, layout, len as nat) == s2);
        }
    }
}

/// A scan in progress.
pub struct SeekScan {
    stage: ScanStage,
    end: u64,
    cursor: u64,
    current: SegmentType,
    segments: Vec<Segment>,
    failure: Option<ScanError>,
}

impl View for SeekScan {
    type V = SeekScanView;

    closed spec fn view(&self) -> SeekScanView {
        SeekScanView {
            stage: self.stage,
            end: self.end,
            cursor: self.cursor,
            current: self.current,
            segments: self.segments@,
            failure: self.failure,
        }
    }
}

impl SeekScan {
    /// A scan that has asked nothing yet; its first request is `End`.
    pub fn new() -> (r: SeekScan)
        ensures
            r@ == SeekScanView::initial(),
            r@.wf(),
    {
        SeekScan {
            stage: ScanStage::Length,
            end: 0,
            cursor: 0,
            current: SegmentType::Hole,
            segments: Vec::new(),
            failure: None,
        }
    }

    /// The seek to make next, or `Finished`.
    pub fn request(&self) -> (r: SeekRequest)
        ensures
            r == self@.request(),
    {
        match self.stage {
            ScanStage::Length => SeekRequest::End,
            ScanStage::FirstHole => SeekRequest::Hole(0),
            ScanStage::Walk => {
                if self.current == SegmentType::Hole {
                    SeekRequest::Data(self.cursor)
                } else {
                    SeekRequest::Hole(self.cursor)
                }
            },
            ScanStage::Done => SeekRequest::Finished,
        }
    }

    /// Takes the answer to the last request and returns the next request.
    pub fn step(&mut self, reply: SeekReply) -> (r: SeekRequest)
        requires
            old(self)@.wf(),
        ensures
            final(self)@ == old(self)@.next(reply),
            final(self)@.wf(),
            r == final(self)@.request(),
    {
        proof {
            lemma_next_wf(self@, reply);
        }
        if self.stage == ScanStage::Done {
            return self.request();
        }
        match reply {
            SeekReply::Offset(x) => self.advance(Some(x)),
            SeekReply::NoOffset => self.advance(None),
            SeekReply::Unsupported => {
                self.stage = ScanStage::Done;
                self.failure = Some(ScanError::UnsupportedFileSystem);
            },
            SeekReply::Failed(e) => {
                self.stage = ScanStage::Done;
                self.failure = Some(ScanError::IO(e));
            },
        }
        self.request()
    }

    fn advance(&mut self, found: Option<u64>)
        requires
            old(self)@.wf(),
            !(old(self)@.stage is Done),
        ensures
            final(self)@ == old(self)@.advance(found),
    {
        match self.stage {
            ScanStage::Length => {
                let end: u64 = match found {
                    Some(x) => x,
                    None => 0,
                };
                self.end = end;
                self.stage = if end == 0 {
                    ScanStage::Done
                } else {
                    ScanStage::FirstHole
                };
            },
            ScanStage::FirstHole => {
                let h: u64 = match found {
                    Some(x) => if x <= self.end {
                        x
                    } else {
                        self.end
                    },
                    None => self.end,
                };
                proof {
                    let old_segs = self.segments@;
                    if old_segs.len() > 0 {
                        let l = old_segs.len() - 1;
                        assert(old_segs[l].range.start < old_segs[l].range.end);
                    }
                    assert(old_segs.len() == 0);
                }
                if h > 0 {
                    self.segments.push(
                        Segment { segment_type: SegmentType::Data, range: Range { start: 0, end: h } },
                    );
                }
                proof {
                    if h > 0 {
                        assert(self.segments@ =~= seq![
                            Segment {
                                segment_type: SegmentType::Data,
                                range: Range { start: 0, end: h },
                            },
                        ]);
                    } else {
                        assert(self.segments@ =~= Seq::<Segment>::empty());
                    }
                }
                self.cursor = h;
                self.current = SegmentType::Hole;
                self.stage = if h == self.end {
                    ScanStage::Done
                } else {
                    ScanStage::Walk
                };
            },
            ScanStage::Walk => {
                let n: u64 = match found {
                    Some(x) => if self.cursor < x && x <= self.end {
                        x
                    } else {
                        self.end
                    },
                    None => self.end,
                };
                self.segments.push(
                    Segment { segment_type: self.current, range: Range { start: self.cursor, end: n } },
                );
                self.cursor = n;
                self.current = self.current.opposite();
                self.stage = if n == self.end {
                    ScanStage::Done
                } else {
                    ScanStage::Walk
                };
            },
            ScanStage::Done => {},
        }
    }

    /// The outcome of a finished scan: the segments, or the error that ended
    /// it. `None` while the scan still has requests.
    pub fn into_result(self) -> (r: Option<Result<Vec<Segment>, ScanError>>)
        requires
            self@.wf(),
        ensures
            !(self@.stage is Done) ==> r is None,
            self@.stage is Done && self@.failure is None ==> (r matches Some(Ok(v)) && v@
                == self@.segments && is_canonical(v@, self@.end as int)),
            self@.stage is Done && self@.failure is Some ==> r == Some(
                Err::<Vec<Segment>, ScanError>(self@.failure->0),
            ),
    {
        if self.stage != ScanStage::Done {
            return None;
        }
        match self.failure {
            Some(e) => Some(Err(e)),
            None => Some(Ok(self.segments)),
        }
    }
}

/// A file built from a canonical segment list scans back to that very list.
pub proof fn lemma_scan_round_trip(desc: Seq<Segment>, len: nat)
    requires
        is_canonical(desc, len as int),
        len <= u64::MAX,
    ensures
        run(SeekScanView::initial(), layout_of(desc, len), len + 2).stage is Done,
        run(SeekScanView::initial(), layout_of(desc, len), len + 2).failure is None,
        run(SeekScanView::initial(), layout_of(desc, len), len + 2).segments == desc,
{
    let layout = layout_of(desc, len);
    lemma_layout_of(desc, len);
    lemma_scan_finds_layout(layout);
    lemma_description_unique(run(SeekScanView::initial(), layout, len + 2).segments, desc, layout);
}

/// Scanning a file built from a canonical description finds hole segments
/// only where the description has no data.
pub proof fn lemma_scan_holes_hold_no_data(desc: Seq<Segment>, len: nat)
    requires
        is_canonical(desc, len as int),
        len <= u64::MAX,
    ensures
        ({
            let found = run(SeekScanView::initial(), layout_of(desc, len), len + 2).segments;
            forall|k: int, j: int|
                0 <= k < found.len() && 0 <= j < desc.len() && found[k].segment_type
                    == SegmentType::Hole && desc[j].segment_type == SegmentType::Data
                    ==> #[trigger] found[k].range.end <= #[trigger] desc[j].range.start
                    || desc[j].range.end <= found[k].range.start
        }),
{
    lemma_scan_round_trip(desc, len);
    lemma_canonical_bounds(desc, len as int);
}

/// After a punch of bytes that are holes already, a scan finds what it found
/// before.
pub proof fn lemma_scan_after_needless_punch(layout: Seq<SegmentType>, start: int, end: int)
    requires
        layout.len() <= u64::MAX,
        forall|b: int| start <= b < end && 0 <= b < layout.len() ==> layout[b] == SegmentType::Hole,
    ensures
        run(SeekScanView::initial(), punched(layout, start, end), layout.len() + 2).segments
            == run(SeekScanView::initial(), layout, layout.len() + 2).segments,
{
    lemma_scan_finds_layout(layout);
    lemma_punch_holes_unchanged(run(SeekScanView::initial(), layout, layout.len() + 2).segments, layout, start, end);
}

/// After a second punch of the same range, a scan finds what it found after
/// the first.
pub proof fn lemma_scan_after_second_punch(layout: Seq<SegmentType>, start: int, end: int)
    ensures
        run(SeekScanView::initial(), punched(punched(layout, start, end), start, end), layout.len() + 2)
            == run(SeekScanView::initial(), punched(layout, start, end), layout.len() + 2),
{
    lemma_punch_idempotent(layout, start, end);
}

} // verus!
