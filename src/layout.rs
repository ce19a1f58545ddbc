//! A file modelled as the type of each of its bytes, and what a segment list
//! must be to describe it.
use vstd::prelude::*;

use crate::segment::{contiguous, is_canonical, nonempty_ranges, Segment, SegmentType};

verus! {

/// The first offset at or after `from` whose byte has type `t`, or the length
/// of the layout if there is none.
pub open spec fn next_of(layout: Seq<SegmentType>, from: int, t: SegmentType) -> int
    decreases layout.len() - from,
{
    if from >= layout.len() {
        layout.len() as int
    } else if layout[from] == t {
        from
    } else {
        next_of(layout, from + 1, t)
    }
}

/// Every byte inside a segment has that segment's type.
pub open spec fn types_match(segs: Seq<Segment>, layout: Seq<SegmentType>) -> bool {
    forall|k: int, b: int|
        #![trigger segs[k], layout[b]]
        0 <= k < segs.len() && segs[k].range.start <= b < segs[k].range.end ==> layout[b]
            == segs[k].segment_type
}

/// `segs` is the one canonical segment list of a file laid out as `layout`.
pub open spec fn describes(segs: Seq<Segment>, layout: Seq<SegmentType>) -> bool {
    &&& is_canonical(segs, layout.len() as int)
    &&& types_match(segs, layout)
}

/// The type of byte `b` according to a segment list: that of the first
/// segment holding it (a hole where none does).
pub open spec fn type_at(segs: Seq<Segment>, b: int) -> SegmentType
    decreases segs.len(),
{
    if segs.len() == 0 {
        SegmentType::Hole
    } else if segs[0].spec_contains(b) {
        segs[0].segment_type
    } else {
        type_at(segs.drop_first(), b)
    }
}

/// The layout of a file of `len` bytes built from a segment list.
pub open spec fn layout_of(segs: Seq<Segment>, len: nat) -> Seq<SegmentType> {
    Seq::new(len, |b: int| type_at(segs, b))
}

/// The layout after the bytes of `[start, end)` are deallocated.
pub open spec fn punched(layout: Seq<SegmentType>, start: int, end: int) -> Seq<SegmentType> {
    Seq::new(
        layout.len(),
        |b: int|
            if start <= b < end {
                SegmentType::Hole
            } else {
                layout[b]
            },
    )
}

/// `next_of` stops at the first byte of type `t`, after bytes of other types.
pub proof fn lemma_next_of(layout: Seq<SegmentType>, from: int, t: SegmentType)
    requires
        0 <= from <= layout.len(),
    ensures
        from <= next_of(layout, from, t) <= layout.len(),
        forall|b: int| from <= b < next_of(layout, from, t) ==> layout[b] != t,
        next_of(layout, from, t) < layout.len() ==> layout[next_of(layout, from, t)] == t,
    decreases layout.len() - from,
{
    if from < layout.len() && layout[from] != t {
        lemma_next_of(layout, from + 1, t);
    }
}

/// In a canonical list, segments lie in order inside `[0, len]`.
pub proof fn lemma_canonical_bounds(segs: Seq<Segment>, len: int)
    requires
        is_canonical(segs, len),
    ensures
        forall|i: int| 0 <= i < segs.len() ==> 0 <= #[trigger] segs[i].range.start,
        forall|i: int| 0 <= i < segs.len() ==> #[trigger] segs[i].range.end <= len,
        forall|i: int, j: int|
            0 <= i < j < segs.len() ==> #[trigger] segs[i].range.end <= #[trigger] segs[j].range.start,
{
    assert forall|i: int| 0 <= i < segs.len() implies #[trigger] segs[i].range.end <= len by {
        lemma_end_bound(segs, len, i);
    }
    assert forall|i: int, j: int| 0 <= i < j < segs.len() implies #[trigger] segs[i].range.end
        <= #[trigger] segs[j].range.start by {
        lemma_ordered(segs, i, j);
    }
    assert forall|i: int| 0 <= i < segs.len() implies 0 <= #[trigger] segs[i].range.start by {
        if i > 0 {
            lemma_ordered(segs, 0, i);
        }
    }
}

proof fn lemma_end_bound(segs: Seq<Segment>, len: int, i: int)
    requires
        is_canonical(segs, len),
        0 <= i < segs.len(),
    ensures
        segs[i].range.end <= len,
    decreases segs.len() - i,
{
    if i < segs.len() - 1 {
        lemma_end_bound(segs, len, i + 1);
        assert(segs[i].range.end == segs[i + 1].range.start);
        assert(segs[i + 1].range.start < segs[i + 1].range.end);
    }
}

proof fn lemma_ordered(segs: Seq<Segment>, i: int, j: int)
    requires
        nonempty_ranges(segs),
        contiguous(segs),
        0 <= i < j < segs.len(),
    ensures
        segs[i].range.end <= segs[j].range.start,
    decreases j - i,
{
    assert(segs[j - 1].range.end == segs[j].range.start);
    if i < j - 1 {
        lemma_ordered(segs, i, j - 1);
        assert(segs[j - 1].range.start < segs[j - 1].range.end);
    }
}

proof fn lemma_same_segment(s1: Seq<Segment>, s2: Seq<Segment>, layout: Seq<SegmentType>, i: int)
    requires
        describes(s1, layout),
        describes(s2, layout),
        0 <= i < s1.len(),
        i < s2.len(),
    ensures
        s1[i] == s2[i],
    decreases i,
{
    let len = layout.len() as int;
    lemma_end_bound(s1, len, i);
    lemma_end_bound(s2, len, i);
    if i > 0 {
        lemma_same_segment(s1, s2, layout, i - 1);
        assert(s1[i - 1].range.end == s1[i].range.start);
        assert(s2[i - 1].range.end == s2[i].range.start);
    }
    let a = s1[i].range.start as int;
    assert(s2[i].range.start == a);
    assert(s1[i].segment_type == layout[a]);
    assert(s2[i].segment_type == layout[a]);
    let e1 = s1[i].range.end as int;
    let e2 = s2[i].range.end as int;
    if e1 < e2 {
        assert(layout[e1] == s2[i].segment_type);
        if i == s1.len() - 1 {
            assert(e1 == len);
        } else {
            assert(s1[i + 1].range.start == e1);
            assert(s1[i + 1].range.start < s1[i + 1].range.end);
            assert(layout[e1] == s1[i + 1].segment_type);
        }
    }
    if e2 < e1 {
        assert(layout[e2] == s1[i].segment_type);
        if i == s2.len() - 1 {
            assert(e2 == len);
        } else {
            assert(s2[i + 1].range.start == e2);
            assert(s2[i + 1].range.start < s2[i + 1].range.end);
            assert(layout[e2] == s2[i + 1].segment_type);
        }
    }
}

proof fn lemma_type_at(segs: Seq<Segment>, k: int, b: int)
    requires
        nonempty_ranges(segs),
        contiguous(segs),
        0 <= k < segs.len(),
        segs[k].range.start <= b < segs[k].range.end,
    ensures
        type_at(segs, b) == segs[k].segment_type,
    decreases k,
{
    if k > 0 {
        lemma_ordered(segs, 0, k);
        let rest = segs.drop_first();
        assert forall|i: int| 0 <= i < rest.len() implies #[trigger] rest[i].range.start
            < rest[i].range.end by {
            assert(segs[i + 1].range.start < segs[i + 1].range.end);
        }
        assert forall|i: int| 0 <= i < rest.len() - 1 implies #[trigger] rest[i].range.end
            == rest[i + 1].range.start by {
            assert(segs[i + 1].range.end == segs[i + 2].range.start);
        }
        assert(rest[k - 1] == segs[k]);
        lemma_type_at(rest, k - 1, b);
    }
}

/// A canonical segment list describes the layout built from it.
pub proof fn lemma_layout_of(segs: Seq<Segment>, len: nat)
    requires
        is_canonical(segs, len as int),
    ensures
        describes(segs, layout_of(segs, len)),
{
    let layout = layout_of(segs, len);
    assert forall|k: int, b: int|
        #![trigger segs[k], layout[b]]
        0 <= k < segs.len() && segs[k].range.start <= b < segs[k].range.end implies layout[b]
            == segs[k].segment_type by {
        lemma_end_bound(segs, len as int, k);
        lemma_type_at(segs, k, b);
    }
}

/// A layout has at most one canonical description: a scan result is fixed by
/// the types of the file's bytes alone.
pub proof fn lemma_description_unique(s1: Seq<Segment>, s2: Seq<Segment>, layout: Seq<SegmentType>)
    requires
        describes(s1, layout),
        describes(s2, layout),
    ensures
        s1 == s2,
{
    let len = layout.len() as int;
    if s1.len() < s2.len() {
        if s1.len() == 0 {
            assert(s2[0].range.start < s2[0].range.end);
            lemma_end_bound(s2, len, 0);
        } else {
            let k = s1.len() - 1;
            lemma_same_segment(s1, s2, layout, k);
            assert(s2[k].range.end == s2[k + 1].range.start);
            assert(s2[k + 1].range.start < s2[k + 1].range.end);
            lemma_end_bound(s2, len, k + 1);
        }
    }
    if s2.len() < s1.len() {
        if s2.len() == 0 {
            assert(s1[0].range.start < s1[0].range.end);
            lemma_end_bound(s1, len, 0);
        } else {
            let k = s2.len() - 1;
            lemma_same_segment(s1, s2, layout, k);
            assert(s1[k].range.end == s1[k + 1].range.start);
            assert(s1[k + 1].range.start < s1[k + 1].range.end);
            lemma_end_bound(s1, len, k + 1);
        }
    }
    assert forall|i: int| 0 <= i < s1.len() implies s1[i] == s2[i] by {
        lemma_same_segment(s1, s2, layout, i);
    }
    assert(s1 =~= s2);
}

/// Punching a range twice leaves the file as punching it once.
pub proof fn lemma_punch_idempotent(layout: Seq<SegmentType>, start: int, end: int)
    ensures
        punched(punched(layout, start, end), start, end) == punched(layout, start, end),
{
    assert(punched(punched(layout, start, end), start, end) =~= punched(layout, start, end));
}

/// Punching a range whose bytes are all holes already changes nothing, so the
/// file keeps its description.
pub proof fn lemma_punch_holes_unchanged(
    segs: Seq<Segment>,
    layout: Seq<SegmentType>,
    start: int,
    end: int,
)
    requires
        describes(segs, layout),
        forall|b: int| start <= b < end && 0 <= b < layout.len() ==> layout[b] == SegmentType::Hole,
    ensures
        punched(layout, start, end) == layout,
        describes(segs, punched(layout, start, end)),
{
    assert(punched(layout, start, end) =~= layout);
}

/// Punching a range inside a hole segment changes nothing, so the file keeps
/// its description.
pub proof fn lemma_punch_in_hole_segment(
    segs: Seq<Segment>,
    layout: Seq<SegmentType>,
    k: int,
    start: int,
    end: int,
)
    requires
        describes(segs, layout),
        0 <= k < segs.len(),
        segs[k].segment_type == SegmentType::Hole,
        segs[k].range.start <= start,
        end <= segs[k].range.end,
    ensures
        punched(layout, start, end) == layout,
        describes(segs, punched(layout, start, end)),
{
    assert forall|b: int| start <= b < end && 0 <= b < layout.len() implies layout[b]
        == SegmentType::Hole by {
        assert(segs[k].range.start <= b < segs[k].range.end);
    }
    lemma_punch_holes_unchanged(segs, layout, start, end);
}

} // verus!
