use hole_punch::{
    segments_from_allocated, ExtentReply, ExtentRequest, ExtentScan, FileAllocatedRange,
    ScanError, Segment, SegmentType,
};

fn seg(segment_type: SegmentType, start: u64, end: u64) -> Segment {
    Segment { segment_type, range: start..end }
}

fn extent(offset: u64, length: u64) -> FileAllocatedRange {
    FileAllocatedRange { offset, length }
}

fn assert_canonical(segs: &[Segment], len: u64) {
    if len == 0 {
        assert!(segs.is_empty());
        return;
    }
    assert_eq!(segs[0].range.start, 0);
    assert_eq!(segs.last().unwrap().range.end, len);
    for s in segs {
        assert!(s.range.start < s.range.end);
    }
    for w in segs.windows(2) {
        assert_eq!(w[0].range.end, w[1].range.start);
        assert_ne!(w[0].segment_type, w[1].segment_type);
    }
}

#[test]
fn empty_file_needs_no_query() {
    let scan = ExtentScan::new(0);
    assert_eq!(scan.request(), ExtentRequest::Finished);
    assert_eq!(scan.into_result().unwrap().unwrap(), vec![]);
}

#[test]
fn file_not_marked_sparse_is_all_data() {
    let mut scan = ExtentScan::new(3545868);
    assert_eq!(scan.request(), ExtentRequest::SparseFlag);
    assert_eq!(scan.step(ExtentReply::SparseFlag(false)), ExtentRequest::Finished);
    assert_eq!(scan.into_result().unwrap().unwrap(), vec![seg(SegmentType::Data, 0, 3545868)]);
}

#[test]
fn sparse_file_is_rebuilt_from_its_extents() {
    let mut scan = ExtentScan::new(8192);
    assert_eq!(scan.step(ExtentReply::SparseFlag(true)), ExtentRequest::AllocatedRanges(8192));
    let reply = ExtentReply::AllocatedRanges(vec![extent(4096, 4096)]);
    assert_eq!(scan.step(reply), ExtentRequest::Finished);
    assert_eq!(
        scan.into_result().unwrap().unwrap(),
        vec![seg(SegmentType::Hole, 0, 4096), seg(SegmentType::Data, 4096, 8192)]
    );
}

#[test]
fn failed_query_is_an_io_error() {
    let mut scan = ExtentScan::new(8192);
    scan.step(ExtentReply::SparseFlag(true));
    let e = std::io::Error::from_raw_os_error(87);
    assert_eq!(scan.step(ExtentReply::Failed(e)), ExtentRequest::Finished);
    match scan.into_result() {
        Some(Err(ScanError::IO(e))) => assert_eq!(e.raw_os_error(), Some(87)),
        other => panic!("expected an I/O error, got {:?}", other),
    }
}

#[test]
fn reply_to_another_query_changes_nothing() {
    let mut scan = ExtentScan::new(10);
    assert_eq!(scan.step(ExtentReply::AllocatedRanges(vec![])), ExtentRequest::SparseFlag);
    assert_eq!(scan.step(ExtentReply::SparseFlag(true)), ExtentRequest::AllocatedRanges(10));
    assert_eq!(scan.step(ExtentReply::SparseFlag(false)), ExtentRequest::AllocatedRanges(10));
    assert!(scan.into_result().is_none());
}

#[test]
fn no_extents_is_one_hole() {
    assert_eq!(segments_from_allocated(&vec![], 100), vec![seg(SegmentType::Hole, 0, 100)]);
}

#[test]
fn gaps_become_holes() {
    let found = segments_from_allocated(&vec![extent(0, 10), extent(20, 5), extent(40, 10)], 60);
    assert_eq!(
        found,
        vec![
            seg(SegmentType::Data, 0, 10),
            seg(SegmentType::Hole, 10, 20),
            seg(SegmentType::Data, 20, 25),
            seg(SegmentType::Hole, 25, 40),
            seg(SegmentType::Data, 40, 50),
            seg(SegmentType::Hole, 50, 60),
        ]
    );
}

#[test]
fn touching_extents_merge() {
    let found = segments_from_allocated(&vec![extent(0, 10), extent(10, 10), extent(30, 5)], 35);
    assert_eq!(
        found,
        vec![
            seg(SegmentType::Data, 0, 20),
            seg(SegmentType::Hole, 20, 30),
            seg(SegmentType::Data, 30, 35),
        ]
    );
}

#[test]
fn overlapping_and_empty_extents() {
    let found = segments_from_allocated(&vec![extent(5, 20), extent(10, 5), extent(30, 0), extent(20, 10)], 40);
    assert_eq!(
        found,
        vec![seg(SegmentType::Hole, 0, 5), seg(SegmentType::Data, 5, 30), seg(SegmentType::Hole, 30, 40)]
    );
}

#[test]
fn extents_past_the_end_are_cut() {
    let found = segments_from_allocated(&vec![extent(90, 50), extent(200, 10), extent(u64::MAX, u64::MAX)], 100);
    assert_eq!(found, vec![seg(SegmentType::Hole, 0, 90), seg(SegmentType::Data, 90, 100)]);
}

#[test]
fn unsorted_extents_still_give_canonical_segments() {
    let found = segments_from_allocated(&vec![extent(50, 10), extent(0, 10), extent(70, 5)], 80);
    assert_canonical(&found, 80);
}

#[test]
fn empty_file_from_extents() {
    assert_eq!(segments_from_allocated(&vec![extent(0, 10)], 0), vec![]);
}

#[test]
fn data_segments_as_extents_round_trip() {
    let desc = vec![
        seg(SegmentType::Hole, 0, 4096),
        seg(SegmentType::Data, 4096, 12288),
        seg(SegmentType::Hole, 12288, 20480),
        seg(SegmentType::Data, 20480, 24576),
    ];
    let extents: Vec<FileAllocatedRange> = desc
        .iter()
        .filter(|s| s.is_data())
        .map(|s| extent(s.range.start, s.len()))
        .collect();
    let mut scan = ExtentScan::new(24576);
    scan.step(ExtentReply::SparseFlag(true));
    scan.step(ExtentReply::AllocatedRanges(extents));
    let found = scan.into_result().unwrap().unwrap();
    assert_canonical(&found, 24576);
    assert_eq!(found, desc);
}
