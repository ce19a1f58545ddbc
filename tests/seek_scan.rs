use hole_punch::{ScanError, SeekReply, SeekRequest, SeekScan, Segment, SegmentType};

const BLOCK: u64 = 4096;

fn seg(segment_type: SegmentType, start: u64, end: u64) -> Segment {
    Segment { segment_type, range: start..end }
}

/// A file given by runs of one type each, answering seeks as Linux does.
struct SimFile {
    runs: Vec<(SegmentType, u64, u64)>,
    len: u64,
}

impl SimFile {
    fn new(runs: Vec<(SegmentType, u64, u64)>) -> SimFile {
        let len = runs.last().map(|r| r.2).unwrap_or(0);
        SimFile { runs, len }
    }

    fn first_of(&self, from: u64, t: SegmentType) -> Option<u64> {
        for &(rt, s, e) in &self.runs {
            if rt == t && e > from && s < e {
                return Some(s.max(from));
            }
        }
        None
    }

    fn punch(&mut self, start: u64, end: u64) {
        let mut runs = Vec::new();
        for &(t, s, e) in &self.runs {
            let cut_s = s.max(start).min(e);
            let cut_e = e.min(end).max(cut_s);
            if s < cut_s {
                runs.push((t, s, cut_s));
            }
            if cut_s < cut_e {
                runs.push((SegmentType::Hole, cut_s, cut_e));
            }
            if cut_e < e {
                runs.push((t, cut_e, e));
            }
        }
        self.runs = runs;
    }

    fn answer(&self, q: SeekRequest) -> SeekReply {
        match q {
            SeekRequest::End => SeekReply::Offset(self.len),
            SeekRequest::Hole(off) => {
                if off >= self.len {
                    SeekReply::NoOffset
                } else {
                    SeekReply::Offset(self.first_of(off, SegmentType::Hole).unwrap_or(self.len))
                }
            }
            SeekRequest::Data(off) => {
                if off >= self.len {
                    SeekReply::NoOffset
                } else {
                    match self.first_of(off, SegmentType::Data) {
                        Some(x) => SeekReply::Offset(x),
                        None => SeekReply::NoOffset,
                    }
                }
            }
            SeekRequest::Finished => SeekReply::NoOffset,
        }
    }
}

fn scan_with<F: FnMut(SeekRequest) -> SeekReply>(mut answer: F) -> Result<Vec<Segment>, ScanError> {
    let mut scan = SeekScan::new();
    let mut q = scan.request();
    let mut steps = 0;
    while q != SeekRequest::Finished {
        q = scan.step(answer(q));
        steps += 1;
        assert!(steps < 10_000, "scan does not finish");
    }
    scan.into_result().expect("a finished scan has a result")
}

fn scan(file: &SimFile) -> Result<Vec<Segment>, ScanError> {
    scan_with(|q| file.answer(q))
}

fn assert_canonical(segs: &[Segment], len: u64) {
    if len == 0 {
        assert!(segs.is_empty());
        return;
    }
    assert_eq!(segs[0].range.start, 0);
    assert_eq!(segs.last().unwrap().range.end, len);
    for s in segs {
        assert!(s.range.start < s.range.end);
    }
    for w in segs.windows(2) {
        assert_eq!(w[0].range.end, w[1].range.start);
        assert_ne!(w[0].segment_type, w[1].segment_type);
    }
}

/// The runs of a description: split points in blocks, types alternating
/// from `start_type`.
fn described(start_type: SegmentType, splits: &[u64]) -> Vec<Segment> {
    let mut t = start_type;
    let mut prev = 0;
    let mut out = Vec::new();
    for &p in splits {
        out.push(seg(t, prev, p * BLOCK));
        prev = p * BLOCK;
        t = t.opposite();
    }
    out
}

fn file_of(segs: &[Segment]) -> SimFile {
    SimFile::new(segs.iter().map(|s| (s.segment_type, s.range.start, s.range.end)).collect())
}

#[test]
fn empty_file_scans_to_nothing() {
    let file = SimFile::new(vec![]);
    let mut scan = SeekScan::new();
    assert_eq!(scan.request(), SeekRequest::End);
    assert_eq!(scan.step(file.answer(SeekRequest::End)), SeekRequest::Finished);
    assert_eq!(scan.into_result().unwrap().unwrap(), vec![]);
}

#[test]
fn no_end_offset_is_an_empty_file() {
    let mut scan = SeekScan::new();
    assert_eq!(scan.step(SeekReply::NoOffset), SeekRequest::Finished);
    assert_eq!(scan.into_result().unwrap().unwrap(), vec![]);
}

#[test]
fn hole_then_data() {
    let desc = vec![seg(SegmentType::Hole, 0, 4096), seg(SegmentType::Data, 4096, 8192)];
    assert_eq!(scan(&file_of(&desc)).unwrap(), desc);
}

#[test]
fn requests_follow_the_layout() {
    let file = file_of(&[seg(SegmentType::Hole, 0, 4096), seg(SegmentType::Data, 4096, 8192)]);
    let mut scan = SeekScan::new();
    assert_eq!(scan.step(file.answer(SeekRequest::End)), SeekRequest::Hole(0));
    assert_eq!(scan.step(file.answer(SeekRequest::Hole(0))), SeekRequest::Data(0));
    assert_eq!(scan.step(file.answer(SeekRequest::Data(0))), SeekRequest::Hole(4096));
    assert_eq!(scan.step(file.answer(SeekRequest::Hole(4096))), SeekRequest::Finished);
    assert!(scan.into_result().is_some());
}

#[test]
fn one_big_segment() {
    for t in [SegmentType::Data, SegmentType::Hole] {
        let desc = vec![seg(t, 0, 3545868)];
        assert_eq!(scan(&file_of(&desc)).unwrap(), desc);
    }
}

#[test]
fn fully_allocated_file_is_one_data_segment() {
    let file = SimFile::new(vec![(SegmentType::Data, 0, 3545868)]);
    assert_eq!(scan(&file).unwrap(), vec![seg(SegmentType::Data, 0, 3545868)]);
}

#[test]
fn large_hole_then_large_data() {
    let desc = vec![seg(SegmentType::Hole, 0, 7_000_000), seg(SegmentType::Data, 7_000_000, 19_500_000)];
    let found = scan(&file_of(&desc)).unwrap();
    assert_eq!(found.len(), 2);
    assert_eq!(found[0].range.end, 7_000_000);
    assert_eq!(found, desc);
}

#[test]
fn round_trips() {
    let cases: Vec<(SegmentType, Vec<u64>)> = vec![
        (SegmentType::Data, vec![1]),
        (SegmentType::Hole, vec![1]),
        (SegmentType::Data, vec![1, 2, 3, 4, 5]),
        (SegmentType::Hole, vec![3, 7, 8, 20, 21, 255]),
        (SegmentType::Data, vec![2, 200]),
        (SegmentType::Hole, vec![10, 11, 12, 13, 14, 15, 16, 17, 18, 19, 40]),
    ];
    for (t, splits) in cases {
        let desc = described(t, &splits);
        let found = scan(&file_of(&desc)).unwrap();
        assert_canonical(&found, splits.last().unwrap() * BLOCK);
        assert_eq!(found, desc);
    }
}

#[test]
fn unmerged_description_scans_merged() {
    let file = SimFile::new(vec![
        (SegmentType::Data, 0, 100),
        (SegmentType::Data, 100, 300),
        (SegmentType::Hole, 300, 400),
        (SegmentType::Hole, 400, 500),
    ]);
    assert_eq!(
        scan(&file).unwrap(),
        vec![seg(SegmentType::Data, 0, 300), seg(SegmentType::Hole, 300, 500)]
    );
}

#[test]
fn holes_hold_no_described_data() {
    let desc = described(SegmentType::Data, &[1, 4, 6, 9, 10]);
    let found = scan(&file_of(&desc)).unwrap();
    for h in found.iter().filter(|s| s.is_hole()) {
        for d in desc.iter().filter(|s| s.is_data()) {
            assert!(h.range.end <= d.range.start || d.range.end <= h.range.start);
        }
    }
}

#[test]
fn drill_hole() {
    let mut file = SimFile::new(vec![(SegmentType::Data, 0, 8192)]);
    assert_eq!(scan(&file).unwrap(), vec![seg(SegmentType::Data, 0, 8192)]);
    file.punch(4096, 8192);
    assert_eq!(
        scan(&file).unwrap(),
        vec![seg(SegmentType::Data, 0, 4096), seg(SegmentType::Hole, 4096, 8192)]
    );
}

#[test]
fn drill_hole_merges_with_neighbours() {
    let desc = described(SegmentType::Hole, &[1, 2, 3]);
    let mut file = file_of(&desc);
    file.punch(BLOCK, 2 * BLOCK);
    assert_eq!(scan(&file).unwrap(), vec![seg(SegmentType::Hole, 0, 3 * BLOCK)]);
}

#[test]
fn punching_a_hole_again_changes_nothing() {
    let desc = described(SegmentType::Data, &[1, 3, 4]);
    let mut file = file_of(&desc);
    let before = scan(&file).unwrap();
    file.punch(BLOCK + 100, 2 * BLOCK);
    assert_eq!(scan(&file).unwrap(), before);
    file.punch(0, BLOCK);
    let once = scan(&file).unwrap();
    file.punch(0, BLOCK);
    assert_eq!(scan(&file).unwrap(), once);
    assert_eq!(once, vec![seg(SegmentType::Hole, 0, 3 * BLOCK), seg(SegmentType::Data, 3 * BLOCK, 4 * BLOCK)]);
}

#[test]
fn unsupported_file_system_is_reported() {
    let mut asked = Vec::new();
    let result = scan_with(|q| {
        asked.push(q);
        match q {
            SeekRequest::End => SeekReply::Offset(8192),
            _ => SeekReply::Unsupported,
        }
    });
    assert!(matches!(result, Err(ScanError::UnsupportedFileSystem)));
    assert_eq!(asked, vec![SeekRequest::End, SeekRequest::Hole(0)]);
}

#[test]
fn other_seek_failures_are_io_errors() {
    let result = scan_with(|q| match q {
        SeekRequest::End => SeekReply::Offset(8192),
        SeekRequest::Hole(_) => SeekReply::Offset(0),
        _ => SeekReply::Failed(std::io::Error::from_raw_os_error(5)),
    });
    match result {
        Err(ScanError::IO(e)) => assert_eq!(e.raw_os_error(), Some(5)),
        other => panic!("expected an I/O error, got {:?}", other),
    }
}

#[test]
fn failure_on_length_query() {
    let mut scan = SeekScan::new();
    assert_eq!(scan.step(SeekReply::Unsupported), SeekRequest::Finished);
    assert!(matches!(scan.into_result(), Some(Err(ScanError::UnsupportedFileSystem))));
}

#[test]
fn replies_after_finishing_change_nothing() {
    let mut scan = SeekScan::new();
    scan.step(SeekReply::Offset(10));
    scan.step(SeekReply::NoOffset);
    assert_eq!(scan.step(SeekReply::Unsupported), SeekRequest::Finished);
    assert_eq!(scan.into_result().unwrap().unwrap(), vec![seg(SegmentType::Data, 0, 10)]);
}

#[test]
fn unfinished_scan_has_no_result() {
    let mut scan = SeekScan::new();
    scan.step(SeekReply::Offset(10));
    assert!(scan.into_result().is_none());
}

#[test]
fn offsets_past_the_end_are_cut() {
    let result = scan_with(|q| match q {
        SeekRequest::End => SeekReply::Offset(100),
        SeekRequest::Hole(0) => SeekReply::Offset(0),
        _ => SeekReply::Offset(500),
    });
    assert_eq!(result.unwrap(), vec![seg(SegmentType::Hole, 0, 100)]);
}

#[test]
fn offsets_that_do_not_advance_end_the_scan() {
    let result = scan_with(|q| match q {
        SeekRequest::End => SeekReply::Offset(100),
        SeekRequest::Hole(0) => SeekReply::Offset(40),
        _ => SeekReply::Offset(40),
    });
    let found = result.unwrap();
    assert_canonical(&found, 100);
    assert_eq!(found, vec![seg(SegmentType::Data, 0, 40), seg(SegmentType::Hole, 40, 100)]);
}
