use hole_punch::{PunchRange, ScanError, SparseFile, UnsupportedPlatformFile};

#[test]
fn punch_range_between_bounds() {
    let r = PunchRange::between(4096, 8192);
    assert_eq!(r, PunchRange { offset: 4096, length: 4096 });
    assert_eq!(r.end(), 8192);
}

#[test]
fn empty_punch_range() {
    let r = PunchRange::between(7, 7);
    assert_eq!(r.length, 0);
    assert_eq!(r.end(), 7);
}

#[test]
fn unsupported_platform_refuses_everything() {
    let mut f = UnsupportedPlatformFile;
    assert!(matches!(f.scan_chunks(), Err(ScanError::UnsupportedPlatform)));
    assert!(matches!(f.drill_hole(0, 4096), Err(ScanError::UnsupportedPlatform)));
}

#[test]
fn error_messages() {
    assert_eq!(ScanError::UnsupportedPlatform.message(), "The operation you are trying to perform is not supported on this platform");
    assert_eq!(ScanError::UnsupportedFileSystem.message(), "The filesystem does not support operating on sparse files");
    assert_eq!(ScanError::Raw(3).message(), "An unknown error occurred interacting with the C API");
    let io = ScanError::from(std::io::Error::from_raw_os_error(2));
    assert_eq!(io.message(), "IO Error occurred");
    assert!(matches!(io, ScanError::IO(ref e) if e.raw_os_error() == Some(2)));
}
