use vstd::prelude::*;

verus! {

/// Declares `std::io::Error`, so that an operating system error can be carried
/// through unchanged. Nothing is assumed of what it holds.
#[verifier::external_type_specification]
#[verifier::external_body]
pub struct ExIoError(std::io::Error);

/// Why a scan or a hole punch failed.
#[derive(Debug)]
pub enum ScanError {
    /// An I/O error occurred
    IO(std::io::Error),
    /// An unknown error occurred interacting with the C API
    Raw(i32),
    /// The operation is not supported on this platform
    UnsupportedPlatform,
    /// The file system does not support operating on sparse files
    UnsupportedFileSystem,
}

impl ScanError {
    /// A sentence that describes the error.
    pub fn message(&self) -> (r: &'static str)
        ensures
            self is IO ==> r@ == "IO Error occurred"@,
            self is Raw ==> r@ == "An unknown error occurred interacting with the C API"@,
            self is UnsupportedPlatform ==> r@
                == "The operation you are trying to perform is not supported on this platform"@,
            self is UnsupportedFileSystem ==> r@
                == "The filesystem does not support operating on sparse files"@,
    {
        match self {
            ScanError::IO(_) => "IO Error occurred",
            ScanError::Raw(_) => "An unknown error occurred interacting with the C API",
            ScanError::UnsupportedPlatform => {
                "The operation you are trying to perform is not supported on this platform"
            },
            ScanError::UnsupportedFileSystem => {
                "The filesystem does not support operating on sparse files"
            },
        }
    }
}

impl From<std::io::Error> for ScanError {
    fn from(e: std::io::Error) -> (r: ScanError) {
        ScanError::IO(e)
    }
}

impl vstd::std_specs::convert::FromSpecImpl<std::io::Error> for ScanError {
    open spec fn obeys_from_spec() -> bool {
        true
    }

    open spec fn from_spec(e: std::io::Error) -> ScanError {
        ScanError::IO(e)
    }
}

} // verus!
