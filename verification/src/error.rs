//! The errors that the archive checks report.
use vstd::prelude::*;

verus! {

/// `std::io::Error`, carried through the library as an opaque value.
#[verifier::external_type_specification]
#[verifier::external_body]
pub struct ExIoError(std::io::Error);

/// Why an archive operation failed.
#[derive(Debug)]
pub enum ArchiveError {
    /// A file could not be read or written.
    IOError(std::io::Error),
    /// A file listed in the checksums is absent from the directory.
    MissingFile(String),
    /// A file's checksum differs from the one recorded.
    ChecksumMismatch { file_name: String, expected_sum: String, actual_sum: String },
    /// A file of the directory is not listed in the checksums.
    UnexpectedFile(String),
    /// A path given as the directory to work on is not a directory.
    InvalidSourceDir(String),
}

} // verus!
