use vstd::prelude::*;

verus! {

/// The ways in which loading and analyzing a GFA file can fail. Each
/// variant names one violation; a caller that wants the fail-fast
/// behaviour of a batch tool reports the error and stops.
#[derive(Clone, Copy, Debug, PartialEq, Eq, Structural)]
pub enum GfaError {
    /// The given path does not point at an existing file.
    FileNotFound,
    /// An `S` record has no field after the record-type tag.
    MissingSegmentName,
    /// An `L` record has fewer than four fields after the record-type tag.
    MissingLinkField,
    /// A strand field of an `L` record is neither `+` nor `-`.
    InvalidStrand,
    /// The input carries the gzip magic bytes but does not decompress.
    BadGzip,
}

/// Relies on `std::path::Path::exists`: returns whether the path points at
/// an existing entity, and false when existence cannot be determined.
#[verifier::external_body]
fn path_exists(filename: &str) -> (r: bool) {
    std::path::Path::new(filename).exists()
}

/// Checks that a file exists before any attempt to read it, so that a
/// missing input is reported distinctly from a formatting error.
pub fn check_if_file_exists(filename: &str) -> (r: Result<(), GfaError>)
    ensures
        r matches Err(e) ==> e == GfaError::FileNotFound,
{
    if path_exists(filename) {
        Ok(())
    } else {
        Err(GfaError::FileNotFound)
    }
}

} // verus!
