use vstd::prelude::*;

verus! {

/// The failures this pipeline can surface to a caller.
///
/// A metadata block that fails to decode is not an error here: decoding
/// degrades to an empty front-matter block instead.
#[derive(Clone, Copy, Debug, PartialEq, Eq, Structural)]
pub enum PipelineError {
    /// A source file could not be read or decoded as text.
    IoError,
    /// A filename does not match the `YYYY-MM-DD-SSS-slug` shape.
    InvalidFilename,
    /// The front-matter delimiter structure of a file is violated.
    MalformedDocument,
}

} // verus!
