//! The ways in which a run can fail.

use vstd::prelude::*;

verus! {

/// The reason a stage of the pipeline gave up.
#[derive(Debug, Clone, PartialEq, Eq)]
pub enum Error {
    /// The image is a platform list and the caller named no platform.
    AmbiguousPlatform,
    /// The image is a platform list and none of its entries is for the
    /// requested platform.
    NoMatchingPlatform,
    /// A manifest is structurally invalid, or a platform list points at
    /// another platform list.
    MalformedManifest,
    /// The blob with this digest could not be retrieved.
    BlobFetchFailed { digest: String },
    /// An archive entry would be written outside the destination root.
    PathTraversal,
    /// The destination directory already holds something.
    DestinationNotEmpty,
    /// A layer is not a well-formed archive.
    ArchiveParseError,
    /// The local filesystem refused a read or a write.
    IOFailure,
}

/// The part of the pipeline in which an error arises.
#[derive(Debug, Clone, Copy, PartialEq, Eq, Structural)]
pub enum Stage {
    Preflight,
    Resolve,
    Fetch,
    Materialize,
}

impl Error {
    /// The stage in which this error arises.  `IOFailure` has none of its
    /// own: a local read or write can fail in any stage, and whoever does
    /// the I/O knows in which one.
    pub open spec fn stage_spec(self) -> Option<Stage> {
        match self {
            Error::DestinationNotEmpty => Some(Stage::Preflight),
            Error::AmbiguousPlatform => Some(Stage::Resolve),
            Error::NoMatchingPlatform => Some(Stage::Resolve),
            Error::MalformedManifest => Some(Stage::Resolve),
            Error::BlobFetchFailed { .. } => Some(Stage::Fetch),
            Error::PathTraversal => Some(Stage::Materialize),
            Error::ArchiveParseError => Some(Stage::Materialize),
            Error::IOFailure => None,
        }
    }

    /// The stage in which this error arises, if it belongs to one.
    pub fn stage(&self) -> (s: Option<Stage>)
        ensures
            s == self.stage_spec(),
    {
        match self {
            Error::DestinationNotEmpty => Some(Stage::Preflight),
            Error::AmbiguousPlatform => Some(Stage::Resolve),
            Error::NoMatchingPlatform => Some(Stage::Resolve),
            Error::MalformedManifest => Some(Stage::Resolve),
            Error::BlobFetchFailed { .. } => Some(Stage::Fetch),
            Error::PathTraversal => Some(Stage::Materialize),
            Error::ArchiveParseError => Some(Stage::Materialize),
            Error::IOFailure => None,
        }
    }
}

} // verus!
