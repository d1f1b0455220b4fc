//! The ways in which an operation on the store can fail.

use crate::identity::Identity;
use crate::record::FormatError;
use vstd::prelude::*;

verus! {

/// Why an operation on the store failed. The image of the store is left as
/// it was whenever one is returned.
#[derive(Clone, Copy, Debug, PartialEq, Eq, Structural)]
pub enum Error {
    /// A row cannot be written, or the bytes of an index file cannot be read.
    Serialization(FormatError),
    /// No current entry has the identity or the position asked for.
    EntryNotFound,
    /// The index names an entry whose body is not in the content store.
    TextNotFound { identity: Identity },
    /// The name of a file in the content store is not an identity.
    BlobName,
    /// The settings give a format version other than the one supported.
    VersionMismatch { found: usize },
    /// The instant given as the current time has no calendar day.
    InvalidTime,
}

} // verus!
