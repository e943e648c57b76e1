use vstd::prelude::*;

verus! {

/// Why a record could not be located or decoded.
#[derive(Debug, Clone, Copy, PartialEq, Eq, Structural)]
pub enum BlockError {
    /// The file ended before the marker occurred in it.
    MarkerNotFound,
    /// The four bytes at a record's offset are not the marker.
    InvalidMarker,
    /// The file ends inside a record's prefix or payload.
    TruncatedRead,
    /// The payload is too short to hold the header and the entry count.
    MalformedPayload,
    /// The chain ends before the requested height.
    HeightNotFound,
}

} // verus!
