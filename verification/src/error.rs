//! The error kinds of the library's fallible operations.

use vstd::prelude::*;

verus! {

/// Why an operation failed.
///
/// `InvalidInput`: a transform array of unsupported length, a rotation that
/// fails validation, or malformed command text. `CycleRejected`: an added
/// transform would create a cycle or a self-loop. `NotFound`: a query names
/// an unknown frame or frames with no connecting path. `IoError`: a file
/// could not be read or written (reported by the surrounding program; the
/// library itself does no I/O). `ParseError`: a persisted document does not
/// parse. `CycleInLoadedData`: a persisted document parses but encodes a
/// cyclic graph.
#[derive(Clone, Copy, Debug, PartialEq, Eq, Structural)]
pub enum Error {
    InvalidInput,
    CycleRejected,
    NotFound,
    IoError,
    ParseError,
    CycleInLoadedData,
}

} // verus!
