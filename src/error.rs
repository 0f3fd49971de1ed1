use vstd::prelude::*;

verus! {

/// The ways in which an operation of the library can fail.
#[derive(Debug, Clone, Copy, PartialEq, Eq, Structural)]
pub enum RitError {
    /// An argument breaks a rule of the repository (an absolute path, an
    /// empty commit message).
    Validation,
    /// Text that should name an object does not (bad hex, wrong length).
    Parse,
    /// The lock on a file is held by another writer.
    Acquisition,
    /// The file system refused an operation.
    Io,
    /// HEAD does not exist yet: nothing was committed.
    NotFound,
}

} // verus!
