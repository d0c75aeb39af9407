use vstd::prelude::*;

verus! {

/// Every failure the core can report. Fieldless so that `==` carries its
/// full meaning into contracts and tests.
#[derive(Clone, Copy, Debug, PartialEq, Eq, Structural)]
pub enum ArkError {
    /// The directory has not been initialized as a repository.
    NotInitialized,
    /// The directory is already initialized as a repository.
    AlreadyInitialized,
    /// A named branch or commit does not exist.
    NotFound,
    /// A branch with the requested name is already registered.
    AlreadyExists,
    /// Deleting "main" or the currently active branch was refused.
    Protected,
    /// Undo was requested on an empty history.
    NothingToUndo,
    /// Undo was requested when only the genesis commit remains.
    FirstSave,
    /// A persisted record could not be decoded.
    SerializationError,
    /// A filesystem operation failed.
    IoError,
}

} // verus!
