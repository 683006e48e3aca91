//! The library's closed set of error kinds.

use vstd::prelude::*;

verus! {

/// Failure of the underlying storage engine while mutating a backend.
/// The in-memory backends never produce it; it exists so that every backend
/// reports mutations through the same result type.
#[derive(Clone, Copy, PartialEq, Eq, Structural, Debug)]
pub enum StorageError {
    Engine,
}

/// A persisted snapshot that cannot be loaded: corrupt or inconsistent with
/// the statistical invariants the corpus maintains.
#[derive(Clone, Copy, PartialEq, Eq, Structural, Debug)]
pub enum SnapshotError {
    /// Two document records share a path.
    DuplicatePath,
    /// A term occurs twice in one term-frequency record, or twice in the
    /// document-frequency record.
    DuplicateTerm,
    /// A term-frequency entry holds a zero count.
    ZeroCount,
    /// A document's term-frequency counts do not sum to its term count.
    CountMismatch,
    /// A document-frequency entry disagrees with the number of stored
    /// documents containing the term, or a stored term lacks an entry.
    FrequencyMismatch,
}

/// Unusable content for a given file kind: the structural parse failed or
/// ran past every budgeted event.
#[derive(Clone, Copy, PartialEq, Eq, Structural, Debug)]
pub enum FormatError {
    Malformed,
}

impl StorageError {
    /// A short description, for diagnostics.
    pub fn describe(&self) -> &'static str {
        "storage engine failure"
    }
}

impl SnapshotError {
    /// A short description, for diagnostics.
    pub fn describe(&self) -> &'static str {
        match self {
            SnapshotError::DuplicatePath => "snapshot holds two documents with one path",
            SnapshotError::DuplicateTerm => "snapshot repeats a term within one record",
            SnapshotError::ZeroCount => "snapshot holds a term with a zero count",
            SnapshotError::CountMismatch => "snapshot term counts do not sum to the document count",
            SnapshotError::FrequencyMismatch => "snapshot document frequencies are inconsistent",
        }
    }
}

} // verus!
