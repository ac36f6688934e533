//! The failures of naming, discovery and an apply run.

use vstd::prelude::*;

verus! {

/// Every failure is terminal for the run in which it occurs.
#[derive(Debug)]
pub enum MigrationError {
    /// An identifier shorter than the fixed timestamp width.
    InvalidIdentityFormat { identifier: String },
    /// The migrations directory could not be listed.
    DirectoryUnreadable { reason: String },
    /// A template could not be written.
    FilesystemError { reason: String },
    /// The database session could not be established.
    ConnectionError { reason: String },
    /// A migration's script could not be read.
    ContentLoadError { migration: String, reason: String },
    /// A statement was rejected by the database; `position` counts from 1.
    StatementExecutionError {
        migration: String,
        position: usize,
        total: usize,
        statement: String,
        reason: String,
    },
}

} // verus!
