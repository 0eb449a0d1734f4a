//! The kinds of failure a caller can be told about, and the text that goes
//! with each. What the storage engine said in detail never reaches a caller.

use vstd::prelude::*;
use vstd::string::StringExecFns;

verus! {

/// A failure of the store, by kind.
#[derive(Debug, Clone, Copy, PartialEq, Eq, Structural)]
pub enum StoreError {
    /// A mutation named an identifier that no row has.
    NotFound,
    /// A rule of the schema refused the write.
    ConstraintViolation,
    /// A transaction could not be begun, completed or undone.
    TransactionFailure,
    /// The file system failed.
    IoFailure,
    /// The store could not be reached.
    Unavailable,
}

/// What the storage engine reported, error by error as the engine tells
/// them apart.
#[derive(Debug, Clone, Copy, PartialEq, Eq, Structural)]
pub enum BackendFault {
    /// A statement that must return a row returned none.
    RowMissing,
    /// A value that must be unique is there already.
    UniqueViolation,
    /// A row refers to a row that is not there.
    ForeignKeyViolation,
    /// A value that must be there is absent.
    NotNullViolation,
    /// A check of the schema failed.
    CheckViolation,
    /// The engine refused the statement for any other reason.
    Statement,
    /// A transaction boundary failed.
    Transaction,
    /// The engine could not read or write its files.
    Io,
    /// No connection came free in time.
    PoolTimedOut,
    /// The pool is closed.
    PoolClosed,
    /// The engine's worker is gone.
    WorkerCrashed,
    /// Anything else.
    Other,
}

/// The text shown for each kind of failure.
pub open spec fn message_text(kind: StoreError) -> Seq<char> {
    match kind {
        StoreError::NotFound => "The requested item was not found."@,
        StoreError::ConstraintViolation => "The change conflicts with existing data."@,
        StoreError::TransactionFailure => "The change could not be completed and was rolled back."@,
        StoreError::IoFailure => "A file operation failed."@,
        StoreError::Unavailable => "The store is unavailable. Please try again."@,
    }
}

/// The kind of failure a caller is told for each engine fault: a missing row
/// is not found, a broken rule of the schema is a constraint violation, a
/// failed boundary is a transaction failure, a failure of the files is an
/// I/O failure, and everything else leaves the store unavailable.
pub open spec fn kind_of_fault(fault: BackendFault) -> StoreError {
    match fault {
        BackendFault::RowMissing => StoreError::NotFound,
        BackendFault::UniqueViolation
        | BackendFault::ForeignKeyViolation
        | BackendFault::NotNullViolation
        | BackendFault::CheckViolation => StoreError::ConstraintViolation,
        BackendFault::Transaction => StoreError::TransactionFailure,
        BackendFault::Io => StoreError::IoFailure,
        BackendFault::Statement
        | BackendFault::PoolTimedOut
        | BackendFault::PoolClosed
        | BackendFault::WorkerCrashed
        | BackendFault::Other => StoreError::Unavailable,
    }
}

impl StoreError {
    /// The stable, user-safe text for this kind of failure.
    pub fn message(&self) -> (text: String)
        ensures
            text@ == message_text(*self),
    {
        match self {
            StoreError::NotFound => String::from_str("The requested item was not found."),
            StoreError::ConstraintViolation => String::from_str(
                "The change conflicts with existing data.",
            ),
            StoreError::TransactionFailure => String::from_str(
                "The change could not be completed and was rolled back.",
            ),
            StoreError::IoFailure => String::from_str("A file operation failed."),
            StoreError::Unavailable => String::from_str(
                "The store is unavailable. Please try again.",
            ),
        }
    }

    /// Maps what the storage engine reported to the kind a caller is told.
    pub fn from_fault(fault: BackendFault) -> (kind: StoreError)
        ensures
            kind == kind_of_fault(fault),
    {
        match fault {
            BackendFault::RowMissing => StoreError::NotFound,
            BackendFault::UniqueViolation
            | BackendFault::ForeignKeyViolation
            | BackendFault::NotNullViolation
            | BackendFault::CheckViolation => StoreError::ConstraintViolation,
            BackendFault::Transaction => StoreError::TransactionFailure,
            BackendFault::Io => StoreError::IoFailure,
            BackendFault::Statement
            | BackendFault::PoolTimedOut
            | BackendFault::PoolClosed
            | BackendFault::WorkerCrashed
            | BackendFault::Other => StoreError::Unavailable,
        }
    }
}

/// The result of a statement that must change exactly the row it names:
/// success when a row was changed, `NotFound` when none was.
pub fn mutation_outcome(rows_affected: u64) -> (outcome: Result<(), StoreError>)
    ensures
        rows_affected > 0 ==> outcome == Ok::<(), StoreError>(()),
        rows_affected == 0 ==> outcome == Err::<(), StoreError>(StoreError::NotFound),
{
    if rows_affected == 0 {
        Err(StoreError::NotFound)
    } else {
        Ok(())
    }
}

} // verus!
