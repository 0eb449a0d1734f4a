use focusboard::error::{mutation_outcome, BackendFault, StoreError};

#[test]
fn each_kind_has_its_message() {
    assert_eq!(StoreError::NotFound.message(), "The requested item was not found.");
    assert_eq!(
        StoreError::ConstraintViolation.message(),
        "The change conflicts with existing data."
    );
    assert_eq!(
        StoreError::TransactionFailure.message(),
        "The change could not be completed and was rolled back."
    );
    assert_eq!(StoreError::IoFailure.message(), "A file operation failed.");
    assert_eq!(StoreError::Unavailable.message(), "The store is unavailable. Please try again.");
}

#[test]
fn engine_faults_map_to_kinds() {
    let kinds = [
        (BackendFault::RowMissing, StoreError::NotFound),
        (BackendFault::UniqueViolation, StoreError::ConstraintViolation),
        (BackendFault::ForeignKeyViolation, StoreError::ConstraintViolation),
        (BackendFault::NotNullViolation, StoreError::ConstraintViolation),
        (BackendFault::CheckViolation, StoreError::ConstraintViolation),
        (BackendFault::Statement, StoreError::Unavailable),
        (BackendFault::Transaction, StoreError::TransactionFailure),
        (BackendFault::Io, StoreError::IoFailure),
        (BackendFault::PoolTimedOut, StoreError::Unavailable),
        (BackendFault::PoolClosed, StoreError::Unavailable),
        (BackendFault::WorkerCrashed, StoreError::Unavailable),
        (BackendFault::Other, StoreError::Unavailable),
    ];
    for (fault, kind) in kinds {
        assert_eq!(StoreError::from_fault(fault), kind);
    }
}

#[test]
fn statement_that_changed_no_row_is_not_found() {
    assert_eq!(mutation_outcome(0), Err(StoreError::NotFound));
    assert_eq!(mutation_outcome(1), Ok(()));
    assert_eq!(mutation_outcome(4), Ok(()));
}
