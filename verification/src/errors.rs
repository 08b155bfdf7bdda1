//! The errors that the engine reports.

use vstd::prelude::*;

verus! {

/// Why an operation on the database was refused.
#[derive(Debug, PartialEq, Eq)]
pub enum DatabaseError {
    /// The transaction ID was never handed out by `begin_tx`.
    NoSuchTransactionID(u64),
    /// The row is being written by another active transaction. The caller's
    /// transaction has been rolled back.
    WriteWriteConflict,
    /// The transaction has already been committed or rolled back.
    TxTerminated,
    /// A log record handed to recovery is malformed.
    Corrupt,
}

impl DatabaseError {
    /// A one-line description of the error.
    pub fn message(&self) -> (text: String)
        ensures
            text@ == (match *self {
                DatabaseError::NoSuchTransactionID(_) => "no such transaction ID"@,
                DatabaseError::WriteWriteConflict =>
                    "transaction aborted because of a write-write conflict"@,
                DatabaseError::TxTerminated => "transaction is terminated"@,
                DatabaseError::Corrupt => "corrupt log record"@,
            }),
    {
        match self {
            DatabaseError::NoSuchTransactionID(_) => "no such transaction ID".to_string(),
            DatabaseError::WriteWriteConflict =>
                "transaction aborted because of a write-write conflict".to_string(),
            DatabaseError::TxTerminated => "transaction is terminated".to_string(),
            DatabaseError::Corrupt => "corrupt log record".to_string(),
        }
    }
}

} // verus!
