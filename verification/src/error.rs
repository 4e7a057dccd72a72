//! Errors shared across the service layer.

use vstd::prelude::*;

verus! {

/// What a request handler answers when a call cannot be served.
#[derive(Debug, Clone, PartialEq, Eq)]
pub enum ApiError {
    InternalServerError(String),
    UnprocessableEntity(String),
}

/// What the persistence layer reports, by kind.
#[derive(Debug, Clone, PartialEq, Eq)]
pub enum DatabaseError {
    PrimaryKeyViolation { key: String, value: String },
    UniqueConstraintViolation { column: String },
    ForeignKeyViolation { column: String },
    CheckConstraintViolation { constraint_name: String },
    InternalServerError { message: String },
    RowNotFound,
    TransactionAlreadyStarted,
    NoActiveTransaction,
}

} // verus!
