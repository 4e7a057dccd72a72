//! Structured log requests and their service interface.

use vstd::prelude::*;
use crate::error::DatabaseError;

verus! {

/// Why a log operation was refused.
#[derive(Debug, Clone)]
pub enum DomainError {
    BadRequest(String),
    PermissionDenied(String),
    LogError(crate::managers::LogError),
    InternalError(DatabaseError),
}

/// The store's interface for authorizing log access.
pub trait LogRepository {
    fn find_user_role(&self, user_id: i64) -> Result<Option<i64>, DatabaseError>;
}

/// Request to write one log entry.
#[derive(Debug, Clone)]
pub struct CreateLogRequest {
    pub log: String,
    pub category: String,
}

/// Which category of entries to read, or all of them.
#[derive(Debug, Clone)]
pub struct GetLogsQuery {
    pub category: Option<String>,
}

/// Answer to a log deletion.
#[derive(Debug, Clone, Copy, PartialEq, Eq, Structural)]
pub struct DeleteLogsResponse {
    pub deleted_count: u64,
}

} // verus!
