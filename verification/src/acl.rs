//! Access-control requests.

use vstd::prelude::*;
use crate::error::DatabaseError;

verus! {

/// Why an access-control operation was refused.
#[derive(Debug, Clone)]
pub enum DomainError {
    BadRequest(String),
    PermissionDenied(String),
    InternalError(DatabaseError),
    FileManagerError(crate::managers::FileError),
}

/// Request to set a role's rights within a group.
#[derive(Debug, Clone, Copy, PartialEq, Eq, Structural)]
pub struct SetGroupRoleRightsRequest {
    pub group_id: i64,
    pub role_id: i64,
    pub rights: i64,
}

/// Request to move a user to another role.
#[derive(Debug, Clone, Copy, PartialEq, Eq, Structural)]
pub struct UpdateUserRoleRequest {
    pub role_id: i64,
}

} // verus!
