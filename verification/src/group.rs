//! Groups, their rights rows and their service interface.

use vstd::prelude::*;
use crate::error::DatabaseError;

verus! {

/// A group row.
#[derive(Debug, Clone)]
pub struct Group {
    pub group_id: i64,
    pub group_name: String,
}

/// One rights row: what a role may do inside a group.
#[derive(Debug, Clone, Copy, PartialEq, Eq, Structural)]
pub struct GroupRoleRights {
    pub group_id: i64,
    pub role_id: i64,
    pub rights: i64,
}

/// Why a group operation was refused.
#[derive(Debug, Clone)]
pub enum DomainError {
    BadRequest(String),
    PermissionDenied(String),
    InternalError(DatabaseError),
}

/// One open unit of group work against the store.
pub trait GroupTransaction {
    fn create(&mut self, name: &str) -> Result<Group, DatabaseError>;

    fn update_name(&mut self, group_id: i64, name: &str) -> Result<
        Option<Group>,
        DatabaseError,
    >;

    fn delete(&mut self, group_id: i64) -> Result<Option<Group>, DatabaseError>;
}

/// The store's group interface.
pub trait GroupRepository {
    type Transaction: GroupTransaction;

    fn begin(&self) -> Result<Self::Transaction, DatabaseError>;

    fn commit(&self, transaction: Self::Transaction) -> Result<(), DatabaseError>;

    fn rollback(&self, transaction: Self::Transaction) -> Result<(), DatabaseError>;

    fn list_by_user_role(&self, user_id: i64) -> Result<Vec<Group>, DatabaseError>;

    fn find_user_role(&self, user_id: i64) -> Result<Option<i64>, DatabaseError>;
}

/// Request to create a group.
#[derive(Debug, Clone)]
pub struct CreateGroupRequest {
    pub name: String,
}

/// Answer to a group creation.
#[derive(Debug, Clone, Copy, PartialEq, Eq, Structural)]
pub struct CreateGroupResponse {
    pub group_id: i64,
}

/// Request to rename a group.
#[derive(Debug, Clone)]
pub struct UpdateGroupRequest {
    pub name: String,
}

} // verus!
