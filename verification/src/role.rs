//! Roles and their service interface.

use vstd::prelude::*;
use crate::error::DatabaseError;

verus! {

/// A role row.
#[derive(Debug, Clone)]
pub struct Role {
    pub role_id: i64,
    pub role_name: String,
}

/// Why a role operation was refused.
#[derive(Debug, Clone)]
pub enum DomainError {
    BadRequest(String),
    PermissionDenied(String),
    InternalError(DatabaseError),
}

/// One open unit of role work against the store.
pub trait RoleTransaction {
    fn create(&mut self, name: &str) -> Result<Role, DatabaseError>;

    fn update_name(&mut self, role_id: i64, name: &str) -> Result<Option<Role>, DatabaseError>;

    fn delete(&mut self, role_id: i64) -> Result<Option<Role>, DatabaseError>;
}

/// The store's role interface.
pub trait RoleRepository {
    type Transaction: RoleTransaction;

    fn begin(&self) -> Result<Self::Transaction, DatabaseError>;

    fn commit(&self, transaction: Self::Transaction) -> Result<(), DatabaseError>;

    fn rollback(&self, transaction: Self::Transaction) -> Result<(), DatabaseError>;

    fn find_by_id(&self, role_id: i64) -> Result<Option<Role>, DatabaseError>;

    fn list_all(&self) -> Result<Vec<Role>, DatabaseError>;

    fn find_user_role(&self, user_id: i64) -> Result<Option<i64>, DatabaseError>;

    fn count_users_with_role(&self, role_id: i64) -> Result<i64, DatabaseError>;
}

/// Request to create a role.
#[derive(Debug, Clone)]
pub struct CreateRoleRequest {
    pub name: String,
}

/// Answer to a role creation.
#[derive(Debug, Clone, Copy, PartialEq, Eq, Structural)]
pub struct CreateRoleResponse {
    pub role_id: i64,
}

/// Request to rename a role.
#[derive(Debug, Clone)]
pub struct UpdateRoleRequest {
    pub name: String,
}

} // verus!
