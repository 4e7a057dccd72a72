//! Server-wide settings and their service interface.

use vstd::prelude::*;
use crate::error::DatabaseError;
use crate::model::ServerConfig;
use crate::user::AvatarFile;

verus! {

/// Why a server-settings operation was refused.
#[derive(Debug, Clone)]
pub enum DomainError {
    BadRequest(String),
    PermissionDenied(String),
    InternalError(DatabaseError),
    FileManagerError(crate::managers::FileError),
}

/// One open unit of server-settings work against the store.
pub trait ServerTransaction {
    fn create_avatar(
        &mut self,
        file_uuid: &str,
        file_name: &str,
        file_type: &str,
        file_size: i64,
        file_hash: &str,
    ) -> Result<AvatarFile, DatabaseError>;

    fn update_server_avatar(&mut self, avatar_file_id: i64) -> Result<
        Option<ServerConfig>,
        DatabaseError,
    >;

    fn update_server_name(&mut self, name: &str) -> Result<Option<ServerConfig>, DatabaseError>;

    fn update_file_limits(&mut self, max_file_size_mb: i32, max_files_per_message: i32) -> Result<
        Option<ServerConfig>,
        DatabaseError,
    >;
}

/// Request to rename the server.
#[derive(Debug, Clone)]
pub struct UpdateServerNameRequest {
    pub server_name: String,
}

/// Request to change upload limits.
#[derive(Debug, Clone, Copy, PartialEq, Eq, Structural)]
pub struct UpdateFileLimitsRequest {
    pub max_file_size_mb: i32,
    pub max_files_per_message: i32,
}

} // verus!
