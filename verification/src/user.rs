//! User identities, presence and avatars.

use vstd::prelude::*;
use crate::error::DatabaseError;

verus! {

/// A stored avatar file's row.
#[derive(Debug, Clone)]
pub struct AvatarFile {
    pub file_id: i64,
    pub file_uuid: String,
    pub file_name: String,
    pub file_type: String,
    pub file_size: i64,
    pub file_hash: String,
}

/// Presence of a user.
#[derive(Debug, Clone, Copy, PartialEq, Eq, Structural)]
pub enum UserStatusType {
    Online,
    Away,
    DoNotDisturb,
    Offline,
}

/// One user's presence.
#[derive(Debug, Clone)]
pub struct UserStatus {
    pub user_id: i64,
    pub status: UserStatusType,
}

/// A user row; creation time carried as wall-clock milliseconds.
#[derive(Debug, Clone)]
pub struct User {
    pub user_id: i64,
    pub username: String,
    pub status: UserStatusType,
    pub avatar_file_id: Option<i64>,
    pub created_at_ms: u64,
    pub server_mute: bool,
    pub server_deafen: bool,
    pub role_id: i64,
}

/// Why a user operation was refused.
#[derive(Debug, Clone)]
pub enum DomainError {
    BadRequest(String),
    PermissionDenied(String),
    InternalError(DatabaseError),
    FileManagerError(crate::managers::FileError),
    FileDecodeError,
}

/// A new avatar upload: name, declared type and base64 payload.
#[derive(Debug, Clone)]
pub struct NewAvatarRequest {
    pub file_name: String,
    pub content_type: String,
    pub data: String,
}

/// A manual presence override.
#[derive(Debug, Clone)]
pub struct UpdateManualUserStatusRequest {
    pub manual_status: UserStatusType,
}

} // verus!
