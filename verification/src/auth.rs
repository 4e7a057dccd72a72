//! Authentication records and requests.

use vstd::prelude::*;
use crate::error::DatabaseError;

verus! {

/// A user's stored credential.
#[derive(Debug, Clone)]
pub struct Auth {
    pub user_id: i64,
    pub password_hash: String,
}

/// A live session row; times carried as wall-clock milliseconds.
#[derive(Debug, Clone)]
pub struct Session {
    pub session_id: i64,
    pub user_id: i64,
    pub session_token: String,
    pub created_at_ms: u64,
    pub expires_at_ms: Option<u64>,
}

/// Why an authentication operation was refused.
#[derive(Debug, Clone)]
pub enum DomainError {
    BadRequest(String),
    PermissionDenied(String),
    InternalError(DatabaseError),
    PasswordHashingError,
    PasswordVerificationError,
}

/// Request to register with an invite code.
#[derive(Debug, Clone)]
pub struct RegisterRequest {
    pub username: String,
    pub password: String,
    pub invite_code: String,
}

/// Request to log in.
#[derive(Debug, Clone)]
pub struct LoginRequest {
    pub username: String,
    pub password: String,
}

/// Request to change a password.
#[derive(Debug, Clone)]
pub struct ChangePasswordRequest {
    pub current_password: String,
    pub new_password: String,
}

/// Request to end a session.
#[derive(Debug, Clone)]
pub struct LogoutRequest {
    pub session_token: String,
}

/// Request to mint an invite.
#[derive(Debug, Clone)]
pub struct CreateInviteRequest {
    pub code: String,
    pub available_registrations: i32,
    pub role_id: i64,
}

/// Request to delete an invite.
#[derive(Debug, Clone, Copy, PartialEq, Eq, Structural)]
pub struct DeleteInviteRequest {
    pub invite_id: i64,
}

} // verus!
