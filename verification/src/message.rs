//! Message records and requests.

use vstd::prelude::*;
use crate::error::DatabaseError;

verus! {

/// Where a message lives: a channel or a direct conversation.
#[derive(Debug, Clone, Copy, PartialEq, Eq, Structural)]
pub enum MessageType {
    Channel { channel_id: i64 },
    Direct { recipient_id: i64 },
}

/// An attachment as uploaded.
#[derive(Debug, Clone)]
pub struct NewFileAttachment {
    pub file_name: String,
    pub content_type: String,
    pub data: Vec<u8>,
}

/// Why a message operation was refused.
#[derive(Debug, Clone)]
pub enum DomainError {
    BadRequest(String),
    PermissionDenied(String),
    InternalError(DatabaseError),
    FileManagerError(crate::managers::FileError),
}

/// Request to edit a message's text.
#[derive(Debug, Clone)]
pub struct EditMessageRequest {
    pub message_text: String,
}

/// Request to react to a message.
#[derive(Debug, Clone)]
pub struct AddReactionRequest {
    pub emoji: String,
}

/// A half-open range of message ids to fetch.
#[derive(Debug, Clone, Copy, PartialEq, Eq, Structural)]
pub struct MessageRangeQuery {
    pub from_message_id: i64,
    pub up_to_message_id: i64,
}

} // verus!
