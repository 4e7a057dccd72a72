//! Live-session participation records and requests.

use vstd::prelude::*;
use crate::error::DatabaseError;

verus! {

/// What a media subscription carries.
#[derive(Debug, Clone, Copy, PartialEq, Eq, Structural)]
pub enum MediaType {
    Screen,
    Camera,
    Audio,
}

/// One live participant; either in a channel or in a direct call.
#[derive(Debug, Clone)]
pub struct VoipParticipant {
    pub user_id: i64,
    pub channel_id: Option<i64>,
    pub recipient_id: Option<i64>,
    pub local_deafen: bool,
    pub local_mute: bool,
    pub publish_screen: bool,
    pub publish_camera: bool,
    pub created_at_ms: u64,
}

/// One media subscription: who watches whose stream.
#[derive(Debug, Clone)]
pub struct Subscription {
    pub user_id: i64,
    pub publisher_id: i64,
    pub media_type: MediaType,
    pub created_at_ms: u64,
}

/// Why a live-session operation was refused.
#[derive(Debug, Clone)]
pub enum DomainError {
    BadRequest(String),
    PermissionDenied(String),
    InternalError(DatabaseError),
}

/// Request to mute oneself.
#[derive(Debug, Clone, Copy, PartialEq, Eq, Structural)]
pub struct SetMuteRequest {
    pub mute: bool,
}

/// Request to deafen oneself.
#[derive(Debug, Clone, Copy, PartialEq, Eq, Structural)]
pub struct SetDeafenRequest {
    pub deafen: bool,
}

/// Request to publish or stop publishing a screen.
#[derive(Debug, Clone, Copy, PartialEq, Eq, Structural)]
pub struct SetPublishScreenRequest {
    pub publish: bool,
}

/// Request to publish or stop publishing a camera.
#[derive(Debug, Clone, Copy, PartialEq, Eq, Structural)]
pub struct SetPublishCameraRequest {
    pub publish: bool,
}

/// Request to watch a publisher's stream.
#[derive(Debug, Clone, Copy, PartialEq, Eq, Structural)]
pub struct SubscribeToMediaRequest {
    pub publisher_id: i64,
    pub media_type: MediaType,
}

/// Request to stop watching a publisher's stream.
#[derive(Debug, Clone, Copy, PartialEq, Eq, Structural)]
pub struct UnsubscribeFromMediaRequest {
    pub publisher_id: i64,
    pub media_type: MediaType,
}

} // verus!
