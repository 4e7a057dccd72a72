//! Channels and their service interface.

use vstd::prelude::*;
use crate::error::DatabaseError;

verus! {

/// What a channel carries.
#[derive(Debug, Clone, Copy, PartialEq, Eq, Structural)]
pub enum ChannelType {
    Text,
    VoIP,
}

/// A channel row.
#[derive(Debug, Clone)]
pub struct Channel {
    pub channel_id: i64,
    pub channel_name: String,
    pub group_id: i64,
    pub channel_type: ChannelType,
}

/// Why a channel operation was refused.
#[derive(Debug, Clone)]
pub enum DomainError {
    BadRequest(String),
    PermissionDenied(String),
    InternalError(DatabaseError),
}

/// One open unit of channel work against the store.
pub trait ChannelTransaction {
    fn create(&mut self, name: &str, channel_type: &ChannelType, group_id: i64) -> Result<
        Channel,
        DatabaseError,
    >;

    fn update_name(&mut self, channel_id: i64, name: &str) -> Result<
        Option<Channel>,
        DatabaseError,
    >;

    fn update_group(&mut self, channel_id: i64, group_id: i64) -> Result<
        Option<Channel>,
        DatabaseError,
    >;

    fn delete(&mut self, channel_id: i64) -> Result<Option<Channel>, DatabaseError>;

    fn find_user_role(&mut self, user_id: i64) -> Result<Option<i64>, DatabaseError>;
}

/// The store's channel interface.
pub trait ChannelRepository {
    type Transaction: ChannelTransaction;

    fn begin(&self) -> Result<Self::Transaction, DatabaseError>;

    fn commit(&self, transaction: Self::Transaction) -> Result<(), DatabaseError>;

    fn rollback(&self, transaction: Self::Transaction) -> Result<(), DatabaseError>;

    fn list_by_user_role(&self, user_id: i64) -> Result<Vec<Channel>, DatabaseError>;
}

/// Request to create a channel.
#[derive(Debug, Clone)]
pub struct CreateChannelRequest {
    pub name: String,
    pub group_id: i64,
    pub channel_type: ChannelType,
}

/// Answer to a channel creation.
#[derive(Debug, Clone, Copy, PartialEq, Eq, Structural)]
pub struct CreateChannelResponse {
    pub channel_id: i64,
}

/// Request to rename a channel.
#[derive(Debug, Clone)]
pub struct UpdateChannelRequest {
    pub name: String,
}

/// Request to move a channel to another group.
#[derive(Debug, Clone, Copy, PartialEq, Eq, Structural)]
pub struct UpdateChannelGroupRequest {
    pub group_id: i64,
}

} // verus!
