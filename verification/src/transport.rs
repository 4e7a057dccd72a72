//! Fan-out message surface of the stream-only realtime binding.

use vstd::prelude::*;
use crate::error::DatabaseError;

verus! {

/// Why a fan-out operation was refused.
#[derive(Debug, Clone)]
pub enum DomainError {
    InternalError(DatabaseError),
}

/// Which live sessions a control event reaches.
#[derive(Debug, Clone)]
pub enum ControlRoutingPolicy {
    GroupRights { group_id: i64, minimum_rights: i64 },
    ChannelRights { channel_id: i64, minimum_rights: i64 },
    User { user_id: i64 },
    Role { role_id: i64 },
    Broadcast,
}

} // verus!
