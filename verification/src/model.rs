//! Server-wide configuration record.

use vstd::prelude::*;

verus! {

/// The single server row: its name and optional avatar.
#[derive(Debug, Clone)]
pub struct ServerConfig {
    pub id: i64,
    pub server_name: String,
    pub avatar_file_id: Option<i64>,
}

} // verus!
