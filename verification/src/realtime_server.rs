//! Surface types of the stream-only realtime binding.

use vstd::prelude::*;

verus! {

/// Terminal failure of the realtime fan-out task.
#[derive(Debug, Clone, Copy, PartialEq, Eq, Structural)]
pub struct ServerError;

/// The query string a realtime client connects with.
#[derive(Debug, Clone)]
pub struct WebSocketParams {
    pub token: String,
}

} // verus!
