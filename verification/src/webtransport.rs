//! The realtime fan-out: which live sessions receive which control
//! and media events.
//!
//! One task owns a list of subscriber handlers and snapshots of the
//! rights, user, channel, participant and subscription tables.  All
//! decisions here are pure: they name the handlers to deliver to by
//! index, and the caller owns the channels that carry the payloads.

use vstd::prelude::*;
use crate::channel::Channel;
use crate::error::DatabaseError;
use crate::group::GroupRoleRights;
use crate::user::User;
use crate::voip::{MediaType, Subscription, VoipParticipant};

verus! {

/// Malformed media reports tolerated before a sender is dropped.
pub const MAX_INVALID_VOIP_PACKETS: u32 = 1000;

/// Why a fan-out operation was refused.
#[derive(Debug, Clone)]
pub enum DomainError {
    InternalError(DatabaseError),
}

/// Terminal failure of one subscriber session, with its reason.
#[derive(Debug, Clone)]
pub struct SessionError(pub String);

/// Terminal failure of the fan-out task.
#[derive(Debug, Clone, Copy, PartialEq, Eq, Structural)]
pub struct ServerError;

/// Which live sessions a control event reaches.
#[derive(Debug, Clone)]
pub enum ControlRoutingPolicy {
    GroupRights { group_id: i64, minimum_rights: i64 },
    ChannelRights { channel_id: i64, minimum_rights: i64 },
    User { user_id: i64 },
    Role { role_id: i64 },
    Broadcast,
}

/// The session handshake's answer.
#[derive(Debug, Clone)]
pub enum AnswerPayload {
    Accept,
    Decline { reason: String },
}

/// Control messages of the session handshake.
#[derive(Debug, Clone)]
pub enum ControlPayload {
    Connect { token: String },
    Answer { answer: AnswerPayload },
    Close,
    Error { reason: String },
}

/// What kind of media bytes a report carries.
#[derive(Debug, Clone, Copy, PartialEq, Eq, Structural)]
pub enum VoipDataType {
    Voice,
    Camera,
    Screen,
    ScreenSound,
}

/// Whether a media payload can stand alone or extends an earlier
/// one.
#[derive(Debug, Clone, Copy, PartialEq, Eq, Structural)]
pub enum KeyType {
    Key,
    Delta,
}

/// One media report from a live session.
#[derive(Debug, Clone)]
pub enum VoipPayload {
    Speech { user_id: u64, is_speaking: bool },
    Media {
        user_id: u64,
        media_type: VoipDataType,
        data: Vec<u8>,
        timestamp: u64,
        real_timestamp: u64,
        key: KeyType,
        sequence: u64,
    },
}

/// Bytes of media reports one session may push per rate window.
pub const MAX_BYTES_PER_SECOND: u64 = 30_000_000;

/// The media rate window's length, in milliseconds.
pub const RATE_LIMIT_WINDOW_MS: u64 = 1000;

/// What a session does with one inbound control message.
pub enum SessionStep {
    /// Register the session under the resolved identity and accept.
    Accept { user_id: i64, session_id: i64 },
    /// Refuse the handshake and stay unauthenticated.
    Decline,
    /// End the session, with the reason to report.
    End(String),
}

/// One inbound control message against the handshake state: a
/// connect with a resolvable token registers and accepts; one
/// without declines; an answer from a client is out of protocol;
/// a close or error ends the session.
pub fn session_control_step(
    payload: &ControlPayload,
    resolved: &Option<crate::auth::Session>,
) -> (r: SessionStep)
    ensures
        (match payload {
            ControlPayload::Connect { .. } => match resolved {
                Some(session) => r == (SessionStep::Accept {
                    user_id: session.user_id,
                    session_id: session.session_id,
                }),
                None => r is Decline,
            },
            ControlPayload::Answer { .. } => r is End,
            ControlPayload::Close => r is End,
            ControlPayload::Error { .. } => r is End,
        }),
{
    match payload {
        ControlPayload::Connect { .. } => match resolved {
            Some(session) => SessionStep::Accept {
                user_id: session.user_id,
                session_id: session.session_id,
            },
            None => SessionStep::Decline,
        },
        ControlPayload::Answer { .. } => SessionStep::End(String::from_str(
            "unexpected answer payload",
        )),
        ControlPayload::Close => SessionStep::End(String::from_str("session end")),
        ControlPayload::Error { .. } => SessionStep::End(String::from_str(
            "received error from client",
        )),
    }
}

/// One session's media byte budget: a sliding one-second window.
pub struct VoipRateWindow {
    /// Bytes counted against the current window.
    pub bytes_this_window: u64,
    /// When the current window opened, wall-clock milliseconds.
    pub window_start_ms: u64,
}

impl VoipRateWindow {
    /// An empty window opening at `now_ms`.
    pub fn new(now_ms: u64) -> (r: VoipRateWindow)
        ensures
            r.bytes_this_window == 0,
            r.window_start_ms == now_ms,
    {
        VoipRateWindow { bytes_this_window: 0, window_start_ms: now_ms }
    }

    /// Count one media report of `payload_size` bytes: a window
    /// older than [`RATE_LIMIT_WINDOW_MS`] restarts first, and the
    /// report is abuse exactly when the window's bytes then pass
    /// [`MAX_BYTES_PER_SECOND`].
    pub fn record(&mut self, payload_size: u64, now_ms: u64) -> (abuse: bool)
        requires
            payload_size <= 0x1_0000_0000,
        ensures
            ({
                let restarted = now_ms > old(self).window_start_ms && now_ms - old(
                    self,
                ).window_start_ms > RATE_LIMIT_WINDOW_MS;
                let base: u64 = if restarted {
                    0u64
                } else {
                    old(self).bytes_this_window
                };
                &&& final(self).window_start_ms == (if restarted {
                    now_ms
                } else {
                    old(self).window_start_ms
                })
                &&& final(self).bytes_this_window == (if base + payload_size <= u64::MAX {
                    (base + payload_size) as u64
                } else {
                    u64::MAX as u64
                })
                &&& abuse == (final(self).bytes_this_window > MAX_BYTES_PER_SECOND)
            }),
    {
        if now_ms > self.window_start_ms && now_ms - self.window_start_ms
            > RATE_LIMIT_WINDOW_MS {
            self.bytes_this_window = 0;
            self.window_start_ms = now_ms;
        }
        self.bytes_this_window = self.bytes_this_window.saturating_add(payload_size);
        self.bytes_this_window > MAX_BYTES_PER_SECOND
    }
}

/// The byte weight of one media report: a speech flag counts a
/// fixed few bytes, media counts its payload.
pub fn voip_payload_size(payload: &VoipPayload) -> (r: u64)
    ensures
        (match payload {
            VoipPayload::Speech { .. } => r == 32,
            VoipPayload::Media { data, .. } => r == data@.len(),
        }),
{
    match payload {
        VoipPayload::Speech { .. } => 32,
        VoipPayload::Media { data, .. } => data.len() as u64,
    }
}

/// The fan-out's view of one live session.
#[derive(Debug, Clone)]
pub struct SubscriberHandler {
    pub user_id: i64,
    pub session_id: i64,
    pub session_token: String,
    pub identifier: String,
    pub invalid_voip_count: u32,
}

/// Mathematical image of a handler.
pub struct HandlerView {
    pub user_id: i64,
    pub session_id: i64,
    pub session_token: Seq<char>,
    pub identifier: Seq<char>,
    pub invalid_voip_count: u32,
}

impl View for SubscriberHandler {
    type V = HandlerView;

    open spec fn view(&self) -> HandlerView {
        HandlerView {
            user_id: self.user_id,
            session_id: self.session_id,
            session_token: self.session_token@,
            identifier: self.identifier@,
            invalid_voip_count: self.invalid_voip_count,
        }
    }
}

/// The views of a handler list.
pub open spec fn handler_views(v: Seq<SubscriberHandler>) -> Seq<HandlerView> {
    v.map_values(|h: SubscriberHandler| h@)
}

/// The first cached role of `user_id`, if the user is cached.
pub open spec fn cached_user_role(users: Seq<User>, user_id: i64) -> Option<i64>
    decreases users.len(),
{
    if users.len() == 0 {
        None
    } else if users[0].user_id == user_id {
        Some(users[0].role_id)
    } else {
        cached_user_role(users.drop_first(), user_id)
    }
}

/// The first cached group of `channel_id`, if the channel is cached.
pub open spec fn cached_channel_group(channels: Seq<Channel>, channel_id: i64) -> Option<i64>
    decreases channels.len(),
{
    if channels.len() == 0 {
        None
    } else if channels[0].channel_id == channel_id {
        Some(channels[0].group_id)
    } else {
        cached_channel_group(channels.drop_first(), channel_id)
    }
}

/// The first cached rights row of `(group_id, role_id)`, or zero.
pub open spec fn cached_rights(acl: Seq<GroupRoleRights>, group_id: i64, role_id: i64) -> i64
    decreases acl.len(),
{
    if acl.len() == 0 {
        0
    } else if acl[0].group_id == group_id && acl[0].role_id == role_id {
        acl[0].rights
    } else {
        cached_rights(acl.drop_first(), group_id, role_id)
    }
}

/// What rights `user_id` holds inside `group_id`, by the snapshots:
/// zero without a cached role or rights row.
pub open spec fn group_rights_of(
    users: Seq<User>,
    acl: Seq<GroupRoleRights>,
    group_id: i64,
    user_id: i64,
) -> i64 {
    match cached_user_role(users, user_id) {
        Some(role_id) => cached_rights(acl, group_id, role_id),
        None => 0,
    }
}

/// What rights `user_id` holds inside `channel_id`'s group: zero
/// without a cached role or channel.
pub open spec fn channel_rights_of(
    users: Seq<User>,
    acl: Seq<GroupRoleRights>,
    channels: Seq<Channel>,
    channel_id: i64,
    user_id: i64,
) -> i64 {
    match (cached_user_role(users, user_id), cached_channel_group(channels, channel_id)) {
        (Some(role_id), Some(group_id)) => cached_rights(acl, group_id, role_id),
        _ => 0,
    }
}

/// The first cached participant row of `user_id`, if any.
pub open spec fn cached_participant(
    voip: Seq<VoipParticipant>,
    user_id: i64,
) -> Option<VoipParticipant>
    decreases voip.len(),
{
    if voip.len() == 0 {
        None
    } else if voip[0].user_id == user_id {
        Some(voip[0])
    } else {
        cached_participant(voip.drop_first(), user_id)
    }
}

/// Whether `user_id` watches `publisher_id`'s `media_type` stream.
pub open spec fn cached_subscribed(
    subs: Seq<Subscription>,
    user_id: i64,
    publisher_id: i64,
    media_type: MediaType,
) -> bool {
    exists|i: int|
        0 <= i < subs.len() && subs[i].user_id == user_id && subs[i].publisher_id == publisher_id
            && subs[i].media_type == media_type
}

/// The cached tables the fan-out routes by.
pub struct RoutingSnapshot {
    pub voip_cache: Vec<VoipParticipant>,
    pub acl_cache: Vec<GroupRoleRights>,
    pub user_cache: Vec<User>,
    pub channel_cache: Vec<Channel>,
    pub subscription_cache: Vec<Subscription>,
}

/// Whether a policy admits a handler, by the snapshots.
pub open spec fn policy_admits(
    policy: ControlRoutingPolicy,
    snap: RoutingSnapshot,
    handler: HandlerView,
) -> bool {
    match policy {
        ControlRoutingPolicy::GroupRights { group_id, minimum_rights } => group_rights_of(
            snap.user_cache@,
            snap.acl_cache@,
            group_id,
            handler.user_id,
        ) >= minimum_rights,
        ControlRoutingPolicy::ChannelRights { channel_id, minimum_rights } => channel_rights_of(
            snap.user_cache@,
            snap.acl_cache@,
            snap.channel_cache@,
            channel_id,
            handler.user_id,
        ) >= minimum_rights,
        ControlRoutingPolicy::User { user_id } => handler.user_id == user_id,
        ControlRoutingPolicy::Role { role_id } => cached_user_role(
            snap.user_cache@,
            handler.user_id,
        ) == Some(role_id),
        ControlRoutingPolicy::Broadcast => true,
    }
}

/// The handler indexes a policy admits, ascending.
pub open spec fn admitted_indexes(
    policy: ControlRoutingPolicy,
    snap: RoutingSnapshot,
    handlers: Seq<HandlerView>,
    upto: int,
) -> Seq<usize>
    decreases upto,
{
    if upto <= 0 {
        Seq::empty()
    } else {
        admitted_indexes(policy, snap, handlers, upto - 1) + (if policy_admits(
            policy,
            snap,
            handlers[upto - 1],
        ) {
            seq![(upto - 1) as usize]
        } else {
            Seq::empty()
        })
    }
}

/// The realtime fan-out's whole state: the live handlers and the
/// table snapshots routing is judged against.  Snapshot consistency
/// is by construction — every decision reads one snapshot value.
pub struct RealtimeServer {
    /// The live sessions, in connection order.
    pub observers: Vec<SubscriberHandler>,
    /// The cached tables.
    pub snapshot: RoutingSnapshot,
}

impl RealtimeServer {
    /// A fan-out with no sessions and empty snapshots.
    pub fn new() -> (r: RealtimeServer)
        ensures
            r.observers@.len() == 0,
            r.snapshot.voip_cache@.len() == 0,
            r.snapshot.acl_cache@.len() == 0,
            r.snapshot.user_cache@.len() == 0,
            r.snapshot.channel_cache@.len() == 0,
            r.snapshot.subscription_cache@.len() == 0,
    {
        RealtimeServer {
            observers: Vec::new(),
            snapshot: RoutingSnapshot {
                voip_cache: Vec::new(),
                acl_cache: Vec::new(),
                user_cache: Vec::new(),
                channel_cache: Vec::new(),
                subscription_cache: Vec::new(),
            },
        }
    }

    /// Install a fresh participant snapshot.
    pub fn install_voip_cache(&mut self, participants: Vec<VoipParticipant>)
        ensures
            final(self).snapshot.voip_cache == participants,
            final(self).observers == old(self).observers,
            final(self).snapshot.acl_cache == old(self).snapshot.acl_cache,
            final(self).snapshot.user_cache == old(self).snapshot.user_cache,
            final(self).snapshot.channel_cache == old(self).snapshot.channel_cache,
            final(self).snapshot.subscription_cache == old(self).snapshot.subscription_cache,
    {
        self.snapshot.voip_cache = participants;
    }

    /// Install fresh rights, user and channel snapshots.
    pub fn install_acl_cache(
        &mut self,
        rights: Vec<GroupRoleRights>,
        users: Vec<User>,
        channels: Vec<Channel>,
    )
        ensures
            final(self).snapshot.acl_cache == rights,
            final(self).snapshot.user_cache == users,
            final(self).snapshot.channel_cache == channels,
            final(self).observers == old(self).observers,
            final(self).snapshot.voip_cache == old(self).snapshot.voip_cache,
            final(self).snapshot.subscription_cache == old(self).snapshot.subscription_cache,
    {
        self.snapshot.acl_cache = rights;
        self.snapshot.user_cache = users;
        self.snapshot.channel_cache = channels;
    }

    /// Install a fresh subscription snapshot.
    pub fn install_subscription_cache(&mut self, subscriptions: Vec<Subscription>)
        ensures
            final(self).snapshot.subscription_cache == subscriptions,
            final(self).observers == old(self).observers,
            final(self).snapshot.voip_cache == old(self).snapshot.voip_cache,
            final(self).snapshot.acl_cache == old(self).snapshot.acl_cache,
            final(self).snapshot.user_cache == old(self).snapshot.user_cache,
            final(self).snapshot.channel_cache == old(self).snapshot.channel_cache,
    {
        self.snapshot.subscription_cache = subscriptions;
    }

    /// How many live sessions `user_id` holds.
    pub fn count_user_sessions(&self, user_id: i64) -> (r: usize)
        ensures
            r == count_sessions_of(handler_views(self.observers@), user_id),
    {
        let mut count: usize = 0;
        let mut i: usize = 0;
        while i < self.observers.len()
            invariant
                i <= self.observers@.len(),
                count == count_sessions_of(
                    handler_views(self.observers@).take(i as int),
                    user_id,
                ),
                count <= i,
            decreases self.observers@.len() - i,
        {
            assert(handler_views(self.observers@).take(i + 1).drop_last() =~= handler_views(
                self.observers@,
            ).take(i as int));
            if self.observers[i].user_id == user_id {
                count = count + 1;
            }
            i = i + 1;
        }
        assert(handler_views(self.observers@).take(self.observers@.len() as int)
            =~= handler_views(self.observers@));
        count
    }

    /// The cached rights of `user_id` inside `group_id`.
    pub fn get_cached_group_rights(&self, group_id: i64, user_id: i64) -> (r: i64)
        ensures
            r == group_rights_of(
                self.snapshot.user_cache@,
                self.snapshot.acl_cache@,
                group_id,
                user_id,
            ),
    {
        match find_user_role(&self.snapshot.user_cache, user_id) {
            Some(role_id) => find_rights(&self.snapshot.acl_cache, group_id, role_id),
            None => 0,
        }
    }

    /// The cached rights of `user_id` inside `channel_id`'s group.
    pub fn get_cached_channel_rights(&self, channel_id: i64, user_id: i64) -> (r: i64)
        ensures
            r == channel_rights_of(
                self.snapshot.user_cache@,
                self.snapshot.acl_cache@,
                self.snapshot.channel_cache@,
                channel_id,
                user_id,
            ),
    {
        let role = find_user_role(&self.snapshot.user_cache, user_id);
        let group = find_channel_group(&self.snapshot.channel_cache, channel_id);
        match (role, group) {
            (Some(role_id), Some(group_id)) => find_rights(
                &self.snapshot.acl_cache,
                group_id,
                role_id,
            ),
            _ => 0,
        }
    }

    /// The cached role of `user_id`.
    pub fn get_cached_user_role(&self, user_id: i64) -> (r: Option<i64>)
        ensures
            r == cached_user_role(self.snapshot.user_cache@, user_id),
    {
        find_user_role(&self.snapshot.user_cache, user_id)
    }

    /// Routing: the indexes of every handler the policy admits, in
    /// connection order — the caller delivers the event to exactly
    /// these.
    pub fn route_control(&self, policy: &ControlRoutingPolicy) -> (r: Vec<usize>)
        ensures
            r@ == admitted_indexes(
                *policy,
                self.snapshot,
                handler_views(self.observers@),
                self.observers@.len() as int,
            ),
            forall|t: int| 0 <= t < r@.len() ==> (#[trigger] r@[t]) < self.observers@.len(),
    {
        let mut out: Vec<usize> = Vec::new();
        let mut i: usize = 0;
        while i < self.observers.len()
            invariant
                i <= self.observers@.len(),
                out@ == admitted_indexes(
                    *policy,
                    self.snapshot,
                    handler_views(self.observers@),
                    i as int,
                ),
                forall|t: int| 0 <= t < out@.len() ==> (#[trigger] out@[t]) < i,
            decreases self.observers@.len() - i,
        {
            let subscriber = &self.observers[i];
            let can_receive = match policy {
                ControlRoutingPolicy::GroupRights { group_id, minimum_rights } => {
                    self.get_cached_group_rights(*group_id, subscriber.user_id)
                        >= *minimum_rights
                },
                ControlRoutingPolicy::ChannelRights { channel_id, minimum_rights } => {
                    self.get_cached_channel_rights(*channel_id, subscriber.user_id)
                        >= *minimum_rights
                },
                ControlRoutingPolicy::User { user_id } => subscriber.user_id == *user_id,
                ControlRoutingPolicy::Role { role_id } => {
                    match self.get_cached_user_role(subscriber.user_id) {
                        Some(r) => r == *role_id,
                        None => false,
                    }
                },
                ControlRoutingPolicy::Broadcast => true,
            };
            proof {
                assert(handler_views(self.observers@)[i as int] == self.observers@[i as int]@);
            }
            if can_receive {
                out.push(i);
            }
            i = i + 1;
        }
        out
    }
}

impl RealtimeServer {
    /// A session connected: add its handler to the end of the list.
    pub fn handle_connect(
        &mut self,
        user_id: i64,
        session_id: i64,
        session_token: String,
        identifier: String,
    )
        ensures
            final(self).observers@.len() == old(self).observers@.len() + 1,
            final(self).observers@.drop_last() == old(self).observers@,
            final(self).observers@.last()@ == (HandlerView {
                user_id,
                session_id,
                session_token: session_token@,
                identifier: identifier@,
                invalid_voip_count: 0,
            }),
            final(self).snapshot == old(self).snapshot,
    {
        self.observers.push(
            SubscriberHandler {
                user_id,
                session_id,
                session_token,
                identifier,
                invalid_voip_count: 0,
            },
        );
        assert(self.observers@.drop_last() =~= old(self).observers@);
    }

    /// A session timed out: drop every handler carrying its
    /// identifier and say whether the user has no session left.
    pub fn handle_timeout(&mut self, user_id: i64, identifier: &str) -> (user_gone: bool)
        ensures
            handler_views(final(self).observers@) == kept_without_identifier(
                handler_views(old(self).observers@),
                identifier@,
            ),
            user_gone == (count_sessions_of(handler_views(final(self).observers@), user_id)
                == 0),
            final(self).snapshot == old(self).snapshot,
    {
        self.retain_without_identifier(identifier);
        self.count_user_sessions(user_id) == 0
    }

    /// A session was told to disconnect: report the handler indexes
    /// to send a close to, drop them, and say whether the user has
    /// no session left.
    pub fn handle_disconnect(&mut self, user_id: i64, session_token: &str) -> (r: (
        Vec<usize>,
        bool,
    ))
        ensures
            r.0@ == token_indexes(
                handler_views(old(self).observers@),
                session_token@,
                old(self).observers@.len() as int,
            ),
            handler_views(final(self).observers@) == kept_without_token(
                handler_views(old(self).observers@),
                session_token@,
            ),
            r.1 == (count_sessions_of(handler_views(final(self).observers@), user_id) == 0),
            final(self).snapshot == old(self).snapshot,
    {
        let key: String = session_token.to_owned();
        let mut to_close: Vec<usize> = Vec::new();
        let mut i: usize = 0;
        while i < self.observers.len()
            invariant
                i <= self.observers@.len(),
                key@ == session_token@,
                *self == *old(self),
                to_close@ == token_indexes(
                    handler_views(self.observers@),
                    session_token@,
                    i as int,
                ),
            decreases self.observers@.len() - i,
        {
            proof {
                assert(handler_views(self.observers@)[i as int] == self.observers@[i as int]@);
            }
            if self.observers[i].session_token == key {
                to_close.push(i);
            }
            i = i + 1;
        }
        let mut kept: Vec<SubscriberHandler> = Vec::new();
        let ghost orig = handler_views(self.observers@);
        let mut j: usize = 0;
        while j < self.observers.len()
            invariant
                j <= self.observers@.len(),
                key@ == session_token@,
                self.observers == old(self).observers,
                self.snapshot == old(self).snapshot,
                orig == handler_views(self.observers@),
                handler_views(kept@) == kept_without_token(orig.take(j as int), session_token@),
            decreases self.observers@.len() - j,
        {
            proof {
                assert(orig.take(j + 1).drop_last() =~= orig.take(j as int));
                assert(orig[j as int] == self.observers@[j as int]@);
            }
            let h = &self.observers[j];
            if !(h.session_token == key) {
                kept.push(clone_handler(h));
            }
            assert(handler_views(kept@) =~= kept_without_token(
                orig.take(j + 1),
                session_token@,
            ));
            j = j + 1;
        }
        assert(orig.take(orig.len() as int) =~= orig);
        self.observers = kept;
        let gone = self.count_user_sessions(user_id) == 0;
        (to_close, gone)
    }

    /// Every session of `user_id` was told to disconnect: report
    /// the handler indexes to send a close to and drop them.
    pub fn handle_disconnect_user(&mut self, user_id: i64) -> (r: Vec<usize>)
        ensures
            r@ == user_indexes(
                handler_views(old(self).observers@),
                user_id,
                old(self).observers@.len() as int,
            ),
            handler_views(final(self).observers@) == kept_without_user(
                handler_views(old(self).observers@),
                user_id,
            ),
            final(self).snapshot == old(self).snapshot,
    {
        let mut to_close: Vec<usize> = Vec::new();
        let mut i: usize = 0;
        while i < self.observers.len()
            invariant
                i <= self.observers@.len(),
                *self == *old(self),
                to_close@ == user_indexes(handler_views(self.observers@), user_id, i as int),
            decreases self.observers@.len() - i,
        {
            proof {
                assert(handler_views(self.observers@)[i as int] == self.observers@[i as int]@);
            }
            if self.observers[i].user_id == user_id {
                to_close.push(i);
            }
            i = i + 1;
        }
        let mut kept: Vec<SubscriberHandler> = Vec::new();
        let ghost orig = handler_views(self.observers@);
        let mut j: usize = 0;
        while j < self.observers.len()
            invariant
                j <= self.observers@.len(),
                self.observers == old(self).observers,
                self.snapshot == old(self).snapshot,
                orig == handler_views(self.observers@),
                handler_views(kept@) == kept_without_user(orig.take(j as int), user_id),
            decreases self.observers@.len() - j,
        {
            proof {
                assert(orig.take(j + 1).drop_last() =~= orig.take(j as int));
                assert(orig[j as int] == self.observers@[j as int]@);
            }
            let h = &self.observers[j];
            if h.user_id != user_id {
                kept.push(clone_handler(h));
            }
            assert(handler_views(kept@) =~= kept_without_user(orig.take(j + 1), user_id));
            j = j + 1;
        }
        assert(orig.take(orig.len() as int) =~= orig);
        self.observers = kept;
        to_close
    }

    /// Count one malformed media report from `user_id` against its
    /// first handler; true once the sender has crossed the abuse
    /// threshold.
    pub fn increment_invalid_voip(&mut self, user_id: i64) -> (drop_sender: bool)
        ensures
            final(self).snapshot == old(self).snapshot,
            bumped_at(old(self).observers@, final(self).observers@, user_id),
            drop_sender == (match first_user_index(
                handler_views(old(self).observers@),
                user_id,
                0,
            ) {
                None => false,
                Some(i) => final(self).observers@[i]@.invalid_voip_count
                    > MAX_INVALID_VOIP_PACKETS,
            }),
    {
        let mut i: usize = 0;
        while i < self.observers.len()
            invariant
                i <= self.observers@.len(),
                *self == *old(self),
                first_user_index(handler_views(self.observers@), user_id, 0)
                    == first_user_index(handler_views(self.observers@), user_id, i as int),
            decreases self.observers@.len() - i,
        {
            proof {
                assert(handler_views(self.observers@)[i as int] == self.observers@[i as int]@);
            }
            if self.observers[i].user_id == user_id {
                let h = &self.observers[i];
                let grown: u32 = if h.invalid_voip_count >= 0xFFFF_FFFF {
                    h.invalid_voip_count
                } else {
                    h.invalid_voip_count + 1
                };
                let updated = SubscriberHandler {
                    user_id: h.user_id,
                    session_id: h.session_id,
                    session_token: clone_string(&h.session_token),
                    identifier: clone_string(&h.identifier),
                    invalid_voip_count: grown,
                };
                let over = grown > MAX_INVALID_VOIP_PACKETS;
                self.observers.set(i, updated);
                return over;
            }
            i = i + 1;
        }
        false
    }

    /// Clear `user_id`'s malformed-report count on its first
    /// handler.
    pub fn reset_invalid_voip(&mut self, user_id: i64)
        ensures
            final(self).snapshot == old(self).snapshot,
            cleared_at(old(self).observers@, final(self).observers@, user_id),
    {
        let mut i: usize = 0;
        while i < self.observers.len()
            invariant
                i <= self.observers@.len(),
                *self == *old(self),
                first_user_index(handler_views(self.observers@), user_id, 0)
                    == first_user_index(handler_views(self.observers@), user_id, i as int),
            decreases self.observers@.len() - i,
        {
            proof {
                assert(handler_views(self.observers@)[i as int] == self.observers@[i as int]@);
            }
            if self.observers[i].user_id == user_id {
                let h = &self.observers[i];
                let updated = SubscriberHandler {
                    user_id: h.user_id,
                    session_id: h.session_id,
                    session_token: clone_string(&h.session_token),
                    identifier: clone_string(&h.identifier),
                    invalid_voip_count: 0,
                };
                self.observers.set(i, updated);
                return ;
            }
            i = i + 1;
        }
    }

    /// The cached participant row of `user_id`.
    pub fn get_cached_voip(&self, user_id: i64) -> (r: Option<&VoipParticipant>)
        ensures
            match r {
                Some(p) => cached_participant(self.snapshot.voip_cache@, user_id) == Some(*p),
                None => cached_participant(self.snapshot.voip_cache@, user_id) is None,
            },
    {
        let mut i: usize = 0;
        assert(self.snapshot.voip_cache@.skip(0) =~= self.snapshot.voip_cache@);
        while i < self.snapshot.voip_cache.len()
            invariant
                i <= self.snapshot.voip_cache@.len(),
                cached_participant(self.snapshot.voip_cache@, user_id) == cached_participant(
                    self.snapshot.voip_cache@.skip(i as int),
                    user_id,
                ),
            decreases self.snapshot.voip_cache@.len() - i,
        {
            assert(self.snapshot.voip_cache@.skip(i as int).drop_first()
                =~= self.snapshot.voip_cache@.skip(i + 1));
            assert(self.snapshot.voip_cache@.skip(i as int)[0]
                == self.snapshot.voip_cache@[i as int]);
            if self.snapshot.voip_cache[i].user_id == user_id {
                return Some(&self.snapshot.voip_cache[i]);
            }
            i = i + 1;
        }
        None
    }

    /// Whether `user_id` watches `publisher_id`'s `media_type`
    /// stream, by the snapshot.
    pub fn is_cached_subscribed(
        &self,
        user_id: i64,
        publisher_id: i64,
        media_type: &MediaType,
    ) -> (r: bool)
        ensures
            r == cached_subscribed(
                self.snapshot.subscription_cache@,
                user_id,
                publisher_id,
                *media_type,
            ),
    {
        let subs = &self.snapshot.subscription_cache;
        let mut i: usize = 0;
        while i < subs.len()
            invariant
                i <= subs@.len(),
                subs == &self.snapshot.subscription_cache,
                forall|j: int|
                    0 <= j < i ==> !((#[trigger] subs@[j]).user_id == user_id
                        && subs@[j].publisher_id == publisher_id && subs@[j].media_type
                        == *media_type),
            decreases subs@.len() - i,
        {
            let s = &subs[i];
            let same_type = match (s.media_type, media_type) {
                (MediaType::Screen, MediaType::Screen) => true,
                (MediaType::Camera, MediaType::Camera) => true,
                (MediaType::Audio, MediaType::Audio) => true,
                _ => false,
            };
            if s.user_id == user_id && s.publisher_id == publisher_id && same_type {
                return true;
            }
            i = i + 1;
        }
        false
    }

    /// Speech routing inside a channel: every handler whose user
    /// holds at least watcher rights on the channel.
    pub fn speech_channel_recipients(&self, channel_id: i64) -> (r: Vec<usize>)
        ensures
            r@ == admitted_indexes(
                ControlRoutingPolicy::ChannelRights { channel_id, minimum_rights: 1 },
                self.snapshot,
                handler_views(self.observers@),
                self.observers@.len() as int,
            ),
            forall|t: int| 0 <= t < r@.len() ==> (#[trigger] r@[t]) < self.observers@.len(),
    {
        self.route_control(
            &ControlRoutingPolicy::ChannelRights { channel_id, minimum_rights: 1 },
        )
    }

    /// Speech routing in a direct call: the two parties' handlers.
    pub fn speech_direct_recipients(&self, sender_id: i64, recipient_id: i64) -> (r: Vec<usize>)
        ensures
            r@ == pair_indexes(
                handler_views(self.observers@),
                sender_id,
                recipient_id,
                self.observers@.len() as int,
            ),
            forall|t: int| 0 <= t < r@.len() ==> (#[trigger] r@[t]) < self.observers@.len(),
    {
        let mut out: Vec<usize> = Vec::new();
        let mut i: usize = 0;
        while i < self.observers.len()
            invariant
                i <= self.observers@.len(),
                out@ == pair_indexes(
                    handler_views(self.observers@),
                    sender_id,
                    recipient_id,
                    i as int,
                ),
                forall|t: int| 0 <= t < out@.len() ==> (#[trigger] out@[t]) < i,
            decreases self.observers@.len() - i,
        {
            proof {
                assert(handler_views(self.observers@)[i as int] == self.observers@[i as int]@);
            }
            if self.observers[i].user_id == recipient_id || self.observers[i].user_id
                == sender_id {
                out.push(i);
            }
            i = i + 1;
        }
        out
    }

    /// Voice routing inside a channel: every handler whose user
    /// sits in the same channel, is not deafened, and is not the
    /// speaker.
    pub fn voice_channel_recipients(&self, sender_id: i64, channel_id: i64) -> (r: Vec<usize>)
        ensures
            r@ == voice_channel_indexes(
                handler_views(self.observers@),
                self.snapshot.voip_cache@,
                sender_id,
                channel_id,
                self.observers@.len() as int,
            ),
            forall|t: int| 0 <= t < r@.len() ==> (#[trigger] r@[t]) < self.observers@.len(),
    {
        let mut out: Vec<usize> = Vec::new();
        let mut i: usize = 0;
        while i < self.observers.len()
            invariant
                i <= self.observers@.len(),
                out@ == voice_channel_indexes(
                    handler_views(self.observers@),
                    self.snapshot.voip_cache@,
                    sender_id,
                    channel_id,
                    i as int,
                ),
                forall|t: int| 0 <= t < out@.len() ==> (#[trigger] out@[t]) < i,
            decreases self.observers@.len() - i,
        {
            proof {
                assert(handler_views(self.observers@)[i as int] == self.observers@[i as int]@);
            }
            let uid = self.observers[i].user_id;
            let mut hears = false;
            match self.get_cached_voip(uid) {
                Some(p) => {
                    let in_channel = match p.channel_id {
                        Some(c) => c == channel_id,
                        None => false,
                    };
                    if in_channel && !p.local_deafen && uid != sender_id {
                        hears = true;
                    }
                },
                None => {},
            }
            if hears {
                out.push(i);
            }
            i = i + 1;
        }
        out
    }

    /// Voice routing in a direct call: the recipient's handlers,
    /// while the recipient is itself in a call and not deafened.
    pub fn voice_direct_recipients(&self, recipient_id: i64) -> (r: Vec<usize>)
        ensures
            r@ == voice_direct_indexes(
                handler_views(self.observers@),
                self.snapshot.voip_cache@,
                recipient_id,
                self.observers@.len() as int,
            ),
            forall|t: int| 0 <= t < r@.len() ==> (#[trigger] r@[t]) < self.observers@.len(),
    {
        let mut out: Vec<usize> = Vec::new();
        let mut i: usize = 0;
        while i < self.observers.len()
            invariant
                i <= self.observers@.len(),
                out@ == voice_direct_indexes(
                    handler_views(self.observers@),
                    self.snapshot.voip_cache@,
                    recipient_id,
                    i as int,
                ),
                forall|t: int| 0 <= t < out@.len() ==> (#[trigger] out@[t]) < i,
            decreases self.observers@.len() - i,
        {
            proof {
                assert(handler_views(self.observers@)[i as int] == self.observers@[i as int]@);
            }
            let uid = self.observers[i].user_id;
            let mut hears = false;
            match self.get_cached_voip(uid) {
                Some(p) => {
                    if p.recipient_id.is_some() && !p.local_deafen && uid == recipient_id {
                        hears = true;
                    }
                },
                None => {},
            }
            if hears {
                out.push(i);
            }
            i = i + 1;
        }
        out
    }

    /// Screen and camera routing: every handler subscribed to the
    /// sender's stream of that kind.
    pub fn media_recipients(&self, sender_id: i64, media_type: &MediaType) -> (r: Vec<usize>)
        ensures
            r@ == media_indexes(
                handler_views(self.observers@),
                self.snapshot.subscription_cache@,
                sender_id,
                *media_type,
                self.observers@.len() as int,
            ),
            forall|t: int| 0 <= t < r@.len() ==> (#[trigger] r@[t]) < self.observers@.len(),
    {
        let mut out: Vec<usize> = Vec::new();
        let mut i: usize = 0;
        while i < self.observers.len()
            invariant
                i <= self.observers@.len(),
                out@ == media_indexes(
                    handler_views(self.observers@),
                    self.snapshot.subscription_cache@,
                    sender_id,
                    *media_type,
                    i as int,
                ),
                forall|t: int| 0 <= t < out@.len() ==> (#[trigger] out@[t]) < i,
            decreases self.observers@.len() - i,
        {
            proof {
                assert(handler_views(self.observers@)[i as int] == self.observers@[i as int]@);
            }
            if self.is_cached_subscribed(self.observers[i].user_id, sender_id, media_type) {
                out.push(i);
            }
            i = i + 1;
        }
        out
    }

    /// Drop every handler carrying `identifier`.
    fn retain_without_identifier(&mut self, identifier: &str)
        ensures
            handler_views(final(self).observers@) == kept_without_identifier(
                handler_views(old(self).observers@),
                identifier@,
            ),
            final(self).snapshot == old(self).snapshot,
    {
        let key: String = identifier.to_owned();
        let mut kept: Vec<SubscriberHandler> = Vec::new();
        let ghost orig = handler_views(self.observers@);
        let mut j: usize = 0;
        while j < self.observers.len()
            invariant
                j <= self.observers@.len(),
                key@ == identifier@,
                self.observers == old(self).observers,
                self.snapshot == old(self).snapshot,
                orig == handler_views(self.observers@),
                handler_views(kept@) == kept_without_identifier(
                    orig.take(j as int),
                    identifier@,
                ),
            decreases self.observers@.len() - j,
        {
            proof {
                assert(orig.take(j + 1).drop_last() =~= orig.take(j as int));
                assert(orig[j as int] == self.observers@[j as int]@);
            }
            let h = &self.observers[j];
            if !(h.identifier == key) {
                kept.push(clone_handler(h));
            }
            assert(handler_views(kept@) =~= kept_without_identifier(
                orig.take(j + 1),
                identifier@,
            ));
            j = j + 1;
        }
        assert(orig.take(orig.len() as int) =~= orig);
        self.observers = kept;
    }
}

/// A fresh copy of a string.
fn clone_string(s: &String) -> (r: String)
    ensures
        r@ == s@,
{
    s.as_str().to_owned()
}

/// A fresh copy of a handler, field for field.
fn clone_handler(h: &SubscriberHandler) -> (r: SubscriberHandler)
    ensures
        r@ == h@,
{
    SubscriberHandler {
        user_id: h.user_id,
        session_id: h.session_id,
        session_token: clone_string(&h.session_token),
        identifier: clone_string(&h.identifier),
        invalid_voip_count: h.invalid_voip_count,
    }
}

/// The handlers whose identifier is not `id`, in order.
pub open spec fn kept_without_identifier(
    handlers: Seq<HandlerView>,
    id: Seq<char>,
) -> Seq<HandlerView>
    decreases handlers.len(),
{
    if handlers.len() == 0 {
        Seq::empty()
    } else {
        kept_without_identifier(handlers.drop_last(), id) + (if handlers.last().identifier
            == id {
            Seq::empty()
        } else {
            seq![handlers.last()]
        })
    }
}

/// The handlers whose token is not `token`, in order.
pub open spec fn kept_without_token(
    handlers: Seq<HandlerView>,
    token: Seq<char>,
) -> Seq<HandlerView>
    decreases handlers.len(),
{
    if handlers.len() == 0 {
        Seq::empty()
    } else {
        kept_without_token(handlers.drop_last(), token) + (if handlers.last().session_token
            == token {
            Seq::empty()
        } else {
            seq![handlers.last()]
        })
    }
}

/// The handlers of other users, in order.
pub open spec fn kept_without_user(handlers: Seq<HandlerView>, user_id: i64) -> Seq<HandlerView>
    decreases handlers.len(),
{
    if handlers.len() == 0 {
        Seq::empty()
    } else {
        kept_without_user(handlers.drop_last(), user_id) + (if handlers.last().user_id
            == user_id {
            Seq::empty()
        } else {
            seq![handlers.last()]
        })
    }
}

/// The indexes below `upto` whose handler carries `token`.
pub open spec fn token_indexes(
    handlers: Seq<HandlerView>,
    token: Seq<char>,
    upto: int,
) -> Seq<usize>
    decreases upto,
{
    if upto <= 0 {
        Seq::empty()
    } else {
        token_indexes(handlers, token, upto - 1) + (if handlers[upto - 1].session_token
            == token {
            seq![(upto - 1) as usize]
        } else {
            Seq::empty()
        })
    }
}

/// The indexes below `upto` whose handler carries `user_id`.
pub open spec fn user_indexes(handlers: Seq<HandlerView>, user_id: i64, upto: int) -> Seq<usize>
    decreases upto,
{
    if upto <= 0 {
        Seq::empty()
    } else {
        user_indexes(handlers, user_id, upto - 1) + (if handlers[upto - 1].user_id == user_id {
            seq![(upto - 1) as usize]
        } else {
            Seq::empty()
        })
    }
}

/// The first index at `from` or beyond whose handler carries
/// `user_id`.
pub open spec fn first_user_index(
    handlers: Seq<HandlerView>,
    user_id: i64,
    from: int,
) -> Option<int>
    decreases handlers.len() - from,
{
    if from < 0 || from >= handlers.len() {
        None
    } else if handlers[from].user_id == user_id {
        Some(from)
    } else {
        first_user_index(handlers, user_id, from + 1)
    }
}

/// The indexes below `upto` whose handler carries either party of a
/// direct call.
pub open spec fn pair_indexes(
    handlers: Seq<HandlerView>,
    sender_id: i64,
    recipient_id: i64,
    upto: int,
) -> Seq<usize>
    decreases upto,
{
    if upto <= 0 {
        Seq::empty()
    } else {
        pair_indexes(handlers, sender_id, recipient_id, upto - 1) + (if handlers[upto
            - 1].user_id == recipient_id || handlers[upto - 1].user_id == sender_id {
            seq![(upto - 1) as usize]
        } else {
            Seq::empty()
        })
    }
}

/// Whether a handler hears channel voice: its user sits in the
/// channel, undeafened, and is not the speaker.
pub open spec fn hears_channel_voice(
    voip: Seq<VoipParticipant>,
    h: HandlerView,
    sender_id: i64,
    channel_id: i64,
) -> bool {
    match cached_participant(voip, h.user_id) {
        Some(p) => p.channel_id == Some(channel_id) && !p.local_deafen && h.user_id != sender_id,
        None => false,
    }
}

/// The indexes below `upto` that hear channel voice.
pub open spec fn voice_channel_indexes(
    handlers: Seq<HandlerView>,
    voip: Seq<VoipParticipant>,
    sender_id: i64,
    channel_id: i64,
    upto: int,
) -> Seq<usize>
    decreases upto,
{
    if upto <= 0 {
        Seq::empty()
    } else {
        voice_channel_indexes(handlers, voip, sender_id, channel_id, upto - 1) + (
        if hears_channel_voice(voip, handlers[upto - 1], sender_id, channel_id) {
            seq![(upto - 1) as usize]
        } else {
            Seq::empty()
        })
    }
}

/// Whether a handler hears direct-call voice: it is the recipient,
/// itself in a call and undeafened.
pub open spec fn hears_direct_voice(
    voip: Seq<VoipParticipant>,
    h: HandlerView,
    recipient_id: i64,
) -> bool {
    match cached_participant(voip, h.user_id) {
        Some(p) => p.recipient_id is Some && !p.local_deafen && h.user_id == recipient_id,
        None => false,
    }
}

/// The indexes below `upto` that hear direct-call voice.
pub open spec fn voice_direct_indexes(
    handlers: Seq<HandlerView>,
    voip: Seq<VoipParticipant>,
    recipient_id: i64,
    upto: int,
) -> Seq<usize>
    decreases upto,
{
    if upto <= 0 {
        Seq::empty()
    } else {
        voice_direct_indexes(handlers, voip, recipient_id, upto - 1) + (if hears_direct_voice(
            voip,
            handlers[upto - 1],
            recipient_id,
        ) {
            seq![(upto - 1) as usize]
        } else {
            Seq::empty()
        })
    }
}

/// The indexes below `upto` subscribed to the sender's stream.
pub open spec fn media_indexes(
    handlers: Seq<HandlerView>,
    subs: Seq<Subscription>,
    sender_id: i64,
    media_type: MediaType,
    upto: int,
) -> Seq<usize>
    decreases upto,
{
    if upto <= 0 {
        Seq::empty()
    } else {
        media_indexes(handlers, subs, sender_id, media_type, upto - 1) + (if cached_subscribed(
            subs,
            handlers[upto - 1].user_id,
            sender_id,
            media_type,
        ) {
            seq![(upto - 1) as usize]
        } else {
            Seq::empty()
        })
    }
}

/// One handler after a malformed-report bump: same session, the
/// counter one higher, saturating.
pub open spec fn bumped_handler(before: HandlerView, after: HandlerView) -> bool {
    &&& after.user_id == before.user_id
    &&& after.session_id == before.session_id
    &&& after.session_token == before.session_token
    &&& after.identifier == before.identifier
    &&& after.invalid_voip_count == (if before.invalid_voip_count >= 0xFFFF_FFFFu32 {
        before.invalid_voip_count as int
    } else {
        before.invalid_voip_count + 1
    })
}

/// One handler after its counter is cleared: same session, zero.
pub open spec fn cleared_handler(before: HandlerView, after: HandlerView) -> bool {
    &&& after.user_id == before.user_id
    &&& after.session_id == before.session_id
    &&& after.session_token == before.session_token
    &&& after.identifier == before.identifier
    &&& after.invalid_voip_count == 0
}

/// A handler list after bumping the first handler of `user_id`, if
/// one exists; otherwise unchanged.
pub open spec fn bumped_at(
    before: Seq<SubscriberHandler>,
    after: Seq<SubscriberHandler>,
    user_id: i64,
) -> bool {
    match first_user_index(handler_views(before), user_id, 0) {
        None => after == before,
        Some(i) => {
            &&& after.len() == before.len()
            &&& forall|t: int| 0 <= t < after.len() && t != i ==> after[t] == before[t]
            &&& bumped_handler(before[i]@, after[i]@)
        },
    }
}

/// A handler list after clearing the first handler of `user_id`, if
/// one exists; otherwise unchanged.
pub open spec fn cleared_at(
    before: Seq<SubscriberHandler>,
    after: Seq<SubscriberHandler>,
    user_id: i64,
) -> bool {
    match first_user_index(handler_views(before), user_id, 0) {
        None => after == before,
        Some(i) => {
            &&& after.len() == before.len()
            &&& forall|t: int| 0 <= t < after.len() && t != i ==> after[t] == before[t]
            &&& cleared_handler(before[i]@, after[i]@)
        },
    }
}

/// What the fan-out does with one media report.
#[derive(Debug)]
pub enum VoipRouting {
    /// Deliver the payload to these handler indexes.
    Deliver(Vec<usize>),
    /// The sender crossed the abuse threshold: disconnect it.
    DropSender,
    /// Nothing to do.
    Ignore,
}

impl RealtimeServer {
    /// A speaking-state report from `sender_id`: a sender that is
    /// not in a call, or lacks speaker rights in its channel, is
    /// counted as abusive — and dropped past the threshold; a valid
    /// one clears its counter and reaches every channel watcher, or
    /// both parties of a direct call.  On `DropSender` the caller
    /// disconnects the sender.
    pub fn handle_speech(&mut self, sender_id: i64) -> (r: VoipRouting)
        ensures
            final(self).snapshot == old(self).snapshot,
            ({
                let voip = old(self).snapshot.voip_cache@;
                let abusive = match cached_participant(voip, sender_id) {
                    None => true,
                    Some(p) => match p.channel_id {
                        Some(c) => channel_rights_of(
                            old(self).snapshot.user_cache@,
                            old(self).snapshot.acl_cache@,
                            old(self).snapshot.channel_cache@,
                            c,
                            sender_id,
                        ) <= 2,
                        None => false,
                    },
                };
                if abusive {
                    &&& bumped_at(old(self).observers@, final(self).observers@, sender_id)
                    &&& (match first_user_index(
                        handler_views(old(self).observers@),
                        sender_id,
                        0,
                    ) {
                        None => r is Ignore,
                        Some(i) => if final(self).observers@[i]@.invalid_voip_count
                            > MAX_INVALID_VOIP_PACKETS {
                            r is DropSender
                        } else {
                            r is Ignore
                        },
                    })
                } else {
                    match cached_participant(voip, sender_id) {
                        Some(p) => match p.channel_id {
                            Some(c) => {
                                &&& cleared_at(
                                    old(self).observers@,
                                    final(self).observers@,
                                    sender_id,
                                )
                                &&& (r matches VoipRouting::Deliver(v) && v@
                                    == admitted_indexes(
                                    ControlRoutingPolicy::ChannelRights {
                                        channel_id: c,
                                        minimum_rights: 1,
                                    },
                                    final(self).snapshot,
                                    handler_views(final(self).observers@),
                                    final(self).observers@.len() as int,
                                ))
                            },
                            None => match p.recipient_id {
                                Some(rcpt) => {
                                    &&& cleared_at(
                                        old(self).observers@,
                                        final(self).observers@,
                                        sender_id,
                                    )
                                    &&& (r matches VoipRouting::Deliver(v) && v@
                                        == pair_indexes(
                                        handler_views(final(self).observers@),
                                        sender_id,
                                        rcpt,
                                        final(self).observers@.len() as int,
                                    ))
                                },
                                None => *final(self) == *old(self) && r is Ignore,
                            },
                        },
                        None => false,
                    }
                }
            }),
    {
        let (found, channel_id, recipient_id) = match self.get_cached_voip(sender_id) {
            Some(p) => (true, p.channel_id, p.recipient_id),
            None => (false, None, None),
        };
        if !found {
            if self.increment_invalid_voip(sender_id) {
                return VoipRouting::DropSender;
            }
            return VoipRouting::Ignore;
        }
        match channel_id {
            Some(c) => {
                if self.get_cached_channel_rights(c, sender_id) <= 2 {
                    if self.increment_invalid_voip(sender_id) {
                        return VoipRouting::DropSender;
                    }
                    return VoipRouting::Ignore;
                }
                self.reset_invalid_voip(sender_id);
                VoipRouting::Deliver(self.speech_channel_recipients(c))
            },
            None => match recipient_id {
                Some(rcpt) => {
                    self.reset_invalid_voip(sender_id);
                    VoipRouting::Deliver(self.speech_direct_recipients(sender_id, rcpt))
                },
                None => VoipRouting::Ignore,
            },
        }
    }

    /// A voice payload from `sender_id`: judged like speech, but a
    /// valid one reaches only undeafened listeners — channel mates,
    /// or the call's recipient.  On `DropSender` the caller
    /// disconnects the sender.
    pub fn handle_voice(&mut self, sender_id: i64) -> (r: VoipRouting)
        ensures
            final(self).snapshot == old(self).snapshot,
            ({
                let voip = old(self).snapshot.voip_cache@;
                let abusive = match cached_participant(voip, sender_id) {
                    None => true,
                    Some(p) => match p.channel_id {
                        Some(c) => channel_rights_of(
                            old(self).snapshot.user_cache@,
                            old(self).snapshot.acl_cache@,
                            old(self).snapshot.channel_cache@,
                            c,
                            sender_id,
                        ) <= 2,
                        None => false,
                    },
                };
                if abusive {
                    &&& bumped_at(old(self).observers@, final(self).observers@, sender_id)
                    &&& (match first_user_index(
                        handler_views(old(self).observers@),
                        sender_id,
                        0,
                    ) {
                        None => r is Ignore,
                        Some(i) => if final(self).observers@[i]@.invalid_voip_count
                            > MAX_INVALID_VOIP_PACKETS {
                            r is DropSender
                        } else {
                            r is Ignore
                        },
                    })
                } else {
                    match cached_participant(voip, sender_id) {
                        Some(p) => match p.channel_id {
                            Some(c) => {
                                &&& cleared_at(
                                    old(self).observers@,
                                    final(self).observers@,
                                    sender_id,
                                )
                                &&& (r matches VoipRouting::Deliver(v) && v@
                                    == voice_channel_indexes(
                                    handler_views(final(self).observers@),
                                    final(self).snapshot.voip_cache@,
                                    sender_id,
                                    c,
                                    final(self).observers@.len() as int,
                                ))
                            },
                            None => match p.recipient_id {
                                Some(rcpt) => {
                                    &&& cleared_at(
                                        old(self).observers@,
                                        final(self).observers@,
                                        sender_id,
                                    )
                                    &&& (r matches VoipRouting::Deliver(v) && v@
                                        == voice_direct_indexes(
                                        handler_views(final(self).observers@),
                                        final(self).snapshot.voip_cache@,
                                        rcpt,
                                        final(self).observers@.len() as int,
                                    ))
                                },
                                None => *final(self) == *old(self) && r is Ignore,
                            },
                        },
                        None => false,
                    }
                }
            }),
    {
        let (found, channel_id, recipient_id) = match self.get_cached_voip(sender_id) {
            Some(p) => (true, p.channel_id, p.recipient_id),
            None => (false, None, None),
        };
        if !found {
            if self.increment_invalid_voip(sender_id) {
                return VoipRouting::DropSender;
            }
            return VoipRouting::Ignore;
        }
        match channel_id {
            Some(c) => {
                if self.get_cached_channel_rights(c, sender_id) <= 2 {
                    if self.increment_invalid_voip(sender_id) {
                        return VoipRouting::DropSender;
                    }
                    return VoipRouting::Ignore;
                }
                self.reset_invalid_voip(sender_id);
                VoipRouting::Deliver(self.voice_channel_recipients(sender_id, c))
            },
            None => match recipient_id {
                Some(rcpt) => {
                    self.reset_invalid_voip(sender_id);
                    VoipRouting::Deliver(self.voice_direct_recipients(rcpt))
                },
                None => VoipRouting::Ignore,
            },
        }
    }

    /// A screen or camera payload from `sender_id`: delivered to
    /// every subscriber of that stream — camera bytes follow camera
    /// subscriptions, everything else screen subscriptions.
    pub fn handle_media(&self, sender_id: i64, media_type: &VoipDataType) -> (r: Vec<usize>)
        ensures
            r@ == media_indexes(
                handler_views(self.observers@),
                self.snapshot.subscription_cache@,
                sender_id,
                (match media_type {
                    VoipDataType::Camera => MediaType::Camera,
                    _ => MediaType::Screen,
                }),
                self.observers@.len() as int,
            ),
            forall|t: int| 0 <= t < r@.len() ==> (#[trigger] r@[t]) < self.observers@.len(),
    {
        let db_media_type = match media_type {
            VoipDataType::Camera => MediaType::Camera,
            _ => MediaType::Screen,
        };
        self.media_recipients(sender_id, &db_media_type)
    }
}

/// Where the news of a removed participant goes: channel watchers
/// for a channel participant, the other party for a direct call.
pub fn participant_removal_policy(participant: &VoipParticipant) -> (r: Option<
    ControlRoutingPolicy,
>)
    ensures
        (match participant.channel_id {
            Some(c) => r == Some(
                ControlRoutingPolicy::ChannelRights { channel_id: c, minimum_rights: 2 },
            ),
            None => match participant.recipient_id {
                Some(rcpt) => r == Some(ControlRoutingPolicy::User { user_id: rcpt }),
                None => r is None,
            },
        }),
{
    match participant.channel_id {
        Some(c) => Some(ControlRoutingPolicy::ChannelRights {
            channel_id: c,
            minimum_rights: 2,
        }),
        None => match participant.recipient_id {
            Some(rcpt) => Some(ControlRoutingPolicy::User { user_id: rcpt }),
            None => None,
        },
    }
}

/// How many handlers carry `user_id`.
pub open spec fn count_sessions_of(handlers: Seq<HandlerView>, user_id: i64) -> int
    decreases handlers.len(),
{
    if handlers.len() == 0 {
        0
    } else {
        count_sessions_of(handlers.drop_last(), user_id) + (if handlers.last().user_id
            == user_id {
            1int
        } else {
            0int
        })
    }
}

/// The first cached role of `user_id`, as executable code.
fn find_user_role(users: &Vec<User>, user_id: i64) -> (r: Option<i64>)
    ensures
        r == cached_user_role(users@, user_id),
{
    let mut i: usize = 0;
    assert(users@.skip(0) =~= users@);
    while i < users.len()
        invariant
            i <= users@.len(),
            cached_user_role(users@, user_id) == cached_user_role(
                users@.skip(i as int),
                user_id,
            ),
        decreases users@.len() - i,
    {
        assert(users@.skip(i as int).drop_first() =~= users@.skip(i + 1));
        assert(users@.skip(i as int)[0] == users@[i as int]);
        if users[i].user_id == user_id {
            assert(users@.skip(i as int)[0] == users@[i as int]);
            return Some(users[i].role_id);
        }
        i = i + 1;
    }
    None
}

/// The first cached group of `channel_id`, as executable code.
fn find_channel_group(channels: &Vec<Channel>, channel_id: i64) -> (r: Option<i64>)
    ensures
        r == cached_channel_group(channels@, channel_id),
{
    let mut i: usize = 0;
    assert(channels@.skip(0) =~= channels@);
    while i < channels.len()
        invariant
            i <= channels@.len(),
            cached_channel_group(channels@, channel_id) == cached_channel_group(
                channels@.skip(i as int),
                channel_id,
            ),
        decreases channels@.len() - i,
    {
        assert(channels@.skip(i as int).drop_first() =~= channels@.skip(i + 1));
        assert(channels@.skip(i as int)[0] == channels@[i as int]);
        if channels[i].channel_id == channel_id {
            assert(channels@.skip(i as int)[0] == channels@[i as int]);
            return Some(channels[i].group_id);
        }
        i = i + 1;
    }
    None
}

/// The first cached rights row of `(group_id, role_id)`, as
/// executable code; zero without one.
fn find_rights(acl: &Vec<GroupRoleRights>, group_id: i64, role_id: i64) -> (r: i64)
    ensures
        r == cached_rights(acl@, group_id, role_id),
{
    let mut i: usize = 0;
    assert(acl@.skip(0) =~= acl@);
    while i < acl.len()
        invariant
            i <= acl@.len(),
            cached_rights(acl@, group_id, role_id) == cached_rights(
                acl@.skip(i as int),
                group_id,
                role_id,
            ),
        decreases acl@.len() - i,
    {
        assert(acl@.skip(i as int).drop_first() =~= acl@.skip(i + 1));
        assert(acl@.skip(i as int)[0] == acl@[i as int]);
        if acl[i].group_id == group_id && acl[i].role_id == role_id {
            assert(acl@.skip(i as int)[0] == acl@[i as int]);
            return acl[i].rights;
        }
        i = i + 1;
    }
    0
}

} // verus!
