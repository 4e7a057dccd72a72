use opencord::channel::{Channel, ChannelType};
use opencord::group::GroupRoleRights;
use opencord::managers::{DefaultLockoutManager, DefaultRateLimiter, RateLimitError};
use opencord::middleware::RateLimitService;
use opencord::user::{User, UserStatusType};
use opencord::voip::{MediaType, Subscription, VoipParticipant};
use opencord::webtransport::{
    session_control_step, voip_payload_size, ControlPayload, ControlRoutingPolicy,
    RealtimeServer, SessionStep, VoipDataType, VoipPayload, VoipRateWindow, VoipRouting,
};

fn user(user_id: i64, role_id: i64) -> User {
    User {
        user_id,
        username: format!("user{}", user_id),
        status: UserStatusType::Online,
        avatar_file_id: None,
        created_at_ms: 0,
        server_mute: false,
        server_deafen: false,
        role_id,
    }
}

fn rights(group_id: i64, role_id: i64, value: i64) -> GroupRoleRights {
    GroupRoleRights { group_id, role_id, rights: value }
}

fn server_with_one_user() -> RealtimeServer {
    let mut server = RealtimeServer::new();
    server.install_acl_cache(
        vec![rights(42, 7, 4)],
        vec![user(1, 7)],
        vec![Channel {
            channel_id: 9,
            channel_name: "general".to_string(),
            group_id: 42,
            channel_type: ChannelType::VoIP,
        }],
    );
    server.handle_connect(1, 100, "token-a".to_string(), "conn-a".to_string());
    server
}

#[test]
fn group_rights_policy_admits_by_cached_rights() {
    let server = server_with_one_user();
    // cached rights (role 7, group 42) are 4: a minimum of 4 admits
    let hit = server.route_control(&ControlRoutingPolicy::GroupRights {
        group_id: 42,
        minimum_rights: 4,
    });
    assert_eq!(hit, vec![0]);
    // a minimum of 8 does not
    let miss = server.route_control(&ControlRoutingPolicy::GroupRights {
        group_id: 42,
        minimum_rights: 8,
    });
    assert!(miss.is_empty());
    // an unknown group grants nothing
    let other = server.route_control(&ControlRoutingPolicy::GroupRights {
        group_id: 43,
        minimum_rights: 1,
    });
    assert!(other.is_empty());
}

#[test]
fn channel_rights_policy_goes_through_the_channels_group() {
    let server = server_with_one_user();
    let hit = server.route_control(&ControlRoutingPolicy::ChannelRights {
        channel_id: 9,
        minimum_rights: 4,
    });
    assert_eq!(hit, vec![0]);
    let miss = server.route_control(&ControlRoutingPolicy::ChannelRights {
        channel_id: 9,
        minimum_rights: 5,
    });
    assert!(miss.is_empty());
}

#[test]
fn user_role_and_broadcast_policies() {
    let mut server = server_with_one_user();
    server.handle_connect(2, 101, "token-b".to_string(), "conn-b".to_string());
    assert_eq!(
        server.route_control(&ControlRoutingPolicy::User { user_id: 2 }),
        vec![1]
    );
    assert_eq!(
        server.route_control(&ControlRoutingPolicy::Role { role_id: 7 }),
        vec![0]
    );
    assert_eq!(
        server.route_control(&ControlRoutingPolicy::Broadcast),
        vec![0, 1]
    );
}

#[test]
fn timeout_and_disconnect_remove_handlers() {
    let mut server = server_with_one_user();
    server.handle_connect(1, 101, "token-b".to_string(), "conn-b".to_string());
    // the user keeps a session: not gone yet
    assert!(!server.handle_timeout(1, "conn-a"));
    // closing by token names the handler to close, then drops it
    let (to_close, gone) = server.handle_disconnect(1, "token-b");
    assert_eq!(to_close, vec![0]);
    assert!(gone, "no session left");
}

#[test]
fn disconnect_user_names_every_session() {
    let mut server = server_with_one_user();
    server.handle_connect(1, 101, "token-b".to_string(), "conn-b".to_string());
    server.handle_connect(2, 102, "token-c".to_string(), "conn-c".to_string());
    let to_close = server.handle_disconnect_user(1);
    assert_eq!(to_close, vec![0, 1]);
    assert_eq!(
        server.route_control(&ControlRoutingPolicy::Broadcast),
        vec![0],
        "only the other user is left"
    );
}

#[test]
fn invalid_voip_counter_trips_after_the_cap() {
    let mut server = server_with_one_user();
    for _ in 0..1000 {
        assert!(!server.increment_invalid_voip(1));
    }
    assert!(server.increment_invalid_voip(1), "the next one crosses the cap");
    server.reset_invalid_voip(1);
    assert!(!server.increment_invalid_voip(1));
}

#[test]
fn voice_routing_spares_the_deafened_and_the_speaker() {
    let mut server = RealtimeServer::new();
    server.install_acl_cache(
        vec![rights(42, 7, 4)],
        vec![user(1, 7), user(2, 7), user(3, 7)],
        vec![],
    );
    server.install_voip_cache(vec![
        VoipParticipant {
            user_id: 1,
            channel_id: Some(9),
            recipient_id: None,
            local_deafen: false,
            local_mute: false,
            publish_screen: false,
            publish_camera: false,
            created_at_ms: 0,
        },
        VoipParticipant {
            user_id: 2,
            channel_id: Some(9),
            recipient_id: None,
            local_deafen: false,
            local_mute: false,
            publish_screen: false,
            publish_camera: false,
            created_at_ms: 0,
        },
        VoipParticipant {
            user_id: 3,
            channel_id: Some(9),
            recipient_id: None,
            local_deafen: true,
            local_mute: false,
            publish_screen: false,
            publish_camera: false,
            created_at_ms: 0,
        },
    ]);
    server.handle_connect(1, 100, "ta".to_string(), "ca".to_string());
    server.handle_connect(2, 101, "tb".to_string(), "cb".to_string());
    server.handle_connect(3, 102, "tc".to_string(), "cc".to_string());
    // user 1 speaks: user 2 hears; user 3 is deafened; user 1 is the speaker
    assert_eq!(server.voice_channel_recipients(1, 9), vec![1]);
}

#[test]
fn media_routing_follows_subscriptions() {
    let mut server = server_with_one_user();
    server.handle_connect(2, 101, "tb".to_string(), "cb".to_string());
    server.install_subscription_cache(vec![Subscription {
        user_id: 2,
        publisher_id: 1,
        media_type: MediaType::Camera,
        created_at_ms: 0,
    }]);
    assert_eq!(server.media_recipients(1, &MediaType::Camera), vec![1]);
    assert!(server.media_recipients(1, &MediaType::Screen).is_empty());
}

#[test]
fn rate_limiter_admits_up_to_the_cap_per_window() {
    let mut limiter = DefaultRateLimiter::new(3, 1);
    for _ in 0..3 {
        assert!(limiter.is_allowed("alice", 0).is_ok());
    }
    assert_eq!(
        limiter.is_allowed("alice", 500),
        Err(RateLimitError::RateLimitExceeded)
    );
    assert_eq!(limiter.get_remaining("alice", 500), 0);
    // another identifier has its own window
    assert!(limiter.is_allowed("bob", 500).is_ok());
    // a second later the window restarts
    assert!(limiter.is_allowed("alice", 1000).is_ok());
    assert_eq!(limiter.get_remaining("alice", 1000), 2);
    limiter.reset("alice");
    assert_eq!(limiter.get_remaining("alice", 1000), 3);
}

#[test]
fn rate_limit_service_wraps_the_limiter() {
    let mut service = RateLimitService::new(DefaultRateLimiter::per_minute(2));
    assert!(service.check_rate_limit("ip", 0).is_ok());
    assert!(service.check_rate_limit("ip", 1).is_ok());
    assert!(service.check_rate_limit("ip", 2).is_err());
    assert_eq!(service.get_remaining_requests("ip", 2), 0);
}

#[test]
fn lockout_locks_after_too_many_failures() {
    let mut lockout = DefaultLockoutManager::new(3, 15, 5);
    assert!(lockout.is_locked_out("eve", 0).is_none());
    lockout.record_failed_attempt("eve", 0);
    lockout.record_failed_attempt("eve", 1000);
    assert!(lockout.is_locked_out("eve", 1500).is_none());
    lockout.record_failed_attempt("eve", 2000);
    let left = lockout.is_locked_out("eve", 2000).expect("locked");
    assert_eq!(left, 15 * 60000);
    // the lockout expires
    assert!(lockout.is_locked_out("eve", 2000 + 15 * 60000).is_none());
    // success clears the slate
    lockout.record_failed_attempt("eve", 20_000_000);
    lockout.record_successful_login("eve");
    assert!(lockout.is_locked_out("eve", 20_000_001).is_none());
}

#[test]
fn lockout_window_forgets_stale_failures() {
    let mut lockout = DefaultLockoutManager::default();
    lockout.record_failed_attempt("eve", 0);
    // five minutes and one more pass: the count restarts
    for round in 1..=4u64 {
        lockout.record_failed_attempt("eve", round * 301_000);
        assert!(
            lockout.is_locked_out("eve", round * 301_000).is_none(),
            "isolated failures never lock"
        );
    }
}

#[test]
fn speech_routing_judges_rights_and_abuse() {
    let mut server = RealtimeServer::new();
    server.install_acl_cache(
        vec![rights(42, 7, 4), rights(42, 8, 2)],
        vec![user(1, 7), user(2, 8)],
        vec![Channel {
            channel_id: 9,
            channel_name: "talk".to_string(),
            group_id: 42,
            channel_type: ChannelType::VoIP,
        }],
    );
    server.install_voip_cache(vec![
        VoipParticipant {
            user_id: 1,
            channel_id: Some(9),
            recipient_id: None,
            local_deafen: false,
            local_mute: false,
            publish_screen: false,
            publish_camera: false,
            created_at_ms: 0,
        },
        VoipParticipant {
            user_id: 2,
            channel_id: Some(9),
            recipient_id: None,
            local_deafen: false,
            local_mute: false,
            publish_screen: false,
            publish_camera: false,
            created_at_ms: 0,
        },
    ]);
    server.handle_connect(1, 100, "ta".to_string(), "ca".to_string());
    server.handle_connect(2, 101, "tb".to_string(), "cb".to_string());
    // user 1 holds speaker rights: everyone with watch rights hears
    match server.handle_speech(1) {
        VoipRouting::Deliver(v) => assert_eq!(v, vec![0, 1]),
        _ => panic!("should deliver"),
    }
    // user 2 holds rights 2 only: counted as abuse, not delivered
    match server.handle_speech(2) {
        VoipRouting::Ignore => {}
        _ => panic!("should be ignored"),
    }
    // a stranger with no participant row is counted too
    match server.handle_voice(3) {
        VoipRouting::Ignore => {}
        _ => panic!("no handler to charge, nothing to do"),
    }
    // voice from user 1 spares the speaker itself
    match server.handle_voice(1) {
        VoipRouting::Deliver(v) => assert_eq!(v, vec![1]),
        _ => panic!("should deliver"),
    }
    // camera bytes follow camera subscriptions only
    assert!(server.handle_media(1, &VoipDataType::Camera).is_empty());
}

#[test]
fn session_handshake_steps() {
    let session = opencord::auth::Session {
        session_id: 5,
        user_id: 9,
        session_token: "tok".to_string(),
        created_at_ms: 0,
        expires_at_ms: None,
    };
    match session_control_step(
        &ControlPayload::Connect { token: "tok".to_string() },
        &Some(session),
    ) {
        SessionStep::Accept { user_id, session_id } => {
            assert_eq!(user_id, 9);
            assert_eq!(session_id, 5);
        }
        _ => panic!("should accept"),
    }
    match session_control_step(&ControlPayload::Connect { token: "bad".to_string() }, &None) {
        SessionStep::Decline => {}
        _ => panic!("should decline"),
    }
    match session_control_step(&ControlPayload::Close, &None) {
        SessionStep::End(_) => {}
        _ => panic!("should end"),
    }
}

#[test]
fn voip_rate_window_flags_abuse() {
    let mut window = VoipRateWindow::new(0);
    let speech = VoipPayload::Speech { user_id: 1, is_speaking: true };
    assert_eq!(voip_payload_size(&speech), 32);
    assert!(!window.record(32, 0));
    // thirty megabytes within one window cross the line
    assert!(!window.record(30_000_000 - 32, 500));
    assert!(window.record(1, 900));
    // a fresh window forgives
    assert!(!window.record(1, 2000));
    assert_eq!(window.bytes_this_window, 1);
}

#[test]
fn room_names_render_ids_in_decimal() {
    assert_eq!(opencord::livekit::room_name_for_channel(42), "channel-42");
    assert_eq!(opencord::livekit::room_name_for_channel(0), "channel-0");
    assert_eq!(opencord::livekit::room_name_for_channel(-7), "channel--7");
    assert_eq!(
        opencord::livekit::room_name_for_private(9, 4),
        "private-4-9",
        "the smaller id comes first"
    );
    assert_eq!(opencord::livekit::room_name_for_private(4, 9), "private-4-9");
    assert_eq!(
        opencord::livekit::room_name_for_private(1000, 1000),
        "private-1000-1000"
    );
}
