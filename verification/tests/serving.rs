use moq_relay::auth::types::{AuthBlob, AuthDecision, DenyReason};
use moq_relay::consumer::{
    announce, forward_changed, int_value, serve_publish, serve_publish_namespace, IngestObserver,
    KeyValuePair, PublishInfo, PublishOutcome, Value, AUDIO_LEVEL_EXT, FORWARD_PARAM,
};
use moq_relay::local::{Locals, ServeError, TrackInfo, TrackState};
use moq_relay::namespace::TrackNamespace;
use moq_relay::producer::{
    serve_subscribe, serve_track_status, status_not_found, tokens_for, Asked, Authorization,
    CloseReason, RemoteResult, SubscribeAction, SubscribeEvent, TrackStatusAction,
};
use moq_relay::relay::{
    auth_mode, check_config, log_file_name, retries_with_token, AuthMode, ConfigError,
    DirectoryStatus,
};
use moq_relay::subscriber_registry::{SubscriberRegistry, TrackFilter};

fn ns(path: &str) -> TrackNamespace {
    TrackNamespace::new(path.split('/').map(|f| f.as_bytes().to_vec()).collect())
}

fn text(s: &str) -> String {
    s.to_string()
}

#[test]
fn the_longest_prefix_serves() {
    let mut locals: Locals<u32, &str> = Locals::new();
    assert!(locals.register(ns("live"), 1).is_ok());
    assert!(locals.register(ns("live/room"), 2).is_ok());
    assert_eq!(locals.register(ns("live"), 3), Err(ServeError::Duplicate));

    assert_eq!(locals.retrieve(&ns("live/room/cam")), Some(&2));
    assert_eq!(locals.retrieve(&ns("live/hall")), Some(&1));
    assert_eq!(locals.retrieve(&ns("news")), None);
    assert_eq!(locals.insert_track(&ns("live/room")), Some(&2));
    assert_eq!(locals.insert_track(&ns("live/room/cam")), None);
    assert_eq!(locals.matching_namespaces(&ns("live")).len(), 2);

    locals.unregister(&ns("live/room"));
    assert_eq!(locals.retrieve(&ns("live/room/cam")), Some(&1));
}

#[test]
fn track_infos_are_kept() {
    let mut locals: Locals<u32, &str> = Locals::new();
    let (live, name) = (ns("live/room"), text("cam"));
    assert_eq!(locals.get_or_create_track_info(&live, &name, "none"), None);
    assert_eq!(*locals.get_or_create_track_info_auto_register(&live, &name, "first", 9), "first");
    assert_eq!(locals.get_or_create_track_info(&live, &name, "second"), Some(&"first"));
    assert_eq!(locals.get_track_info(&live, &name), Some(&"first"));
    assert_eq!(locals.get_track_info(&live, &text("mic")), None);
    assert_eq!(locals.retrieve(&live), Some(&9));
}

#[test]
fn the_writer_is_given_away_once() {
    let mut track = TrackInfo::new(ns("live"), text("cam"));
    assert_eq!(track.state(), TrackState::Pending);
    assert!(track.ensure_track_created());
    assert!(!track.ensure_track_created());
    assert!(track.publish_arrived().is_ok());
    assert!(track.is_publishing());
    assert_eq!(track.publish_arrived(), Err(ServeError::Duplicate));
    assert_eq!(track.take_writer_for_upstream(), Err(ServeError::Duplicate));
    assert!(!track.should_subscribe_upstream());
}

#[test]
fn upstream_is_asked_once() {
    let mut track = TrackInfo::new(ns("live"), text("cam"));
    assert!(track.should_subscribe_upstream());
    assert!(!track.should_subscribe_upstream());
    assert!(track.take_writer_for_upstream().is_ok());
    track.mark_subscribe_sent(4);
    assert_eq!(track.state(), TrackState::Subscribing);
    track.subscribe_ok_received();
    assert_eq!(track.state(), TrackState::Subscribed);
    assert_eq!(track.publish_arrived(), Err(ServeError::Uninterested));
    for (number, state) in [
        (0, TrackState::Pending),
        (1, TrackState::Subscribing),
        (2, TrackState::Subscribed),
        (3, TrackState::Publishing),
        (9, TrackState::Closed),
    ] {
        assert_eq!(TrackState::from_u8(number), state);
    }
}

#[test]
fn tracks_are_asked_of_their_namespace() {
    let mut locals: Locals<u32, &str> = Locals::new();
    let mut track = TrackInfo::new(ns("live"), text("cam"));
    assert_eq!(locals.subscribe_upstream(&mut track), None);
    assert_eq!(track.state(), TrackState::Pending);
    assert!(locals.register(ns("live"), 5).is_ok());
    assert_eq!(locals.subscribe_upstream(&mut track), Some(&5));
    assert_eq!(track.state(), TrackState::Subscribing);
    assert_eq!(locals.subscribe_upstream(&mut track), None);
}

fn level(value: u64) -> Vec<KeyValuePair> {
    vec![
        KeyValuePair { key: 3, value: Value::BytesValue(vec![1]) },
        KeyValuePair { key: AUDIO_LEVEL_EXT, value: Value::IntValue(value) },
    ]
}

fn publish(forward: bool) -> PublishInfo {
    PublishInfo {
        id: 8,
        track_namespace: ns("live"),
        track_name: text("cam"),
        track_alias: 1,
        forward,
        track_extensions: level(40),
    }
}

#[test]
fn published_tracks_are_announced() {
    let mut locals: Locals<u32, &str> = Locals::new();
    let mut registry = SubscriberRegistry::new();
    let filter = TrackFilter { property_type: AUDIO_LEVEL_EXT, max_selected: 1 };
    assert!(registry.can_register());
    let listener = registry.register_with_filter(ns("live"), 50, Some(filter), 0);
    let closed = Vec::new();

    let mut track = TrackInfo::new(ns("live"), text("cam"));
    let outcome = serve_publish(&locals, &mut track, &publish(true));
    assert!(matches!(outcome, PublishOutcome::NoNamespace));

    assert_eq!(
        serve_publish_namespace(&mut locals, Some(&registry), ns("live"), 1, 1, &closed),
        Ok(vec![listener])
    );
    assert_eq!(
        serve_publish_namespace(&mut locals, Some(&registry), ns("live"), 1, 1, &closed),
        Err(ServeError::Duplicate)
    );

    let mut track = TrackInfo::new(ns("live"), text("cam"));
    let outcome = serve_publish(&locals, &mut track, &publish(false));
    let PublishOutcome::Accepted(accepted) = outcome else {
        panic!("not accepted");
    };
    assert_eq!(accepted.ok.id, 8);
    assert_eq!(accepted.ok.forward, (FORWARD_PARAM, 1));
    assert!(accepted.paused);
    assert_eq!(announce(&mut registry, &publish(false), 1, &closed, 0), vec![listener]);
    assert!(announce(&mut registry, &publish(false), 50, &closed, 0).is_empty());

    let outcome = serve_publish(&locals, &mut track, &publish(true));
    let PublishOutcome::Rejected(rejection) = outcome else {
        panic!("not rejected");
    };
    assert_eq!(rejection.error, ServeError::Duplicate);
    assert_eq!(rejection.reason, "Already publishing");

    let mut track = TrackInfo::new(ns("live"), text("other"));
    let outcome = serve_publish(&locals, &mut track, &publish(true));
    let PublishOutcome::Accepted(accepted) = outcome else {
        panic!("not accepted");
    };
    assert!(!accepted.paused);
}

#[test]
fn levels_are_passed_on_when_they_change() {
    let mut observer = IngestObserver::new();
    assert_eq!(observer.observe(&level(10)), Some(10));
    assert_eq!(observer.observe(&level(10)), None);
    assert_eq!(observer.observe(&Vec::new()), None);
    assert_eq!(observer.observe(&level(11)), Some(11));
    assert_eq!(int_value(&level(5), 3), None);
    assert_eq!(int_value(&level(5), AUDIO_LEVEL_EXT), Some(5));

    let mut registry = SubscriberRegistry::new();
    let filter = TrackFilter { property_type: AUDIO_LEVEL_EXT, max_selected: 1 };
    let listener = registry.register_with_filter(ns("live"), 50, Some(filter), 0);
    registry.register_track(&ns("live"), &text("a"), AUDIO_LEVEL_EXT, 20, 1, 0);
    registry.register_track(&ns("live"), &text("b"), AUDIO_LEVEL_EXT, 10, 2, 0);
    let closed = Vec::new();
    let told = observer.ingest(
        &mut registry,
        &ns("live"),
        &text("b"),
        &level(30),
        2,
        &closed,
        0,
    );
    assert_eq!(told, vec![listener]);
    let told = observer.ingest(
        &mut registry,
        &ns("live"),
        &text("b"),
        &level(30),
        2,
        &closed,
        0,
    );
    assert!(told.is_empty());
}

#[test]
fn paused_publishers_are_woken() {
    assert!(forward_changed(false, 4, 2).is_none());
    let update = forward_changed(true, 4, 2).unwrap();
    assert_eq!((update.id, update.existing_request_id), (4, 2));
    assert_eq!(update.forward, (FORWARD_PARAM, 1));
}

fn asked() -> Asked {
    Asked { namespace: text("/live"), track_name: text("cam") }
}

#[test]
fn subscriptions_go_from_here_to_other_relays() {
    let next = |event| serve_subscribe(&asked(), event);
    let allowed = Authorization::Decided(AuthDecision::allow());
    assert!(matches!(next(SubscribeEvent::Authorized(allowed)), SubscribeAction::LookLocal));
    let denied = Authorization::Decided(AuthDecision::deny(DenyReason::TokenExpired));
    assert!(matches!(
        next(SubscribeEvent::Authorized(denied)),
        SubscribeAction::Close(CloseReason::Denied(0x102))
    ));
    let SubscribeAction::Close(CloseReason::AuthFailed(reason)) =
        next(SubscribeEvent::Authorized(Authorization::Failed(text("broken"))))
    else {
        panic!("not closed");
    };
    assert_eq!(reason, "auth error: broken");

    assert_eq!(next(SubscribeEvent::Local(true)).source(), "local");
    assert!(matches!(next(SubscribeEvent::Local(false)), SubscribeAction::AskRemote));
    assert_eq!(next(SubscribeEvent::Remote(RemoteResult::Found)).source(), "remote");
    let missing = next(SubscribeEvent::Remote(RemoteResult::Missing));
    assert_eq!(missing.source(), "not_found");
    let SubscribeAction::Close(CloseReason::NotFound(reason)) = missing else {
        panic!("not closed");
    };
    assert_eq!(reason, "track '/live/cam' not found in local or remote tracks");
    let failed = next(SubscribeEvent::Remote(RemoteResult::Failed(text("timeout"))));
    assert_eq!(failed.source(), "route_error");
    let SubscribeAction::Close(CloseReason::RouteFailed(reason)) = failed else {
        panic!("not closed");
    };
    assert_eq!(reason, "route error for namespace '/live': timeout");
}

#[test]
fn the_status_of_a_track_is_told() {
    let next = |event| serve_track_status(&event);
    assert!(matches!(next(SubscribeEvent::Local(true)), TrackStatusAction::Respond));
    assert!(matches!(
        next(SubscribeEvent::Local(false)),
        TrackStatusAction::Refuse(4, "Track not found")
    ));
    let denied = Authorization::Decided(AuthDecision::deny(DenyReason::TokenMissing));
    assert!(matches!(
        next(SubscribeEvent::Authorized(denied)),
        TrackStatusAction::Refuse(0x100, "unauthorized")
    ));
    assert!(matches!(
        next(SubscribeEvent::Authorized(Authorization::Failed(text("x")))),
        TrackStatusAction::Refuse(4, "authorization error")
    ));
    assert_eq!(status_not_found(&asked()), "track '/live/cam' not found for track_status");
}

#[test]
fn tokens_of_a_request_come_first() {
    let blob = |n: u8| AuthBlob { token_type: 0, token_value: vec![n] };
    let (own, session) = (vec![blob(1)], vec![blob(2)]);
    assert_eq!(tokens_for(&own, &session)[0].token_value, vec![1]);
    assert_eq!(tokens_for(&Vec::new(), &session)[0].token_value, vec![2]);
}

#[test]
fn configurations_are_checked() {
    assert_eq!(check_config(true, 0, None), Ok(()));
    assert_eq!(check_config(false, 2, None), Ok(()));
    assert_eq!(check_config(true, 1, None), Err(ConfigError::BindAndEndpoints));
    assert_eq!(check_config(false, 0, None), Err(ConfigError::NoEndpoints));
    let dir = |exists, is_dir| Some(DirectoryStatus { exists, is_dir });
    assert_eq!(check_config(true, 0, dir(true, true)), Ok(()));
    assert_eq!(check_config(true, 0, dir(false, false)), Err(ConfigError::LogDirMissing));
    assert_eq!(check_config(true, 0, dir(true, false)), Err(ConfigError::LogDirNotDir));
    assert_eq!(log_file_name(&text("a1")), "a1_server.mlog");

    assert_eq!(auth_mode(false, false), Some(AuthMode::Open));
    assert_eq!(auth_mode(true, false), Some(AuthMode::SharedSecret));
    assert_eq!(auth_mode(false, true), Some(AuthMode::PrivacyPass));
    assert_eq!(auth_mode(true, true), None);
    assert!(retries_with_token(true, false));
    assert!(!retries_with_token(true, true));
    assert!(!retries_with_token(false, false));
}
