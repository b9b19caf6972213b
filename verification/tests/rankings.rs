use moq_relay::namespace::TrackNamespace;
use moq_relay::subscriber_registry::{SubscriberRegistry, TrackFilter};
use moq_relay::top_n_events::TopNEventLogger;
use moq_relay::top_n_tracker::{TieBreakPolicy, TopNTracker, TopNTrackerConfig};

fn ns(path: &str) -> TrackNamespace {
    TrackNamespace::new(path.split('/').map(|f| f.as_bytes().to_vec()).collect())
}

fn text(s: &str) -> String {
    s.to_string()
}

const PROPERTY_VIEWERS: u64 = 0x100;

#[test]
fn test_prefix_matching() {
    assert!(SubscriberRegistry::prefix_matches(&ns("live"), &ns("live/stream1")));
    assert!(SubscriberRegistry::prefix_matches(&ns("live"), &ns("live")));
    let empty = TrackNamespace::new(Vec::new());
    assert!(SubscriberRegistry::prefix_matches(&empty, &ns("live/stream1")));
    assert!(!SubscriberRegistry::prefix_matches(&ns("live/stream1"), &ns("live")));
    assert!(!SubscriberRegistry::prefix_matches(&ns("other"), &ns("live/stream1")));
}

#[test]
fn test_register_unregister() {
    let mut registry = SubscriberRegistry::new();

    let id1 = registry.register(ns("live"), 100, 0);
    let id2 = registry.register(ns("live/room1"), 101, 0);

    assert_eq!(registry.matching_subscriptions(&ns("live/room1/track")).len(), 2);

    registry.unregister(id1);
    assert_eq!(registry.matching_subscriptions(&ns("live/room1/track")).len(), 1);

    registry.unregister(id2);
    assert_eq!(registry.matching_subscriptions(&ns("live/room1/track")).len(), 0);
}

#[test]
fn test_notify_publish() {
    let mut registry = SubscriberRegistry::new();

    let id = registry.register(ns("live"), 100, 0);

    let notified = registry.notify_publish(&ns("live/stream1"), &text("video"), 200, &Vec::new());
    assert_eq!(notified.len(), 1);
    assert_eq!(notified[0], id);

    registry.unregister(id);
}

#[test]
fn subscriber_registry_test_self_exclusion() {
    let mut registry = SubscriberRegistry::new();

    let _id = registry.register(ns("live"), 100, 0);

    let notified = registry.notify_publish(&ns("live/stream1"), &text("video"), 100, &Vec::new());
    assert_eq!(notified.len(), 0);
}

#[test]
fn test_track_filter_top_n() {
    let mut registry = SubscriberRegistry::new();

    let filter = TrackFilter { property_type: PROPERTY_VIEWERS, max_selected: 2 };
    let id = registry.register_with_filter(ns("live"), 100, Some(filter), 0);

    registry.register_track(&ns("live"), &text("a"), PROPERTY_VIEWERS, 1000, 1, 0);
    registry.register_track(&ns("live"), &text("b"), PROPERTY_VIEWERS, 500, 2, 0);
    registry.register_track(&ns("live"), &text("c"), PROPERTY_VIEWERS, 800, 3, 0);
    registry.register_track(&ns("live"), &text("d"), PROPERTY_VIEWERS, 200, 4, 0);

    let notified = registry.notify_publish(&ns("live"), &text("a"), 1, &Vec::new());
    assert_eq!(notified, vec![id]);

    let notified = registry.notify_publish(&ns("live"), &text("c"), 3, &Vec::new());
    assert_eq!(notified, vec![id]);

    let notified = registry.notify_publish(&ns("live"), &text("b"), 2, &Vec::new());
    assert_eq!(notified.len(), 0);

    let notified = registry.notify_publish(&ns("live"), &text("d"), 4, &Vec::new());
    assert_eq!(notified.len(), 0);
}

#[test]
fn test_track_filter_self_exclusion() {
    let mut registry = SubscriberRegistry::new();

    let filter = TrackFilter { property_type: PROPERTY_VIEWERS, max_selected: 2 };
    let id = registry.register_with_filter(ns("live"), 1, Some(filter), 0);

    registry.register_track(&ns("live"), &text("a"), PROPERTY_VIEWERS, 1000, 1, 0);
    registry.register_track(&ns("live"), &text("b"), PROPERTY_VIEWERS, 500, 2, 0);
    registry.register_track(&ns("live"), &text("c"), PROPERTY_VIEWERS, 800, 3, 0);
    registry.register_track(&ns("live"), &text("d"), PROPERTY_VIEWERS, 200, 4, 0);

    let notified = registry.notify_publish(&ns("live"), &text("a"), 1, &Vec::new());
    assert_eq!(notified.len(), 0);

    let notified = registry.notify_publish(&ns("live"), &text("c"), 3, &Vec::new());
    assert_eq!(notified, vec![id]);

    let notified = registry.notify_publish(&ns("live"), &text("b"), 2, &Vec::new());
    assert_eq!(notified, vec![id]);

    let notified = registry.notify_publish(&ns("live"), &text("d"), 4, &Vec::new());
    assert_eq!(notified.len(), 0);
}

#[test]
fn test_track_filter_value_update() {
    let mut registry = SubscriberRegistry::new();

    let filter = TrackFilter { property_type: PROPERTY_VIEWERS, max_selected: 1 };
    let id = registry.register_with_filter(ns("live"), 100, Some(filter), 0);

    registry.register_track(&ns("live"), &text("a"), PROPERTY_VIEWERS, 100, 1, 0);
    registry.register_track(&ns("live"), &text("b"), PROPERTY_VIEWERS, 50, 2, 0);

    let notified = registry.notify_publish(&ns("live"), &text("a"), 1, &Vec::new());
    assert_eq!(notified, vec![id]);

    let notified = registry.notify_publish(&ns("live"), &text("b"), 2, &Vec::new());
    assert_eq!(notified.len(), 0);

    let notified = registry.update_track_value(
        &ns("live"),
        &text("b"),
        PROPERTY_VIEWERS,
        200,
        2,
        &Vec::new(),
        0,
    );
    let in_top_1 = registry.is_track_in_top_n(&ns("live"), &text("b"), 100, PROPERTY_VIEWERS, 1);
    assert!(in_top_1);
    assert_eq!(notified, vec![id]);

    let notified = registry.notify_publish(&ns("live"), &text("b"), 2, &Vec::new());
    assert_eq!(notified.len(), 0);

    let notified = registry.notify_publish(&ns("live"), &text("a"), 1, &Vec::new());
    assert_eq!(notified.len(), 0);
}

#[test]
fn test_mixed_filtered_unfiltered_subscriptions() {
    let mut registry = SubscriberRegistry::new();

    let _id1 = registry.register(ns("live"), 100, 0);

    let filter = TrackFilter { property_type: PROPERTY_VIEWERS, max_selected: 1 };
    let _id2 = registry.register_with_filter(ns("live"), 101, Some(filter), 0);

    registry.register_track(&ns("live"), &text("a"), PROPERTY_VIEWERS, 100, 1, 0);
    registry.register_track(&ns("live"), &text("b"), PROPERTY_VIEWERS, 50, 2, 0);

    let notified = registry.notify_publish(&ns("live"), &text("a"), 1, &Vec::new());
    assert_eq!(notified.len(), 2);

    let notified = registry.notify_publish(&ns("live"), &text("b"), 2, &Vec::new());
    assert_eq!(notified.len(), 1);
}

#[test]
fn closed_subscriptions_are_not_told() {
    let mut registry = SubscriberRegistry::new();
    let id = registry.register(ns("live"), 100, 0);
    let told = registry.notify_publish(&ns("live/x"), &text("v"), 1, &vec![id]);
    assert!(told.is_empty());
    assert_eq!(registry.notify_publish(&ns("live/x"), &text("v"), 1, &Vec::new()), vec![id]);
    assert!(registry.notify_publish(&ns("live/x"), &text("v"), 1, &Vec::new()).is_empty());
    assert_eq!(registry.notify_publish_namespace(&ns("live/y"), 1, &Vec::new()), vec![id]);
    assert!(registry.notify_publish_namespace(&ns("live/y"), 100, &Vec::new()).is_empty());
}

fn register(tracker: &mut TopNTracker, name: &str, value: u64, session: u64, now_ms: u64) {
    tracker.register_track(ns("live"), text(name), value, session, now_ms);
}

#[test]
fn test_register_and_query() {
    let mut tracker = TopNTracker::new(0x100);
    tracker.update_max_n(3, 0);

    register(&mut tracker, "a", 100, 1, 0);
    register(&mut tracker, "b", 90, 2, 0);
    register(&mut tracker, "c", 80, 3, 0);
    register(&mut tracker, "d", 70, 4, 0);

    let top3 = tracker.compute_top_n_for_session(99, 3);
    assert_eq!(top3.len(), 3);
    assert_eq!(top3[0].1, "a");
    assert_eq!(top3[1].1, "b");
    assert_eq!(top3[2].1, "c");
}

#[test]
fn top_n_tracker_test_self_exclusion() {
    let mut tracker = TopNTracker::new(0x100);
    tracker.update_max_n(5, 0);

    register(&mut tracker, "a", 100, 1, 0);
    register(&mut tracker, "b", 90, 2, 0);
    register(&mut tracker, "c", 80, 1, 0);
    register(&mut tracker, "d", 70, 3, 0);
    register(&mut tracker, "e", 60, 4, 0);

    let top3 = tracker.compute_top_n_for_session(1, 3);
    assert_eq!(top3.len(), 3);
    assert_eq!(top3[0].1, "b");
    assert_eq!(top3[1].1, "d");
    assert_eq!(top3[2].1, "e");
}

#[test]
fn test_is_in_top_n() {
    let mut tracker = TopNTracker::new(0x100);
    tracker.update_max_n(3, 0);

    register(&mut tracker, "a", 100, 1, 0);
    register(&mut tracker, "b", 90, 2, 0);
    register(&mut tracker, "c", 80, 3, 0);
    register(&mut tracker, "d", 70, 4, 0);

    assert!(tracker.is_in_top_n(&ns("live"), &text("a"), 99, 3));
    assert!(tracker.is_in_top_n(&ns("live"), &text("b"), 99, 3));
    assert!(tracker.is_in_top_n(&ns("live"), &text("c"), 99, 3));
    assert!(!tracker.is_in_top_n(&ns("live"), &text("d"), 99, 3));
}

#[test]
fn test_is_in_top_n_with_self_exclusion() {
    let mut tracker = TopNTracker::new(0x100);
    tracker.update_max_n(5, 0);

    register(&mut tracker, "a", 100, 1, 0);
    register(&mut tracker, "b", 90, 2, 0);
    register(&mut tracker, "c", 80, 1, 0);
    register(&mut tracker, "d", 70, 3, 0);
    register(&mut tracker, "e", 60, 4, 0);

    assert!(!tracker.is_in_top_n(&ns("live"), &text("a"), 1, 3));
    assert!(tracker.is_in_top_n(&ns("live"), &text("b"), 1, 3));
    assert!(!tracker.is_in_top_n(&ns("live"), &text("c"), 1, 3));
    assert!(tracker.is_in_top_n(&ns("live"), &text("d"), 1, 3));
    assert!(tracker.is_in_top_n(&ns("live"), &text("e"), 1, 3));
}

#[test]
fn test_update_value() {
    let mut tracker = TopNTracker::new(0x100);
    tracker.update_max_n(2, 0);

    register(&mut tracker, "a", 100, 1, 0);
    register(&mut tracker, "b", 50, 2, 0);
    register(&mut tracker, "c", 80, 3, 0);

    assert!(tracker.is_in_top_n(&ns("live"), &text("a"), 99, 2));
    assert!(tracker.is_in_top_n(&ns("live"), &text("c"), 99, 2));
    assert!(!tracker.is_in_top_n(&ns("live"), &text("b"), 99, 2));

    tracker.update_value(&ns("live"), &text("b"), 200, 0);

    assert!(tracker.is_in_top_n(&ns("live"), &text("b"), 99, 2));
    assert!(tracker.is_in_top_n(&ns("live"), &text("a"), 99, 2));
    assert!(!tracker.is_in_top_n(&ns("live"), &text("c"), 99, 2));
}

#[test]
fn test_remove_track() {
    let mut tracker = TopNTracker::new(0x100);
    tracker.update_max_n(2, 0);

    register(&mut tracker, "a", 100, 1, 0);
    register(&mut tracker, "b", 90, 2, 0);
    register(&mut tracker, "c", 80, 3, 0);

    tracker.remove_track(&ns("live"), &text("a"), 0);

    assert!(!tracker.is_in_top_n(&ns("live"), &text("a"), 99, 2));
    assert!(tracker.is_in_top_n(&ns("live"), &text("b"), 99, 2));
    assert!(tracker.is_in_top_n(&ns("live"), &text("c"), 99, 2));
}

#[test]
fn test_tie_breaker_earlier_wins() {
    let mut tracker = TopNTracker::new(0x100);
    tracker.update_max_n(1, 0);

    register(&mut tracker, "first", 100, 1, 0);
    register(&mut tracker, "second", 100, 2, 0);

    let top1 = tracker.compute_top_n_for_session(99, 1);
    assert_eq!(top1.len(), 1);
    assert_eq!(top1[0].1, "first");
}

#[test]
fn test_snapshot_size_n_plus_x() {
    let mut tracker = TopNTracker::new(0x100);
    tracker.update_max_n(3, 0);

    register(&mut tracker, "a", 100, 1, 0);
    register(&mut tracker, "b", 90, 1, 0);
    register(&mut tracker, "c", 80, 1, 0);
    register(&mut tracker, "d", 70, 1, 0);

    register(&mut tracker, "e", 60, 2, 0);
    register(&mut tracker, "f", 50, 3, 0);
    register(&mut tracker, "g", 40, 4, 0);

    let snapshot = tracker.load_snapshot();
    assert_eq!(snapshot.len(), 7);

    let top3 = tracker.compute_top_n_for_session(1, 3);
    assert_eq!(top3.len(), 3);
    assert_eq!(top3[0].1, "e");
    assert_eq!(top3[1].1, "f");
    assert_eq!(top3[2].1, "g");
}

#[test]
fn test_might_be_in_top_n_fast_rejection() {
    assert!(TopNTracker::might_be_in_top_n(0, 10, 5));
    assert!(TopNTracker::might_be_in_top_n(10, 10, 5));
    assert!(TopNTracker::might_be_in_top_n(15, 10, 5));
    assert!(!TopNTracker::might_be_in_top_n(16, 10, 5));
    assert!(!TopNTracker::might_be_in_top_n(100, 10, 5));

    assert!(TopNTracker::might_be_in_top_n(0, 3, 0));
    assert!(TopNTracker::might_be_in_top_n(3, 3, 0));
    assert!(!TopNTracker::might_be_in_top_n(4, 3, 0));

    assert!(TopNTracker::might_be_in_top_n(55, 5, 50));
    assert!(!TopNTracker::might_be_in_top_n(56, 5, 50));
}

#[test]
fn test_compute_last_self_position() {
    let mut tracker = TopNTracker::new(0x100);
    tracker.update_max_n(10, 0);

    register(&mut tracker, "a", 100, 1, 0);
    register(&mut tracker, "b", 90, 2, 0);
    register(&mut tracker, "c", 80, 1, 0);
    register(&mut tracker, "d", 70, 3, 0);
    register(&mut tracker, "e", 60, 1, 0);
    register(&mut tracker, "f", 50, 4, 0);

    assert_eq!(tracker.compute_last_self_position(1), 4);
    assert_eq!(tracker.compute_last_self_position(2), 1);
    assert_eq!(tracker.compute_last_self_position(99), 0);
}

#[test]
fn test_is_in_top_n_fast() {
    let mut tracker = TopNTracker::new(0x100);
    tracker.update_max_n(10, 0);

    register(&mut tracker, "a", 100, 1, 0);
    register(&mut tracker, "b", 90, 2, 0);
    register(&mut tracker, "c", 80, 1, 0);
    register(&mut tracker, "d", 70, 3, 0);
    register(&mut tracker, "e", 60, 1, 0);
    register(&mut tracker, "f", 50, 4, 0);
    register(&mut tracker, "g", 40, 5, 0);
    register(&mut tracker, "h", 30, 6, 0);
    register(&mut tracker, "i", 20, 7, 0);
    register(&mut tracker, "j", 10, 8, 0);

    let snapshot = tracker.load_snapshot();
    let last_self_pos = tracker.compute_last_self_position(1);

    let fast = |name: &str, position: usize| {
        tracker.is_in_top_n_fast(
            &ns("live"),
            &text(name),
            position,
            1,
            3,
            last_self_pos,
            snapshot,
        )
    };
    assert!(fast("b", 1));
    assert!(fast("f", 5));
    assert!(!fast("g", 6));
    assert!(!fast("j", 9));
}

#[test]
fn test_find_track_position() {
    let mut tracker = TopNTracker::new(0x100);
    tracker.update_max_n(5, 0);

    register(&mut tracker, "a", 100, 1, 0);
    register(&mut tracker, "b", 90, 2, 0);
    register(&mut tracker, "c", 80, 3, 0);

    assert_eq!(tracker.find_track_position(&ns("live"), &text("a")), Some(0));
    assert_eq!(tracker.find_track_position(&ns("live"), &text("b")), Some(1));
    assert_eq!(tracker.find_track_position(&ns("live"), &text("c")), Some(2));
    assert_eq!(tracker.find_track_position(&ns("live"), &text("nonexistent")), None);
}

#[test]
fn test_tie_break_most_recent_wins() {
    let config = TopNTrackerConfig {
        tie_break_policy: TieBreakPolicy::MostRecentWins,
        staleness_timeout_ms: None,
        ..Default::default()
    };
    let mut tracker = TopNTracker::with_config(0x100, config);
    tracker.update_max_n(3, 0);

    register(&mut tracker, "first", 100, 1, 0);
    register(&mut tracker, "second", 100, 2, 10);
    register(&mut tracker, "third", 100, 3, 20);

    let top = tracker.compute_top_n_for_session(99, 3);
    assert_eq!(top.len(), 3);
    assert_eq!(top[0].1, "third");
    assert_eq!(top[1].1, "second");
    assert_eq!(top[2].1, "first");
}

#[test]
fn test_tie_break_oldest_wins_default() {
    let mut tracker = TopNTracker::new(0x100);
    assert_eq!(tracker.config().tie_break_policy, TieBreakPolicy::OldestWins);
    tracker.update_max_n(3, 0);

    register(&mut tracker, "first", 100, 1, 0);
    register(&mut tracker, "second", 100, 2, 10);
    register(&mut tracker, "third", 100, 3, 20);

    let top = tracker.compute_top_n_for_session(99, 3);
    assert_eq!(top.len(), 3);
    assert_eq!(top[0].1, "first");
    assert_eq!(top[1].1, "second");
    assert_eq!(top[2].1, "third");
}

#[test]
fn test_staleness_filtering() {
    let config = TopNTrackerConfig {
        tie_break_policy: TieBreakPolicy::OldestWins,
        staleness_timeout_ms: Some(100),
        ..Default::default()
    };
    let mut tracker = TopNTracker::with_config(0x100, config);
    tracker.update_max_n(5, 0);

    register(&mut tracker, "a", 100, 1, 0);
    register(&mut tracker, "b", 90, 2, 0);

    assert_eq!(tracker.load_snapshot().len(), 2);

    register(&mut tracker, "c", 80, 3, 150);

    let snapshot = tracker.load_snapshot();
    assert_eq!(snapshot.len(), 1);
    assert_eq!(snapshot[0].track_name, "c");
}

#[test]
fn test_sweep_stale() {
    let config = TopNTrackerConfig {
        tie_break_policy: TieBreakPolicy::OldestWins,
        staleness_timeout_ms: Some(50),
        ..Default::default()
    };
    let mut tracker = TopNTracker::with_config(0x100, config);
    tracker.update_max_n(5, 0);

    register(&mut tracker, "a", 100, 1, 0);
    register(&mut tracker, "b", 90, 2, 0);

    assert_eq!(tracker.num_tracks(), 2);

    let removed = tracker.sweep_stale(100);
    assert_eq!(removed, 2);
    assert_eq!(tracker.num_tracks(), 0);
    assert_eq!(tracker.load_snapshot().len(), 0);
}

#[test]
fn test_sweep_stale_no_timeout() {
    let mut tracker = TopNTracker::new(0x100);
    tracker.update_max_n(5, 0);

    register(&mut tracker, "a", 100, 1, 0);

    let removed = tracker.sweep_stale(1_000_000);
    assert_eq!(removed, 0);
    assert_eq!(tracker.num_tracks(), 1);
}

#[test]
fn test_update_value_refreshes_timestamp() {
    let config = TopNTrackerConfig {
        tie_break_policy: TieBreakPolicy::OldestWins,
        staleness_timeout_ms: Some(100),
        ..Default::default()
    };
    let mut tracker = TopNTracker::with_config(0x100, config);
    tracker.update_max_n(5, 0);

    register(&mut tracker, "a", 100, 1, 0);

    tracker.update_value(&ns("live"), &text("a"), 100, 60);

    let removed = tracker.sweep_stale(120);
    assert_eq!(removed, 0);
    assert_eq!(tracker.num_tracks(), 1);
}

#[test]
fn test_three_speakers_scenario_oldest_wins() {
    let mut tracker = TopNTracker::new(0x100);
    tracker.update_max_n(3, 0);

    register(&mut tracker, "A", 100, 1, 0);
    register(&mut tracker, "B", 100, 2, 5);
    register(&mut tracker, "C", 100, 3, 10);

    let top = tracker.compute_top_n_for_session(99, 3);
    assert_eq!(top[0].1, "A");
    assert_eq!(top[1].1, "B");
    assert_eq!(top[2].1, "C");
}

#[test]
fn test_three_speakers_scenario_most_recent_wins() {
    let config = TopNTrackerConfig {
        tie_break_policy: TieBreakPolicy::MostRecentWins,
        staleness_timeout_ms: None,
        ..Default::default()
    };
    let mut tracker = TopNTracker::with_config(0x100, config);
    tracker.update_max_n(3, 0);

    register(&mut tracker, "A", 100, 1, 0);
    register(&mut tracker, "B", 100, 2, 5);
    register(&mut tracker, "C", 100, 3, 10);

    let top = tracker.compute_top_n_for_session(99, 3);
    assert_eq!(top[0].1, "C");
    assert_eq!(top[1].1, "B");
    assert_eq!(top[2].1, "A");
}

#[test]
fn events_are_written_down_when_enabled() {
    let mut logger = TopNEventLogger::new(true, 1_000);
    assert_eq!(
        logger.log_track_registered("cam", 7, 3, 1_250).unwrap(),
        "TOPN_EVENT:{\"ts_ms\":250,\"event\":\"track_registered\",\"track\":\"cam\",\"value\":7,\"publisher_id\":3}"
    );
    logger.set_enabled(false);
    assert!(logger.log_track_registered("cam", 7, 3, 1_250).is_none());
}
