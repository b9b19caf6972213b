use moq_relay::quic_stats::{
    Averages, QuicPathStats, QuicStatsConsumer, SendDelta, SessionSendState,
};
use moq_relay::session_publisher::SessionPublisherTracker;
use std::sync::{Arc, Mutex};

fn path(rtt_us: u64, cwnd: u64, udp_tx_bytes: u64) -> QuicPathStats {
    QuicPathStats {
        session_id: 1,
        rtt_us,
        cwnd,
        congestion_events: 0,
        lost_packets: 0,
        udp_tx_bytes,
    }
}

#[test]
fn test_bandwidth_estimation() {
    let stats = path(50_000, 100_000, 0);
    assert_eq!(stats.estimated_bandwidth_kbps(), 16000);
}

#[test]
fn test_bandwidth_estimation_zero_rtt() {
    let stats = path(0, 100_000, 0);
    assert_eq!(stats.estimated_bandwidth_kbps(), 0);
}

#[test]
fn estimates_are_capped() {
    assert_eq!(path(1, 1_000_000, 0).estimated_bandwidth_kbps(), 10_000_000);
}

#[test]
fn sending_is_measured_over_an_interval() {
    let state = SessionSendState::new(1_000, 0);
    assert_eq!(state.measurement_due(5_000, 100_000), None);
    assert_eq!(
        state.measurement_due(5_000, 100_001),
        Some(SendDelta { bytes: 4_000, elapsed_us: 100_001 })
    );
    assert_eq!(
        state.measurement_due(500, 200_000),
        Some(SendDelta { bytes: 0, elapsed_us: 200_000 })
    );
}

#[test]
fn congestion_caps_the_recovery() {
    let mut state = SessionSendState::new(0, 0);
    let busy = Averages { send_kbps: 1_000, available_kbps: Some(3_000) };
    assert_eq!(state.assess(60_000, 9_000, busy, 1_000_000), 1_200);
    assert_eq!(state.assess(10_000, 9_000, busy, 2_000_000), 3_000);
    assert_eq!(state.assess(10_000, 9_000, busy, 3_500_000), 9_000);
    assert_eq!(state.assess(10_000, 90_000, busy, 3_500_000), 20_000);

    let idle = Averages { send_kbps: 500, available_kbps: Some(3_000) };
    assert_eq!(state.assess(60_000, 9_000, idle, 3_600_000), 9_000);
}

#[test]
fn reports_are_taken_session_by_session() {
    let mut consumer = QuicStatsConsumer::new();
    let quiet = Averages { send_kbps: 0, available_kbps: None };
    assert_eq!(consumer.begin(&path(20_000, 50_000, 0), 0), None);
    assert_eq!(consumer.finish(&path(20_000, 50_000, 0), None, quiet, 0), Some(20_000));
    let later = path(40_000, 50_000, 25_000);
    assert_eq!(
        consumer.begin(&later, 200_000),
        Some(SendDelta { bytes: 25_000, elapsed_us: 200_000 })
    );
    assert_eq!(consumer.finish(&later, Some(1_000), quiet, 200_000), Some(10_000));
    assert_eq!(consumer.session(&later, 200_000).send_rate_kbps, Some(1_000));
    assert_eq!(consumer.finish(&path(0, 1, 1), None, quiet, 300_000), None);
}

#[test]
fn test_new_session_not_publisher() {
    let tracker = SessionPublisherTracker::new();
    assert!(!tracker.is_publisher());
    assert_eq!(tracker.get_publisher_id(), None);
}

#[test]
fn test_record_publish() {
    let mut tracker = SessionPublisherTracker::new();

    tracker.record_publish(42);
    assert!(tracker.is_publisher());
    assert_eq!(tracker.get_publisher_id(), Some(42));
    assert_eq!(tracker.published_track_count(), 1);
}

#[test]
fn test_first_publish_sets_id() {
    let mut tracker = SessionPublisherTracker::new();

    tracker.record_publish(100);
    tracker.record_publish(200);
    tracker.record_publish(300);

    assert_eq!(tracker.get_publisher_id(), Some(100));
    assert_eq!(tracker.published_track_count(), 3);
}

#[test]
fn test_clone_shares_state() {
    let tracker1 = Arc::new(Mutex::new(SessionPublisherTracker::new()));
    let tracker2 = tracker1.clone();

    tracker1.lock().unwrap().record_publish(42);

    assert_eq!(tracker2.lock().unwrap().get_publisher_id(), Some(42));
}

#[test]
fn zero_identifies_nobody() {
    let mut tracker = SessionPublisherTracker::default();
    tracker.record_publish(0);
    assert!(!tracker.is_publisher());
    tracker.record_publish(5);
    assert_eq!(tracker.get_publisher_id(), Some(5));
    assert_eq!(tracker.published_track_count(), 2);
}
