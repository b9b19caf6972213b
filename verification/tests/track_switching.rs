use moq_relay::bandwidth::{
    BandwidthEstimator, BandwidthEstimatorConfig, BandwidthSource, QuicBandwidthStats,
};
use moq_relay::dts_service::{DtsService, DtsServiceConfig};
use moq_relay::dts_tracker::{DtsTracker, DtsTrackerConfig, SwitchingSetAssignment};
use moq_relay::namespace::TrackNamespace;

fn ns(path: &str) -> TrackNamespace {
    TrackNamespace::new(path.split('/').map(|f| f.as_bytes().to_vec()).collect())
}

fn text(s: &str) -> String {
    s.to_string()
}

#[test]
fn test_basic_estimation() {
    let config = BandwidthEstimatorConfig { min_update_interval_ms: 0, ..Default::default() };
    let mut estimator = BandwidthEstimator::with_config(config);
    let session_id = 1;

    estimator.register_subscriber(session_id, 0);

    let estimate = estimator.get_estimate(session_id).unwrap();
    assert_eq!(estimate.source, BandwidthSource::Default);

    estimator.update_quic_estimate(session_id, Some(5_000_000), 100_000, 50, 0);

    let estimate = estimator.get_estimate(session_id).unwrap();
    assert_eq!(estimate.bandwidth_kbps, 5000);
    assert_eq!(estimate.source, BandwidthSource::QuicCongestion);
}

#[test]
fn test_throughput_measurement() {
    let config = BandwidthEstimatorConfig {
        sample_interval_ms: 10,
        min_update_interval_ms: 1,
        ..Default::default()
    };
    let mut estimator = BandwidthEstimator::with_config(config);
    let session_id = 1;

    estimator.register_subscriber(session_id, 0);

    let mut average: Option<f64> = None;
    for i in 0..10 {
        let now_ms = 10 * i;
        if let Some(sample) = estimator.record_bytes_sent(session_id, 10_000, now_ms) {
            let rate = sample.bytes as f64 * 8.0 / sample.elapsed_ms as f64;
            let smoothed = match average {
                Some(previous) => previous * 0.7 + rate * 0.3,
                None => rate,
            };
            average = Some(smoothed);
            estimator.report_throughput(session_id, smoothed as u64, now_ms);
        }
    }
    assert!(average.is_some());

    let estimate = estimator.get_estimate(session_id).unwrap();
    assert!(estimate.bandwidth_kbps > 0);
    assert_eq!(estimate.source, BandwidthSource::ThroughputMeasurement);
}

#[test]
fn test_manual_override() {
    let mut estimator = BandwidthEstimator::new();
    let session_id = 1;

    estimator.set_bandwidth(session_id, 2000, 0);

    let estimate = estimator.get_estimate(session_id).unwrap();
    assert_eq!(estimate.bandwidth_kbps, 2000);
}

#[test]
fn test_quic_stats_conversion() {
    let stats = QuicBandwidthStats::from_path_stats(100_000, 50_000, Some(10_000_000));
    assert_eq!(stats.estimated_bandwidth_kbps(), 10000);

    let stats = QuicBandwidthStats::from_path_stats(100_000, 100_000, None);
    assert_eq!(stats.estimated_bandwidth_kbps(), 8000);
}

#[test]
fn parts_of_a_millisecond_do_not_count() {
    let stats = QuicBandwidthStats::from_path_stats(100_000, 999, None);
    assert_eq!(stats.rtt_ms, 0);
    assert_eq!(stats.cwnd_bytes, 100_000);
    assert_eq!(stats.pacing_rate_bps, None);
    assert_eq!(stats.estimated_bandwidth_kbps(), 0);

    let stats = QuicBandwidthStats::from_path_stats(100_000, 1_999, None);
    assert_eq!(stats.rtt_ms, 1);
}

#[test]
fn test_conservative_combined_estimate() {
    let config = BandwidthEstimatorConfig {
        min_update_interval_ms: 0,
        sample_interval_ms: 1,
        ..Default::default()
    };
    let mut estimator = BandwidthEstimator::with_config(config);
    let session_id = 1;

    estimator.register_subscriber(session_id, 0);
    estimator.update_quic_estimate(session_id, Some(10_000_000), 0, 0, 0);

    estimator.report_throughput(session_id, 3000, 0);

    estimator.update_quic_estimate(session_id, Some(10_000_000), 0, 0, 0);

    let estimate = estimator.get_estimate(session_id).unwrap();
    assert_eq!(estimate.bandwidth_kbps, 3000);
    assert_eq!(estimate.source, BandwidthSource::Combined);
}

#[test]
fn unknown_sessions_have_the_default_bandwidth() {
    let mut estimator = BandwidthEstimator::new();
    let usual = BandwidthEstimatorConfig::default().default_bandwidth_kbps;
    assert_eq!(estimator.get_bandwidth_kbps(9), usual);
    assert!(estimator.get_estimate(9).is_none());
    estimator.set_bandwidth(9, 77, 5);
    assert_eq!(estimator.get_bandwidth_kbps(9), 77);
    estimator.remove_subscriber(9);
    assert_eq!(estimator.get_bandwidth_kbps(9), usual);
}

fn make_params(set_id: u64, throughput: u64, fraction: u64, activate: bool) -> SwitchingSetAssignment {
    SwitchingSetAssignment::new(set_id, throughput).with_fraction(fraction).with_activate(activate)
}

fn subscribe(
    service: &mut DtsService,
    session_id: u64,
    subscription_id: u64,
    name: &str,
    params: SwitchingSetAssignment,
) {
    assert!(service.register_track_from_subscribe(
        session_id,
        subscription_id,
        &ns("video"),
        &text(name),
        Some(params),
        0,
    ));
}

#[test]
fn test_basic_dts_flow() {
    let mut service = DtsService::new();
    let session_id = 1;

    service.register_subscriber(session_id, 0);

    subscribe(&mut service, session_id, 100, "1080p", make_params(1, 3000, 10, false));
    subscribe(&mut service, session_id, 101, "720p", make_params(1, 1500, 10, false));
    subscribe(&mut service, session_id, 102, "480p", make_params(1, 800, 10, true));

    service.set_bandwidth(session_id, 5000, 0);

    assert!(service.is_track_selected(session_id, 100));
    assert!(!service.is_track_selected(session_id, 101));
    assert!(!service.is_track_selected(session_id, 102));

    service.set_bandwidth(session_id, 2000, 0);

    assert!(!service.is_track_selected(session_id, 100));
    assert!(service.is_track_selected(session_id, 101));
    assert!(!service.is_track_selected(session_id, 102));
}

#[test]
fn test_object_forwarding() {
    let mut service = DtsService::new();
    let session_id = 1;

    service.register_subscriber(session_id, 0);

    subscribe(&mut service, session_id, 100, "high", make_params(1, 3000, 10, false));
    subscribe(&mut service, session_id, 101, "low", make_params(1, 800, 10, true));

    service.set_bandwidth(session_id, 5000, 0);

    assert!(service.should_forward_object(session_id, 100, 1, 0));
    assert!(!service.should_forward_object(session_id, 101, 1, 0));
}

#[test]
fn test_non_dts_track_always_forwards() {
    let mut service = DtsService::new();
    let session_id = 1;

    service.register_subscriber(session_id, 0);

    let is_dts = service.register_track_from_subscribe(
        session_id,
        200,
        &ns("audio"),
        &text("stereo"),
        None,
        0,
    );

    assert!(!is_dts);
    assert!(service.should_forward_object(session_id, 200, 1, 0));
}

#[test]
fn test_group_boundary_switching() {
    let config = DtsServiceConfig {
        tracker: DtsTrackerConfig { upswitch_headroom_pct: 0, ..Default::default() },
        ..Default::default()
    };
    let mut service = DtsService::with_config(config);
    let session_id = 1;

    service.register_subscriber(session_id, 0);

    subscribe(&mut service, session_id, 100, "high", make_params(1, 3000, 10, false));
    subscribe(&mut service, session_id, 101, "low", make_params(1, 800, 10, true));

    service.set_bandwidth(session_id, 5000, 0);

    assert!(service.should_forward_object(session_id, 100, 1, 0));
    assert!(service.should_forward_object(session_id, 100, 1, 1));

    service.set_bandwidth(session_id, 1000, 0);

    assert!(service.should_forward_object(session_id, 100, 1, 2));
    assert!(service.should_forward_object(session_id, 101, 2, 0));
    assert!(!service.should_forward_object(session_id, 100, 2, 0));
}

#[test]
fn removing_the_selected_track_selects_another() {
    let mut service = DtsService::new();
    service.register_subscriber(7, 0);
    subscribe(&mut service, 7, 100, "high", make_params(1, 3000, 10, false));
    subscribe(&mut service, 7, 101, "low", make_params(1, 800, 10, true));
    service.set_bandwidth(7, 5000, 0);
    assert!(service.is_track_selected(7, 100));
    service.remove_track(7, 100, 0);
    assert!(!service.is_track_in_switching_set(7, 100));
    assert!(service.is_track_selected(7, 101));
    assert_eq!(service.get_bandwidth_kbps(7), 5000);
    assert_eq!(service.get_selections(7).len(), 1);
}

fn assignment(set_id: u64, throughput: u64, fraction: u64, activate: bool) -> SwitchingSetAssignment {
    SwitchingSetAssignment { set_id, throughput_kbps: throughput, fraction, activate, rank: None }
}

#[test]
fn test_basic_selection() {
    let mut tracker = DtsTracker::new();
    let session_id = 1;

    tracker.register_track(
        session_id,
        100,
        ns("video"),
        text("1080p"),
        &assignment(1, 3000, 10, false),
        0,
    );
    tracker.register_track(
        session_id,
        101,
        ns("video"),
        text("720p"),
        &assignment(1, 1500, 10, false),
        0,
    );
    tracker.register_track(
        session_id,
        102,
        ns("video"),
        text("480p"),
        &assignment(1, 800, 10, true),
        0,
    );

    let change = tracker.update_bandwidth(session_id, 5000, 0);
    assert_eq!(change.newly_selected.len(), 1);
    assert_eq!(change.newly_selected[0].track.track_name, "1080p");

    let change = tracker.update_bandwidth(session_id, 2000, 0);
    assert_eq!(change.switched.len(), 1);
    assert_eq!(change.switched[0].0.track.track_name, "720p");
    assert_eq!(change.switched[0].1.track_name, "1080p");

    let change = tracker.update_bandwidth(session_id, 1000, 0);
    assert_eq!(change.switched.len(), 1);
    assert_eq!(change.switched[0].0.track.track_name, "480p");
}

#[test]
fn test_multiple_sets_with_rank() {
    let config = DtsTrackerConfig { upswitch_headroom_pct: 0, ..Default::default() };
    let mut tracker = DtsTracker::with_config(config);
    let session_id = 1;

    tracker.register_track(
        session_id,
        100,
        ns("video"),
        text("main-1080p"),
        &SwitchingSetAssignment {
            set_id: 1,
            throughput_kbps: 3000,
            fraction: 6,
            activate: false,
            rank: Some(1),
        },
        0,
    );
    tracker.register_track(
        session_id,
        101,
        ns("video"),
        text("main-480p"),
        &SwitchingSetAssignment {
            set_id: 1,
            throughput_kbps: 800,
            fraction: 6,
            activate: true,
            rank: Some(1),
        },
        0,
    );
    tracker.register_track(
        session_id,
        200,
        ns("video"),
        text("secondary-720p"),
        &SwitchingSetAssignment {
            set_id: 2,
            throughput_kbps: 1500,
            fraction: 4,
            activate: false,
            rank: Some(2),
        },
        0,
    );
    tracker.register_track(
        session_id,
        201,
        ns("video"),
        text("secondary-480p"),
        &SwitchingSetAssignment {
            set_id: 2,
            throughput_kbps: 800,
            fraction: 4,
            activate: true,
            rank: Some(2),
        },
        0,
    );

    let change = tracker.update_bandwidth(session_id, 5000, 0);
    assert_eq!(change.newly_selected.len(), 2);

    let selections = tracker.get_selections(session_id);
    assert_eq!(selections.len(), 2);

    let set1 = selections.iter().find(|s| s.set_id == 1).unwrap();
    let set2 = selections.iter().find(|s| s.set_id == 2).unwrap();

    assert_eq!(set1.track.track_name, "main-1080p");
    assert_eq!(set2.track.track_name, "secondary-720p");

    let _ = tracker.update_bandwidth(session_id, 2000, 0);

    let selections = tracker.get_selections(session_id);
    let set1 = selections.iter().find(|s| s.set_id == 1).unwrap();
    let set2 = selections.iter().find(|s| s.set_id == 2).unwrap();

    assert_eq!(set1.track.track_name, "main-480p");
    assert_eq!(set2.track.track_name, "secondary-480p");
}

#[test]
fn test_track_removal() {
    let mut tracker = DtsTracker::new();
    let session_id = 1;

    tracker.register_track(
        session_id,
        100,
        ns("video"),
        text("1080p"),
        &assignment(1, 3000, 10, false),
        0,
    );
    tracker.register_track(
        session_id,
        101,
        ns("video"),
        text("720p"),
        &assignment(1, 1500, 10, true),
        0,
    );

    tracker.update_bandwidth(session_id, 5000, 0);
    assert!(tracker.is_track_selected(session_id, 100));

    let removed = tracker.remove_track(session_id, 100, 0);
    assert!(removed.is_some());
    assert_eq!(removed.unwrap().1.track_name, "1080p");

    let selections = tracker.get_selections(session_id);
    assert_eq!(selections.len(), 1);
    assert_eq!(selections[0].track.track_name, "720p");
}

#[test]
fn test_inactive_set_ignored() {
    let mut tracker = DtsTracker::new();
    let session_id = 1;

    tracker.register_track(
        session_id,
        100,
        ns("video"),
        text("1080p"),
        &assignment(1, 3000, 10, false),
        0,
    );

    tracker.update_bandwidth(session_id, 5000, 0);

    let selections = tracker.get_selections(session_id);
    assert!(selections.is_empty());

    tracker.activate_set(session_id, 1, 0);

    let selections = tracker.get_selections(session_id);
    assert_eq!(selections.len(), 1);
}

#[test]
fn test_is_track_in_switching_set() {
    let mut tracker = DtsTracker::new();
    let session_id = 1;

    tracker.register_track(
        session_id,
        100,
        ns("video"),
        text("1080p"),
        &assignment(1, 3000, 10, true),
        0,
    );

    assert!(tracker.is_track_in_switching_set(session_id, 100));
    assert!(!tracker.is_track_in_switching_set(session_id, 999));
    assert!(!tracker.is_track_in_switching_set(999, 100));
}

#[test]
fn test_bandwidth_zero() {
    let mut tracker = DtsTracker::new();
    let session_id = 1;

    tracker.register_track(
        session_id,
        100,
        ns("video"),
        text("480p"),
        &assignment(1, 800, 10, true),
        0,
    );

    let change = tracker.update_bandwidth(session_id, 0, 0);
    assert!(change.newly_selected.is_empty());

    let selections = tracker.get_selections(session_id);
    assert!(selections.is_empty());
}

#[test]
fn test_get_track_set_id() {
    let mut tracker = DtsTracker::new();
    let session_id = 1;

    tracker.register_track(
        session_id,
        100,
        ns("video"),
        text("1080p"),
        &assignment(1, 3000, 10, true),
        0,
    );
    tracker.register_track(
        session_id,
        200,
        ns("audio"),
        text("high"),
        &assignment(2, 128, 5, true),
        0,
    );

    assert_eq!(tracker.get_track_set_id(session_id, 100), Some(1));
    assert_eq!(tracker.get_track_set_id(session_id, 200), Some(2));
    assert_eq!(tracker.get_track_set_id(session_id, 999), None);
}

#[test]
fn going_up_waits_for_the_interval_and_needs_headroom() {
    let config = DtsTrackerConfig {
        min_switch_interval_ms: 1_000,
        upswitch_headroom_pct: 20,
        ..Default::default()
    };
    let mut tracker = DtsTracker::with_config(config);
    tracker.register_track(1, 100, ns("v"), text("high"), &assignment(1, 2000, 10, false), 0);
    tracker.register_track(1, 101, ns("v"), text("low"), &assignment(1, 500, 10, true), 0);

    tracker.update_bandwidth(1, 600, 0);
    assert!(tracker.is_track_selected(1, 101));
    tracker.update_bandwidth(1, 5000, 500);
    assert!(tracker.is_track_selected(1, 100));
    tracker.update_bandwidth(1, 1000, 600);
    assert!(tracker.is_track_selected(1, 101));
    tracker.update_bandwidth(1, 5000, 1_000);
    assert!(tracker.is_track_selected(1, 101));
    tracker.update_bandwidth(1, 2100, 2_000);
    assert!(tracker.is_track_selected(1, 101));
    tracker.update_bandwidth(1, 2400, 4_000);
    assert!(tracker.is_track_selected(1, 100));

    let stats = tracker.stats(1).unwrap();
    assert_eq!(stats.num_tracks, 2);
    assert_eq!(stats.num_active_sets, 1);
    tracker.remove_subscriber(1);
    assert!(tracker.stats(1).is_none());
}
