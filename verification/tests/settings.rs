use moq_relay::dts_service::DtsService;
use moq_relay::dts_tracker::{DtsTrack, DtsTracker, SwitchingSet, SwitchingSetAssignment};
use moq_relay::filter::config::FilterConfig;
use moq_relay::filter::object::{
    GroupFilter, LocationFilter, ObjectFilter, ObjectFilterParams, ObjectInfo,
};
use moq_relay::filter::pipeline::{FilterPipeline, MetricInput};
use moq_relay::filter::range::RangeSet;
use moq_relay::filter::scalable_topn::{ScalableTopNConfig, ScalableTopNFilter, Smoothed};
use moq_relay::filter::stats::FilterStats;
use moq_relay::filter::topn::{extract_metric, TopNConfig, TopNFilter};
use moq_relay::filter::track::{TrackFilter, TrackIdentifier, TrackLimits};
use moq_relay::namespace::TrackNamespace;
use moq_relay::subscriber_registry::{self, SubscriberRegistry};
use moq_relay::consumer::{publish_events, IngestObserver, KeyValuePair, PublishInfo, Value};
use moq_relay::top_n_events::{TopNEventLogger, TrackEvent};
use moq_relay::top_n_tracker::{TopNTracker, TopNTrackerConfig};

fn ns(path: &str) -> TrackNamespace {
    TrackNamespace::new(path.split('/').map(|f| f.as_bytes().to_vec()).collect())
}

fn text(s: &str) -> String {
    s.to_string()
}

#[test]
fn namespaces_are_compared_field_by_field() {
    let room = ns("live/room1");
    assert!(room.has_prefix(&ns("live")));
    assert!(!room.has_prefix(&ns("live/room")));
    assert!(room.same_as(&ns("live/room1")));
    assert!(!room.same_as(&ns("live")));
    assert_eq!(room.to_tuple(), vec![b"live".to_vec(), b"room1".to_vec()]);
}

#[test]
fn filters_on_ids_work_alone() {
    let mut by_group = ObjectFilter::with_stats();
    by_group.set_group(GroupFilter::from_ranges(RangeSet::from_ranges(&vec![(1, 2), (9, 9)])));
    assert!(by_group.filter(&ObjectInfo::new(2, 0)));
    assert!(!by_group.filter(&ObjectInfo::new(5, 0)));
    assert_eq!(by_group.stats_snapshot().passed, 1);
    assert_eq!(by_group.stats_snapshot().filtered, 1);
    by_group.reset_stats();
    assert_eq!(by_group.stats_snapshot().total(), 0);
    by_group.disable();
    assert!(by_group.matches(&ObjectInfo::new(5, 0)));
    by_group.enable();
    assert!(!by_group.matches(&ObjectInfo::new(5, 0)));

    let mut by_subgroup = ObjectFilter::new();
    by_subgroup.set_subgroup(RangeSet::single(4, 6));
    assert!(by_subgroup.matches(&ObjectInfo::new(0, 0).with_subgroup(5)));
    assert!(!by_subgroup.matches(&ObjectInfo::new(0, 0).with_subgroup(7)));

    let mut by_object = ObjectFilter::new();
    by_object.set_object(RangeSet::single(10, 20));
    assert!(by_object.matches(&ObjectInfo::new(0, 20)));
    assert!(!by_object.matches(&ObjectInfo::new(0, 21)));

    let from = LocationFilter::from_group(7);
    assert!(from.matches(7, 0));
    assert!(from.matches(u64::MAX, 0));
    assert!(!from.matches(6, 99));
}

#[test]
fn coverage_of_everything_needs_more_bits() {
    let all = RangeSet::single(0, u64::MAX);
    assert_eq!(all.wide_coverage(), 1u128 << 64);
    assert_eq!(RangeSet::single(3, 7).wide_coverage(), 5);
}

#[test]
fn time_is_counted_while_collection_is_on() {
    let mut stats = FilterStats::new();
    stats.record_timing(100, 350);
    assert_eq!(stats.snapshot().total_ns, 0);
    stats.enable();
    stats.record_timing(100, 350);
    stats.record_timing(350, 100);
    assert_eq!(stats.snapshot().total_ns, 250);
}

#[test]
fn builders_change_one_setting() {
    let top = TopNConfig::top(4).with_decay(9_000).higher_is_better(false);
    assert_eq!(top.decay_after_ms, 9_000);
    assert!(!top.higher_is_better);
    assert_eq!(top.n, 4);

    let config = FilterConfig::all_disabled().with_stats_interval(5).with_topn_config(top);
    assert_eq!(config.stats_interval_secs, 5);
    assert!(config.topn_enabled);
    assert_eq!(config.topn_config, top);

    let all = FilterConfig::all_enabled();
    assert!(all.track_ext_enabled && all.track_enabled && all.object_enabled && all.topn_enabled);
    assert!(!FilterConfig::default().topn_enabled);

    let scalable = ScalableTopNConfig::top(2).with_batch_interval(40);
    assert_eq!(scalable.batch_interval_ms, 40);
    assert_eq!(scalable.n, 2);

    assert_eq!(
        TrackLimits::unlimited(),
        TrackLimits { max_selected: 0, max_deselected: 0, max_time_selected_ms: 0 }
    );
}

#[test]
fn the_first_metric_counts() {
    assert_eq!(extract_metric(&[(1, 5), (2, 6), (2, 7)], 2), Some(6));
    assert_eq!(extract_metric(&[(1, 5)], 2), None);
}

#[test]
fn counts_of_the_best_can_be_reset() {
    let mut filter = TopNFilter::new(TopNConfig::top(1), 0);
    assert!(!filter.recompute_due(499));
    assert!(filter.recompute_due(500));
    filter.update_metric(&ns("a"), &text("x"), &[(0x100, 9)], 9f64.to_bits(), 0);
    filter.update_metric(&ns("b"), &text("x"), &[(0x100, 5)], 5f64.to_bits(), 0);
    let scores = vec![9f64.to_bits(), 5f64.to_bits()];
    assert!(filter.should_forward(&ns("a"), &text("x"), &scores, 1_000));
    assert!(!filter.should_forward(&ns("b"), &text("x"), &scores, 1_000));
    assert_eq!(filter.stats().objects_processed, 2);
    assert_eq!(filter.stats().objects_filtered, 1);
    filter.reset_stats();
    assert_eq!(filter.stats().objects_processed, 0);
    filter.disable();
    assert!(filter.should_forward(&ns("b"), &text("x"), &scores, 1_000));
    filter.enable();
    assert!(!filter.should_forward(&ns("b"), &text("x"), &scores, 1_000));
}

#[test]
fn tracks_are_listed_by_identifier() {
    let mut filter = TrackFilter::allowlist();
    filter.add_track(TrackIdentifier::new(&ns("a"), "x"));
    assert!(filter.filter(&ns("a"), "x"));
    assert!(!filter.filter(&ns("a"), "y"));
    assert_eq!(filter.selected_count(), 1);
    assert_eq!(filter.deselected_count(), 1);
    assert_eq!(filter.track_count(), 1);
    filter.add(&ns("a"), "x");
    assert_eq!(filter.track_count(), 1);
    filter.add(&ns("b"), "x");
    assert_eq!(filter.track_count(), 2);
    assert_eq!(TrackIdentifier::new(&ns("a"), "x").hash(), TrackIdentifier::new(&ns("a"), "x").hash());
    assert_ne!(TrackIdentifier::new(&ns("a"), "x").hash(), TrackIdentifier::new(&ns("a"), "y").hash());
    filter.reset_stats();
    assert_eq!(filter.stats_snapshot().total(), 0);
    filter.disable();
    assert!(filter.should_accept(&ns("a"), "y"));
    filter.enable();
    assert!(!filter.should_accept(&ns("a"), "y"));
}

#[test]
fn a_pipeline_reports_all_stages() {
    let mut pipeline = FilterPipeline::new(FilterConfig::default().with_stats(), 0);
    pipeline.track_ext_filter_mut().filter_exact(1, 100);
    assert_eq!(pipeline.track_ext_filter().matcher_count(), 1);
    assert!(pipeline.filter_track_extensions(&[(1, 100)]));
    assert!(!pipeline.filter_track_extensions(&[(1, 101)]));
    pipeline.track_filter_mut().add(&ns("a"), "x");
    assert_eq!(pipeline.track_filter().track_count(), 1);

    let mut params = ObjectFilterParams::default();
    params.location = Some(LocationFilter::group_range(10, 20));
    let sub_id = pipeline.register_subscription(params);
    assert!(pipeline.get_object_filter(sub_id).unwrap().has_filters());
    assert!(pipeline.get_object_filter(sub_id + 1).is_none());
    assert!(pipeline.filter_object(sub_id, &ObjectInfo::new(15, 0)));
    assert!(!pipeline.filter_object(sub_id, &ObjectInfo::new(25, 0)));

    let report = pipeline.report();
    assert_eq!(report.total_processed(), 4);
    assert_eq!(report.total_filtered(), 2);
    assert!(report.topn.is_none());
    assert!(pipeline.topn_filter().is_none());
    assert!(pipeline.topn_stats().is_none());
    assert!(pipeline.filter_topn(&ns("a"), &text("x"), &vec![], 0));

    pipeline.reset_stats();
    assert_eq!(pipeline.report().total_processed(), 0);

    pipeline.disable();
    assert!(pipeline.filter_object(sub_id, &ObjectInfo::new(25, 0)));
    pipeline.enable();
    assert!(!pipeline.filter_object(sub_id, &ObjectInfo::new(25, 0)));
}

#[test]
fn a_batch_goes_out_for_the_best_tracks_only() {
    let mut pipeline = FilterPipeline::new(FilterConfig::all_disabled().with_topn(1), 0);
    let first = pipeline.register_subscription(ObjectFilterParams::default());
    let second = pipeline.register_subscription(ObjectFilterParams::default());
    pipeline.update_topn_metric(&ns("a"), &text("x"), &[(0x100, 90)], 90f64.to_bits(), 0);
    pipeline.update_topn_metric(&ns("b"), &text("x"), &[(0x100, 10)], 10f64.to_bits(), 0);
    let input = MetricInput {
        smoothed: 90f64.to_bits(),
        scores: vec![90f64.to_bits(), 10f64.to_bits()],
        now_ms: 10_000,
    };
    let object = ObjectInfo::new(1, 1);
    let loud = pipeline.filter_batch_with_topn(
        &[first, second],
        &object,
        &ns("a"),
        &text("x"),
        None,
        &input,
    );
    assert_eq!(loud, vec![first, second]);
    let quiet = pipeline.filter_batch_with_topn(
        &[first, second],
        &object,
        &ns("b"),
        &text("x"),
        None,
        &input,
    );
    assert!(quiet.is_empty());
    assert_eq!(pipeline.topn_filter().unwrap().get_top_n().len(), 1);
    assert_eq!(pipeline.topn_stats().unwrap().objects_filtered, 1);
}

#[test]
fn a_scalable_filter_estimates_its_memory() {
    let mut filter = ScalableTopNFilter::top(1, 0);
    filter.register_viewer();
    filter.register_viewer();
    filter.register_publisher_subscriber(7);
    assert_eq!(filter.stats().estimated_memory(), 160);

    let interval = ScalableTopNConfig::top(1).batch_interval_ms;
    assert!(!filter.batch_due(interval - 1));
    assert!(filter.batch_due(interval));
    filter.update_metric(7, &text("a"), &text("x"), &[(0x100, 50)], 0);
    filter.apply_updates(&vec![Smoothed { average: 50f64.to_bits(), value: 50 }]);
    filter.process_batch(&vec![50], interval);
    let best = filter.top_n();
    assert_eq!(best.len(), 1);
    assert_eq!(best[0].value, 50);
    assert_eq!(filter.stats().estimated_memory(), 360);
}

#[test]
fn a_set_takes_its_best_track_that_fits() {
    let mut set = SwitchingSet::new(1, 10, 0, 0);
    for (id, kbps) in [(100, 800), (101, 3000), (102, 1500)] {
        set.add_track(DtsTrack {
            namespace: ns("video"),
            track_name: text("v"),
            throughput_kbps: kbps,
            subscription_id: id,
        });
    }
    assert!(set.select_for_bandwidth(2000, 5));
    assert_eq!(set.selected().unwrap().subscription_id, 102);
    assert!(!set.select_for_bandwidth(2500, 6));
    assert!(set.select_for_bandwidth(100, 7));
    assert!(set.selected().is_none());
    assert!(set.remove_track(101));
    assert!(!set.remove_track(101));
}

#[test]
fn the_rank_of_an_assignment_is_zero_unless_given() {
    let assignment = SwitchingSetAssignment::new(4, 1200);
    assert_eq!(assignment.effective_rank(), 0);
    assert_eq!(assignment.with_rank(9).effective_rank(), 9);
}

#[test]
fn sets_are_asked_for_their_selection() {
    let mut tracker = DtsTracker::new();
    let waiting = SwitchingSetAssignment::new(1, 800);
    tracker.register_track(5, 100, ns("video"), text("low"), &waiting, 0);
    assert!(!tracker.is_set_active(5, 1));
    assert!(!tracker.is_set_active_for_track(5, 100));
    assert!(tracker.get_selection_for_set(5, 1).is_none());
    tracker.update_bandwidth(5, 2000, 0);
    let change = tracker.activate_set(5, 1, 0);
    assert_eq!(change.newly_selected.len(), 1);
    assert!(tracker.is_set_active(5, 1));
    assert!(tracker.is_set_active_for_track(5, 100));
    assert_eq!(tracker.get_selection_for_set(5, 1).unwrap().track.subscription_id, 100);
    assert!(tracker.get_selection_for_set(5, 2).is_none());
    assert_eq!(tracker.get_track_set_id(5, 100), Some(1));
}

#[test]
fn congestion_figures_select_anew() {
    let mut service = DtsService::new();
    service.register_subscriber(5, 0);
    for (id, kbps, activate) in [(100, 3000, false), (101, 800, true)] {
        let assignment = SwitchingSetAssignment::new(1, kbps).with_activate(activate);
        service.register_track_from_subscribe(
            5,
            id,
            &ns("video"),
            &text("v"),
            Some(assignment),
            0,
        );
    }
    assert!(service.is_set_active_for_track(5, 100));
    service.set_bandwidth(5, 5000, 0);
    assert!(service.is_track_selected(5, 100));
    let change = service.update_bandwidth_from_quic(5, Some(1_000_000), 100_000, 50, 10_000);
    assert_eq!(service.get_bandwidth_kbps(5), 1000);
    assert_eq!(change.switched.len(), 1);
    assert!(service.is_track_selected(5, 101));
}

#[test]
fn a_registry_knows_the_filter_of_a_session() {
    let mut registry = SubscriberRegistry::with_topn_logging();
    registry.set_topn_event_logging(false);
    let filter = subscriber_registry::TrackFilter { property_type: 7, max_selected: 2 };
    registry.register(ns("live"), 100, 0);
    registry.register_with_filter(ns("live"), 100, Some(filter), 0);
    assert_eq!(registry.get_track_filter_for_session(100), Some(filter));
    assert_eq!(registry.get_track_filter_for_session(101), None);
}

#[test]
fn a_touched_track_does_not_grow_stale() {
    let mut tracker = TopNTracker::with_config(
        7,
        TopNTrackerConfig { staleness_timeout_ms: Some(1_000), ..Default::default() },
    );
    tracker.set_event_logging(true);
    assert!(tracker.is_event_logging_enabled());
    tracker.update_max_n(2, 0);
    assert_eq!(tracker.max_n(), 2);
    tracker.register_track(ns("live"), text("a"), 10, 100, 0);
    tracker.register_track(ns("live"), text("b"), 5, 101, 0);
    tracker.touch_track(&ns("live"), &text("a"), 900);
    assert_eq!(tracker.sweep_stale(1_500), 1);
    assert_eq!(tracker.num_tracks(), 1);
    let snapshot = tracker.load_snapshot();
    assert!(tracker.is_in_top_n_with_snapshot(&ns("live"), &text("a"), 101, 1, snapshot));
    assert!(!tracker.is_in_top_n_with_snapshot(&ns("live"), &text("a"), 100, 1, snapshot));
    assert_eq!(TopNTracker::compute_last_self_position_in_snapshot(100, snapshot), 0);
}

#[test]
fn every_event_has_its_line() {
    let logger = TopNEventLogger::new(true, 0);
    assert_eq!(
        logger.log_value_updated("cam", 7, 8, 3, 5).unwrap(),
        "TOPN_EVENT:{\"ts_ms\":5,\"event\":\"value_updated\",\"track\":\"cam\",\"old_value\":7,\"new_value\":8,\"publisher_id\":3}"
    );
    assert_eq!(
        logger.log_track_removed("a\"b\\c\n", 3, 5).unwrap(),
        "TOPN_EVENT:{\"ts_ms\":5,\"event\":\"track_removed\",\"track\":\"a\\\"b\\\\c\\u000a\",\"publisher_id\":3}"
    );
    assert_eq!(
        logger.log_track_removed("cam", 3, 5).unwrap(),
        "TOPN_EVENT:{\"ts_ms\":5,\"event\":\"track_removed\",\"track\":\"cam\",\"publisher_id\":3}"
    );
    let selected = [(text("a"), 9), (text("b"), 4)];
    assert_eq!(
        logger.log_top_n_query(11, 2, &selected, Some(3), 5).unwrap(),
        "TOPN_EVENT:{\"ts_ms\":5,\"event\":\"top_n_query\",\"subscriber_id\":11,\"n\":2,\"selected\":[{\"track\":\"a\",\"value\":9},{\"track\":\"b\",\"value\":4}],\"excluded_self\":3}"
    );
    assert_eq!(
        logger.log_top_n_query(11, 0, &[], None, 5).unwrap(),
        "TOPN_EVENT:{\"ts_ms\":5,\"event\":\"top_n_query\",\"subscriber_id\":11,\"n\":0,\"selected\":[],\"excluded_self\":null}"
    );
}

#[test]
fn events_are_told_before_they_happen() {
    let mut tracker = TopNTracker::new(7);
    assert!(tracker.registration_event(&ns("live"), &text("a"), 10, 100).is_none());
    tracker.set_event_logging(true);
    let registered = TrackEvent::Registered { value: 10, publisher_id: 100 };
    assert_eq!(
        tracker.registration_event(&ns("live"), &text("a"), 10, 100),
        Some(registered)
    );
    tracker.update_max_n(2, 0);
    tracker.register_track(ns("live"), text("a"), 10, 100, 0);
    tracker.register_track(ns("live"), text("b"), 5, 101, 0);
    tracker.register_track(ns("live"), text("c"), 1, 102, 0);
    assert!(tracker.registration_event(&ns("live"), &text("a"), 11, 100).is_none());
    assert!(tracker.update_event(&ns("live"), &text("a"), 10).is_none());
    assert_eq!(
        tracker.update_event(&ns("live"), &text("a"), 11),
        Some(TrackEvent::ValueUpdated { old_value: 10, new_value: 11, publisher_id: 100 })
    );
    assert_eq!(
        tracker.removal_event(&ns("live"), &text("b")),
        Some(TrackEvent::Removed { publisher_id: 101 })
    );
    assert!(tracker.removal_event(&ns("live"), &text("x")).is_none());

    let report = tracker.report_query(100, 1).unwrap();
    assert_eq!(report.selected, vec![(text("b"), 5)]);
    assert_eq!(report.excluded_self, Some(100));
    let report = tracker.report_query(101, 1).unwrap();
    assert_eq!(report.selected, vec![(text("a"), 10)]);
    assert_eq!(report.excluded_self, None);

    let logger = TopNEventLogger::new(true, 40);
    assert_eq!(
        logger.log_event("/live/a", "a", registered, 45).unwrap(),
        "TOPN_EVENT:{\"ts_ms\":5,\"event\":\"track_registered\",\"track\":\"/live/a\",\"value\":10,\"publisher_id\":100}"
    );
    assert_eq!(
        logger.log_event("/live/a", "a", TrackEvent::Removed { publisher_id: 3 }, 45).unwrap(),
        "TOPN_EVENT:{\"ts_ms\":5,\"event\":\"track_removed\",\"track\":\"a\",\"publisher_id\":3}"
    );
}

#[test]
fn rankings_that_cover_a_track_tell_of_it() {
    let level = |value| vec![KeyValuePair { key: 0x12, value: Value::IntValue(value) }];
    let publish = PublishInfo {
        id: 1,
        track_namespace: ns("live/room1"),
        track_name: text("mic"),
        track_alias: 9,
        forward: true,
        track_extensions: level(30),
    };
    let filter = subscriber_registry::TrackFilter { property_type: 0x12, max_selected: 2 };
    let mut registry = SubscriberRegistry::with_topn_logging();
    registry.register_with_filter(ns("live"), 100, Some(filter), 7);
    registry.register_with_filter(ns("other"), 100, Some(filter), 8);

    let told = publish_events(&registry, &publish, 200);
    assert_eq!(told.len(), 1);
    assert_eq!(told[0].created_ms, 7);
    assert_eq!(told[0].event, TrackEvent::Registered { value: 30, publisher_id: 200 });

    registry.register_track(&ns("live/room1"), &text("mic"), 0x12, 30, 200, 10);
    assert!(publish_events(&registry, &publish, 200).is_empty());

    let observer = IngestObserver::new();
    let told =
        observer.ingest_events(&registry, &ns("live/room1"), &text("mic"), &level(31));
    assert_eq!(told.len(), 1);
    assert_eq!(
        told[0].event,
        TrackEvent::ValueUpdated { old_value: 30, new_value: 31, publisher_id: 200 }
    );
    assert!(observer
        .ingest_events(&registry, &ns("live/room1"), &text("mic"), &level(30))
        .is_empty());
    assert_eq!(registry.removal_events(&ns("live/room1"), &text("mic")).len(), 1);
    assert!(registry.removal_events(&ns("live/room1"), &text("cam")).is_empty());

    registry.set_topn_event_logging(false);
    assert!(registry.removal_events(&ns("live/room1"), &text("mic")).is_empty());
}

#[test]
fn the_top_zero_is_empty() {
    let mut tracker = TopNTracker::new(7);
    tracker.update_max_n(2, 0);
    tracker.register_track(ns("live"), text("a"), 10, 100, 0);
    assert!(tracker.is_in_top_n(&ns("live"), &text("a"), 101, 1));
    assert!(!tracker.is_in_top_n(&ns("live"), &text("a"), 101, 0));
    assert!(tracker.compute_top_n_for_session(101, 0).is_empty());

    let mut registry = SubscriberRegistry::new();
    let nothing = subscriber_registry::TrackFilter { property_type: 7, max_selected: 0 };
    let one = subscriber_registry::TrackFilter { property_type: 7, max_selected: 1 };
    registry.register_with_filter(ns("live"), 100, Some(nothing), 0);
    let told = registry.register_with_filter(ns("live"), 101, Some(one), 0);
    registry.register_track(&ns("live"), &text("a"), 7, 10, 200, 0);
    assert_eq!(registry.notify_publish(&ns("live"), &text("a"), 200, &vec![]), vec![told]);
    assert!(registry.notify_publish(&ns("live"), &text("a"), 200, &vec![]).is_empty());
}

#[test]
fn a_far_own_track_rules_nothing_out() {
    let mut tracker = TopNTracker::new(7);
    tracker.update_max_n(255, 0);
    for i in 0..300u64 {
        tracker.register_track(ns("live"), format!("own{i}"), 1_000 - i, 1, 0);
    }
    tracker.register_track(ns("live"), text("other"), 1, 2, 0);
    let snapshot = tracker.load_snapshot();
    let last = tracker.compute_last_self_position(1);
    assert_eq!(last, 255);
    let at = tracker.find_track_position(&ns("live"), &text("other")).unwrap();
    assert_eq!(at, 300);
    assert!(tracker.is_in_top_n(&ns("live"), &text("other"), 1, 1));
    assert!(tracker.is_in_top_n_fast(&ns("live"), &text("other"), at, 1, 1, last, snapshot));
}

#[test]
fn removing_a_track_that_was_not_selected_selects_nothing() {
    let mut service = DtsService::new();
    service.register_subscriber(1, 0);
    for (id, kbps, activate) in [(100, 3000, false), (101, 800, true)] {
        let assignment = SwitchingSetAssignment::new(1, kbps).with_fraction(10).with_activate(activate);
        service.register_track_from_subscribe(1, id, &ns("v"), &text("t"), Some(assignment), 0);
    }
    service.set_bandwidth(1, 5000, 0);
    assert!(service.is_track_selected(1, 100));
    let change = service.remove_track(1, 101, 0);
    assert!(change.is_empty());
    assert!(service.is_track_selected(1, 100));
    assert!(!service.is_track_in_switching_set(1, 101));

    let assignment = SwitchingSetAssignment::new(1, 800).with_fraction(10);
    service.register_track_from_subscribe(1, 102, &ns("v"), &text("t"), Some(assignment), 0);
    let change = service.remove_track(1, 100, 0);
    assert_eq!(change.newly_selected.len(), 1);
    assert_eq!(change.newly_selected[0].track.subscription_id, 102);
}
