use moq_relay::filter::config::{FilterArgs, FilterConfig};
use moq_relay::filter::object::{LocationFilter, ObjectFilterParams, ObjectInfo};
use moq_relay::filter::pipeline::{FilterPipeline, MetricInput};
use moq_relay::filter::scalable_topn::{ScalableTopNFilter, SelectionChange, Smoothed};
use moq_relay::filter::topn::{score_order, MetricReading, TopNConfig, TopNFilter};
use moq_relay::namespace::TrackNamespace;

fn ns(path: &str) -> TrackNamespace {
    TrackNamespace::new(path.split('/').map(|f| f.as_bytes().to_vec()).collect())
}

fn text(s: &str) -> String {
    s.to_string()
}

/// The value of a metric after a time without updates.
fn effective(reading: &MetricReading, decay_after_ms: u64) -> f64 {
    let average = f64::from_bits(reading.average);
    if reading.idle_ms < decay_after_ms {
        average
    } else {
        let decay_secs = (reading.idle_ms - decay_after_ms) as f64 / 1000.0;
        average * (-decay_secs / 2.0).exp()
    }
}

fn scores(filter: &TopNFilter, now_ms: u64) -> Vec<u64> {
    let decay_after_ms = filter.config().decay_after_ms;
    filter
        .all_metrics(now_ms)
        .iter()
        .map(|(_, reading)| effective(reading, decay_after_ms).to_bits())
        .collect()
}

fn feed(filter: &mut TopNFilter, path: &str, extensions: &[(u64, u64)], now_ms: u64) -> Option<u64> {
    let wanted = filter.config().metric_extension_type;
    let value = extensions.iter().find(|e| e.0 == wanted).map(|e| e.1).unwrap_or(0) as f64;
    let smoothed = match filter.get_metric(&ns(path), &text("audio"), now_ms) {
        Some(reading) => f64::from_bits(reading.average) * 0.7 + value * 0.3,
        None => value,
    };
    filter.update_metric(&ns(path), &text("audio"), extensions, smoothed.to_bits(), now_ms)
}

fn forwards(filter: &mut TopNFilter, path: &str, now_ms: u64) -> bool {
    let scores = scores(filter, now_ms);
    filter.should_forward(&ns(path), &text("audio"), &scores, now_ms)
}

#[test]
fn test_topn_basic() {
    let mut filter = TopNFilter::default_config(2, 0);

    feed(&mut filter, "room/user1", &[(0x100, 100)], 0);
    feed(&mut filter, "room/user2", &[(0x100, 50)], 0);
    feed(&mut filter, "room/user3", &[(0x100, 200)], 0);
    feed(&mut filter, "room/user4", &[(0x100, 75)], 0);

    let current = scores(&filter, 0);
    filter.recompute_top_n(&current, 0);

    let top = filter.get_top_n();
    assert_eq!(top.len(), 2);

    assert!(forwards(&mut filter, "room/user3", 0));
    assert!(forwards(&mut filter, "room/user1", 0));
    assert!(!forwards(&mut filter, "room/user2", 0));
    assert!(!forwards(&mut filter, "room/user4", 0));
}

#[test]
fn test_topn_metric_extraction() {
    let mut filter = TopNFilter::new(TopNConfig::top(3).with_metric_type(0x200), 0);

    let result = feed(&mut filter, "room/user1", &[(0x100, 999), (0x200, 42)], 0);
    assert_eq!(result, Some(42));

    let result = feed(&mut filter, "room/user2", &[(0x100, 999)], 0);
    assert_eq!(result, None);
}

#[test]
fn test_topn_disabled() {
    let mut filter = TopNFilter::default_config(1, 0);
    filter.disable();
    assert!(forwards(&mut filter, "room/any", 0));
}

#[test]
fn test_topn_metric_update() {
    let mut filter = TopNFilter::default_config(2, 0);

    feed(&mut filter, "room/user1", &[(0x100, 100)], 0);
    let reading = filter.get_metric(&ns("room/user1"), &text("audio"), 0).unwrap();
    let metric1 = effective(&reading, filter.config().decay_after_ms);

    feed(&mut filter, "room/user1", &[(0x100, 200)], 0);
    let reading = filter.get_metric(&ns("room/user1"), &text("audio"), 0).unwrap();
    let metric2 = effective(&reading, filter.config().decay_after_ms);

    assert!(metric2 > metric1);
    assert!(metric2 < 200.0);
}

#[test]
fn test_topn_stats() {
    let mut filter = TopNFilter::default_config(1, 0);

    feed(&mut filter, "room/user1", &[(0x100, 100)], 0);
    feed(&mut filter, "room/user2", &[(0x100, 50)], 0);
    let current = scores(&filter, 0);
    filter.recompute_top_n(&current, 0);

    forwards(&mut filter, "room/user1", 0);
    forwards(&mut filter, "room/user2", 0);

    let stats = filter.stats();
    assert_eq!(stats.objects_processed, 2);
    assert_eq!(stats.objects_filtered, 1);
    assert_eq!(stats.tracks_monitored, 2);
    assert_eq!(stats.current_top_n, 1);
}

#[test]
fn selection_is_made_anew_after_its_interval() {
    let mut filter = TopNFilter::new(TopNConfig::top(1).with_recompute_interval(500), 1_000);
    feed(&mut filter, "room/user1", &[(0x100, 10)], 1_000);
    let current = scores(&filter, 1_000);
    filter.recompute_top_n(&current, 1_000);
    feed(&mut filter, "room/user2", &[(0x100, 20)], 1_100);
    assert!(!forwards(&mut filter, "room/user2", 1_200));
    assert!(forwards(&mut filter, "room/user2", 1_600));
    assert!(!forwards(&mut filter, "room/user1", 1_600));
}

#[test]
fn stale_metrics_are_dropped() {
    let mut filter = TopNFilter::default_config(2, 0);
    feed(&mut filter, "room/user1", &[(0x100, 10)], 0);
    feed(&mut filter, "room/user2", &[(0x100, 20)], 9_000);
    filter.cleanup_stale(5_000, 10_000);
    assert_eq!(filter.stats().tracks_monitored, 1);
    assert!(filter.get_metric(&ns("room/user1"), &text("audio"), 10_000).is_none());
}

#[test]
fn scores_are_put_in_order() {
    assert_eq!(score_order(&vec![5, 9, 7], true), vec![1, 2, 0]);
    assert_eq!(score_order(&vec![5, 9, 7], false), vec![0, 2, 1]);
    assert!(score_order(&Vec::new(), true).is_empty());
}

fn push(filter: &mut ScalableTopNFilter, publisher: u64, name: &str, value: u64) {
    filter.update_metric(publisher, &text("room"), &text(name), &[(0x100, value)], 0);
}

/// Takes the buffered updates in, at once after they came.
fn batch(filter: &mut ScalableTopNFilter) -> Option<SelectionChange> {
    let mut smoothed: Vec<Smoothed> = Vec::new();
    let mut averages: Vec<(String, f64)> = filter
        .ranked_tracks()
        .iter()
        .map(|t| (t.name.clone(), f64::from_bits(t.average)))
        .collect();
    for update in filter.pending() {
        let value = update.value as f64;
        let average = match averages.iter_mut().find(|a| a.0 == update.name) {
            Some(known) => {
                known.1 = known.1 * 0.7 + value * 0.3;
                known.1
            }
            None => {
                averages.push((update.name.clone(), value));
                value
            }
        };
        smoothed.push(Smoothed { average: average.to_bits(), value: average as u64 });
    }
    if !filter.apply_updates(&smoothed) {
        return None;
    }
    let decayed: Vec<u64> = filter.ranked_tracks().iter().map(|t| t.value).collect();
    filter.process_batch(&decayed, 0)
}

#[test]
fn test_basic_ranking() {
    let mut filter = ScalableTopNFilter::top(2, 0);

    push(&mut filter, 1, "alice_audio", 100);
    push(&mut filter, 2, "bob_audio", 200);
    push(&mut filter, 3, "charlie_audio", 50);

    batch(&mut filter);

    assert!(filter.is_in_global_top_n(&text("room"), &text("bob_audio")));
    assert!(filter.is_in_global_top_n(&text("room"), &text("alice_audio")));
    assert!(!filter.is_in_global_top_n(&text("room"), &text("charlie_audio")));
}

#[test]
fn scalable_topn_test_self_exclusion() {
    let mut filter = ScalableTopNFilter::top(2, 0);

    push(&mut filter, 1, "alice_audio", 200);
    push(&mut filter, 2, "bob_audio", 150);
    push(&mut filter, 3, "charlie_audio", 100);

    batch(&mut filter);

    let alice_sub_id = filter.register_publisher_subscriber(1);
    let viewer_id = filter.register_viewer();

    assert!(filter.should_forward(&text("room"), &text("alice_audio"), viewer_id));
    assert!(filter.should_forward(&text("room"), &text("bob_audio"), viewer_id));
    assert!(!filter.should_forward(&text("room"), &text("charlie_audio"), viewer_id));

    assert!(!filter.should_forward(&text("room"), &text("alice_audio"), alice_sub_id));
    assert!(filter.should_forward(&text("room"), &text("bob_audio"), alice_sub_id));
    assert!(filter.should_forward(&text("room"), &text("charlie_audio"), alice_sub_id));
}

#[test]
fn test_waterline_calculation() {
    let mut filter = ScalableTopNFilter::top(2, 0);

    push(&mut filter, 1, "track1", 300);
    push(&mut filter, 2, "track2", 200);
    push(&mut filter, 3, "track3", 100);

    batch(&mut filter);

    assert_eq!(filter.snapshot().threshold(), 200);
    assert_eq!(filter.waterline_for(1), 100);
    assert_eq!(filter.waterline_for(3), 200);
}

#[test]
fn test_arrival_order_tiebreaking() {
    let mut filter = ScalableTopNFilter::top(2, 0);

    push(&mut filter, 1, "first", 100);
    push(&mut filter, 2, "second", 100);
    push(&mut filter, 3, "third", 100);

    batch(&mut filter);

    assert!(filter.is_in_global_top_n(&text("room"), &text("first")));
    assert!(filter.is_in_global_top_n(&text("room"), &text("second")));
    assert!(!filter.is_in_global_top_n(&text("room"), &text("third")));
}

#[test]
fn scalable_topn_test_stats() {
    let mut filter = ScalableTopNFilter::top(3, 0);

    push(&mut filter, 1, "track1", 100);
    push(&mut filter, 2, "track2", 200);
    batch(&mut filter);

    let _viewer_id = filter.register_viewer();
    let _pub_sub_id = filter.register_publisher_subscriber(1);

    let stats = filter.stats();
    assert_eq!(stats.updates_received, 2);
    assert_eq!(stats.tracks_monitored, 2);
    assert_eq!(stats.viewer_count, 1);
    assert_eq!(stats.pub_sub_count, 1);
}

#[test]
fn own_tracks_are_never_forwarded() {
    let mut filter = ScalableTopNFilter::top(1, 0);
    push(&mut filter, 1, "a", 10);
    push(&mut filter, 2, "b", 30);
    batch(&mut filter);
    let low = filter.register_publisher_subscriber(1);
    assert!(!filter.should_forward(&text("room"), &text("a"), low));
    assert!(filter.should_forward(&text("room"), &text("b"), low));
    filter.unregister(low);
    assert_eq!(filter.stats().pub_sub_count, 0);
}

#[test]
fn a_change_of_the_selection_is_told_once() {
    let mut filter = ScalableTopNFilter::top(1, 0);
    push(&mut filter, 1, "a", 10);
    match batch(&mut filter) {
        Some(SelectionChange::TopNChanged { new_top_n }) => {
            assert_eq!(new_top_n, vec![(text("room"), text("a"))]);
        }
        _ => panic!("no change"),
    }
    push(&mut filter, 1, "a", 20);
    assert!(batch(&mut filter).is_none());
    assert!(batch(&mut filter).is_none());
}

#[test]
fn large_values_rank_first() {
    let mut filter = ScalableTopNFilter::top(1, 0);
    push(&mut filter, 1, "small", 5);
    push(&mut filter, 2, "large", 1 << 63);
    batch(&mut filter);
    assert!(filter.is_in_global_top_n(&text("room"), &text("large")));
    assert!(!filter.is_in_global_top_n(&text("room"), &text("small")));
}

fn groups(start: u64, end: u64) -> ObjectFilterParams {
    ObjectFilterParams {
        location: Some(LocationFilter::group_range(start, end)),
        ..Default::default()
    }
}

#[test]
fn test_pipeline_creation() {
    let pipeline = FilterPipeline::default_config(0);
    assert!(pipeline.is_enabled());
    assert_eq!(pipeline.subscription_count(), 0);
}

#[test]
fn test_subscription_registration() {
    let mut pipeline = FilterPipeline::default_config(0);

    let sub_id = pipeline.register_subscription(groups(10, 20));
    assert_eq!(pipeline.subscription_count(), 1);

    pipeline.unregister_subscription(sub_id);
    assert_eq!(pipeline.subscription_count(), 0);
}

#[test]
fn test_object_filtering() {
    let mut pipeline = FilterPipeline::new(FilterConfig::object_only(), 0);

    let sub_id = pipeline.register_subscription(groups(10, 20));

    let obj_pass = ObjectInfo::new(15, 0);
    let obj_fail = ObjectInfo::new(25, 0);

    assert!(pipeline.filter_object(sub_id, &obj_pass));
    assert!(!pipeline.filter_object(sub_id, &obj_fail));
}

#[test]
fn test_pipeline_disabled() {
    let mut pipeline = FilterPipeline::default_config(0);
    pipeline.disable();

    let sub_id = pipeline.register_subscription(groups(10, 20));

    let obj = ObjectInfo::new(100, 0);
    assert!(pipeline.filter_object(sub_id, &obj));
}

#[test]
fn test_track_filtering() {
    let config = FilterConfig { track_enabled: true, ..FilterConfig::all_disabled() };
    let mut pipeline = FilterPipeline::new(config, 0);

    pipeline.track_filter_mut().add(&ns("live/blocked"), "video");

    assert!(!pipeline.filter_track(&ns("live/blocked"), "video"));
    assert!(pipeline.filter_track(&ns("live/allowed"), "video"));
}

#[test]
fn test_batch_filtering() {
    let mut pipeline = FilterPipeline::new(FilterConfig::object_only(), 0);

    let sub1 = pipeline.register_subscription(groups(10, 20));
    let sub2 = pipeline.register_subscription(groups(15, 25));
    let sub3 = pipeline.register_subscription(groups(100, 200));

    let obj = ObjectInfo::new(18, 0);
    let result = pipeline.filter_batch(&[sub1, sub2, sub3], &obj, None);

    assert!(result.contains(&sub1));
    assert!(result.contains(&sub2));
    assert!(!result.contains(&sub3));
}

#[test]
fn test_should_forward() {
    let config = FilterConfig {
        track_ext_enabled: true,
        object_enabled: true,
        ..FilterConfig::all_disabled()
    };
    let mut pipeline = FilterPipeline::new(config, 0);

    pipeline.track_ext_filter_mut().filter_exact(1, 100);

    let sub_id = pipeline.register_subscription(groups(10, 20));

    let obj = ObjectInfo::new(15, 0);

    assert!(pipeline.should_forward(sub_id, &obj, Some(&[(1, 100)])));
    assert!(!pipeline.should_forward(sub_id, &obj, Some(&[(1, 999)])));

    let obj_bad = ObjectInfo::new(100, 0);
    assert!(!pipeline.should_forward(sub_id, &obj_bad, Some(&[(1, 100)])));
}

#[test]
fn test_stats_with_config() {
    let config = FilterConfig::all_enabled().with_stats();
    let mut pipeline = FilterPipeline::new(config, 0);

    let sub_id = pipeline.register_subscription(groups(10, 20));

    pipeline.filter_object(sub_id, &ObjectInfo::new(15, 0));
    pipeline.filter_object(sub_id, &ObjectInfo::new(25, 0));

    let report = pipeline.report();
    assert_eq!(report.object.passed, 1);
    assert_eq!(report.object.filtered, 1);
}

#[test]
fn subscriptions_of_one_group_share_a_filter() {
    let mut pipeline = FilterPipeline::new(FilterConfig::object_only(), 0);
    let first = pipeline.register_subscription_dedupe(groups(10, 20), 7);
    let second = pipeline.register_subscription_dedupe(groups(10, 20), 7);
    let own = pipeline.register_subscription(groups(0, 5));
    assert_eq!(pipeline.filter_group_count(), 1);
    assert_eq!(pipeline.subscription_count(), 3);
    assert_ne!(first, second);

    let inside = ObjectInfo::new(12, 0);
    assert!(pipeline.filter_object(first, &inside));
    assert!(pipeline.filter_object(second, &inside));
    assert!(!pipeline.filter_object(own, &inside));
    assert_eq!(pipeline.filter_batch(&[own, second, first], &inside, None), vec![second, first]);

    pipeline.unregister_subscription(first);
    assert_eq!(pipeline.subscription_count(), 2);
    assert!(pipeline.filter_object(second, &inside));
}

#[test]
fn best_tracks_pass_the_pipeline() {
    let config = FilterConfig::all_disabled().with_topn(1);
    let mut pipeline = FilterPipeline::new(config, 0);
    let sub_id = pipeline.register_subscription(ObjectFilterParams::default());
    assert!(pipeline.is_topn_enabled());
    let loud = MetricInput { smoothed: 90f64.to_bits(), scores: vec![90f64.to_bits()], now_ms: 0 };
    let mut object = ObjectInfo::new(1, 1);
    object.extensions = Some(vec![(0x100, 90)]);
    pipeline.update_topn_metric(&ns("a"), &text("x"), &[(0x100, 90)], 90f64.to_bits(), 0);
    assert!(pipeline.should_forward_with_topn(
        sub_id,
        &object,
        &ns("a"),
        &text("x"),
        Some(&[(0x100, 90)]),
        &MetricInput { now_ms: 10_000, ..loud },
    ));
}

#[test]
fn arguments_become_a_configuration() {
    let mut args = FilterArgs::default();
    assert!(!args.to_config().topn_enabled);
    args.topn_enabled = true;
    args.topn_count = 4;
    args.topn_metric_type = 0x77;
    let config = args.to_config();
    assert!(config.topn_enabled);
    assert_eq!(config.topn_config.n, 4);
    assert_eq!(args.to_topn_config().metric_extension_type, 0x77);
    assert!(config.any_enabled());
    assert!(!FilterConfig::all_disabled().any_enabled());
}

#[test]
fn a_speaker_sees_the_next_one_in_their_own_place() {
    let mut filter = ScalableTopNFilter::top(3, 0);
    for (id, name, activity) in
        [(1, "alice", 200), (2, "bob", 150), (3, "charlie", 100), (4, "diana", 50), (5, "eve", 180)]
    {
        filter.update_metric(id, &text(name), &text("audio"), &[(0x100, activity)], 0);
    }
    let smoothed: Vec<Smoothed> = filter
        .pending()
        .iter()
        .map(|u| Smoothed { average: (u.value as f64).to_bits(), value: u.value })
        .collect();
    filter.apply_updates(&smoothed);
    let decayed: Vec<u64> = filter.ranked_tracks().iter().map(|t| t.value).collect();
    filter.process_batch(&decayed, 100);

    let best: Vec<String> = filter.top_n().into_iter().map(|t| t.namespace).collect();
    assert_eq!(best, vec!["alice", "eve", "bob"]);
    assert_eq!(filter.waterline_for(1), 100);
    assert_eq!(filter.waterline_for(4), 150);
    let alice = filter.register_publisher_subscriber(1);
    let seen: Vec<&str> = ["alice", "bob", "charlie", "diana", "eve"]
        .into_iter()
        .filter(|name| filter.should_forward(&text(name), &text("audio"), alice))
        .collect();
    assert_eq!(seen, vec!["bob", "charlie", "eve"]);
}
