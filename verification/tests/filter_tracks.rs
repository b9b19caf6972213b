use moq_relay::filter::track::{TrackFilter, TrackFilterMode, TrackIdentifier, TrackLimits};
use moq_relay::filter::track_ext::{ExtensionMatcher, TrackExtensionFilter};
use moq_relay::namespace::TrackNamespace;
use rustc_hash::FxHasher;
use std::hash::{Hash, Hasher};
use std::sync::Arc;

fn ns(path: &str) -> TrackNamespace {
    TrackNamespace::new(path.split('/').map(|f| f.as_bytes().to_vec()).collect())
}

#[test]
fn test_allowlist_empty() {
    let filter = TrackFilter::allowlist();
    assert!(!filter.should_accept(&ns("live/game"), "video"));
}

#[test]
fn test_allowlist_match() {
    let mut filter = TrackFilter::allowlist();
    filter.add(&ns("live/game"), "video");

    assert!(filter.should_accept(&ns("live/game"), "video"));
    assert!(!filter.should_accept(&ns("live/game"), "audio"));
    assert!(!filter.should_accept(&ns("live/other"), "video"));
}

#[test]
fn test_denylist_empty() {
    let filter = TrackFilter::denylist();
    assert!(filter.should_accept(&ns("live/game"), "video"));
}

#[test]
fn test_denylist_match() {
    let mut filter = TrackFilter::denylist();
    filter.add(&ns("live/game"), "video");

    assert!(!filter.should_accept(&ns("live/game"), "video"));
    assert!(filter.should_accept(&ns("live/game"), "audio"));
    assert!(filter.should_accept(&ns("live/other"), "video"));
}

#[test]
fn test_limits() {
    let mut filter = TrackFilter::denylist();
    filter.set_limits(TrackLimits::max_tracks(2));

    assert!(filter.filter(&ns("live/game"), "video"));
    assert!(filter.filter(&ns("live/game"), "audio"));
    assert!(!filter.filter(&ns("live/game"), "chat"));
}

#[test]
fn test_disabled() {
    let mut filter = TrackFilter::allowlist();
    filter.add(&ns("live/game"), "video");
    filter.disable();
    assert!(filter.should_accept(&ns("live/other"), "audio"));
}

#[test]
fn track_test_stats() {
    let mut filter = TrackFilter::with_stats(TrackFilterMode::Allowlist);
    filter.add(&ns("live/game"), "video");

    filter.filter(&ns("live/game"), "video");
    filter.filter(&ns("live/game"), "audio");

    let stats = filter.stats_snapshot();
    assert_eq!(stats.passed, 1);
    assert_eq!(stats.filtered, 1);
}

#[test]
fn test_bloom_rebuild() {
    let mut filter = TrackFilter::allowlist();

    for i in 0..200 {
        filter.add(&ns(&format!("live/game{}", i)), "video");
    }

    assert!(filter.should_accept(&ns("live/game0"), "video"));
    assert!(filter.should_accept(&ns("live/game199"), "video"));
    assert!(!filter.should_accept(&ns("live/game200"), "video"));
    assert_eq!(filter.track_count(), 200);
}

#[test]
fn selections_are_counted_up_to_the_limit() {
    let mut filter = TrackFilter::denylist();
    filter.set_limits(TrackLimits::max_tracks(1));
    assert!(filter.filter(&ns("a"), "x"));
    assert!(!filter.filter(&ns("a"), "y"));
    assert_eq!(filter.selected_count(), 1);
    assert!(filter.is_enabled());
}

#[test]
fn identifiers_of_one_track_are_equal() {
    let a = TrackIdentifier::new(&ns("live/game"), "video");
    let b = TrackIdentifier::with_shared_namespace(Arc::new(ns("live/game")), "video".to_string());
    let c = TrackIdentifier::new(&ns("live/game"), "audio");
    assert!(a == b);
    assert_eq!(a.hash(), b.hash());
    assert!(a != c);
    assert_ne!(a.hash(), c.hash());
    assert_ne!(a.hash(), 0);
}

#[test]
fn tracks_go_to_the_hasher_field_by_field() {
    let mut hasher = FxHasher::default();
    hasher.write_usize(2);
    for field in ["live", "game"] {
        hasher.write_usize(field.len());
        hasher.write(field.as_bytes());
    }
    hasher.write(b"video");
    hasher.write_u8(0xff);
    assert_eq!(TrackIdentifier::new(&ns("live/game"), "video").hash(), hasher.finish());

    let namespace = ns("live/game");
    let mut hasher = FxHasher::default();
    namespace.hash(&mut hasher);
    "video".hash(&mut hasher);
    assert_eq!(TrackIdentifier::new(&namespace, "video").hash(), hasher.finish());
    assert_ne!(
        TrackIdentifier::new(&ns("ab/c"), "d").hash(),
        TrackIdentifier::new(&ns("a/bc"), "d").hash()
    );
}

#[test]
fn test_empty_filter() {
    let filter = TrackExtensionFilter::new();
    assert!(filter.matches(&[]));
    assert!(filter.matches(&[(1, 100), (2, 200)]));
}

#[test]
fn test_exact_match() {
    let mut filter = TrackExtensionFilter::new();
    filter.filter_exact(1, 100);

    assert!(filter.matches(&[(1, 100)]));
    assert!(!filter.matches(&[(1, 101)]));
    assert!(filter.matches(&[(1, 100), (2, 200)]));
}

#[test]
fn test_range_match() {
    let mut filter = TrackExtensionFilter::new();
    filter.filter_range(1, 10, 20);

    assert!(!filter.matches(&[(1, 9)]));
    assert!(filter.matches(&[(1, 10)]));
    assert!(filter.matches(&[(1, 15)]));
    assert!(filter.matches(&[(1, 20)]));
    assert!(!filter.matches(&[(1, 21)]));
}

#[test]
fn test_multiple_matchers() {
    let mut filter = TrackExtensionFilter::new();
    filter.filter_range(1, 10, 20);
    filter.filter_exact(2, 100);

    assert!(filter.matches(&[(1, 15), (2, 100)]));
    assert!(!filter.matches(&[(1, 15), (2, 101)]));
    assert!(!filter.matches(&[(1, 25), (2, 100)]));
}

#[test]
fn test_disabled_filter() {
    let mut filter = TrackExtensionFilter::new();
    filter.filter_exact(1, 100);
    filter.disable();
    assert!(filter.matches(&[(1, 999)]));
}

#[test]
fn test_stats_collection() {
    let mut filter = TrackExtensionFilter::with_stats();
    filter.filter_exact(1, 100);

    filter.filter(&[(1, 100)]);
    filter.filter(&[(1, 100)]);
    filter.filter(&[(1, 101)]);

    let stats = filter.stats_snapshot();
    assert_eq!(stats.passed, 2);
    assert_eq!(stats.filtered, 1);
}

#[test]
fn matchers_of_one_extension_widen() {
    let mut filter = TrackExtensionFilter::new();
    let mut matcher = ExtensionMatcher::range(9, 1, 3);
    matcher.allow_range(7, 8);
    assert!(matcher.matches(8));
    assert!(!matcher.matches(5));
    filter.add_matcher(matcher);
    filter.filter_range(9, 20, 30);
    assert_eq!(filter.matcher_count(), 1);
    assert!(filter.matches(&[(9, 25)]));
    assert!(!filter.matches(&[(9, 5)]));
}
