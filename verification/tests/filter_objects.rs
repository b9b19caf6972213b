use moq_relay::filter::object::{
    GroupFilter, LocationFilter, ObjectFilter, ObjectFilterParams, ObjectInfo, PriorityBitmap,
};
use moq_relay::filter::range::RangeSet;
use moq_relay::filter::stats::{FilterStats, FilterStatsSnapshot};

fn set_of(ranges: Vec<(u64, u64)>) -> RangeSet {
    RangeSet::from_ranges(&ranges)
}

#[test]
fn test_priority_bitmap() {
    let mut bitmap = PriorityBitmap::new();
    bitmap.set_range(10, 20);

    assert!(!bitmap.contains(9));
    assert!(bitmap.contains(10));
    assert!(bitmap.contains(15));
    assert!(bitmap.contains(20));
    assert!(!bitmap.contains(21));
}

#[test]
fn test_priority_bitmap_all() {
    let bitmap = PriorityBitmap::all();
    for p in 0..=255 {
        assert!(bitmap.contains(p));
    }
}

#[test]
fn priorities_are_counted_and_cleared() {
    let mut bitmap = PriorityBitmap::from_range(60, 70);
    assert_eq!(bitmap.count(), 11);
    bitmap.clear(64);
    assert_eq!(bitmap.count(), 10);
    assert!(!bitmap.contains(64));
    assert!(bitmap.contains(63));
    assert!(bitmap.contains(65));
    assert!(!bitmap.is_empty());
    assert!(PriorityBitmap::new().is_empty());
    assert_eq!(PriorityBitmap::all().count(), 256);
}

#[test]
fn test_location_filter() {
    let filter = LocationFilter::group_range(10, 20);

    assert!(!filter.matches(9, 0));
    assert!(filter.matches(10, 0));
    assert!(filter.matches(15, 50));
    assert!(filter.matches(20, 100));
    assert!(!filter.matches(21, 0));
}

#[test]
fn test_location_filter_with_objects() {
    let filter = LocationFilter::new(10, Some(5), Some(20), Some(10));

    assert!(!filter.matches(10, 4));
    assert!(filter.matches(10, 5));
    assert!(filter.matches(15, 0));
    assert!(filter.matches(20, 10));
    assert!(!filter.matches(20, 11));
}

#[test]
fn test_object_filter_empty() {
    let filter = ObjectFilter::new();
    let obj = ObjectInfo::new(100, 50);
    assert!(filter.matches(&obj));
}

#[test]
fn test_object_filter_location() {
    let mut filter = ObjectFilter::new();
    filter.set_location(LocationFilter::group_range(10, 20));

    assert!(!filter.matches(&ObjectInfo::new(9, 0)));
    assert!(filter.matches(&ObjectInfo::new(15, 50)));
    assert!(!filter.matches(&ObjectInfo::new(21, 0)));
}

#[test]
fn test_object_filter_priority() {
    let mut filter = ObjectFilter::new();
    filter.set_priority(PriorityBitmap::from_range(0, 127));

    assert!(filter.matches(&ObjectInfo::new(0, 0).with_priority(0)));
    assert!(filter.matches(&ObjectInfo::new(0, 0).with_priority(127)));
    assert!(!filter.matches(&ObjectInfo::new(0, 0).with_priority(128)));
    assert!(!filter.matches(&ObjectInfo::new(0, 0).with_priority(255)));
}

#[test]
fn test_object_filter_combined() {
    let mut filter = ObjectFilter::new();
    filter.set_location(LocationFilter::group_range(10, 20));
    filter.set_priority(PriorityBitmap::from_range(0, 100));

    assert!(filter.matches(&ObjectInfo::new(15, 0).with_priority(50)));
    assert!(!filter.matches(&ObjectInfo::new(15, 0).with_priority(150)));
    assert!(!filter.matches(&ObjectInfo::new(25, 0).with_priority(50)));
}

#[test]
fn test_object_filter_disabled() {
    let mut filter = ObjectFilter::new();
    filter.set_location(LocationFilter::group_range(10, 20));
    filter.disable();
    assert!(filter.matches(&ObjectInfo::new(100, 0)));
}

#[test]
fn test_object_filter_stats() {
    let mut filter = ObjectFilter::with_stats();
    filter.set_location(LocationFilter::group_range(10, 20));

    filter.filter(&ObjectInfo::new(15, 0));
    filter.filter(&ObjectInfo::new(15, 0));
    filter.filter(&ObjectInfo::new(25, 0));

    let stats = filter.stats_snapshot();
    assert_eq!(stats.passed, 2);
    assert_eq!(stats.filtered, 1);
}

#[test]
fn test_group_filter_sparse() {
    let filter = GroupFilter::sparse(set_of(vec![(1, 5), (10, 15), (100, 200)]));

    assert!(filter.contains(3));
    assert!(filter.contains(12));
    assert!(filter.contains(150));
    assert!(!filter.contains(50));
}

#[test]
fn test_group_filter_dense() {
    let filter = GroupFilter::dense(10, 100);

    assert!(!filter.contains(9));
    assert!(filter.contains(10));
    assert!(filter.contains(50));
    assert!(filter.contains(100));
    assert!(!filter.contains(101));
}

#[test]
fn group_filter_of_a_dense_set_closes_its_gaps() {
    let gappy = set_of(vec![(1, 49), (51, 100)]);
    let filter = GroupFilter::from_ranges(gappy);
    assert!(filter.contains(1));
    assert!(filter.contains(49));
    assert!(filter.contains(100));
    assert!(!filter.contains(101));

    let sparse = GroupFilter::from_ranges(set_of(vec![(1, 10), (91, 100)]));
    assert!(sparse.contains(10));
    assert!(!sparse.contains(50));
}

#[test]
fn test_from_params() {
    let params = ObjectFilterParams {
        location: Some(LocationFilter::group_range(10, 20)),
        priorities: Some(vec![(0, 127)]),
        groups: None,
        subgroups: None,
        objects: None,
        extensions: None,
    };

    let filter = ObjectFilter::from_params(params);

    assert!(filter.matches(&ObjectInfo::new(15, 0).with_priority(50)));
    assert!(!filter.matches(&ObjectInfo::new(25, 0).with_priority(50)));
}

#[test]
fn every_kind_of_range_is_applied() {
    let params = ObjectFilterParams {
        location: None,
        priorities: None,
        groups: Some(vec![(1, 1), (100, 100)]),
        subgroups: Some(vec![(5, 6)]),
        objects: Some(vec![(0, 9)]),
        extensions: Some(vec![(7, 10, 20)]),
    };
    let filter = ObjectFilter::from_params(params);
    assert!(filter.has_filters());

    let mut object = ObjectInfo::new(100, 9).with_subgroup(5);
    object.extensions = Some(vec![(7, 15)]);
    assert!(filter.matches(&object));

    object.object_id = 10;
    assert!(!filter.matches(&object));
    object.object_id = 9;
    object.subgroup_id = Some(7);
    assert!(!filter.matches(&object));
    object.subgroup_id = Some(6);
    object.group_id = 50;
    assert!(!filter.matches(&object));
    object.group_id = 1;
    object.extensions = Some(vec![(7, 21)]);
    assert!(!filter.matches(&object));
}

#[test]
fn filters_report_whether_anything_is_set() {
    let mut filter = ObjectFilter::new();
    assert!(!filter.has_filters());
    let empty = filter.memory_usage();
    filter.add_extension(3, set_of(vec![(1, 2)]));
    assert!(filter.has_filters());
    assert!(filter.memory_usage() > empty);
}

#[test]
fn test_empty() {
    let set = RangeSet::new();
    assert!(set.is_empty());
    assert!(!set.contains(0));
    assert!(!set.contains(100));
}

#[test]
fn test_single_range() {
    let set = RangeSet::single(10, 20);
    assert!(!set.contains(9));
    assert!(set.contains(10));
    assert!(set.contains(15));
    assert!(set.contains(20));
    assert!(!set.contains(21));
}

#[test]
fn test_multiple_ranges() {
    let set = set_of(vec![(1, 5), (10, 15), (20, 25)]);
    assert_eq!(set.len(), 3);

    assert!(!set.contains(0));
    assert!(set.contains(1));
    assert!(set.contains(3));
    assert!(set.contains(5));
    assert!(!set.contains(6));
    assert!(!set.contains(9));
    assert!(set.contains(10));
    assert!(set.contains(12));
    assert!(set.contains(15));
    assert!(!set.contains(16));
    assert!(!set.contains(19));
    assert!(set.contains(20));
    assert!(set.contains(25));
    assert!(!set.contains(26));
}

#[test]
fn test_merge_adjacent() {
    let mut set = RangeSet::new();
    set.insert(1, 5);
    set.insert(6, 10);
    assert_eq!(set.len(), 1);
    assert!(set.contains(1));
    assert!(set.contains(5));
    assert!(set.contains(6));
    assert!(set.contains(10));
}

#[test]
fn test_merge_overlapping() {
    let mut set = RangeSet::new();
    set.insert(1, 10);
    set.insert(5, 15);
    assert_eq!(set.len(), 1);
    assert!(set.contains(1));
    assert!(set.contains(10));
    assert!(set.contains(15));
}

#[test]
fn test_coverage() {
    let set = set_of(vec![(1, 5), (10, 15)]);
    assert_eq!(set.coverage(), 11);
}

#[test]
fn test_is_dense() {
    let dense = set_of(vec![(1, 90)]);
    assert!(dense.is_dense());

    let sparse = set_of(vec![(1, 10), (91, 100)]);
    assert!(!sparse.is_dense());
}

#[test]
fn same_members_give_the_same_ranges() {
    let a = set_of(vec![(30, 40), (1, 5), (6, 10), (35, 50)]);
    let b = set_of(vec![(1, 10), (30, 50)]);
    assert_eq!(a.iter(), b.iter());
    assert_eq!(a.iter(), vec![(1, 10), (30, 50)]);
    assert_eq!(a.span(), Some(49));
    assert_eq!(RangeSet::new().span(), None);
}

#[test]
fn ranges_reach_to_the_largest_number() {
    let mut set = RangeSet::single(u64::MAX - 1, u64::MAX);
    set.insert(0, 0);
    assert_eq!(set.iter(), vec![(0, 0), (u64::MAX - 1, u64::MAX)]);
    assert!(set.contains(u64::MAX));
    assert!(!set.contains(1));
    for i in 0..20 {
        set.insert(10 * i + 5, 10 * i + 6);
    }
    assert_eq!(set.len(), 22);
    set.insert(0, 300);
    assert_eq!(set.iter(), vec![(0, 300), (u64::MAX - 1, u64::MAX)]);
}

#[test]
fn test_basic_counting() {
    let mut stats = FilterStats::enabled();

    stats.record_passed();
    stats.record_passed();
    stats.record_filtered();

    let snapshot = stats.snapshot();
    assert_eq!(snapshot.passed, 2);
    assert_eq!(snapshot.filtered, 1);
    assert_eq!(snapshot.total(), 3);
}

#[test]
fn test_pass_rate() {
    let mut stats = FilterStats::enabled();

    for _ in 0..80 {
        stats.record_passed();
    }
    for _ in 0..20 {
        stats.record_filtered();
    }

    let snapshot = stats.snapshot();
    let pass_rate = snapshot.passed as f64 / snapshot.total() as f64;
    assert!((pass_rate - 0.8).abs() < 0.001);
}

#[test]
fn test_disabled_stats() {
    let mut stats = FilterStats::new();

    stats.record_passed();
    stats.record_filtered();

    let snapshot = stats.snapshot();
    assert_eq!(snapshot.passed, 0);
    assert_eq!(snapshot.filtered, 0);
}

#[test]
fn test_reset() {
    let mut stats = FilterStats::enabled();

    stats.record_passed();
    stats.record_filtered();

    stats.reset();

    let snapshot = stats.snapshot();
    assert_eq!(snapshot.total(), 0);
}

#[test]
fn test_memory_tracking() {
    let mut stats = FilterStats::enabled();

    stats.update_memory(1000);
    stats.update_memory(500);
    stats.update_memory(2000);

    let snapshot = stats.snapshot();
    assert_eq!(snapshot.peak_memory_bytes, 2000);
}

#[test]
fn merging_counts_is_symmetric() {
    let mut a = FilterStats::enabled();
    a.record(true);
    a.record_timing_ns(30);
    a.update_memory(10);
    let mut b = FilterStats::enabled();
    b.record(false);
    b.record(false);
    b.update_memory(70);

    let mut ab: FilterStatsSnapshot = a.snapshot();
    ab.merge(&b.snapshot());
    let mut ba: FilterStatsSnapshot = b.snapshot();
    ba.merge(&a.snapshot());
    assert_eq!(ab.passed, 1);
    assert_eq!(ab.filtered, 2);
    assert_eq!(ab.total(), ba.total());
    assert_eq!(ab.peak_memory_bytes, ba.peak_memory_bytes);
}
