//! Subscriptions to namespaces, and whom to tell of what is published.
//!
//! A subscription covers the namespaces under its prefix. One with a track filter hears of a
//! track only while the track is in its top N. Each subscription hears of a track once.
//! Delivering the notifications is up to the caller, who names the subscriptions that
//! nothing can be delivered to.

use vstd::prelude::*;
use crate::namespace::{self, TrackNamespace};
use crate::top_n_events::TrackEvent;
use crate::top_n_tracker::{
    self, TieBreakPolicy, TopNTracker, TopNTrackerConfig, TopNTrackerView, TrackRankView,
};

verus! {

/// The track filter of a subscription.
#[derive(Clone, Copy, Debug, PartialEq, Eq, Structural)]
pub struct TrackFilter {
    /// The property to rank by.
    pub property_type: u64,
    /// The largest number of tracks to receive.
    pub max_selected: u8,
}

impl Default for TrackFilter {
    fn default() -> (r: Self)
        ensures
            r == (TrackFilter { property_type: 0, max_selected: 0 }),
    {
        TrackFilter { property_type: 0, max_selected: 0 }
    }
}

/// A subscription to the namespaces under a prefix.
#[derive(Debug)]
pub struct NamespaceSubscription {
    pub id: u64,
    pub prefix: TrackNamespace,
    /// The session of the subscriber.
    pub session_id: u64,
    pub track_filter: Option<TrackFilter>,
}

/// The contents of a [`NamespaceSubscription`].
#[verifier::ext_equal]
pub struct SubscriptionView {
    pub id: u64,
    pub prefix: Seq<Seq<u8>>,
    pub session_id: u64,
    pub track_filter: Option<TrackFilter>,
}

impl View for NamespaceSubscription {
    type V = SubscriptionView;

    open spec fn view(&self) -> SubscriptionView {
        SubscriptionView {
            id: self.id,
            prefix: self.prefix@,
            session_id: self.session_id,
            track_filter: self.track_filter,
        }
    }
}

/// What a subscriber is told of a track that is published.
#[derive(Debug)]
pub struct PublishNotification {
    pub namespace: TrackNamespace,
    pub track_name: String,
    pub track_alias: u64,
}

/// What a subscriber is told of a namespace that is published.
#[derive(Debug)]
pub struct PublishNamespaceNotification {
    pub namespace: TrackNamespace,
}

/// A ranking of the tracks under a prefix by a property.
struct TrackerEntry {
    prefix: TrackNamespace,
    property_type: u64,
    /// When the ranking was first asked for.
    created_ms: u64,
    tracker: TopNTracker,
}

/// The contents of a tracker entry.
#[verifier::ext_equal]
pub struct TrackerEntryView {
    pub prefix: Seq<Seq<u8>>,
    pub property_type: u64,
    pub created_ms: u64,
    pub tracker: TopNTrackerView,
}

impl View for TrackerEntry {
    type V = TrackerEntryView;

    closed spec fn view(&self) -> TrackerEntryView {
        TrackerEntryView {
            prefix: self.prefix@,
            property_type: self.property_type,
            created_ms: self.created_ms,
            tracker: self.tracker@,
        }
    }
}

impl TrackerEntryView {
    /// The entry ranks tracks of this namespace by this property.
    pub open spec fn covers(self, namespace: Seq<Seq<u8>>, property_type: u64) -> bool {
        self.property_type == property_type && namespace::is_under(namespace, self.prefix)
    }
}

/// The contents of the registry.
#[verifier::ext_equal]
pub struct RegistryView {
    /// Subscriptions in the order of their registration.
    pub subscriptions: Seq<SubscriptionView>,
    pub next_id: u64,
    /// Rankings in the order in which they were first asked for.
    pub trackers: Seq<TrackerEntryView>,
    pub topn_event_logging: bool,
    pub tie_break_policy: TieBreakPolicy,
    /// Which subscription was told of which track.
    pub published: Set<(u64, Seq<Seq<u8>>, Seq<char>)>,
}

/// Position of the first of the first `n` rankings for this prefix and property.
pub open spec fn find_tracker(
    trackers: Seq<TrackerEntryView>,
    prefix: Seq<Seq<u8>>,
    property_type: u64,
    n: nat,
) -> Option<int>
    decreases n,
{
    if n == 0 {
        None
    } else {
        match find_tracker(trackers, prefix, property_type, (n - 1) as nat) {
            Some(i) => Some(i),
            None => if trackers[n - 1].prefix == prefix && trackers[n - 1].property_type
                == property_type {
                Some(n - 1)
            } else {
                None
            },
        }
    }
}

/// Position of the first of the first `n` rankings that cover this namespace.
pub open spec fn find_covering(
    trackers: Seq<TrackerEntryView>,
    namespace: Seq<Seq<u8>>,
    property_type: u64,
    n: nat,
) -> Option<int>
    decreases n,
{
    if n == 0 {
        None
    } else {
        match find_covering(trackers, namespace, property_type, (n - 1) as nat) {
            Some(i) => Some(i),
            None => if trackers[n - 1].covers(namespace, property_type) {
                Some(n - 1)
            } else {
                None
            },
        }
    }
}

/// The ids of those of the first `n` subscriptions that satisfy `wanted`.
pub open spec fn ids_where(
    subscriptions: Seq<SubscriptionView>,
    wanted: spec_fn(SubscriptionView) -> bool,
    n: nat,
) -> Seq<u64>
    decreases n,
{
    if n == 0 {
        Seq::empty()
    } else {
        let before = ids_where(subscriptions, wanted, (n - 1) as nat);
        if wanted(subscriptions[n - 1]) {
            before.push(subscriptions[n - 1].id)
        } else {
            before
        }
    }
}

/// The filter of the first of the first `n` subscriptions of a session that has one.
pub open spec fn first_filter(
    subscriptions: Seq<SubscriptionView>,
    session_id: u64,
    n: nat,
) -> Option<TrackFilter>
    decreases n,
{
    if n == 0 {
        None
    } else {
        match first_filter(subscriptions, session_id, (n - 1) as nat) {
            Some(filter) => Some(filter),
            None => if subscriptions[n - 1].session_id == session_id {
                subscriptions[n - 1].track_filter
            } else {
                None
            },
        }
    }
}

/// The subscriptions among the first `n` that do not have this id.
pub open spec fn without_id(subscriptions: Seq<SubscriptionView>, id: u64, n: nat) -> Seq<
    SubscriptionView,
>
    decreases n,
{
    if n == 0 {
        Seq::empty()
    } else {
        let before = without_id(subscriptions, id, (n - 1) as nat);
        if subscriptions[n - 1].id == id {
            before
        } else {
            before.push(subscriptions[n - 1])
        }
    }
}

impl RegistryView {
    /// An empty registry.
    pub open spec fn fresh(topn_event_logging: bool, tie_break_policy: TieBreakPolicy) -> RegistryView {
        RegistryView {
            subscriptions: Seq::empty(),
            next_id: 0,
            trackers: Seq::empty(),
            topn_event_logging,
            tie_break_policy,
            published: Set::empty(),
        }
    }

    /// Ids are in use once, and there is one ranking per prefix and property.
    pub open spec fn wf(self) -> bool {
        &&& forall|i: int|
            0 <= i < self.subscriptions.len() ==> (#[trigger] self.subscriptions[i]).id
                < self.next_id
        &&& forall|i: int, j: int|
            0 <= i < j < self.subscriptions.len() ==> (#[trigger] self.subscriptions[i]).id != (
            #[trigger] self.subscriptions[j]).id
        &&& forall|i: int, j: int|
            0 <= i < j < self.trackers.len() ==> (#[trigger] self.trackers[i]).prefix != (
            #[trigger] self.trackers[j]).prefix || self.trackers[i].property_type
                != self.trackers[j].property_type
    }

    /// The configuration of rankings made from now on.
    pub open spec fn tracker_config(self) -> TopNTrackerConfig {
        TopNTrackerConfig {
            enable_event_logging: self.topn_event_logging,
            tie_break_policy: self.tie_break_policy,
            ..TopNTrackerConfig::standard()
        }
    }

    /// `after` is the rankings once one for this prefix can serve the filter.
    pub open spec fn tracker_serves(
        self,
        prefix: Seq<Seq<u8>>,
        filter: TrackFilter,
        now_ms: u64,
        after: Seq<TrackerEntryView>,
    ) -> bool {
        let known = find_tracker(self.trackers, prefix, filter.property_type, self.trackers.len());
        let trackers = match known {
            Some(i) => self.trackers,
            None => self.trackers.push(
                TrackerEntryView {
                    prefix,
                    property_type: filter.property_type,
                    created_ms: now_ms,
                    tracker: TopNTrackerView::fresh(filter.property_type, self.tracker_config()),
                },
            ),
        };
        let i = match known {
            Some(i) => i,
            None => self.trackers.len() as int,
        };
        let entry = trackers[i];
        let max_n = if filter.max_selected > entry.tracker.max_n {
            filter.max_selected
        } else {
            entry.tracker.max_n
        };
        &&& after == trackers.update(i, TrackerEntryView { tracker: after[i].tracker, ..entry })
        &&& entry.tracker.resizes(max_n, now_ms, after[i].tracker)
    }

    /// The track is in the top N of the filter in the subscription's own ranking.
    pub open spec fn in_own_top(
        self,
        subscription: SubscriptionView,
        filter: TrackFilter,
        namespace: Seq<Seq<u8>>,
        track_name: Seq<char>,
    ) -> bool {
        match find_tracker(
            self.trackers,
            subscription.prefix,
            filter.property_type,
            self.trackers.len(),
        ) {
            Some(i) => top_n_tracker::within_top(
                self.trackers[i].tracker.snapshot,
                namespace,
                track_name,
                subscription.session_id,
                filter.max_selected as nat,
            ),
            None => false,
        }
    }

    /// The track is in the top N of the filter in some ranking that covers it.
    pub open spec fn in_some_top(
        self,
        subscription: SubscriptionView,
        filter: TrackFilter,
        namespace: Seq<Seq<u8>>,
        track_name: Seq<char>,
    ) -> bool {
        exists|i: int|
            0 <= i < self.trackers.len() && (#[trigger] self.trackers[i]).covers(
                namespace,
                filter.property_type,
            ) && top_n_tracker::within_top(
                self.trackers[i].tracker.snapshot,
                namespace,
                track_name,
                subscription.session_id,
                filter.max_selected as nat,
            )
    }

    /// The subscription is of another session than the origin and covers the namespace.
    pub open spec fn hears_of(
        self,
        subscription: SubscriptionView,
        namespace: Seq<Seq<u8>>,
        origin_session_id: u64,
    ) -> bool {
        subscription.session_id != origin_session_id && namespace::is_under(
            namespace,
            subscription.prefix,
        )
    }

    /// The subscription is to be told of a track that is published.
    pub open spec fn wants_publish(
        self,
        subscription: SubscriptionView,
        namespace: Seq<Seq<u8>>,
        track_name: Seq<char>,
        origin_session_id: u64,
    ) -> bool {
        &&& self.hears_of(subscription, namespace, origin_session_id)
        &&& match subscription.track_filter {
            Some(filter) => self.in_own_top(subscription, filter, namespace, track_name),
            None => true,
        }
        &&& !self.published.contains((subscription.id, namespace, track_name))
    }

    /// The subscription is to be told of a track whose value changed.
    pub open spec fn wants_update(
        self,
        subscription: SubscriptionView,
        namespace: Seq<Seq<u8>>,
        track_name: Seq<char>,
        property_type: u64,
        origin_session_id: u64,
    ) -> bool {
        &&& self.hears_of(subscription, namespace, origin_session_id)
        &&& match subscription.track_filter {
            Some(filter) => filter.property_type == property_type && self.in_some_top(
                subscription,
                filter,
                namespace,
                track_name,
            ),
            None => false,
        }
        &&& !self.published.contains((subscription.id, namespace, track_name))
    }

    /// The registry once these subscriptions were told of the track.
    pub open spec fn told(
        self,
        ids: Seq<u64>,
        namespace: Seq<Seq<u8>>,
        track_name: Seq<char>,
    ) -> RegistryView {
        RegistryView {
            published: Set::new(
                |k: (u64, Seq<Seq<u8>>, Seq<char>)|
                    self.published.contains(k) || (ids.contains(k.0) && k.1 == namespace && k.2
                        == track_name),
            ),
            ..self
        }
    }
}


proof fn lemma_find_tracker(
    trackers: Seq<TrackerEntryView>,
    prefix: Seq<Seq<u8>>,
    property_type: u64,
    n: nat,
)
    requires
        n <= trackers.len(),
    ensures
        match find_tracker(trackers, prefix, property_type, n) {
            Some(i) => 0 <= i < n && trackers[i].prefix == prefix && trackers[i].property_type
                == property_type,
            None => forall|j: int|
                0 <= j < n ==> (#[trigger] trackers[j]).prefix != prefix
                    || trackers[j].property_type != property_type,
        },
    decreases n,
{
    if n > 0 {
        lemma_find_tracker(trackers, prefix, property_type, (n - 1) as nat);
    }
}

proof fn lemma_find_tracker_extends(
    trackers: Seq<TrackerEntryView>,
    prefix: Seq<Seq<u8>>,
    property_type: u64,
    m: nat,
    n: nat,
)
    requires
        m <= n <= trackers.len(),
        find_tracker(trackers, prefix, property_type, m) is Some,
    ensures
        find_tracker(trackers, prefix, property_type, n) == find_tracker(
            trackers,
            prefix,
            property_type,
            m,
        ),
    decreases n,
{
    if m < n {
        lemma_find_tracker_extends(trackers, prefix, property_type, m, (n - 1) as nat);
    }
}

proof fn lemma_find_covering_extends(
    trackers: Seq<TrackerEntryView>,
    namespace: Seq<Seq<u8>>,
    property_type: u64,
    m: nat,
    n: nat,
)
    requires
        m <= n <= trackers.len(),
        find_covering(trackers, namespace, property_type, m) is Some,
    ensures
        find_covering(trackers, namespace, property_type, n) == find_covering(
            trackers,
            namespace,
            property_type,
            m,
        ),
    decreases n,
{
    if m < n {
        lemma_find_covering_extends(trackers, namespace, property_type, m, (n - 1) as nat);
    }
}

proof fn lemma_first_filter_extends(
    subscriptions: Seq<SubscriptionView>,
    session_id: u64,
    m: nat,
    n: nat,
)
    requires
        m <= n <= subscriptions.len(),
        first_filter(subscriptions, session_id, m) is Some,
    ensures
        first_filter(subscriptions, session_id, n) == first_filter(subscriptions, session_id, m),
    decreases n,
{
    if m < n {
        lemma_first_filter_extends(subscriptions, session_id, m, (n - 1) as nat);
    }
}

proof fn lemma_without_id(subscriptions: Seq<SubscriptionView>, id: u64, n: nat)
    requires
        n <= subscriptions.len(),
        forall|i: int, j: int|
            0 <= i < j < subscriptions.len() ==> (#[trigger] subscriptions[i]).id != (
            #[trigger] subscriptions[j]).id,
    ensures
        ({
            let kept = without_id(subscriptions, id, n);
            &&& forall|i: int|
                0 <= i < kept.len() ==> exists|m: int|
                    0 <= m < n && #[trigger] subscriptions[m] == #[trigger] kept[i]
            &&& forall|i: int, j: int|
                0 <= i < j < kept.len() ==> (#[trigger] kept[i]).id != (#[trigger] kept[j]).id
        }),
    decreases n,
{
    if n > 0 {
        lemma_without_id(subscriptions, id, (n - 1) as nat);
        let before = without_id(subscriptions, id, (n - 1) as nat);
        let kept = without_id(subscriptions, id, n);
        if subscriptions[n - 1].id != id {
            assert forall|i: int| 0 <= i < kept.len() implies exists|m: int|
                0 <= m < n && #[trigger] subscriptions[m] == #[trigger] kept[i] by {
                if i < before.len() {
                    let m = choose|m: int|
                        0 <= m < n - 1 && #[trigger] subscriptions[m] == before[i];
                    assert(subscriptions[m] == kept[i]);
                } else {
                    assert(subscriptions[n - 1] == kept[i]);
                }
            }
            assert forall|i: int, j: int| 0 <= i < j < kept.len() implies (#[trigger] kept[i]).id
                != (#[trigger] kept[j]).id by {
                if j < before.len() {
                    assert(before[i].id != before[j].id);
                } else {
                    let m = choose|m: int|
                        0 <= m < n - 1 && #[trigger] subscriptions[m] == before[i];
                    assert(subscriptions[m].id != subscriptions[n - 1].id);
                }
            }
        }
    }
}

/// The contents of a list of subscriptions.
pub open spec fn subscriptions_view(subscriptions: Seq<NamespaceSubscription>) -> Seq<
    SubscriptionView,
> {
    subscriptions.map_values(|s: NamespaceSubscription| s@)
}

spec fn trackers_view(trackers: Seq<TrackerEntry>) -> Seq<TrackerEntryView> {
    trackers.map_values(|t: TrackerEntry| t@)
}

/// The set of the keys in a list.
pub open spec fn published_view(published: Seq<(u64, TrackNamespace, String)>) -> Set<
    (u64, Seq<Seq<u8>>, Seq<char>),
> {
    Set::new(
        |k: (u64, Seq<Seq<u8>>, Seq<char>)|
            exists|i: int|
                0 <= i < published.len() && (#[trigger] published[i]).0 == k.0 && published[i].1@
                    == k.1 && published[i].2@ == k.2,
    )
}

/// One more key in the list is one more key in the set.
proof fn lemma_published_push(
    published: Seq<(u64, TrackNamespace, String)>,
    key: (u64, TrackNamespace, String),
)
    ensures
        published_view(published.push(key)) == published_view(published).insert(
            (key.0, key.1@, key.2@),
        ),
{
    let after = published.push(key);
    assert forall|k: (u64, Seq<Seq<u8>>, Seq<char>)| #[trigger]
        published_view(after).contains(k) == published_view(published).insert(
            (key.0, key.1@, key.2@),
        ).contains(k) by {
        if published_view(published).contains(k) {
            let i = choose|i: int|
                0 <= i < published.len() && (#[trigger] published[i]).0 == k.0 && published[i].1@
                    == k.1 && published[i].2@ == k.2;
            assert(after[i] == published[i]);
        }
        if k == (key.0, key.1@, key.2@) {
            assert(after[published.len() as int] == key);
        }
        if published_view(after).contains(k) {
            let i = choose|i: int|
                0 <= i < after.len() && (#[trigger] after[i]).0 == k.0 && after[i].1@ == k.1
                    && after[i].2@ == k.2;
            if i < published.len() {
                assert(published[i].0 == k.0);
            }
        }
    }
    assert(published_view(after) =~= published_view(published).insert((key.0, key.1@, key.2@)));
}

/// Whether a list of ids holds this one.
fn holds_id(ids: &Vec<u64>, id: u64) -> (r: bool)
    ensures
        r == ids@.contains(id),
{
    let mut i: usize = 0;
    while i < ids.len()
        invariant
            i <= ids@.len(),
            forall|k: int| 0 <= k < i ==> ids@[k] != id,
        decreases ids@.len() - i,
    {
        if ids[i] == id {
            return true;
        }
        i += 1;
    }
    false
}

impl RegistryView {
    /// `after` is the registry with a track put into the rankings that cover it.
    pub open spec fn track_registered(
        self,
        namespace: Seq<Seq<u8>>,
        track_name: Seq<char>,
        property_type: u64,
        property_value: u64,
        publisher_session_id: u64,
        now_ms: u64,
        after: RegistryView,
    ) -> bool {
        &&& after == (RegistryView { trackers: after.trackers, ..self })
        &&& after.trackers.len() == self.trackers.len()
        &&& forall|i: int|
            0 <= i < self.trackers.len() ==> {
                let entry = #[trigger] self.trackers[i];
                let now = after.trackers[i];
                if entry.covers(namespace, property_type) {
                    &&& now == TrackerEntryView { tracker: now.tracker, ..entry }
                    &&& entry.tracker.registers(
                        namespace,
                        track_name,
                        property_value,
                        publisher_session_id,
                        now_ms,
                        now.tracker,
                    )
                } else {
                    now == entry
                }
            }
    }

    /// `after` is the registry with the value of a track changed in the rankings that cover it.
    pub open spec fn value_updated(
        self,
        namespace: Seq<Seq<u8>>,
        track_name: Seq<char>,
        property_type: u64,
        new_value: u64,
        now_ms: u64,
        after: RegistryView,
    ) -> bool {
        &&& after == (RegistryView { trackers: after.trackers, ..self })
        &&& after.trackers.len() == self.trackers.len()
        &&& forall|i: int|
            0 <= i < self.trackers.len() ==> {
                let entry = #[trigger] self.trackers[i];
                let now = after.trackers[i];
                if entry.covers(namespace, property_type) {
                    &&& now == TrackerEntryView { tracker: now.tracker, ..entry }
                    &&& entry.tracker.updates(
                        namespace,
                        track_name,
                        new_value,
                        now_ms,
                        now.tracker,
                    )
                } else {
                    now == entry
                }
            }
    }

    /// `after` is the registry with a track taken out of the rankings under whose prefix it lies.
    pub open spec fn track_removed(
        self,
        namespace: Seq<Seq<u8>>,
        track_name: Seq<char>,
        now_ms: u64,
        after: RegistryView,
    ) -> bool {
        &&& after == (RegistryView { trackers: after.trackers, ..self })
        &&& after.trackers.len() == self.trackers.len()
        &&& forall|i: int|
            0 <= i < self.trackers.len() ==> {
                let entry = #[trigger] self.trackers[i];
                let now = after.trackers[i];
                if namespace::is_under(namespace, entry.prefix) {
                    &&& now == TrackerEntryView { tracker: now.tracker, ..entry }
                    &&& entry.tracker.removes(namespace, track_name, now_ms, now.tracker)
                } else {
                    now == entry
                }
            }
    }

    /// The registry without a subscription, and without what is known of whom it was told of.
    pub open spec fn unregistered(self, id: u64) -> RegistryView {
        let known = exists|i: int|
            0 <= i < self.subscriptions.len() && (#[trigger] self.subscriptions[i]).id == id;
        if known {
            RegistryView {
                subscriptions: without_id(self.subscriptions, id, self.subscriptions.len()),
                published: self.published.filter(
                    |k: (u64, Seq<Seq<u8>>, Seq<char>)| k.0 != id,
                ),
                ..self
            }
        } else {
            self
        }
    }

    /// The subscriptions to tell of a track that is published.
    pub open spec fn publish_listeners(
        self,
        namespace: Seq<Seq<u8>>,
        track_name: Seq<char>,
        origin_session_id: u64,
        closed: Seq<u64>,
    ) -> Seq<u64> {
        ids_where(
            self.subscriptions,
            |s: SubscriptionView|
                self.wants_publish(s, namespace, track_name, origin_session_id)
                    && !closed.contains(s.id),
            self.subscriptions.len(),
        )
    }

    /// The subscriptions to tell of a track whose value has changed.
    pub open spec fn update_listeners(
        self,
        namespace: Seq<Seq<u8>>,
        track_name: Seq<char>,
        property_type: u64,
        origin_session_id: u64,
        closed: Seq<u64>,
    ) -> Seq<u64> {
        ids_where(
            self.subscriptions,
            |s: SubscriptionView|
                self.wants_update(s, namespace, track_name, property_type, origin_session_id)
                    && !closed.contains(s.id),
            self.subscriptions.len(),
        )
    }

    /// The subscriptions to tell of a namespace that is published.
    pub open spec fn namespace_listeners(
        self,
        namespace: Seq<Seq<u8>>,
        origin_session_id: u64,
        closed: Seq<u64>,
    ) -> Seq<u64> {
        ids_where(
            self.subscriptions,
            |s: SubscriptionView|
                self.hears_of(s, namespace, origin_session_id) && !closed.contains(s.id),
            self.subscriptions.len(),
        )
    }
}

/// Registry of namespace subscriptions.
pub struct SubscriberRegistry {
    subscriptions: Vec<NamespaceSubscription>,
    next_id: u64,
    trackers: Vec<TrackerEntry>,
    topn_event_logging: bool,
    tie_break_policy: TieBreakPolicy,
    /// Which subscription was told of which track.
    published: Vec<(u64, TrackNamespace, String)>,
}

impl View for SubscriberRegistry {
    type V = RegistryView;

    closed spec fn view(&self) -> RegistryView {
        RegistryView {
            subscriptions: subscriptions_view(self.subscriptions@),
            next_id: self.next_id,
            trackers: trackers_view(self.trackers@),
            topn_event_logging: self.topn_event_logging,
            tie_break_policy: self.tie_break_policy,
            published: published_view(self.published@),
        }
    }
}

impl SubscriberRegistry {
    /// The registry and its rankings are well-formed.
    pub closed spec fn wf(&self) -> bool {
        &&& self@.wf()
        &&& forall|i: int|
            0 <= i < self.trackers@.len() ==> (#[trigger] self.trackers@[i]).tracker.wf()
    }

    /// A registry without event logging, where of equal tracks the oldest wins.
    pub fn new() -> (r: Self)
        ensures
            r.wf(),
            r@ == RegistryView::fresh(false, TieBreakPolicy::OldestWins),
    {
        Self::with_config(false, TieBreakPolicy::OldestWins)
    }

    /// A registry with event logging, where of equal tracks the oldest wins.
    pub fn with_topn_logging() -> (r: Self)
        ensures
            r.wf(),
            r@ == RegistryView::fresh(true, TieBreakPolicy::OldestWins),
    {
        Self::with_config(true, TieBreakPolicy::OldestWins)
    }

    pub fn with_config(topn_event_logging: bool, tie_break_policy: TieBreakPolicy) -> (r: Self)
        ensures
            r.wf(),
            r@ == RegistryView::fresh(topn_event_logging, tie_break_policy),
    {
        let r = SubscriberRegistry {
            subscriptions: Vec::new(),
            next_id: 0,
            trackers: Vec::new(),
            topn_event_logging,
            tie_break_policy,
            published: Vec::new(),
        };
        assert(r@ =~= RegistryView::fresh(topn_event_logging, tie_break_policy));
        r
    }

    /// Turns event logging on or off, for the rankings that there are too.
    pub fn set_topn_event_logging(&mut self, enabled: bool)
        requires
            old(self).wf(),
        ensures
            final(self).wf(),
            final(self)@ == (RegistryView {
                topn_event_logging: enabled,
                trackers: old(self)@.trackers.map_values(
                    |t: TrackerEntryView| TrackerEntryView {
                        tracker: TopNTrackerView { event_logging: enabled, ..t.tracker },
                        ..t
                    },
                ),
                ..old(self)@
            }),
    {
        let ghost start = self@;
        self.topn_event_logging = enabled;
        let mut i: usize = 0;
        while i < self.trackers.len()
            invariant
                i <= self.trackers@.len(),
                self.trackers@.len() == start.trackers.len(),
                self@ == (RegistryView {
                    topn_event_logging: enabled,
                    trackers: self@.trackers,
                    ..start
                }),
                forall|k: int|
                    0 <= k < self.trackers@.len() ==> (#[trigger] self.trackers@[k]).tracker.wf(),
                forall|k: int|
                    0 <= k < i ==> (#[trigger] self.trackers@[k])@ == (TrackerEntryView {
                        tracker: TopNTrackerView {
                            event_logging: enabled,
                            ..start.trackers[k].tracker
                        },
                        ..start.trackers[k]
                    }),
                forall|k: int|
                    i <= k < self.trackers@.len() ==> (#[trigger] self.trackers@[k])@
                        == start.trackers[k],
            decreases self.trackers@.len() - i,
        {
            self.trackers[i].tracker.set_event_logging(enabled);
            i += 1;
        }
        assert(self@.trackers =~= start.trackers.map_values(
            |t: TrackerEntryView| TrackerEntryView {
                tracker: TopNTrackerView { event_logging: enabled, ..t.tracker },
                ..t
            },
        ));
        assert forall|j: int, k: int| 0 <= j < k < self@.trackers.len() implies (
        #[trigger] self@.trackers[j]).prefix != (#[trigger] self@.trackers[k]).prefix
            || self@.trackers[j].property_type != self@.trackers[k].property_type by {
            assert(start.trackers[j].prefix != start.trackers[k].prefix
                || start.trackers[j].property_type != start.trackers[k].property_type);
        }
    }

    fn position_of_tracker(&self, prefix: &TrackNamespace, property_type: u64) -> (r: Option<usize>)
        ensures
            match r {
                Some(i) => i < self.trackers@.len() && find_tracker(
                    self@.trackers,
                    prefix@,
                    property_type,
                    self@.trackers.len(),
                ) == Some(i as int),
                None => find_tracker(
                    self@.trackers,
                    prefix@,
                    property_type,
                    self@.trackers.len(),
                ) is None,
            },
    {
        let ghost trackers = self@.trackers;
        let mut i: usize = 0;
        while i < self.trackers.len()
            invariant
                i <= self.trackers@.len(),
                trackers == trackers_view(self.trackers@),
                find_tracker(trackers, prefix@, property_type, i as nat) is None,
            decreases self.trackers@.len() - i,
        {
            assert(trackers[i as int] == self.trackers@[i as int]@);
            if self.trackers[i].property_type == property_type && self.trackers[i].prefix.same_as(
                prefix,
            ) {
                proof {
                    lemma_find_tracker_extends(
                        trackers,
                        prefix@,
                        property_type,
                        (i + 1) as nat,
                        trackers.len(),
                    );
                }
                return Some(i);
            }
            i += 1;
        }
        None
    }

    /// Whether there is an id left for one more subscription.
    pub fn can_register(&self) -> (r: bool)
        ensures
            r == (self@.next_id < u64::MAX),
    {
        self.next_id < u64::MAX
    }

    /// Registers a subscription without a track filter. Returns its id.
    pub fn register(&mut self, prefix: TrackNamespace, session_id: u64, now_ms: u64) -> (id: u64)
        requires
            old(self).wf(),
            old(self)@.next_id < u64::MAX,
        ensures
            final(self).wf(),
            id == old(self)@.next_id,
            final(self)@ == (RegistryView {
                subscriptions: old(self)@.subscriptions.push(
                    SubscriptionView { id, prefix: prefix@, session_id, track_filter: None },
                ),
                next_id: (id + 1) as u64,
                ..old(self)@
            }),
    {
        self.register_with_filter(prefix, session_id, None, now_ms)
    }

    /// Registers a subscription. Returns its id. Where it has a track filter, a ranking of
    /// the tracks under its prefix is kept from now on.
    pub fn register_with_filter(
        &mut self,
        prefix: TrackNamespace,
        session_id: u64,
        track_filter: Option<TrackFilter>,
        now_ms: u64,
    ) -> (id: u64)
        requires
            old(self).wf(),
            old(self)@.next_id < u64::MAX,
        ensures
            final(self).wf(),
            id == old(self)@.next_id,
            final(self)@ == (RegistryView {
                subscriptions: old(self)@.subscriptions.push(
                    SubscriptionView { id, prefix: prefix@, session_id, track_filter },
                ),
                next_id: (id + 1) as u64,
                trackers: final(self)@.trackers,
                ..old(self)@
            }),
            match track_filter {
                Some(filter) => old(self)@.tracker_serves(
                    prefix@,
                    filter,
                    now_ms,
                    final(self)@.trackers,
                ),
                None => final(self)@.trackers == old(self)@.trackers,
            },
    {
        let ghost start = self@;
        let id: u64 = self.next_id;
        self.next_id = self.next_id + 1;
        if let Some(filter) = track_filter {
            proof {
                lemma_find_tracker(
                    start.trackers,
                    prefix@,
                    filter.property_type,
                    start.trackers.len(),
                );
            }
            let i: usize = match self.position_of_tracker(&prefix, filter.property_type) {
                Some(i) => i,
                None => {
                    let config = TopNTrackerConfig {
                        enable_event_logging: self.topn_event_logging,
                        tie_break_policy: self.tie_break_policy,
                        ..TopNTrackerConfig::default()
                    };
                    let entry = TrackerEntry {
                        prefix: prefix.clone(),
                        property_type: filter.property_type,
                        created_ms: now_ms,
                        tracker: TopNTracker::with_config(filter.property_type, config),
                    };
                    let ghost added = entry@;
                    self.trackers.push(entry);
                    assert(self@.trackers =~= start.trackers.push(added));
                    self.trackers.len() - 1
                },
            };
            let ghost trackers = self@.trackers;
            let ghost entry = trackers[i as int];
            assert(self.trackers@[i as int]@ == entry);
            if filter.max_selected > self.trackers[i].tracker.max_n() {
                self.trackers[i].tracker.update_max_n(filter.max_selected, now_ms);
            }
            assert(self@.trackers =~= trackers.update(
                i as int,
                TrackerEntryView { tracker: self@.trackers[i as int].tracker, ..entry },
            ));
            assert forall|j: int, k: int| 0 <= j < k < self@.trackers.len() implies (
            #[trigger] self@.trackers[j]).prefix != (#[trigger] self@.trackers[k]).prefix
                || self@.trackers[j].property_type != self@.trackers[k].property_type by {
                assert(self@.trackers[j].prefix == trackers[j].prefix);
                assert(self@.trackers[k].prefix == trackers[k].prefix);
                if k < start.trackers.len() {
                    assert(start.trackers[j].prefix != start.trackers[k].prefix
                        || start.trackers[j].property_type != start.trackers[k].property_type);
                } else {
                    assert(start.trackers[j].prefix != prefix@ || start.trackers[j].property_type
                        != filter.property_type);
                }
            }
        }
        let ghost trackers = self@.trackers;
        let subscription = NamespaceSubscription { id, prefix, session_id, track_filter };
        let ghost added = subscription@;
        self.subscriptions.push(subscription);
        assert(self@.subscriptions =~= start.subscriptions.push(added));
        assert forall|i: int| 0 <= i < self@.subscriptions.len() implies (
        #[trigger] self@.subscriptions[i]).id < self@.next_id by {
            if i < start.subscriptions.len() {
                assert(start.subscriptions[i].id < start.next_id);
            }
        }
        assert forall|i: int, j: int| 0 <= i < j < self@.subscriptions.len() implies (
        #[trigger] self@.subscriptions[i]).id != (#[trigger] self@.subscriptions[j]).id by {
            assert(start.subscriptions[i].id < start.next_id);
            if j < start.subscriptions.len() {
                assert(start.subscriptions[i].id != start.subscriptions[j].id);
            }
        }
        id
    }

    /// Puts a track into the rankings that cover it.
    pub fn register_track(
        &mut self,
        namespace: &TrackNamespace,
        track_name: &String,
        property_type: u64,
        property_value: u64,
        publisher_session_id: u64,
        now_ms: u64,
    )
        requires
            old(self).wf(),
        ensures
            final(self).wf(),
            old(self)@.track_registered(
                namespace@,
                track_name@,
                property_type,
                property_value,
                publisher_session_id,
                now_ms,
                final(self)@,
            ),
    {
        let ghost start = self@;
        let mut i: usize = 0;
        while i < self.trackers.len()
            invariant
                i <= self.trackers@.len(),
                self.trackers@.len() == start.trackers.len(),
                self@ == (RegistryView { trackers: self@.trackers, ..start }),
                forall|k: int|
                    0 <= k < self.trackers@.len() ==> (#[trigger] self.trackers@[k]).tracker.wf(),
                forall|k: int|
                    0 <= k < i ==> {
                        let before = #[trigger] start.trackers[k];
                        let after = self.trackers@[k]@;
                        if before.covers(namespace@, property_type) {
                            &&& after == TrackerEntryView { tracker: after.tracker, ..before }
                            &&& before.tracker.registers(
                                namespace@,
                                track_name@,
                                property_value,
                                publisher_session_id,
                                now_ms,
                                after.tracker,
                            )
                        } else {
                            after == before
                        }
                    },
                forall|k: int|
                    i <= k < self.trackers@.len() ==> (#[trigger] self.trackers@[k])@
                        == start.trackers[k],
            decreases self.trackers@.len() - i,
        {
            if self.trackers[i].property_type == property_type && namespace.has_prefix(
                &self.trackers[i].prefix,
            ) {
                self.trackers[i].tracker.register_track(
                    namespace.clone(),
                    track_name.clone(),
                    property_value,
                    publisher_session_id,
                    now_ms,
                );
            }
            i += 1;
        }
        proof {
            self.lemma_same_entries_wf(start);
        }
    }

    /// Entries that keep their prefix and property keep the registry well-formed.
    proof fn lemma_same_entries_wf(&self, start: RegistryView)
        requires
            start.wf(),
            self@ == (RegistryView { trackers: self@.trackers, ..start }),
            self@.trackers.len() == start.trackers.len(),
            forall|i: int|
                0 <= i < start.trackers.len() ==> self.trackers@[i]@.prefix == (
                #[trigger] start.trackers[i]).prefix && self.trackers@[i]@.property_type
                    == start.trackers[i].property_type,
        ensures
            self@.wf(),
    {
        assert forall|j: int, k: int| 0 <= j < k < self@.trackers.len() implies (
        #[trigger] self@.trackers[j]).prefix != (#[trigger] self@.trackers[k]).prefix
            || self@.trackers[j].property_type != self@.trackers[k].property_type by {
            assert(start.trackers[j].prefix != start.trackers[k].prefix
                || start.trackers[j].property_type != start.trackers[k].property_type);
        }
    }

    /// Takes a track out of the rankings under whose prefix it lies.
    pub fn remove_track(&mut self, namespace: &TrackNamespace, track_name: &String, now_ms: u64)
        requires
            old(self).wf(),
        ensures
            final(self).wf(),
            old(self)@.track_removed(namespace@, track_name@, now_ms, final(self)@),
    {
        let ghost start = self@;
        let mut i: usize = 0;
        while i < self.trackers.len()
            invariant
                i <= self.trackers@.len(),
                self.trackers@.len() == start.trackers.len(),
                self@ == (RegistryView { trackers: self@.trackers, ..start }),
                forall|k: int|
                    0 <= k < self.trackers@.len() ==> (#[trigger] self.trackers@[k]).tracker.wf(),
                forall|k: int|
                    0 <= k < i ==> {
                        let before = #[trigger] start.trackers[k];
                        let after = self.trackers@[k]@;
                        if namespace::is_under(namespace@, before.prefix) {
                            &&& after == TrackerEntryView { tracker: after.tracker, ..before }
                            &&& before.tracker.removes(
                                namespace@,
                                track_name@,
                                now_ms,
                                after.tracker,
                            )
                        } else {
                            after == before
                        }
                    },
                forall|k: int|
                    i <= k < self.trackers@.len() ==> (#[trigger] self.trackers@[k])@
                        == start.trackers[k],
            decreases self.trackers@.len() - i,
        {
            if namespace.has_prefix(&self.trackers[i].prefix) {
                self.trackers[i].tracker.remove_track(namespace, track_name, now_ms);
            }
            i += 1;
        }
        proof {
            self.lemma_same_entries_wf(start);
        }
    }
}


impl SubscriberRegistry {
    /// Whether the subscription was told of the track.
    fn is_published(&self, id: u64, namespace: &TrackNamespace, track_name: &String) -> (r: bool)
        ensures
            r == self@.published.contains((id, namespace@, track_name@)),
    {
        let mut i: usize = 0;
        while i < self.published.len()
            invariant
                i <= self.published@.len(),
                forall|k: int|
                    0 <= k < i ==> !((#[trigger] self.published@[k]).0 == id
                        && self.published@[k].1@ == namespace@ && self.published@[k].2@
                        == track_name@),
            decreases self.published@.len() - i,
        {
            let key = &self.published[i];
            if key.0 == id && key.1.same_as(namespace) && key.2 == *track_name {
                return true;
            }
            i += 1;
        }
        false
    }

    /// Notes that these subscriptions were told of the track.
    fn note_told(&mut self, ids: &Vec<u64>, namespace: &TrackNamespace, track_name: &String)
        requires
            old(self).wf(),
        ensures
            final(self).wf(),
            final(self)@ == old(self)@.told(ids@, namespace@, track_name@),
    {
        let ghost start = self@;
        let mut i: usize = 0;
        assert(self@ =~= start.told(ids@.subrange(0, 0), namespace@, track_name@));
        while i < ids.len()
            invariant
                i <= ids@.len(),
                self@ == start.told(ids@.subrange(0, i as int), namespace@, track_name@),
                start.wf(),
                forall|k: int|
                    0 <= k < self.trackers@.len() ==> (#[trigger] self.trackers@[k]).tracker.wf(),
            decreases ids@.len() - i,
        {
            let key = (ids[i], namespace.clone(), track_name.clone());
            let ghost before = self@;
            let ghost some = ids@.subrange(0, i as int);
            let ghost more = ids@.subrange(0, i + 1);
            proof {
                lemma_published_push(self.published@, key);
                assert(more =~= some.push(ids@[i as int]));
                assert forall|id: u64| #[trigger]
                    more.contains(id) <==> some.contains(id) || id == ids@[i as int] by {
                    if some.contains(id) {
                        let q = choose|q: int| 0 <= q < some.len() && some[q] == id;
                        assert(more[q] == id);
                    }
                    assert(more[i as int] == ids@[i as int]);
                }
            }
            self.published.push(key);
            i += 1;
            assert(self@.published =~= start.told(more, namespace@, track_name@).published);
        }
        assert(ids@.subrange(0, i as int) =~= ids@);
    }

    fn in_own_top(
        &self,
        subscription: &NamespaceSubscription,
        filter: &TrackFilter,
        namespace: &TrackNamespace,
        track_name: &String,
    ) -> (r: bool)
        ensures
            r == self@.in_own_top(subscription@, *filter, namespace@, track_name@),
    {
        match self.position_of_tracker(&subscription.prefix, filter.property_type) {
            Some(i) => {
                assert(self@.trackers[i as int] == self.trackers@[i as int]@);
                self.trackers[i].tracker.is_in_top_n(
                    namespace,
                    track_name,
                    subscription.session_id,
                    filter.max_selected,
                )
            },
            None => false,
        }
    }

    fn in_some_top(
        &self,
        subscription: &NamespaceSubscription,
        filter: &TrackFilter,
        namespace: &TrackNamespace,
        track_name: &String,
    ) -> (r: bool)
        ensures
            r == self@.in_some_top(subscription@, *filter, namespace@, track_name@),
    {
        let ghost trackers = self@.trackers;
        let mut i: usize = 0;
        while i < self.trackers.len()
            invariant
                i <= self.trackers@.len(),
                trackers == trackers_view(self.trackers@),
                forall|k: int|
                    0 <= k < i ==> !((#[trigger] trackers[k]).covers(
                        namespace@,
                        filter.property_type,
                    ) && top_n_tracker::within_top(
                        trackers[k].tracker.snapshot,
                        namespace@,
                        track_name@,
                        subscription.session_id,
                        filter.max_selected as nat,
                    )),
            decreases self.trackers@.len() - i,
        {
            assert(trackers[i as int] == self.trackers@[i as int]@);
            if self.trackers[i].property_type == filter.property_type && namespace.has_prefix(
                &self.trackers[i].prefix,
            ) && self.trackers[i].tracker.is_in_top_n(
                namespace,
                track_name,
                subscription.session_id,
                filter.max_selected,
            ) {
                return true;
            }
            i += 1;
        }
        false
    }

    /// Changes the value of a track in the rankings that cover it. Returns the subscriptions
    /// to tell of the track, now that it is in their top N: those that were not told of it
    /// before, that are not of the session it came from, and that are not in `closed`.
    pub fn update_track_value(
        &mut self,
        namespace: &TrackNamespace,
        track_name: &String,
        property_type: u64,
        new_value: u64,
        origin_session_id: u64,
        closed: &Vec<u64>,
        now_ms: u64,
    ) -> (ids: Vec<u64>)
        requires
            old(self).wf(),
        ensures
            final(self).wf(),
            ({
                let updated = RegistryView { trackers: final(self)@.trackers, ..old(self)@ };
                &&& old(self)@.value_updated(
                    namespace@,
                    track_name@,
                    property_type,
                    new_value,
                    now_ms,
                    updated,
                )
                &&& ids@ == updated.update_listeners(
                    namespace@,
                    track_name@,
                    property_type,
                    origin_session_id,
                    closed@,
                )
                &&& final(self)@ == updated.told(ids@, namespace@, track_name@)
            }),
    {
        let ghost start = self@;
        let mut i: usize = 0;
        while i < self.trackers.len()
            invariant
                i <= self.trackers@.len(),
                self.trackers@.len() == start.trackers.len(),
                self@ == (RegistryView { trackers: self@.trackers, ..start }),
                forall|k: int|
                    0 <= k < self.trackers@.len() ==> (#[trigger] self.trackers@[k]).tracker.wf(),
                forall|k: int|
                    0 <= k < i ==> {
                        let before = #[trigger] start.trackers[k];
                        let after = self.trackers@[k]@;
                        if before.covers(namespace@, property_type) {
                            &&& after == TrackerEntryView { tracker: after.tracker, ..before }
                            &&& before.tracker.updates(
                                namespace@,
                                track_name@,
                                new_value,
                                now_ms,
                                after.tracker,
                            )
                        } else {
                            after == before
                        }
                    },
                forall|k: int|
                    i <= k < self.trackers@.len() ==> (#[trigger] self.trackers@[k])@
                        == start.trackers[k],
            decreases self.trackers@.len() - i,
        {
            if self.trackers[i].property_type == property_type && namespace.has_prefix(
                &self.trackers[i].prefix,
            ) {
                self.trackers[i].tracker.update_value(namespace, track_name, new_value, now_ms);
            }
            i += 1;
        }
        proof {
            self.lemma_same_entries_wf(start);
        }
        let ghost updated = self@;
        let ghost wanted = |s: SubscriptionView|
            updated.wants_update(s, namespace@, track_name@, property_type, origin_session_id)
                && !closed@.contains(s.id);
        let mut ids: Vec<u64> = Vec::new();
        let mut k: usize = 0;
        while k < self.subscriptions.len()
            invariant
                k <= self.subscriptions@.len(),
                updated == self@,
                wanted == (|s: SubscriptionView|
                    updated.wants_update(
                        s,
                        namespace@,
                        track_name@,
                        property_type,
                        origin_session_id,
                    ) && !closed@.contains(s.id)),
                ids@ == ids_where(updated.subscriptions, wanted, k as nat),
            decreases self.subscriptions@.len() - k,
        {
            let sub = &self.subscriptions[k];
            assert(updated.subscriptions[k as int] == sub@);
            let wants = match sub.track_filter {
                Some(filter) => sub.session_id != origin_session_id && namespace.has_prefix(
                    &sub.prefix,
                ) && filter.property_type == property_type && self.in_some_top(
                    sub,
                    &filter,
                    namespace,
                    track_name,
                ) && !self.is_published(sub.id, namespace, track_name),
                None => false,
            };
            if wants && !holds_id(closed, sub.id) {
                ids.push(sub.id);
            }
            k += 1;
        }
        self.note_told(&ids, namespace, track_name);
        ids
    }

    /// Whether a track is in the top N for a session, in the first ranking that covers it.
    pub fn is_track_in_top_n(
        &self,
        namespace: &TrackNamespace,
        track_name: &String,
        session_id: u64,
        property_type: u64,
        max_n: u8,
    ) -> (r: bool)
        ensures
            r == match find_covering(
                self@.trackers,
                namespace@,
                property_type,
                self@.trackers.len(),
            ) {
                Some(i) => top_n_tracker::within_top(
                    self@.trackers[i].tracker.snapshot,
                    namespace@,
                    track_name@,
                    session_id,
                    max_n as nat,
                ),
                None => false,
            },
    {
        let ghost trackers = self@.trackers;
        let mut i: usize = 0;
        while i < self.trackers.len()
            invariant
                i <= self.trackers@.len(),
                trackers == self@.trackers,
                trackers == trackers_view(self.trackers@),
                find_covering(trackers, namespace@, property_type, i as nat) is None,
            decreases self.trackers@.len() - i,
        {
            assert(trackers[i as int] == self.trackers@[i as int]@);
            if self.trackers[i].property_type == property_type && namespace.has_prefix(
                &self.trackers[i].prefix,
            ) {
                proof {
                    lemma_find_covering_extends(
                        trackers,
                        namespace@,
                        property_type,
                        (i + 1) as nat,
                        trackers.len(),
                    );
                }
                return self.trackers[i].tracker.is_in_top_n(
                    namespace,
                    track_name,
                    session_id,
                    max_n,
                );
            }
            i += 1;
        }
        false
    }

    /// The track filter of the session's first subscription that has one.
    pub fn get_track_filter_for_session(&self, session_id: u64) -> (r: Option<TrackFilter>)
        ensures
            r == first_filter(self@.subscriptions, session_id, self@.subscriptions.len()),
    {
        let ghost subscriptions = self@.subscriptions;
        let mut i: usize = 0;
        while i < self.subscriptions.len()
            invariant
                i <= self.subscriptions@.len(),
                subscriptions == self@.subscriptions,
                subscriptions == subscriptions_view(self.subscriptions@),
                first_filter(subscriptions, session_id, i as nat) is None,
            decreases self.subscriptions@.len() - i,
        {
            let sub = &self.subscriptions[i];
            assert(subscriptions[i as int] == sub@);
            if sub.session_id == session_id {
                if let Some(filter) = sub.track_filter {
                    proof {
                        lemma_first_filter_extends(
                            subscriptions,
                            session_id,
                            (i + 1) as nat,
                            subscriptions.len(),
                        );
                    }
                    return Some(filter);
                }
            }
            i += 1;
        }
        None
    }

    /// Unregisters a subscription. What it was told of is forgotten with it.
    pub fn unregister(&mut self, id: u64)
        requires
            old(self).wf(),
        ensures
            final(self).wf(),
            final(self)@ == old(self)@.unregistered(id),
    {
        let ghost start = self@;
        let mut kept: Vec<NamespaceSubscription> = Vec::new();
        let mut found = false;
        let mut i: usize = 0;
        assert(subscriptions_view(kept@) =~= Seq::empty());
        while i < self.subscriptions.len()
            invariant
                i <= self.subscriptions@.len(),
                self@ == start,
                start.subscriptions == subscriptions_view(self.subscriptions@),
                found == exists|k: int|
                    0 <= k < i && (#[trigger] start.subscriptions[k]).id == id,
                subscriptions_view(kept@) == without_id(start.subscriptions, id, i as nat),
            decreases self.subscriptions@.len() - i,
        {
            let sub = &self.subscriptions[i];
            assert(start.subscriptions[i as int] == sub@);
            if sub.id == id {
                found = true;
            } else {
                let ghost so_far = subscriptions_view(kept@);
                let copy = NamespaceSubscription {
                    id: sub.id,
                    prefix: sub.prefix.clone(),
                    session_id: sub.session_id,
                    track_filter: sub.track_filter,
                };
                kept.push(copy);
                assert(subscriptions_view(kept@) =~= so_far.push(sub@));
            }
            i += 1;
        }
        if !found {
            return;
        }
        self.subscriptions = kept;
        proof {
            lemma_without_id(start.subscriptions, id, start.subscriptions.len());
        }
        self.forget(id);
        proof {
            let kept = self@.subscriptions;
            assert forall|k: int| 0 <= k < kept.len() implies (#[trigger] kept[k]).id
                < start.next_id by {
                let m = choose|m: int|
                    0 <= m < start.subscriptions.len() && #[trigger] start.subscriptions[m]
                        == kept[k];
                assert(start.subscriptions[m].id < start.next_id);
            }
        }
    }

    /// Forgets what a subscription was told of.
    fn forget(&mut self, id: u64)
        ensures
            final(self)@ == (RegistryView {
                published: old(self)@.published.filter(
                    |k: (u64, Seq<Seq<u8>>, Seq<char>)| k.0 != id,
                ),
                ..old(self)@
            }),
            final(self).trackers == old(self).trackers,
    {
        let ghost start = self@;
        let ghost known = self.published@;
        let ghost other = |k: (u64, Seq<Seq<u8>>, Seq<char>)| k.0 != id;
        let mut kept: Vec<(u64, TrackNamespace, String)> = Vec::new();
        let mut i: usize = 0;
        assert(published_view(kept@) =~= published_view(known.subrange(0, 0)).filter(other));
        while i < self.published.len()
            invariant
                i <= self.published@.len(),
                known == self.published@,
                other == (|k: (u64, Seq<Seq<u8>>, Seq<char>)| k.0 != id),
                published_view(kept@) == published_view(known.subrange(0, i as int)).filter(other),
            decreases self.published@.len() - i,
        {
            let key = &self.published[i];
            proof {
                lemma_published_push(known.subrange(0, i as int), known[i as int]);
                assert(known.subrange(0, i + 1) =~= known.subrange(0, i as int).push(
                    known[i as int],
                ));
            }
            if key.0 != id {
                let copy = (key.0, key.1.clone(), key.2.clone());
                proof {
                    lemma_published_push(kept@, copy);
                }
                kept.push(copy);
            }
            i += 1;
            assert(published_view(kept@) =~= published_view(known.subrange(0, i as int)).filter(
                other,
            ));
        }
        assert(known.subrange(0, i as int) =~= known);
        self.published = kept;
        assert(self@.published == start.published.filter(other));
    }

    /// Returns the subscriptions to tell of a track that is published: those that cover its
    /// namespace, that have it in their top N if they have a filter, that were not told of
    /// it before, that are not of the session it came from, and that are not in `closed`.
    pub fn notify_publish(
        &mut self,
        namespace: &TrackNamespace,
        track_name: &String,
        origin_session_id: u64,
        closed: &Vec<u64>,
    ) -> (ids: Vec<u64>)
        requires
            old(self).wf(),
        ensures
            final(self).wf(),
            ids@ == old(self)@.publish_listeners(
                namespace@,
                track_name@,
                origin_session_id,
                closed@,
            ),
            final(self)@ == old(self)@.told(ids@, namespace@, track_name@),
    {
        let ghost start = self@;
        let ghost wanted = |s: SubscriptionView|
            start.wants_publish(s, namespace@, track_name@, origin_session_id) && !closed@.contains(
                s.id,
            );
        let mut ids: Vec<u64> = Vec::new();
        let mut k: usize = 0;
        while k < self.subscriptions.len()
            invariant
                k <= self.subscriptions@.len(),
                start == self@,
                wanted == (|s: SubscriptionView|
                    start.wants_publish(s, namespace@, track_name@, origin_session_id)
                        && !closed@.contains(s.id)),
                ids@ == ids_where(start.subscriptions, wanted, k as nat),
            decreases self.subscriptions@.len() - k,
        {
            let sub = &self.subscriptions[k];
            assert(start.subscriptions[k as int] == sub@);
            let in_top = match sub.track_filter {
                Some(filter) => self.in_own_top(sub, &filter, namespace, track_name),
                None => true,
            };
            if sub.session_id != origin_session_id && namespace.has_prefix(&sub.prefix) && in_top
                && !self.is_published(sub.id, namespace, track_name) && !holds_id(closed, sub.id) {
                ids.push(sub.id);
            }
            k += 1;
        }
        self.note_told(&ids, namespace, track_name);
        ids
    }

    /// Returns the subscriptions to tell of a namespace that is published: those that cover
    /// it, that are not of the session it came from, and that are not in `closed`.
    pub fn notify_publish_namespace(
        &self,
        namespace: &TrackNamespace,
        origin_session_id: u64,
        closed: &Vec<u64>,
    ) -> (ids: Vec<u64>)
        ensures
            ids@ == self@.namespace_listeners(namespace@, origin_session_id, closed@),
    {
        let ghost start = self@;
        let ghost wanted = |s: SubscriptionView|
            self@.hears_of(s, namespace@, origin_session_id) && !closed@.contains(s.id);
        let mut ids: Vec<u64> = Vec::new();
        let mut k: usize = 0;
        while k < self.subscriptions.len()
            invariant
                k <= self.subscriptions@.len(),
                start == self@,
                wanted == (|s: SubscriptionView|
                    self@.hears_of(s, namespace@, origin_session_id) && !closed@.contains(s.id)),
                ids@ == ids_where(start.subscriptions, wanted, k as nat),
            decreases self.subscriptions@.len() - k,
        {
            let sub = &self.subscriptions[k];
            assert(start.subscriptions[k as int] == sub@);
            if sub.session_id != origin_session_id && namespace.has_prefix(&sub.prefix)
                && !holds_id(closed, sub.id) {
                ids.push(sub.id);
            }
            k += 1;
        }
        ids
    }

    /// Whether `namespace` lies under `prefix`.
    pub fn prefix_matches(prefix: &TrackNamespace, namespace: &TrackNamespace) -> (r: bool)
        ensures
            r == namespace::is_under(namespace@, prefix@),
    {
        namespace.has_prefix(prefix)
    }

    /// The subscriptions that cover a namespace.
    pub fn matching_subscriptions(&self, namespace: &TrackNamespace) -> (ids: Vec<u64>)
        ensures
            ids@ == ids_where(
                self@.subscriptions,
                |s: SubscriptionView| namespace::is_under(namespace@, s.prefix),
                self@.subscriptions.len(),
            ),
    {
        let ghost start = self@;
        let ghost wanted = |s: SubscriptionView| namespace::is_under(namespace@, s.prefix);
        let mut ids: Vec<u64> = Vec::new();
        let mut k: usize = 0;
        while k < self.subscriptions.len()
            invariant
                k <= self.subscriptions@.len(),
                start == self@,
                wanted == (|s: SubscriptionView| namespace::is_under(namespace@, s.prefix)),
                ids@ == ids_where(start.subscriptions, wanted, k as nat),
            decreases self.subscriptions@.len() - k,
        {
            let sub = &self.subscriptions[k];
            assert(start.subscriptions[k as int] == sub@);
            if namespace.has_prefix(&sub.prefix) {
                ids.push(sub.id);
            }
            k += 1;
        }
        ids
    }
}

impl Default for SubscriberRegistry {
    fn default() -> (r: Self)
        ensures
            r.wf(),
            r@ == RegistryView::fresh(false, TieBreakPolicy::OldestWins),
    {
        Self::new()
    }
}

/// What happens to a track in one of the rankings.
#[derive(Clone, Copy, Debug, PartialEq, Eq, Structural)]
pub struct RankingEvent {
    pub event: TrackEvent,
    /// When the ranking was first asked for.
    pub created_ms: u64,
}

/// What happens in the first `n` rankings, where `told` gives what happens in each.
pub open spec fn events_in(
    trackers: Seq<TrackerEntryView>,
    told: spec_fn(TrackerEntryView) -> Option<TrackEvent>,
    n: nat,
) -> Seq<RankingEvent>
    decreases n,
{
    if n == 0 {
        Seq::empty()
    } else {
        let before = events_in(trackers, told, (n - 1) as nat);
        match told(trackers[n - 1]) {
            Some(event) => before.push(
                RankingEvent { event, created_ms: trackers[n - 1].created_ms },
            ),
            None => before,
        }
    }
}

impl RegistryView {
    /// What is told of a track that is registered, in each ranking that covers it.
    pub open spec fn registration_events(
        self,
        namespace: Seq<Seq<u8>>,
        track_name: Seq<char>,
        property_type: u64,
        property_value: u64,
        publisher_session_id: u64,
    ) -> Seq<RankingEvent> {
        events_in(
            self.trackers,
            |t: TrackerEntryView|
                if t.covers(namespace, property_type) {
                    t.tracker.registration(
                        namespace,
                        track_name,
                        property_value,
                        publisher_session_id,
                    )
                } else {
                    None
                },
            self.trackers.len(),
        )
    }

    /// What is told of a new value of a track, in each ranking that covers it.
    pub open spec fn update_events(
        self,
        namespace: Seq<Seq<u8>>,
        track_name: Seq<char>,
        property_type: u64,
        new_value: u64,
    ) -> Seq<RankingEvent> {
        events_in(
            self.trackers,
            |t: TrackerEntryView|
                if t.covers(namespace, property_type) {
                    t.tracker.value_change(namespace, track_name, new_value)
                } else {
                    None
                },
            self.trackers.len(),
        )
    }

    /// What is told of a track that is removed, in each ranking under whose prefix it lies.
    pub open spec fn removal_events(self, namespace: Seq<Seq<u8>>, track_name: Seq<char>) -> Seq<
        RankingEvent,
    > {
        events_in(
            self.trackers,
            |t: TrackerEntryView|
                if namespace::is_under(namespace, t.prefix) {
                    t.tracker.removal(namespace, track_name)
                } else {
                    None
                },
            self.trackers.len(),
        )
    }
}

impl SubscriberRegistry {
    /// What is told of a track that is going to be registered.
    pub fn registration_events(
        &self,
        namespace: &TrackNamespace,
        track_name: &String,
        property_type: u64,
        property_value: u64,
        publisher_session_id: u64,
    ) -> (r: Vec<RankingEvent>)
        ensures
            r@ == self@.registration_events(
                namespace@,
                track_name@,
                property_type,
                property_value,
                publisher_session_id,
            ),
    {
        let ghost trackers = self@.trackers;
        let ghost told = |t: TrackerEntryView|
            if t.covers(namespace@, property_type) {
                t.tracker.registration(
                    namespace@,
                    track_name@,
                    property_value,
                    publisher_session_id,
                )
            } else {
                None
            };
        let mut out: Vec<RankingEvent> = Vec::new();
        let mut i: usize = 0;
        while i < self.trackers.len()
            invariant
                i <= self.trackers@.len(),
                trackers == trackers_view(self.trackers@),
                told == (|t: TrackerEntryView|
                    if t.covers(namespace@, property_type) {
                        t.tracker.registration(
                            namespace@,
                            track_name@,
                            property_value,
                            publisher_session_id,
                        )
                    } else {
                        None
                    }),
                out@ == events_in(trackers, told, i as nat),
            decreases self.trackers@.len() - i,
        {
            let entry = &self.trackers[i];
            assert(trackers[i as int] == entry@);
            if entry.property_type == property_type && namespace.has_prefix(&entry.prefix) {
                if let Some(event) = entry.tracker.registration_event(
                    namespace,
                    track_name,
                    property_value,
                    publisher_session_id,
                ) {
                    out.push(RankingEvent { event, created_ms: entry.created_ms });
                }
            }
            i += 1;
        }
        out
    }

    /// What is told of a track that is going to have another value.
    pub fn update_events(
        &self,
        namespace: &TrackNamespace,
        track_name: &String,
        property_type: u64,
        new_value: u64,
    ) -> (r: Vec<RankingEvent>)
        ensures
            r@ == self@.update_events(namespace@, track_name@, property_type, new_value),
    {
        let ghost trackers = self@.trackers;
        let ghost told = |t: TrackerEntryView|
            if t.covers(namespace@, property_type) {
                t.tracker.value_change(namespace@, track_name@, new_value)
            } else {
                None
            };
        let mut out: Vec<RankingEvent> = Vec::new();
        let mut i: usize = 0;
        while i < self.trackers.len()
            invariant
                i <= self.trackers@.len(),
                trackers == trackers_view(self.trackers@),
                told == (|t: TrackerEntryView|
                    if t.covers(namespace@, property_type) {
                        t.tracker.value_change(namespace@, track_name@, new_value)
                    } else {
                        None
                    }),
                out@ == events_in(trackers, told, i as nat),
            decreases self.trackers@.len() - i,
        {
            let entry = &self.trackers[i];
            assert(trackers[i as int] == entry@);
            if entry.property_type == property_type && namespace.has_prefix(&entry.prefix) {
                if let Some(event) = entry.tracker.update_event(namespace, track_name, new_value) {
                    out.push(RankingEvent { event, created_ms: entry.created_ms });
                }
            }
            i += 1;
        }
        out
    }

    /// What is told of a track that is going to be removed.
    pub fn removal_events(&self, namespace: &TrackNamespace, track_name: &String) -> (r: Vec<
        RankingEvent,
    >)
        ensures
            r@ == self@.removal_events(namespace@, track_name@),
    {
        let ghost trackers = self@.trackers;
        let ghost told = |t: TrackerEntryView|
            if namespace::is_under(namespace@, t.prefix) {
                t.tracker.removal(namespace@, track_name@)
            } else {
                None
            };
        let mut out: Vec<RankingEvent> = Vec::new();
        let mut i: usize = 0;
        while i < self.trackers.len()
            invariant
                i <= self.trackers@.len(),
                trackers == trackers_view(self.trackers@),
                told == (|t: TrackerEntryView|
                    if namespace::is_under(namespace@, t.prefix) {
                        t.tracker.removal(namespace@, track_name@)
                    } else {
                        None
                    }),
                out@ == events_in(trackers, told, i as nat),
            decreases self.trackers@.len() - i,
        {
            let entry = &self.trackers[i];
            assert(trackers[i as int] == entry@);
            if namespace.has_prefix(&entry.prefix) {
                if let Some(event) = entry.tracker.removal_event(namespace, track_name) {
                    out.push(RankingEvent { event, created_ms: entry.created_ms });
                }
            }
            i += 1;
        }
        out
    }
}

proof fn lemma_ids_where(
    subscriptions: Seq<SubscriptionView>,
    wanted: spec_fn(SubscriptionView) -> bool,
    id: u64,
    n: nat,
)
    requires
        n <= subscriptions.len(),
    ensures
        ids_where(subscriptions, wanted, n).contains(id) <==> exists|i: int|
            0 <= i < n && (#[trigger] subscriptions[i]).id == id && wanted(subscriptions[i]),
    decreases n,
{
    if n > 0 {
        lemma_ids_where(subscriptions, wanted, id, (n - 1) as nat);
        let before = ids_where(subscriptions, wanted, (n - 1) as nat);
        let after = ids_where(subscriptions, wanted, n);
        if after.contains(id) {
            let q = choose|q: int| 0 <= q < after.len() && after[q] == id;
            if q < before.len() {
                assert(before[q] == id);
                assert(before.contains(id));
                let i = choose|i: int|
                    0 <= i < n - 1 && (#[trigger] subscriptions[i]).id == id && wanted(
                        subscriptions[i],
                    );
                assert(subscriptions[i].id == id);
            } else {
                assert(subscriptions[n - 1].id == id);
            }
        }
        if exists|i: int|
            0 <= i < n && (#[trigger] subscriptions[i]).id == id && wanted(subscriptions[i]) {
            let i = choose|i: int|
                0 <= i < n && (#[trigger] subscriptions[i]).id == id && wanted(subscriptions[i]);
            if i < n - 1 {
                assert(before.contains(id));
                let q = choose|q: int| 0 <= q < before.len() && before[q] == id;
                assert(after[q] == id);
            } else {
                assert(after[before.len() as int] == id);
            }
        }
    }
}

/// A subscription is told of a track once: a subscription that was told of it wants neither
/// its publication nor a change of its value.
pub proof fn law_told_once(
    registry: RegistryView,
    ids: Seq<u64>,
    subscription: SubscriptionView,
    namespace: Seq<Seq<u8>>,
    track_name: Seq<char>,
    property_type: u64,
    origin_session_id: u64,
)
    requires
        ids.contains(subscription.id),
    ensures
        !registry.told(ids, namespace, track_name).wants_publish(
            subscription,
            namespace,
            track_name,
            origin_session_id,
        ),
        !registry.told(ids, namespace, track_name).wants_update(
            subscription,
            namespace,
            track_name,
            property_type,
            origin_session_id,
        ),
{
}

/// The subscription with this id is of another session than `origin_session_id` and covers the
/// namespace.
pub open spec fn told_elsewhere(
    registry: RegistryView,
    namespace: Seq<Seq<u8>>,
    origin_session_id: u64,
    id: u64,
) -> bool {
    exists|i: int|
        0 <= i < registry.subscriptions.len() && (#[trigger] registry.subscriptions[i]).id == id
            && registry.subscriptions[i].session_id != origin_session_id && namespace::is_under(
            namespace,
            registry.subscriptions[i].prefix,
        )
}

/// No session is told of what it publishes itself, be it a track, a value or a namespace: the
/// subscriptions to tell are all of other sessions, and cover the namespace.
pub proof fn law_origin_is_not_told(
    registry: RegistryView,
    namespace: Seq<Seq<u8>>,
    track_name: Seq<char>,
    property_type: u64,
    origin_session_id: u64,
    closed: Seq<u64>,
    id: u64,
)
    ensures
        registry.publish_listeners(namespace, track_name, origin_session_id, closed).contains(id)
            ==> told_elsewhere(registry, namespace, origin_session_id, id),
        registry.update_listeners(
            namespace,
            track_name,
            property_type,
            origin_session_id,
            closed,
        ).contains(id) ==> told_elsewhere(registry, namespace, origin_session_id, id),
        registry.namespace_listeners(namespace, origin_session_id, closed).contains(id)
            ==> told_elsewhere(registry, namespace, origin_session_id, id),
{
    let subscriptions = registry.subscriptions;
    let on_publish = |s: SubscriptionView|
        registry.wants_publish(s, namespace, track_name, origin_session_id) && !closed.contains(
            s.id,
        );
    let on_update = |s: SubscriptionView|
        registry.wants_update(s, namespace, track_name, property_type, origin_session_id)
            && !closed.contains(s.id);
    let on_namespace = |s: SubscriptionView|
        registry.hears_of(s, namespace, origin_session_id) && !closed.contains(s.id);
    if ids_where(subscriptions, on_publish, subscriptions.len()).contains(id) {
        lemma_ids_where(subscriptions, on_publish, id, subscriptions.len());
    }
    if ids_where(subscriptions, on_update, subscriptions.len()).contains(id) {
        lemma_ids_where(subscriptions, on_update, id, subscriptions.len());
    }
    if ids_where(subscriptions, on_namespace, subscriptions.len()).contains(id) {
        lemma_ids_where(subscriptions, on_namespace, id, subscriptions.len());
    }
}

/// Every registry gives out each identifier once, and has one ranking for a prefix and a property.
pub proof fn law_registry_is_consistent(registry: SubscriberRegistry)
    requires
        registry.wf(),
    ensures
        registry@.wf(),
{
}

/// A new value of a track reaches every ranking by that property whose prefix begins the namespace
/// of the track, and that holds the track: it holds the new value then, with its time, and the other
/// tracks as they were. The other rankings stay as they are, and so do the subscriptions.
pub proof fn law_new_value_reaches_every_ranking(
    before: RegistryView,
    namespace: Seq<Seq<u8>>,
    track_name: Seq<char>,
    property_type: u64,
    new_value: u64,
    now_ms: u64,
    after: RegistryView,
    i: int,
    k: int,
)
    requires
        before.value_updated(namespace, track_name, property_type, new_value, now_ms, after),
        0 <= i < before.trackers.len(),
        0 <= k < before.trackers[i].tracker.tracks.len(),
        before.trackers[i].tracker.tracks[k].namespace == namespace,
        before.trackers[i].tracker.tracks[k].track_name == track_name,
        forall|j: int|
            0 <= j < before.trackers[i].tracker.tracks.len() && (
            #[trigger] before.trackers[i].tracker.tracks[j]).namespace == namespace
                && before.trackers[i].tracker.tracks[j].track_name == track_name ==> j == k,
    ensures
        ({
            let entry = before.trackers[i];
            let now = after.trackers[i];
            let ranked = entry.property_type == property_type && entry.prefix.is_prefix_of(
                namespace,
            );
            &&& ranked ==> {
                &&& now.tracker.tracks.len() == entry.tracker.tracks.len()
                &&& now.tracker.tracks[k].property_value == new_value
                &&& now.tracker.tracks[k].last_update_ms == now_ms
                &&& now.tracker.tracks[k].publisher_session_id
                    == entry.tracker.tracks[k].publisher_session_id
                &&& forall|j: int|
                    0 <= j < entry.tracker.tracks.len() && j != k
                        ==> #[trigger] now.tracker.tracks[j] == entry.tracker.tracks[j]
                &&& entry.tracker.tracks[k].property_value != new_value
                    ==> top_n_tracker::is_snapshot(
                    now.tracker.tracks,
                    entry.tracker.config,
                    entry.tracker.max_n,
                    top_n_tracker::max_x_of(now.tracker.tracks),
                    now_ms,
                    now.tracker.snapshot,
                )
            }
            &&& !ranked ==> now == entry
            &&& now.prefix == entry.prefix
            &&& now.property_type == entry.property_type
            &&& after.trackers.len() == before.trackers.len()
            &&& after.subscriptions == before.subscriptions
            &&& after.published == before.published
            &&& after.next_id == before.next_id
        }),
{
    let entry = before.trackers[i];
    if entry.covers(namespace, property_type) {
        top_n_tracker::law_new_value_is_held(
            entry.tracker,
            namespace,
            track_name,
            new_value,
            now_ms,
            after.trackers[i].tracker,
            k,
        );
    }
}

/// A track that is registered reaches every ranking by that property whose prefix begins its
/// namespace, and no other ranking.
pub proof fn law_registered_track_reaches_every_ranking(
    before: RegistryView,
    namespace: Seq<Seq<u8>>,
    track_name: Seq<char>,
    property_type: u64,
    property_value: u64,
    publisher_session_id: u64,
    now_ms: u64,
    after: RegistryView,
    i: int,
)
    requires
        before.track_registered(
            namespace,
            track_name,
            property_type,
            property_value,
            publisher_session_id,
            now_ms,
            after,
        ),
        0 <= i < before.trackers.len(),
    ensures
        ({
            let entry = before.trackers[i];
            let now = after.trackers[i];
            let ranked = entry.property_type == property_type && entry.prefix.is_prefix_of(
                namespace,
            );
            let held = exists|j: int|
                0 <= j < entry.tracker.tracks.len() && (
                #[trigger] entry.tracker.tracks[j]).namespace == namespace
                    && entry.tracker.tracks[j].track_name == track_name;
            &&& ranked && !held ==> {
                let last = now.tracker.tracks.last();
                &&& now.tracker.tracks.len() == entry.tracker.tracks.len() + 1
                &&& now.tracker.tracks.drop_last() == entry.tracker.tracks
                &&& last.namespace == namespace
                &&& last.track_name == track_name
                &&& last.property_value == property_value
                &&& last.publisher_session_id == publisher_session_id
                &&& last.last_update_ms == now_ms
                &&& top_n_tracker::is_snapshot(
                    now.tracker.tracks,
                    entry.tracker.config,
                    entry.tracker.max_n,
                    top_n_tracker::max_x_of(now.tracker.tracks),
                    now_ms,
                    now.tracker.snapshot,
                )
            }
            &&& held ==> now.tracker.tracks == entry.tracker.tracks && now.tracker.snapshot
                == entry.tracker.snapshot
            &&& !ranked ==> now == entry
            &&& now.prefix == entry.prefix
            &&& now.property_type == entry.property_type
            &&& after.trackers.len() == before.trackers.len()
            &&& after.subscriptions == before.subscriptions
            &&& after.published == before.published
        }),
{
    let entry = before.trackers[i];
    if entry.covers(namespace, property_type) {
        top_n_tracker::law_registered_track_is_held(
            entry.tracker,
            namespace,
            track_name,
            property_value,
            publisher_session_id,
            now_ms,
            after.trackers[i].tracker,
        );
    }
}

/// A track that is removed leaves every ranking whose prefix begins its namespace, by whatever
/// property, and the other tracks stay.
pub proof fn law_removed_track_leaves_every_ranking(
    before: RegistryView,
    namespace: Seq<Seq<u8>>,
    track_name: Seq<char>,
    now_ms: u64,
    after: RegistryView,
    i: int,
    k: int,
)
    requires
        before.track_removed(namespace, track_name, now_ms, after),
        0 <= i < before.trackers.len(),
        0 <= k < before.trackers[i].tracker.tracks.len(),
        before.trackers[i].tracker.tracks[k].namespace == namespace,
        before.trackers[i].tracker.tracks[k].track_name == track_name,
        forall|j: int|
            0 <= j < before.trackers[i].tracker.tracks.len() && (
            #[trigger] before.trackers[i].tracker.tracks[j]).namespace == namespace
                && before.trackers[i].tracker.tracks[j].track_name == track_name ==> j == k,
    ensures
        ({
            let entry = before.trackers[i];
            let now = after.trackers[i];
            &&& entry.prefix.is_prefix_of(namespace) ==> now.tracker.tracks
                == entry.tracker.tracks.take(k) + entry.tracker.tracks.skip(k + 1)
            &&& entry.prefix.is_prefix_of(namespace) ==> top_n_tracker::is_snapshot(
                now.tracker.tracks,
                entry.tracker.config,
                entry.tracker.max_n,
                top_n_tracker::max_x_of(now.tracker.tracks),
                now_ms,
                now.tracker.snapshot,
            )
            &&& !entry.prefix.is_prefix_of(namespace) ==> now == entry
            &&& after.subscriptions == before.subscriptions
            &&& after.published == before.published
            &&& after.trackers.len() == before.trackers.len()
        }),
{
    let entry = before.trackers[i];
    if namespace::is_under(namespace, entry.prefix) {
        top_n_tracker::law_removed_track_is_gone(
            entry.tracker,
            namespace,
            track_name,
            now_ms,
            after.trackers[i].tracker,
            k,
        );
    }
}

proof fn lemma_ids_where_at(
    subscriptions: Seq<SubscriptionView>,
    wanted: spec_fn(SubscriptionView) -> bool,
    i: int,
)
    requires
        0 <= i < subscriptions.len(),
        forall|a: int, b: int|
            0 <= a < b < subscriptions.len() ==> (#[trigger] subscriptions[a]).id != (
            #[trigger] subscriptions[b]).id,
    ensures
        ids_where(subscriptions, wanted, subscriptions.len()).contains(subscriptions[i].id)
            <==> wanted(subscriptions[i]),
{
    lemma_ids_where(subscriptions, wanted, subscriptions[i].id, subscriptions.len());
    if ids_where(subscriptions, wanted, subscriptions.len()).contains(subscriptions[i].id) {
        let j = choose|j: int|
            0 <= j < subscriptions.len() && (#[trigger] subscriptions[j]).id == subscriptions[i].id
                && wanted(subscriptions[j]);
        if j < i {
            assert(subscriptions[j].id != subscriptions[i].id);
        } else if i < j {
            assert(subscriptions[i].id != subscriptions[j].id);
        }
    } else {
        assert(subscriptions[i].id == subscriptions[i].id);
    }
}

/// A subscription without a filter is told of every track and every namespace under its prefix that
/// another session publishes, as long as somebody listens; of a track it is told once. It is not
/// told of values.
pub proof fn law_subscription_without_filter_is_told(
    registry: RegistryView,
    namespace: Seq<Seq<u8>>,
    track_name: Seq<char>,
    property_type: u64,
    origin_session_id: u64,
    closed: Seq<u64>,
    i: int,
)
    requires
        registry.wf(),
        0 <= i < registry.subscriptions.len(),
        registry.subscriptions[i].track_filter is None,
    ensures
        ({
            let s = registry.subscriptions[i];
            let hears = s.session_id != origin_session_id && s.prefix.is_prefix_of(namespace)
                && !closed.contains(s.id);
            &&& registry.publish_listeners(
                namespace,
                track_name,
                origin_session_id,
                closed,
            ).contains(s.id) <==> hears && !registry.published.contains(
                (s.id, namespace, track_name),
            )
            &&& registry.namespace_listeners(namespace, origin_session_id, closed).contains(s.id)
                <==> hears
            &&& !registry.update_listeners(
                namespace,
                track_name,
                property_type,
                origin_session_id,
                closed,
            ).contains(s.id)
        }),
{
    lemma_ids_where_at(
        registry.subscriptions,
        |s: SubscriptionView|
            registry.wants_publish(s, namespace, track_name, origin_session_id)
                && !closed.contains(s.id),
        i,
    );
    lemma_ids_where_at(
        registry.subscriptions,
        |s: SubscriptionView|
            registry.wants_update(s, namespace, track_name, property_type, origin_session_id)
                && !closed.contains(s.id),
        i,
    );
    lemma_ids_where_at(
        registry.subscriptions,
        |s: SubscriptionView|
            registry.hears_of(s, namespace, origin_session_id) && !closed.contains(s.id),
        i,
    );
}

/// A track of another session stands in a snapshot, with fewer than `n` tracks of other sessions
/// before it.
pub open spec fn stands_in_top(
    snapshot: Seq<TrackRankView>,
    namespace: Seq<Seq<u8>>,
    track_name: Seq<char>,
    session_id: u64,
    n: nat,
) -> bool {
    exists|p: int|
        0 <= p < snapshot.len() && (#[trigger] snapshot[p]).namespace == namespace
            && snapshot[p].track_name == track_name && snapshot[p].publisher_session_id
            != session_id && snapshot.take(p).filter(
            |t: TrackRankView| t.publisher_session_id != session_id,
        ).len() < n
}

proof fn lemma_others_filter(snapshot: Seq<TrackRankView>, session_id: u64, p: nat)
    requires
        p <= snapshot.len(),
    ensures
        top_n_tracker::others_count(snapshot, session_id, p) == snapshot.take(p as int).filter(
            |t: TrackRankView| t.publisher_session_id != session_id,
        ).len(),
        top_n_tracker::published_count(snapshot, session_id, p) <= p,
    decreases p,
{
    reveal(Seq::filter);
    if p > 0 {
        lemma_others_filter(snapshot, session_id, (p - 1) as nat);
        assert(snapshot.take(p as int).drop_last() =~= snapshot.take(p - 1));
        assert(snapshot.take(p as int).last() == snapshot[p - 1]);
    }
}

/// A track is in the top of a session exactly if it is of another session and fewer than `n` tracks
/// of other sessions stand before it.
pub proof fn law_top_counts_tracks_of_others(
    snapshot: Seq<TrackRankView>,
    namespace: Seq<Seq<u8>>,
    track_name: Seq<char>,
    session_id: u64,
    n: nat,
)
    ensures
        top_n_tracker::within_top(snapshot, namespace, track_name, session_id, n)
            <==> stands_in_top(snapshot, namespace, track_name, session_id, n),
{
    if top_n_tracker::within_top(snapshot, namespace, track_name, session_id, n) {
        let p = choose|p: int|
            0 <= p < snapshot.len() && (#[trigger] snapshot[p]).is_track(namespace, track_name)
                && snapshot[p].publisher_session_id != session_id && top_n_tracker::others_count(
                snapshot,
                session_id,
                p as nat,
            ) < n;
        lemma_others_filter(snapshot, session_id, p as nat);
        assert(snapshot[p].namespace == namespace);
    }
    if stands_in_top(snapshot, namespace, track_name, session_id, n) {
        let p = choose|p: int|
            0 <= p < snapshot.len() && (#[trigger] snapshot[p]).namespace == namespace
                && snapshot[p].track_name == track_name && snapshot[p].publisher_session_id
                != session_id && snapshot.take(p).filter(
                |t: TrackRankView| t.publisher_session_id != session_id,
            ).len() < n;
        lemma_others_filter(snapshot, session_id, p as nat);
        assert(snapshot[p].is_track(namespace, track_name));
    }
}

/// A subscription with a filter is told of a track that is published under its prefix exactly if the
/// track is in the top of its own ranking, and of a new value exactly if the value is of its
/// property and the track is in the top of a ranking by it that covers the track. In both cases the
/// track is of another session, somebody listens, and the subscription was not told of the track.
pub proof fn law_subscription_with_filter_is_told_of_the_top(
    registry: RegistryView,
    namespace: Seq<Seq<u8>>,
    track_name: Seq<char>,
    property_type: u64,
    origin_session_id: u64,
    closed: Seq<u64>,
    i: int,
)
    requires
        registry.wf(),
        0 <= i < registry.subscriptions.len(),
        registry.subscriptions[i].track_filter is Some,
    ensures
        ({
            let s = registry.subscriptions[i];
            let filter = s.track_filter->0;
            let hears = s.session_id != origin_session_id && s.prefix.is_prefix_of(namespace)
                && !closed.contains(s.id) && !registry.published.contains(
                (s.id, namespace, track_name),
            );
            let in_top_of = |t: TrackerEntryView|
                t.property_type == filter.property_type && stands_in_top(
                    t.tracker.snapshot,
                    namespace,
                    track_name,
                    s.session_id,
                    filter.max_selected as nat,
                );
            &&& registry.publish_listeners(
                namespace,
                track_name,
                origin_session_id,
                closed,
            ).contains(s.id) <==> hears && exists|j: int|
                0 <= j < registry.trackers.len() && (#[trigger] registry.trackers[j]).prefix
                    == s.prefix && in_top_of(registry.trackers[j])
            &&& registry.update_listeners(
                namespace,
                track_name,
                property_type,
                origin_session_id,
                closed,
            ).contains(s.id) <==> hears && filter.property_type == property_type && exists|j: int|
                0 <= j < registry.trackers.len() && (
                #[trigger] registry.trackers[j]).prefix.is_prefix_of(namespace) && in_top_of(
                    registry.trackers[j],
                )
        }),
{
    let s = registry.subscriptions[i];
    let filter = s.track_filter->0;
    let n = filter.max_selected as nat;
    lemma_ids_where_at(
        registry.subscriptions,
        |s: SubscriptionView|
            registry.wants_publish(s, namespace, track_name, origin_session_id)
                && !closed.contains(s.id),
        i,
    );
    lemma_ids_where_at(
        registry.subscriptions,
        |s: SubscriptionView|
            registry.wants_update(s, namespace, track_name, property_type, origin_session_id)
                && !closed.contains(s.id),
        i,
    );
    lemma_find_tracker(
        registry.trackers,
        s.prefix,
        filter.property_type,
        registry.trackers.len(),
    );
    assert forall|j: int| 0 <= j < registry.trackers.len() implies top_n_tracker::within_top(
        (#[trigger] registry.trackers[j]).tracker.snapshot,
        namespace,
        track_name,
        s.session_id,
        n,
    ) == stands_in_top(
        registry.trackers[j].tracker.snapshot,
        namespace,
        track_name,
        s.session_id,
        n,
    ) by {
        law_top_counts_tracks_of_others(
            registry.trackers[j].tracker.snapshot,
            namespace,
            track_name,
            s.session_id,
            n,
        );
    }
    let own = find_tracker(
        registry.trackers,
        s.prefix,
        filter.property_type,
        registry.trackers.len(),
    );
    if own is Some {
        assert forall|j: int|
            0 <= j < registry.trackers.len() && (#[trigger] registry.trackers[j]).prefix == s.prefix
                && registry.trackers[j].property_type == filter.property_type implies j
            == own->0 by {
            let a = own->0;
            assert(registry.trackers[a].prefix == s.prefix);
        }
    }
    if registry.in_some_top(s, filter, namespace, track_name) {
        let j = choose|j: int|
            0 <= j < registry.trackers.len() && (#[trigger] registry.trackers[j]).covers(
                namespace,
                filter.property_type,
            ) && top_n_tracker::within_top(
                registry.trackers[j].tracker.snapshot,
                namespace,
                track_name,
                s.session_id,
                n,
            );
        assert(registry.trackers[j].prefix.is_prefix_of(namespace));
    }
    if exists|j: int|
        0 <= j < registry.trackers.len() && (#[trigger] registry.trackers[j]).prefix.is_prefix_of(
            namespace,
        ) && registry.trackers[j].property_type == filter.property_type && stands_in_top(
            registry.trackers[j].tracker.snapshot,
            namespace,
            track_name,
            s.session_id,
            n,
        ) {
        let j = choose|j: int|
            0 <= j < registry.trackers.len() && (
            #[trigger] registry.trackers[j]).prefix.is_prefix_of(namespace)
                && registry.trackers[j].property_type == filter.property_type && stands_in_top(
                registry.trackers[j].tracker.snapshot,
                namespace,
                track_name,
                s.session_id,
                n,
            );
        assert(registry.trackers[j].covers(namespace, filter.property_type));
    }
}

/// A subscription with a filter has a ranking by its property under its prefix from its registration
/// on, which makes room for as many tracks as it asks for. The other rankings stay as they are, and
/// no ranking is lost.
pub proof fn law_filter_gets_a_ranking(
    before: RegistryView,
    prefix: Seq<Seq<u8>>,
    filter: TrackFilter,
    now_ms: u64,
    after: Seq<TrackerEntryView>,
)
    requires
        before.wf(),
        before.tracker_serves(prefix, filter, now_ms, after),
    ensures
        exists|i: int|
            0 <= i < after.len() && (#[trigger] after[i]).prefix == prefix && after[i].property_type
                == filter.property_type && after[i].tracker.max_n >= filter.max_selected,
        after.len() >= before.trackers.len(),
        forall|i: int|
            0 <= i < before.trackers.len() && ((#[trigger] before.trackers[i]).prefix != prefix
                || before.trackers[i].property_type != filter.property_type) ==> after[i]
                == before.trackers[i],
        forall|i: int|
            0 <= i < before.trackers.len() ==> (#[trigger] after[i]).tracker.tracks
                == before.trackers[i].tracker.tracks && after[i].prefix
                == before.trackers[i].prefix && after[i].property_type
                == before.trackers[i].property_type && after[i].tracker.max_n
                >= before.trackers[i].tracker.max_n,
{
    lemma_find_tracker(
        before.trackers,
        prefix,
        filter.property_type,
        before.trackers.len(),
    );
    let known = find_tracker(
        before.trackers,
        prefix,
        filter.property_type,
        before.trackers.len(),
    );
    let i = match known {
        Some(i) => i,
        None => before.trackers.len() as int,
    };
    assert(after[i].prefix == prefix);
}

proof fn lemma_without_id_members(
    subscriptions: Seq<SubscriptionView>,
    id: u64,
    n: nat,
    s: SubscriptionView,
)
    requires
        n <= subscriptions.len(),
    ensures
        without_id(subscriptions, id, n).contains(s) <==> s.id != id && subscriptions.take(
            n as int,
        ).contains(s),
    decreases n,
{
    if n > 0 {
        lemma_without_id_members(subscriptions, id, (n - 1) as nat, s);
        let before = without_id(subscriptions, id, (n - 1) as nat);
        let last = subscriptions[n - 1];
        let shorter = subscriptions.take(n - 1);
        let head = subscriptions.take(n as int);
        assert(head =~= shorter.push(last));
        assert(head.contains(s) <==> shorter.contains(s) || s == last) by {
            if shorter.contains(s) {
                let i = choose|i: int| 0 <= i < shorter.len() && shorter[i] == s;
                assert(head[i] == s);
            }
            assert(head[n - 1] == last);
        }
        assert(before.push(last).contains(s) <==> before.contains(s) || s == last) by {
            if before.contains(s) {
                let i = choose|i: int| 0 <= i < before.len() && before[i] == s;
                assert(before.push(last)[i] == s);
            }
            assert(before.push(last)[before.len() as int] == last);
        }
    }
}

/// Unregistering takes one subscription out, with what is known of whom it was told of, and leaves
/// the others and the rankings as they are.
pub proof fn law_unregister_takes_one_out(
    before: RegistryView,
    id: u64,
    s: SubscriptionView,
    told: (u64, Seq<Seq<u8>>, Seq<char>),
)
    requires
        before.wf(),
        exists|i: int|
            0 <= i < before.subscriptions.len() && (#[trigger] before.subscriptions[i]).id == id,
    ensures
        before.unregistered(id).subscriptions.contains(s) <==> before.subscriptions.contains(s)
            && s.id != id,
        before.unregistered(id).published.contains(told) <==> before.published.contains(told)
            && told.0 != id,
        before.unregistered(id).trackers == before.trackers,
        before.unregistered(id).next_id == before.next_id,
{
    lemma_without_id_members(before.subscriptions, id, before.subscriptions.len(), s);
    assert(before.subscriptions.take(before.subscriptions.len() as int) =~= before.subscriptions);
}

/// Being told of a track adds what was told, and takes nothing back.
pub proof fn law_told_adds_up(
    before: RegistryView,
    ids: Seq<u64>,
    namespace: Seq<Seq<u8>>,
    track_name: Seq<char>,
    told: (u64, Seq<Seq<u8>>, Seq<char>),
)
    ensures
        before.told(ids, namespace, track_name).published.contains(told) <==>
            before.published.contains(told) || (ids.contains(told.0) && told.1 == namespace
            && told.2 == track_name),
        before.told(ids, namespace, track_name).subscriptions == before.subscriptions,
        before.told(ids, namespace, track_name).trackers == before.trackers,
{
}

proof fn lemma_first_filter(subscriptions: Seq<SubscriptionView>, session_id: u64, n: nat)
    requires
        n <= subscriptions.len(),
    ensures
        match first_filter(subscriptions, session_id, n) {
            Some(filter) => exists|i: int|
                0 <= i < n && (#[trigger] subscriptions[i]).session_id == session_id
                    && subscriptions[i].track_filter == Some(filter) && forall|j: int|
                    0 <= j < i && (#[trigger] subscriptions[j]).session_id == session_id
                        ==> subscriptions[j].track_filter is None,
            None => forall|j: int|
                0 <= j < n && (#[trigger] subscriptions[j]).session_id == session_id
                    ==> subscriptions[j].track_filter is None,
        },
    decreases n,
{
    if n > 0 {
        lemma_first_filter(subscriptions, session_id, (n - 1) as nat);
        if first_filter(subscriptions, session_id, (n - 1) as nat) is None && first_filter(
            subscriptions,
            session_id,
            n,
        ) is Some {
            assert(subscriptions[n - 1].session_id == session_id);
        }
    }
}

/// The filter of a session is that of its first subscription that has one.
pub proof fn law_first_filter_counts(subscriptions: Seq<SubscriptionView>, session_id: u64)
    ensures
        match first_filter(subscriptions, session_id, subscriptions.len()) {
            Some(filter) => exists|i: int|
                0 <= i < subscriptions.len() && (#[trigger] subscriptions[i]).session_id
                    == session_id && subscriptions[i].track_filter == Some(filter) && forall|j: int|
                    0 <= j < i && (#[trigger] subscriptions[j]).session_id == session_id
                        ==> subscriptions[j].track_filter is None,
            None => forall|j: int|
                0 <= j < subscriptions.len() && (#[trigger] subscriptions[j]).session_id
                    == session_id ==> subscriptions[j].track_filter is None,
        },
{
    lemma_first_filter(subscriptions, session_id, subscriptions.len());
}

proof fn lemma_find_covering(
    trackers: Seq<TrackerEntryView>,
    namespace: Seq<Seq<u8>>,
    property_type: u64,
    n: nat,
)
    requires
        n <= trackers.len(),
    ensures
        match find_covering(trackers, namespace, property_type, n) {
            Some(i) => 0 <= i < n && trackers[i].property_type == property_type
                && trackers[i].prefix.is_prefix_of(namespace) && forall|j: int|
                0 <= j < i && (#[trigger] trackers[j]).property_type == property_type
                    ==> !trackers[j].prefix.is_prefix_of(namespace),
            None => forall|j: int|
                0 <= j < n && (#[trigger] trackers[j]).property_type == property_type
                    ==> !trackers[j].prefix.is_prefix_of(namespace),
        },
    decreases n,
{
    if n > 0 {
        lemma_find_covering(trackers, namespace, property_type, (n - 1) as nat);
    }
}

/// Whether a track is in the top is asked of the first ranking by the property whose prefix begins
/// the namespace of the track.
pub proof fn law_first_covering_ranking_answers(
    trackers: Seq<TrackerEntryView>,
    namespace: Seq<Seq<u8>>,
    property_type: u64,
)
    ensures
        match find_covering(trackers, namespace, property_type, trackers.len()) {
            Some(i) => 0 <= i < trackers.len() && trackers[i].property_type == property_type
                && trackers[i].prefix.is_prefix_of(namespace) && forall|j: int|
                0 <= j < i && (#[trigger] trackers[j]).property_type == property_type
                    ==> !trackers[j].prefix.is_prefix_of(namespace),
            None => forall|j: int|
                0 <= j < trackers.len() && (#[trigger] trackers[j]).property_type == property_type
                    ==> !trackers[j].prefix.is_prefix_of(namespace),
        },
{
    lemma_find_covering(trackers, namespace, property_type, trackers.len());
}

proof fn lemma_events_in(
    trackers: Seq<TrackerEntryView>,
    told: spec_fn(TrackerEntryView) -> Option<TrackEvent>,
    n: nat,
)
    requires
        n <= trackers.len(),
    ensures
        forall|i: int|
            0 <= i < n ==> (told(#[trigger] trackers[i]) matches Some(event) ==> events_in(
                trackers,
                told,
                n,
            ).contains(RankingEvent { event, created_ms: trackers[i].created_ms })),
        forall|k: int|
            0 <= k < events_in(trackers, told, n).len() ==> exists|i: int|
                0 <= i < n && told(#[trigger] trackers[i]) == Some(
                    (#[trigger] events_in(trackers, told, n)[k]).event,
                ) && events_in(trackers, told, n)[k].created_ms == trackers[i].created_ms,
    decreases n,
{
    if n > 0 {
        lemma_events_in(trackers, told, (n - 1) as nat);
        let before = events_in(trackers, told, (n - 1) as nat);
        let after = events_in(trackers, told, n);
        assert forall|i: int| 0 <= i < n implies (told(#[trigger] trackers[i]) matches Some(event)
            ==> after.contains(RankingEvent { event, created_ms: trackers[i].created_ms })) by {
            if let Some(event) = told(trackers[i]) {
                let own = RankingEvent { event, created_ms: trackers[i].created_ms };
                if i == n - 1 {
                    assert(after[before.len() as int] == own);
                } else {
                    let k = before.index_of(own);
                    assert(after[k] == own);
                }
            }
        }
        assert forall|k: int| 0 <= k < after.len() implies exists|i: int|
            0 <= i < n && told(#[trigger] trackers[i]) == Some((#[trigger] after[k]).event)
                && after[k].created_ms == trackers[i].created_ms by {
            if k < before.len() {
                assert(after[k] == before[k]);
                let i = choose|i: int|
                    0 <= i < n - 1 && told(#[trigger] trackers[i]) == Some(
                        (#[trigger] before[k]).event,
                    ) && before[k].created_ms == trackers[i].created_ms;
                assert(told(trackers[i]) == Some(after[k].event));
            } else {
                assert(told(trackers[n - 1]) == Some(after[k].event));
            }
        }
    }
}

/// What happens to a track is told by every ranking by that property whose prefix begins its
/// namespace, and by no other. A track that ends is told of by rankings of any property.
pub proof fn law_rankings_tell_what_happens(
    registry: RegistryView,
    namespace: Seq<Seq<u8>>,
    track_name: Seq<char>,
    property_type: u64,
    value: u64,
    session_id: u64,
    i: int,
)
    requires
        0 <= i < registry.trackers.len(),
        registry.trackers[i].prefix.is_prefix_of(namespace),
    ensures
        ({
            let entry = registry.trackers[i];
            &&& entry.property_type == property_type ==> (entry.tracker.registration(
                namespace,
                track_name,
                value,
                session_id,
            ) matches Some(event) ==> registry.registration_events(
                namespace,
                track_name,
                property_type,
                value,
                session_id,
            ).contains(RankingEvent { event, created_ms: entry.created_ms }))
            &&& entry.property_type == property_type ==> (entry.tracker.value_change(
                namespace,
                track_name,
                value,
            ) matches Some(event) ==> registry.update_events(
                namespace,
                track_name,
                property_type,
                value,
            ).contains(RankingEvent { event, created_ms: entry.created_ms }))
            &&& entry.tracker.removal(namespace, track_name) matches Some(event)
                ==> registry.removal_events(namespace, track_name).contains(
                RankingEvent { event, created_ms: entry.created_ms },
            )
        }),
{
    let n = registry.trackers.len();
    let registered = |t: TrackerEntryView|
        if t.covers(namespace, property_type) {
            t.tracker.registration(namespace, track_name, value, session_id)
        } else {
            None
        };
    let changed = |t: TrackerEntryView|
        if t.covers(namespace, property_type) {
            t.tracker.value_change(namespace, track_name, value)
        } else {
            None
        };
    let removed = |t: TrackerEntryView|
        if namespace::is_under(namespace, t.prefix) {
            t.tracker.removal(namespace, track_name)
        } else {
            None
        };
    lemma_events_in(registry.trackers, registered, n);
    lemma_events_in(registry.trackers, changed, n);
    lemma_events_in(registry.trackers, removed, n);
    assert(registered(registry.trackers[i]) == registered(registry.trackers[i]));
    assert(changed(registry.trackers[i]) == changed(registry.trackers[i]));
    assert(removed(registry.trackers[i]) == removed(registry.trackers[i]));
    assert(registry.registration_events(namespace, track_name, property_type, value, session_id)
        == events_in(registry.trackers, registered, n));
    assert(registry.update_events(namespace, track_name, property_type, value) == events_in(
        registry.trackers,
        changed,
        n,
    ));
    assert(registry.removal_events(namespace, track_name) == events_in(
        registry.trackers,
        removed,
        n,
    ));
}

/// Where no ranking covers a namespace, nothing is told of its tracks.
pub proof fn law_uncovered_tracks_are_not_told_of(
    registry: RegistryView,
    namespace: Seq<Seq<u8>>,
    track_name: Seq<char>,
    property_type: u64,
    value: u64,
    session_id: u64,
)
    ensures
        (forall|i: int|
            0 <= i < registry.trackers.len() ==> (#[trigger] registry.trackers[i]).property_type
                != property_type || !registry.trackers[i].prefix.is_prefix_of(namespace)) ==> {
            &&& registry.registration_events(
                namespace,
                track_name,
                property_type,
                value,
                session_id,
            ).len() == 0
            &&& registry.update_events(namespace, track_name, property_type, value).len() == 0
        },
        (forall|i: int|
            0 <= i < registry.trackers.len() ==> !(
            #[trigger] registry.trackers[i]).prefix.is_prefix_of(namespace))
            ==> registry.removal_events(namespace, track_name).len() == 0,
{
    let n = registry.trackers.len();
    let registered = |t: TrackerEntryView|
        if t.covers(namespace, property_type) {
            t.tracker.registration(namespace, track_name, value, session_id)
        } else {
            None
        };
    let changed = |t: TrackerEntryView|
        if t.covers(namespace, property_type) {
            t.tracker.value_change(namespace, track_name, value)
        } else {
            None
        };
    let removed = |t: TrackerEntryView|
        if namespace::is_under(namespace, t.prefix) {
            t.tracker.removal(namespace, track_name)
        } else {
            None
        };
    lemma_events_in(registry.trackers, registered, n);
    lemma_events_in(registry.trackers, changed, n);
    lemma_events_in(registry.trackers, removed, n);
    let a = registry.registration_events(namespace, track_name, property_type, value, session_id);
    let b = registry.update_events(namespace, track_name, property_type, value);
    let c = registry.removal_events(namespace, track_name);
    assert(a == events_in(registry.trackers, registered, n));
    assert(b == events_in(registry.trackers, changed, n));
    assert(c == events_in(registry.trackers, removed, n));
    if a.len() > 0 {
        let told = a[0];
    }
    if b.len() > 0 {
        let told = b[0];
    }
    if c.len() > 0 {
        let told = c[0];
    }
}

/// The rankings of a registry log events and break ties as the registry is told to. No track is
/// stale for them.
pub proof fn law_rankings_are_set_up_by_the_registry(registry: RegistryView)
    ensures
        registry.tracker_config().enable_event_logging == registry.topn_event_logging,
        registry.tracker_config().tie_break_policy == registry.tie_break_policy,
        registry.tracker_config().staleness_timeout_ms is None,
{
}

proof fn lemma_ids_where_distinct(
    subscriptions: Seq<SubscriptionView>,
    wanted: spec_fn(SubscriptionView) -> bool,
    n: nat,
)
    requires
        n <= subscriptions.len(),
        forall|a: int, b: int|
            0 <= a < b < subscriptions.len() ==> (#[trigger] subscriptions[a]).id != (
            #[trigger] subscriptions[b]).id,
    ensures
        ids_where(subscriptions, wanted, n).no_duplicates(),
    decreases n,
{
    if n > 0 {
        lemma_ids_where_distinct(subscriptions, wanted, (n - 1) as nat);
        let before = ids_where(subscriptions, wanted, (n - 1) as nat);
        let id = subscriptions[n - 1].id;
        lemma_ids_where(subscriptions, wanted, id, (n - 1) as nat);
        if before.contains(id) {
            let j = choose|j: int|
                0 <= j < n - 1 && (#[trigger] subscriptions[j]).id == id && wanted(
                    subscriptions[j],
                );
            assert(subscriptions[j].id != subscriptions[n - 1].id);
        }
        assert forall|a: int, b: int|
            0 <= a < before.push(id).len() && 0 <= b < before.push(id).len() && a
                != b implies before.push(id)[a] != before.push(id)[b] by {
            if a == before.len() {
                assert(before.contains(before[b]));
            } else if b == before.len() {
                assert(before.contains(before[a]));
            }
        }
    }
}

/// Every subscription of another session under whose prefix a namespace lies is told of the
/// namespace, be it with a filter or without one. No subscription is told of anything twice at
/// once.
pub proof fn law_listeners_are_told_once(
    registry: RegistryView,
    namespace: Seq<Seq<u8>>,
    track_name: Seq<char>,
    property_type: u64,
    origin_session_id: u64,
    closed: Seq<u64>,
    i: int,
)
    requires
        registry.wf(),
        0 <= i < registry.subscriptions.len(),
    ensures
        ({
            let s = registry.subscriptions[i];
            registry.namespace_listeners(namespace, origin_session_id, closed).contains(s.id)
                <==> s.session_id != origin_session_id && s.prefix.is_prefix_of(namespace)
                && !closed.contains(s.id)
        }),
        registry.namespace_listeners(namespace, origin_session_id, closed).no_duplicates(),
        registry.publish_listeners(
            namespace,
            track_name,
            origin_session_id,
            closed,
        ).no_duplicates(),
        registry.update_listeners(
            namespace,
            track_name,
            property_type,
            origin_session_id,
            closed,
        ).no_duplicates(),
{
    let subscriptions = registry.subscriptions;
    let n = subscriptions.len();
    let on_namespace = |s: SubscriptionView|
        registry.hears_of(s, namespace, origin_session_id) && !closed.contains(s.id);
    let on_publish = |s: SubscriptionView|
        registry.wants_publish(s, namespace, track_name, origin_session_id) && !closed.contains(
            s.id,
        );
    let on_update = |s: SubscriptionView|
        registry.wants_update(s, namespace, track_name, property_type, origin_session_id)
            && !closed.contains(s.id);
    lemma_ids_where_at(subscriptions, on_namespace, i);
    lemma_ids_where_distinct(subscriptions, on_namespace, n);
    lemma_ids_where_distinct(subscriptions, on_publish, n);
    lemma_ids_where_distinct(subscriptions, on_update, n);
}

} // verus!
