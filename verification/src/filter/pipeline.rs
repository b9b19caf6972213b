//! The filter stages put together.
//!
//! An object goes through the filter on track extensions, the object filter of the
//! subscription and the top-N filter. The track filter is asked when a subscription is made.
//! Subscriptions with the same filter can share one.

use rustc_hash::FxHashMap;
use slab::Slab;
use vstd::prelude::*;
use crate::filter::config::FilterConfig;
use crate::filter::fx::{
    fx_map_get, fx_map_insert, fx_map_keys, fx_map_len, fx_map_new, fx_map_remove,
};
use crate::filter::object::{self, ObjectFilter, ObjectFilterParams, ObjectFilterView, ObjectInfo};
use crate::filter::object::ObjectInfoView;
use crate::filter::stats::{FilterStats, FilterStatsSnapshot};
use crate::filter::topn::{self, TopNFilter, TopNFilterView, TopNStats, TrackMetricView};
use crate::filter::track::{self, TrackFilter, TrackFilterMode, TrackFilterView};
use crate::filter::track_ext::{self, TrackExtensionFilter, TrackExtensionFilterView};
use crate::namespace::TrackNamespace;

verus! {

/// The id of a subscription.
pub type SubscriptionId = usize;

/// The outside collection that hands out the ids of subscriptions.
#[verifier::external_type_specification]
#[verifier::external_body]
#[verifier::reject_recursive_types(T)]
pub struct ExSlab<T>(Slab<T>);

/// The entries of a slab by their keys.
pub uninterp spec fn entries(slab: Slab<Option<u64>>) -> Map<usize, Option<u64>>;

/// `slab::Slab::new` makes a slab without entries.
#[verifier::external_body]
fn slab_new() -> (r: Slab<Option<u64>>)
    ensures
        entries(r).dom() == Set::<usize>::empty(),
{
    Slab::new()
}

/// `slab::Slab::len` gives the number of entries.
#[verifier::external_body]
fn slab_len(slab: &Slab<Option<u64>>) -> (r: usize)
    ensures
        r == entries(*slab).dom().len(),
{
    slab.len()
}

/// `slab::Slab::get` gives the entry under a key, if there is one.
#[verifier::external_body]
fn slab_get(slab: &Slab<Option<u64>>, key: usize) -> (r: Option<Option<u64>>)
    ensures
        r == (if entries(*slab).contains_key(key) {
            Some(entries(*slab)[key])
        } else {
            None
        }),
{
    slab.get(key).copied()
}

/// `slab::Slab::insert` puts an entry under a key that was vacant.
#[verifier::external_body]
fn slab_insert(slab: &mut Slab<Option<u64>>, value: Option<u64>) -> (r: usize)
    ensures
        !entries(*old(slab)).contains_key(r),
        entries(*final(slab)) == entries(*old(slab)).insert(r, value),
{
    slab.insert(value)
}

/// `slab::Slab::try_remove` takes the entry under a key out, if there is one.
#[verifier::external_body]
fn slab_try_remove(slab: &mut Slab<Option<u64>>, key: usize) -> (r: Option<Option<u64>>)
    ensures
        entries(*final(slab)) == entries(*old(slab)).remove(key),
        r == (if entries(*old(slab)).contains_key(key) {
            Some(entries(*old(slab))[key])
        } else {
            None
        }),
{
    slab.try_remove(key)
}

/// `slab::Slab::iter` gives the keys of all entries in ascending order.
#[verifier::external_body]
fn slab_keys(slab: &Slab<Option<u64>>) -> (r: Vec<usize>)
    ensures
        is_ascending(r@),
        r@.to_set() == entries(*slab).dom(),
{
    slab.iter().map(|entry| entry.0).collect()
}

/// The keys are in ascending order.
pub open spec fn is_ascending(keys: Seq<usize>) -> bool {
    forall|i: int, j: int| 0 <= i < j < keys.len() ==> (#[trigger] keys[i]) < (#[trigger] keys[j])
}

/// A subscription: the group that it shares its filter with, if any, and the filter.
#[verifier::ext_equal]
pub struct SubscriptionView {
    pub group: Option<u64>,
    pub filter: ObjectFilterView,
}

/// The state of a filter pipeline.
#[verifier::ext_equal]
pub struct FilterPipelineView {
    pub config: FilterConfig,
    pub track_ext: TrackExtensionFilterView,
    pub track: TrackFilterView,
    pub subscriptions: Map<usize, SubscriptionView>,
    pub topn: Option<TopNFilterView>,
    pub enabled: bool,
}

/// What the top-N filter is given from outside: the average of the object's track with the
/// object's metric taken in, and the scores of all tracks in order with that track among
/// them.
pub struct MetricInput {
    pub smoothed: u64,
    pub scores: Vec<u64>,
    pub now_ms: u64,
}

impl FilterPipelineView {
    /// A pipeline without subscriptions.
    pub open spec fn empty(config: FilterConfig, now_ms: u64) -> FilterPipelineView {
        FilterPipelineView {
            config,
            track_ext: TrackExtensionFilterView {
                enabled: config.track_ext_enabled,
                ..TrackExtensionFilterView::empty(config.stats_enabled)
            },
            track: TrackFilterView {
                enabled: config.track_enabled,
                ..TrackFilterView::empty(TrackFilterMode::Denylist, config.stats_enabled)
            },
            subscriptions: Map::empty(),
            topn: if config.topn_enabled {
                Some(TopNFilterView::empty(config.topn_config, now_ms))
            } else {
                None
            },
            enabled: true,
        }
    }

    /// The stage on track extensions applies.
    pub open spec fn checks_extensions(self) -> bool {
        self.enabled && self.config.track_ext_enabled
    }

    /// The track extensions pass.
    pub open spec fn passes_extensions(self, extensions: Seq<(u64, u64)>) -> bool {
        self.checks_extensions() ==> self.track_ext.passes(extensions)
    }

    /// The pipeline once track extensions were decided on.
    pub open spec fn after_extensions(self, extensions: Seq<(u64, u64)>) -> FilterPipelineView {
        if self.checks_extensions() {
            FilterPipelineView {
                track_ext: TrackExtensionFilterView {
                    stats: self.track_ext.stats.counted(self.track_ext.passes(extensions)),
                    ..self.track_ext
                },
                ..self
            }
        } else {
            self
        }
    }

    /// The extensions of a track, if it has any, pass.
    pub open spec fn passes_some_extensions(self, extensions: Option<&[(u64, u64)]>) -> bool {
        extensions matches Some(extensions) ==> self.passes_extensions(extensions@)
    }

    /// The pipeline once the extensions of a track, if it has any, were decided on.
    pub open spec fn after_some_extensions(
        self,
        extensions: Option<&[(u64, u64)]>,
    ) -> FilterPipelineView {
        match extensions {
            Some(extensions) => self.after_extensions(extensions@),
            None => self,
        }
    }

    /// The track passes.
    pub open spec fn passes_track(self, namespace: Seq<Seq<u8>>, name: Seq<char>) -> bool {
        self.enabled && self.config.track_enabled ==> self.track.accepts(namespace, name)
    }

    /// The pipeline once a track was decided on.
    pub open spec fn after_track(
        self,
        namespace: Seq<Seq<u8>>,
        name: Seq<char>,
    ) -> FilterPipelineView {
        if self.enabled && self.config.track_enabled {
            FilterPipelineView {
                track: self.track.decided(self.track.accepts(namespace, name)),
                ..self
            }
        } else {
            self
        }
    }

    /// The filter of a subscription lets an object pass. An id without a subscription has
    /// no filter.
    pub open spec fn filter_passes(self, id: usize, obj: ObjectInfoView) -> bool {
        self.subscriptions.contains_key(id) ==> self.subscriptions[id].filter.passes(obj)
    }

    /// The object passes for a subscription.
    pub open spec fn passes_object(self, id: usize, obj: ObjectInfoView) -> bool {
        self.enabled && self.config.object_enabled ==> self.filter_passes(id, obj)
    }

    /// Both subscriptions have the same filter: they are one, or share a group.
    pub open spec fn share_filter(self, a: usize, b: usize) -> bool {
        a == b || self.subscriptions[a].group is Some && self.subscriptions[a].group
            == self.subscriptions[b].group
    }

    /// The subscriptions once the filter of one has counted a decision.
    pub open spec fn counted(self, id: usize, passed: bool) -> Map<usize, SubscriptionView> {
        Map::new(
            |k: usize| self.subscriptions.contains_key(k),
            |k: usize|
                if self.share_filter(id, k) {
                    SubscriptionView {
                        filter: ObjectFilterView {
                            stats: self.subscriptions[k].filter.stats.counted(passed),
                            ..self.subscriptions[k].filter
                        },
                        ..self.subscriptions[k]
                    }
                } else {
                    self.subscriptions[k]
                },
        )
    }

    /// The pipeline once an object was decided on for a subscription.
    pub open spec fn after_object(self, id: usize, obj: ObjectInfoView) -> FilterPipelineView {
        if self.enabled && self.config.object_enabled && self.subscriptions.contains_key(id) {
            FilterPipelineView {
                subscriptions: self.counted(id, self.subscriptions[id].filter.passes(obj)),
                ..self
            }
        } else {
            self
        }
    }

    /// The pipeline once the metric of a track was taken in.
    pub open spec fn after_metric(
        self,
        id: (Seq<Seq<u8>>, Seq<char>),
        extensions: Seq<(u64, u64)>,
        smoothed: u64,
        now_ms: u64,
    ) -> FilterPipelineView {
        match self.topn {
            Some(filter) => if topn::metric_in(
                extensions,
                filter.config.metric_extension_type,
            ) is Some {
                FilterPipelineView {
                    topn: Some(
                        filter.with_metric(
                            TrackMetricView { id, average: smoothed, last_update_ms: now_ms },
                        ),
                    ),
                    ..self
                }
            } else {
                self
            },
            None => self,
        }
    }

    /// The pipeline once the metric of an object, if it has extensions, was taken in.
    pub open spec fn after_some_metric(
        self,
        id: (Seq<Seq<u8>>, Seq<char>),
        extensions: Option<&[(u64, u64)]>,
        input: MetricInput,
    ) -> FilterPipelineView {
        match extensions {
            Some(extensions) => self.after_metric(
                id,
                extensions@,
                input.smoothed,
                input.now_ms,
            ),
            None => self,
        }
    }

    /// There is one score for each track of the top-N filter.
    pub open spec fn scores_fit(self, scores: Seq<u64>) -> bool {
        self.topn matches Some(filter) ==> scores.len() == filter.tracks.len()
    }

    /// `after` is the pipeline once the top-N filter has decided on an object of a track.
    pub open spec fn topn_decides(
        self,
        id: (Seq<Seq<u8>>, Seq<char>),
        scores: Seq<u64>,
        now_ms: u64,
        passed: bool,
        after: FilterPipelineView,
    ) -> bool {
        match self.topn {
            Some(filter) => {
                &&& after.topn is Some
                &&& filter.forwards(id, scores, now_ms, passed, after.topn->0)
                &&& after == (FilterPipelineView { topn: after.topn, ..self })
            },
            None => passed && after == self,
        }
    }

    /// The groups that share a filter.
    pub open spec fn groups(self) -> Set<u64> {
        Set::new(|g: u64| self.uses_group(g))
    }

    /// A subscription is in the group.
    pub open spec fn uses_group(self, group: u64) -> bool {
        exists|id: usize| #[trigger]
            self.subscriptions.contains_key(id) && self.subscriptions[id].group == Some(group)
    }

    /// The filter is the one that a subscription with these parameters gets.
    pub open spec fn makes_filter(
        self,
        params: ObjectFilterParams,
        filter: ObjectFilterView,
    ) -> bool {
        exists|made: ObjectFilterView| #[trigger]
            self.describes(params, made) && filter == (ObjectFilterView {
                enabled: self.config.object_enabled,
                ..made
            })
    }

    /// The parameters describe the filter.
    pub open spec fn describes(self, params: ObjectFilterParams, made: ObjectFilterView) -> bool {
        if self.config.stats_enabled {
            object::made_with_stats(params, made)
        } else {
            object::made_from(params, made)
        }
    }

    /// The pipeline with a subscription added.
    pub open spec fn with_subscription(
        self,
        id: usize,
        subscription: SubscriptionView,
    ) -> FilterPipelineView {
        FilterPipelineView {
            subscriptions: self.subscriptions.insert(id, subscription),
            ..self
        }
    }

    /// The subscriptions with all counters at zero.
    pub open spec fn subscriptions_reset(self) -> Map<usize, SubscriptionView> {
        self.subscriptions.map_values(
            |s: SubscriptionView|
                SubscriptionView {
                    filter: ObjectFilterView {
                        stats: FilterStats::zero(s.filter.stats.enabled),
                        ..s.filter
                    },
                    ..s
                },
        )
    }

    /// The filters of all subscriptions are on if their stage is, and subscriptions of one
    /// group have one filter.
    pub open spec fn is_consistent(self) -> bool {
        &&& forall|id: usize| #[trigger]
            self.subscriptions.contains_key(id) ==> self.subscriptions[id].filter.enabled
                == self.config.object_enabled
        &&& forall|a: usize, b: usize|
            #![trigger self.subscriptions[a], self.subscriptions[b]]
            self.subscriptions.contains_key(a) && self.subscriptions.contains_key(b)
                && self.share_filter(a, b) ==> self.subscriptions[a].filter
                == self.subscriptions[b].filter
    }

    /// The counters of the first `n` of these subscriptions taken together.
    pub open spec fn merged_stats(self, keys: Seq<usize>, n: int) -> FilterStatsSnapshot
        decreases n,
    {
        if n <= 0 {
            FilterStats::zero(false).now()
        } else {
            self.merged_stats(keys, n - 1).merged(
                self.subscriptions[keys[n - 1]].filter.stats.now(),
            )
        }
    }

    /// The counters of these subscriptions can be added up.
    pub open spec fn stats_add_up(self, keys: Seq<usize>) -> bool {
        forall|n: int|
            0 <= n < keys.len() ==> (#[trigger] self.merged_stats(keys, n)).adds_up(
                self.subscriptions[keys[n]].filter.stats.now(),
            )
    }

    /// `keys` lists the ids of all subscriptions in ascending order.
    pub open spec fn lists_subscriptions(self, keys: Seq<usize>) -> bool {
        is_ascending(keys) && keys.to_set() == self.subscriptions.dom()
    }

    /// The bytes that the filters of the first `n` of these subscriptions take.
    pub open spec fn filter_bytes(self, keys: Seq<usize>, n: int) -> nat
        decreases n,
    {
        if n <= 0 {
            0
        } else {
            self.filter_bytes(keys, n - 1) + object::memory_estimate(
                self.subscriptions[keys[n - 1]].filter,
            )
        }
    }

    /// The memory estimate over listings of the extension types and the subscriptions.
    pub open spec fn memory_estimate(self, types: Seq<u64>, keys: Seq<usize>) -> nat {
        vstd::layout::size_of::<FilterPipeline>() + track_ext::memory_estimate(
            self.track_ext,
            types,
        ) + track::memory_estimate(self.track) + self.filter_bytes(keys, keys.len() as int)
    }
}

/// The filter stages put together.
pub struct FilterPipeline {
    config: FilterConfig,
    track_ext_filter: TrackExtensionFilter,
    track_filter: TrackFilter,
    /// The group of each subscription; none if it has a filter of its own.
    subscriptions: Slab<Option<u64>>,
    /// The filters of subscriptions without a group.
    own_filters: FxHashMap<u64, ObjectFilter>,
    /// The filters that groups share.
    filter_groups: FxHashMap<u64, ObjectFilter>,
    topn_filter: Option<TopNFilter>,
    enabled: bool,
}

impl View for FilterPipeline {
    type V = FilterPipelineView;

    closed spec fn view(&self) -> FilterPipelineView {
        FilterPipelineView {
            config: self.config,
            track_ext: self.track_ext_filter@,
            track: self.track_filter@,
            subscriptions: subscriptions_view(
                entries(self.subscriptions),
                self.own_filters@,
                self.filter_groups@,
            ),
            topn: match self.topn_filter {
                Some(filter) => Some(filter@),
                None => None,
            },
            enabled: self.enabled,
        }
    }
}

/// The subscriptions that these entries and filters make up.
spec fn subscriptions_view(
    subs: Map<usize, Option<u64>>,
    own: Map<u64, ObjectFilter>,
    groups: Map<u64, ObjectFilter>,
) -> Map<usize, SubscriptionView> {
    Map::new(
        |k: usize| subs.contains_key(k),
        |k: usize|
            SubscriptionView {
                group: subs[k],
                filter: match subs[k] {
                    Some(group) => groups[group]@,
                    None => own[k as u64]@,
                },
            },
    )
}

/// A subscription is in the group.
spec fn in_use(subs: Map<usize, Option<u64>>, group: u64) -> bool {
    exists|k: usize| #[trigger] subs.contains_key(k) && subs[k] == Some(group)
}

/// Every subscription has its filter, and no filter is kept without a subscription.
spec fn filters_fit(
    subs: Map<usize, Option<u64>>,
    own: Map<u64, ObjectFilter>,
    groups: Map<u64, ObjectFilter>,
) -> bool {
    &&& subs.dom().finite()
    &&& forall|k: usize| #[trigger]
        subs.contains_key(k) && subs[k] is None ==> own.contains_key(k as u64)
    &&& forall|key: u64| #[trigger]
        own.contains_key(key) ==> key <= usize::MAX && subs.contains_key(key as usize)
            && subs[key as usize] is None && own[key].wf()
    &&& forall|group: u64| #[trigger] groups.contains_key(group) <==> in_use(subs, group)
    &&& forall|group: u64| #[trigger] groups.contains_key(group) ==> groups[group].wf()
}

/// The filters are on if the stage of object filters is.
spec fn filters_switched(
    own: Map<u64, ObjectFilter>,
    groups: Map<u64, ObjectFilter>,
    on: bool,
) -> bool {
    &&& forall|key: u64| #[trigger] own.contains_key(key) ==> own[key]@.enabled == on
    &&& forall|group: u64| #[trigger]
        groups.contains_key(group) ==> groups[group]@.enabled == on
}

impl FilterPipeline {
    pub closed spec fn wf(&self) -> bool {
        &&& self.track_ext_filter.wf()
        &&& self.track_filter.wf()
        &&& filters_fit(entries(self.subscriptions), self.own_filters@, self.filter_groups@)
        &&& filters_switched(self.own_filters@, self.filter_groups@, self.config.object_enabled)
        &&& (self.topn_filter matches Some(filter) ==> filter.wf())
    }

    /// A pipeline without subscriptions.
    pub fn new(config: FilterConfig, now_ms: u64) -> (r: Self)
        ensures
            r.wf(),
            r@ == FilterPipelineView::empty(config, now_ms),
    {
        let mut track_ext_filter = if config.stats_enabled {
            TrackExtensionFilter::with_stats()
        } else {
            TrackExtensionFilter::new()
        };
        let mut track_filter = if config.stats_enabled {
            TrackFilter::with_stats(TrackFilterMode::Denylist)
        } else {
            TrackFilter::new(TrackFilterMode::Denylist)
        };
        if !config.track_ext_enabled {
            track_ext_filter.disable();
        }
        if !config.track_enabled {
            track_filter.disable();
        }
        let topn_filter = if config.topn_enabled {
            Some(TopNFilter::new(config.topn_config, now_ms))
        } else {
            None
        };
        let r = FilterPipeline {
            config,
            track_ext_filter,
            track_filter,
            subscriptions: slab_new(),
            own_filters: fx_map_new(),
            filter_groups: fx_map_new(),
            topn_filter,
            enabled: true,
        };
        assert(r@ =~= FilterPipelineView::empty(config, now_ms));
        r
    }

    /// A pipeline with the usual settings.
    pub fn default_config(now_ms: u64) -> (r: Self)
        ensures
            r.wf(),
            r@ == FilterPipelineView::empty(FilterConfig::stages(true, true, true), now_ms),
    {
        Self::new(FilterConfig::default(), now_ms)
    }

    /// Turns the pipeline on.
    pub fn enable(&mut self)
        requires
            old(self).wf(),
        ensures
            final(self).wf(),
            final(self)@ == (FilterPipelineView { enabled: true, ..old(self)@ }),
    {
        self.enabled = true;
    }

    /// Turns the pipeline off: everything passes.
    pub fn disable(&mut self)
        requires
            old(self).wf(),
        ensures
            final(self).wf(),
            final(self)@ == (FilterPipelineView { enabled: false, ..old(self)@ }),
    {
        self.enabled = false;
    }

    /// Whether the pipeline is on.
    pub fn is_enabled(&self) -> (r: bool)
        ensures
            r == self@.enabled,
    {
        self.enabled
    }

    /// The settings.
    pub fn config(&self) -> (r: &FilterConfig)
        ensures
            *r == self@.config,
    {
        &self.config
    }

    /// The filter on track extensions.
    pub fn track_ext_filter(&self) -> (r: &TrackExtensionFilter)
        requires
            self.wf(),
        ensures
            r.wf(),
            r@ == self@.track_ext,
    {
        &self.track_ext_filter
    }

    /// The filter on track extensions, to be changed.
    pub fn track_ext_filter_mut(&mut self) -> (r: &mut TrackExtensionFilter)
        requires
            old(self).wf(),
        ensures
            r.wf(),
            r@ == old(self)@.track_ext,
            final(r).wf() ==> final(self).wf(),
            final(self)@ == (FilterPipelineView { track_ext: final(r)@, ..old(self)@ }),
    {
        &mut self.track_ext_filter
    }

    /// Decides on track extensions and counts the decision.
    pub fn filter_track_extensions(&mut self, extensions: &[(u64, u64)]) -> (r: bool)
        requires
            old(self).wf(),
        ensures
            final(self).wf(),
            r == old(self)@.passes_extensions(extensions@),
            final(self)@ == old(self)@.after_extensions(extensions@),
    {
        if !self.enabled || !self.config.track_ext_enabled {
            return true;
        }
        self.track_ext_filter.filter(extensions)
    }

    /// The filter on tracks.
    pub fn track_filter(&self) -> (r: &TrackFilter)
        requires
            self.wf(),
        ensures
            r.wf(),
            r@ == self@.track,
    {
        &self.track_filter
    }

    /// The filter on tracks, to be changed.
    pub fn track_filter_mut(&mut self) -> (r: &mut TrackFilter)
        requires
            old(self).wf(),
        ensures
            r.wf(),
            r@ == old(self)@.track,
            final(r).wf() ==> final(self).wf(),
            final(self)@ == (FilterPipelineView { track: final(r)@, ..old(self)@ }),
    {
        &mut self.track_filter
    }

    /// Decides on a track and counts the decision.
    pub fn filter_track(&mut self, namespace: &TrackNamespace, name: &str) -> (r: bool)
        requires
            old(self).wf(),
        ensures
            final(self).wf(),
            r == old(self)@.passes_track(namespace@, name@),
            final(self)@ == old(self)@.after_track(namespace@, name@),
    {
        if !self.enabled || !self.config.track_enabled {
            return true;
        }
        self.track_filter.filter(namespace, name)
    }
}

impl FilterPipeline {
    /// The filter for a subscription with these parameters.
    fn make_filter(&self, params: ObjectFilterParams) -> (r: ObjectFilter)
        requires
            object::params_in_order(params),
        ensures
            r.wf(),
            self@.makes_filter(params, r@),
    {
        let mut filter = if self.config.stats_enabled {
            let mut filter = ObjectFilter::with_stats();
            filter.apply_params(&params);
            filter
        } else {
            ObjectFilter::from_params(params)
        };
        assert(self@.describes(params, filter@));
        if !self.config.object_enabled {
            filter.disable();
        }
        filter
    }

    /// Registers a subscription with a filter of its own.
    pub fn register_subscription(&mut self, params: ObjectFilterParams) -> (r: SubscriptionId)
        requires
            old(self).wf(),
            object::params_in_order(params),
        ensures
            final(self).wf(),
            !old(self)@.subscriptions.contains_key(r),
            final(self)@.subscriptions.contains_key(r),
            old(self)@.makes_filter(params, final(self)@.subscriptions[r].filter),
            final(self)@ == old(self)@.with_subscription(
                r,
                SubscriptionView {
                    group: None,
                    filter: final(self)@.subscriptions[r].filter,
                },
            ),
    {
        let ghost before = self@;
        let ghost subs = entries(self.subscriptions);
        let filter = self.make_filter(params);
        let ghost made = filter@;
        let id: usize = slab_insert(&mut self.subscriptions, None);
        fx_map_insert(&mut self.own_filters, id as u64, filter);
        proof {
            let after = entries(self.subscriptions);
            assert(id as u64 as usize == id);
            assert forall|group: u64| #[trigger]
                self.filter_groups@.contains_key(group) <==> in_use(after, group) by {
                if in_use(subs, group) {
                    let k = choose|k: usize| #[trigger]
                        subs.contains_key(k) && subs[k] == Some(group);
                    assert(after.contains_key(k) && after[k] == Some(group));
                }
                if in_use(after, group) {
                    let k = choose|k: usize| #[trigger]
                        after.contains_key(k) && after[k] == Some(group);
                    assert(subs.contains_key(k));
                }
            }
            assert(self@ =~= before.with_subscription(
                id,
                SubscriptionView { group: None, filter: made },
            )) by {
                assert(self@.subscriptions =~= before.subscriptions.insert(
                    id,
                    SubscriptionView { group: None, filter: made },
                ));
            }
        }
        id
    }

    /// Registers a subscription that shares its filter with those of its group. The
    /// parameters count if it is the first of them.
    pub fn register_subscription_dedupe(
        &mut self,
        params: ObjectFilterParams,
        filter_hash: u64,
    ) -> (r: SubscriptionId)
        requires
            old(self).wf(),
            object::params_in_order(params),
        ensures
            final(self).wf(),
            !old(self)@.subscriptions.contains_key(r),
            final(self)@.subscriptions.contains_key(r),
            old(self)@.uses_group(filter_hash) ==> forall|id: usize|
                old(self)@.subscriptions.contains_key(id) && (
                #[trigger] old(self)@.subscriptions[id]).group == Some(filter_hash)
                    ==> old(self)@.subscriptions[id].filter
                    == final(self)@.subscriptions[r].filter,
            !old(self)@.uses_group(filter_hash) ==> old(self)@.makes_filter(
                params,
                final(self)@.subscriptions[r].filter,
            ),
            final(self)@ == old(self)@.with_subscription(
                r,
                SubscriptionView {
                    group: Some(filter_hash),
                    filter: final(self)@.subscriptions[r].filter,
                },
            ),
    {
        let ghost before = self@;
        let ghost subs = entries(self.subscriptions);
        let ghost groups = self.filter_groups@;
        proof {
            assert(before.uses_group(filter_hash) <==> in_use(subs, filter_hash)) by {
                if in_use(subs, filter_hash) {
                    let k = choose|k: usize| #[trigger]
                        subs.contains_key(k) && subs[k] == Some(filter_hash);
                    assert(before.subscriptions.contains_key(k)
                        && before.subscriptions[k].group == Some(filter_hash));
                }
                if before.uses_group(filter_hash) {
                    let k = choose|k: usize| #[trigger]
                        before.subscriptions.contains_key(k) && before.subscriptions[k].group
                            == Some(filter_hash);
                    assert(subs.contains_key(k) && subs[k] == Some(filter_hash));
                }
            }
        }
        if fx_map_get(&self.filter_groups, filter_hash).is_none() {
            let filter = self.make_filter(params);
            fx_map_insert(&mut self.filter_groups, filter_hash, filter);
        }
        let ghost shared = self.filter_groups@[filter_hash]@;
        let id: usize = slab_insert(&mut self.subscriptions, Some(filter_hash));
        proof {
            let after = entries(self.subscriptions);
            assert(after.contains_key(id) && after[id] == Some(filter_hash));
            assert forall|group: u64| #[trigger]
                self.filter_groups@.contains_key(group) <==> in_use(after, group) by {
                if in_use(subs, group) {
                    let k = choose|k: usize| #[trigger]
                        subs.contains_key(k) && subs[k] == Some(group);
                    assert(after.contains_key(k) && after[k] == Some(group));
                }
                if in_use(after, group) {
                    let k = choose|k: usize| #[trigger]
                        after.contains_key(k) && after[k] == Some(group);
                    if k != id {
                        assert(subs.contains_key(k) && subs[k] == Some(group));
                    }
                }
                assert(groups.contains_key(group) <==> in_use(subs, group));
            }
            assert(self@.subscriptions =~= before.subscriptions.insert(
                id,
                SubscriptionView { group: Some(filter_hash), filter: shared },
            )) by {
                assert forall|k: usize| #[trigger] subs.contains_key(k) implies
                    self@.subscriptions[k] == before.subscriptions[k] by {
                    if subs[k] == Some(filter_hash) {
                        assert(in_use(subs, filter_hash));
                    }
                }
            }
        }
        id
    }

    /// Takes a subscription out, and the filter of its group if it was the last one there.
    pub fn unregister_subscription(&mut self, sub_id: SubscriptionId)
        requires
            old(self).wf(),
        ensures
            final(self).wf(),
            final(self)@ == (FilterPipelineView {
                subscriptions: old(self)@.subscriptions.remove(sub_id),
                ..old(self)@
            }),
    {
        let ghost before = self@;
        let ghost subs = entries(self.subscriptions);
        let removed: Option<Option<u64>> = slab_try_remove(&mut self.subscriptions, sub_id);
        let ghost after = entries(self.subscriptions);
        match removed {
            None => {
                assert(after =~= subs);
                assert(self@.subscriptions =~= before.subscriptions.remove(sub_id));
            },
            Some(None) => {
                let ghost own = self.own_filters@;
                fx_map_remove(&mut self.own_filters, sub_id as u64);
                proof {
                    assert(sub_id as u64 as usize == sub_id);
                    assert forall|key: u64| #[trigger]
                        self.own_filters@.contains_key(key) implies key <= usize::MAX
                        && after.contains_key(key as usize) && after[key as usize] is None
                        && self.own_filters@[key].wf() by {
                        assert(own.contains_key(key));
                        assert(key as usize as u64 == key);
                    }
                    lemma_groups_kept(subs, after, sub_id);
                    assert(self@.subscriptions =~= before.subscriptions.remove(sub_id));
                }
            },
            Some(Some(group)) => {
                let still_used = self.group_in_use(group);
                if !still_used {
                    fx_map_remove(&mut self.filter_groups, group);
                }
                proof {
                    assert forall|other: u64| #[trigger]
                        self.filter_groups@.contains_key(other) <==> in_use(after, other) by {
                        if in_use(after, other) {
                            let k = choose|k: usize| #[trigger]
                                after.contains_key(k) && after[k] == Some(other);
                            assert(subs.contains_key(k) && subs[k] == Some(other));
                            assert(in_use(subs, other));
                        }
                        if other != group && in_use(subs, other) {
                            let k = choose|k: usize| #[trigger]
                                subs.contains_key(k) && subs[k] == Some(other);
                            assert(after.contains_key(k) && after[k] == Some(other));
                        }
                    }
                    assert forall|k: usize| #[trigger] after.contains_key(k) implies
                        self@.subscriptions[k] == before.subscriptions[k] by {
                        if after[k] == Some(group) {
                            assert(in_use(after, group));
                        }
                    }
                    assert(self@.subscriptions =~= before.subscriptions.remove(sub_id));
                }
            },
        }
    }

    /// Whether a subscription is in a group.
    fn group_in_use(&self, group: u64) -> (r: bool)
        ensures
            r == in_use(entries(self.subscriptions), group),
    {
        let keys: Vec<usize> = slab_keys(&self.subscriptions);
        let ghost subs = entries(self.subscriptions);
        let mut i: usize = 0;
        while i < keys.len()
            invariant
                i <= keys@.len(),
                subs == entries(self.subscriptions),
                keys@.to_set() == subs.dom(),
                forall|k: int| 0 <= k < i ==> subs[#[trigger] keys@[k]] != Some(group),
            decreases keys@.len() - i,
        {
            assert(keys@.to_set().contains(keys@[i as int]));
            if let Some(Some(g)) = slab_get(&self.subscriptions, keys[i]) {
                if g == group {
                    assert(subs.contains_key(keys@[i as int]));
                    return true;
                }
            }
            i += 1;
        }
        proof {
            if in_use(subs, group) {
                let k = choose|k: usize| #[trigger]
                    subs.contains_key(k) && subs[k] == Some(group);
                assert(keys@.to_set().contains(k));
                let at = choose|at: int| 0 <= at < keys@.len() && keys@[at] == k;
                assert(subs[keys@[at]] != Some(group));
            }
        }
        false
    }

    /// The object filter of a subscription.
    pub fn get_object_filter(&self, sub_id: SubscriptionId) -> (r: Option<&ObjectFilter>)
        requires
            self.wf(),
        ensures
            match r {
                Some(filter) => self@.subscriptions.contains_key(sub_id) && filter.wf()
                    && filter@ == self@.subscriptions[sub_id].filter,
                None => !self@.subscriptions.contains_key(sub_id),
            },
    {
        match slab_get(&self.subscriptions, sub_id) {
            None => None,
            Some(None) => {
                assert(entries(self.subscriptions).contains_key(sub_id));
                fx_map_get(&self.own_filters, sub_id as u64)
            },
            Some(Some(group)) => {
                assert(in_use(entries(self.subscriptions), group)) by {
                    assert(entries(self.subscriptions).contains_key(sub_id));
                }
                assert(self.filter_groups@.contains_key(group));
                fx_map_get(&self.filter_groups, group)
            },
        }
    }

    /// Decides on an object for a subscription and counts the decision.
    pub fn filter_object(&mut self, sub_id: SubscriptionId, obj: &ObjectInfo) -> (r: bool)
        requires
            old(self).wf(),
        ensures
            final(self).wf(),
            r == old(self)@.passes_object(sub_id, obj@),
            final(self)@ == old(self)@.after_object(sub_id, obj@),
    {
        if !self.enabled || !self.config.object_enabled {
            return true;
        }
        let ghost before = self@;
        let ghost subs = entries(self.subscriptions);
        match slab_get(&self.subscriptions, sub_id) {
            None => true,
            Some(None) => {
                assert(subs.contains_key(sub_id));
                let ghost own = self.own_filters@;
                match fx_map_remove(&mut self.own_filters, sub_id as u64) {
                    None => true,
                    Some(mut filter) => {
                        assert(own.contains_key(sub_id as u64));
                        let passed = filter.filter(obj);
                        let ghost counted = filter@;
                        fx_map_insert(&mut self.own_filters, sub_id as u64, filter);
                        proof {
                            assert(sub_id as u64 as usize == sub_id);
                            assert forall|key: u64| #[trigger]
                                self.own_filters@.contains_key(key) implies key <= usize::MAX
                                && subs.contains_key(key as usize) && subs[key as usize] is None
                                && self.own_filters@[key].wf() by {
                                if key != sub_id as u64 {
                                    assert(own.contains_key(key));
                                }
                            }
                            assert(self@.subscriptions =~= before.counted(sub_id, passed));
                            assert(self@ =~= before.after_object(sub_id, obj@));
                        }
                        passed
                    },
                }
            },
            Some(Some(group)) => {
                proof {
                    assert(subs.contains_key(sub_id));
                    assert(in_use(subs, group));
                    assert(self.filter_groups@.contains_key(group));
                }
                let ghost groups = self.filter_groups@;
                match fx_map_remove(&mut self.filter_groups, group) {
                    None => true,
                    Some(mut filter) => {
                        let passed = filter.filter(obj);
                        fx_map_insert(&mut self.filter_groups, group, filter);
                        proof {
                            assert forall|other: u64| #[trigger]
                                self.filter_groups@.contains_key(other) <==> in_use(
                                subs,
                                other,
                            ) by {
                                assert(groups.contains_key(other) <==> in_use(subs, other));
                            }
                            assert(self@.subscriptions =~= before.counted(sub_id, passed));
                            assert(self@ =~= before.after_object(sub_id, obj@));
                        }
                        passed
                    },
                }
            },
        }
    }
}

/// Without a subscription that is in no group the same groups are in use.
proof fn lemma_groups_kept(
    subs: Map<usize, Option<u64>>,
    after: Map<usize, Option<u64>>,
    id: usize,
)
    requires
        after == subs.remove(id),
        subs.contains_key(id) ==> subs[id] is None,
    ensures
        forall|group: u64| #[trigger] in_use(after, group) <==> in_use(subs, group),
{
    assert forall|group: u64| #[trigger] in_use(after, group) <==> in_use(subs, group) by {
        if in_use(subs, group) {
            let k = choose|k: usize| #[trigger] subs.contains_key(k) && subs[k] == Some(group);
            assert(after.contains_key(k) && after[k] == Some(group));
        }
        if in_use(after, group) {
            let k = choose|k: usize| #[trigger] after.contains_key(k) && after[k] == Some(group);
            assert(subs.contains_key(k) && subs[k] == Some(group));
        }
    }
}

impl FilterPipeline {
    /// The top-N filter, if there is one.
    pub fn topn_filter(&self) -> (r: Option<&TopNFilter>)
        requires
            self.wf(),
        ensures
            match r {
                Some(filter) => filter.wf() && self@.topn == Some(filter@),
                None => self@.topn is None,
            },
    {
        self.topn_filter.as_ref()
    }

    /// Whether there is a top-N filter.
    pub fn is_topn_enabled(&self) -> (r: bool)
        ensures
            r == self@.topn is Some,
    {
        self.topn_filter.is_some()
    }

    /// Takes the metric of a track in, if the extensions carry it. `smoothed` is the average
    /// of the track with it taken in.
    pub fn update_topn_metric(
        &mut self,
        namespace: &TrackNamespace,
        track_name: &String,
        extensions: &[(u64, u64)],
        smoothed: u64,
        now_ms: u64,
    ) -> (r: Option<u64>)
        requires
            old(self).wf(),
        ensures
            final(self).wf(),
            r == match old(self)@.topn {
                Some(filter) => topn::metric_in(
                    extensions@,
                    filter.config.metric_extension_type,
                ),
                None => None,
            },
            final(self)@ == old(self)@.after_metric(
                (namespace@, track_name@),
                extensions@,
                smoothed,
                now_ms,
            ),
    {
        match self.topn_filter.take() {
            None => None,
            Some(mut filter) => {
                let r = filter.update_metric(
                    namespace,
                    track_name,
                    extensions,
                    smoothed,
                    now_ms,
                );
                self.topn_filter = Some(filter);
                r
            },
        }
    }

    /// Decides whether an object of a track is among the best, from the scores of the
    /// tracks in order. Without a top-N filter it is.
    pub fn filter_topn(
        &mut self,
        namespace: &TrackNamespace,
        track_name: &String,
        scores: &Vec<u64>,
        now_ms: u64,
    ) -> (r: bool)
        requires
            old(self).wf(),
            old(self)@.scores_fit(scores@),
        ensures
            final(self).wf(),
            old(self)@.topn_decides(
                (namespace@, track_name@),
                scores@,
                now_ms,
                r,
                final(self)@,
            ),
    {
        match self.topn_filter.take() {
            None => true,
            Some(mut filter) => {
                let r = filter.should_forward(namespace, track_name, scores, now_ms);
                self.topn_filter = Some(filter);
                r
            },
        }
    }

    /// The counts of the top-N filter, if there is one.
    pub fn topn_stats(&self) -> (r: Option<TopNStats>)
        ensures
            match self@.topn {
                Some(filter) => r matches Some(stats) && counts_of(filter, stats),
                None => r is None,
            },
    {
        match &self.topn_filter {
            Some(filter) => Some(filter.stats()),
            None => None,
        }
    }

    /// Decides whether an object is forwarded to a subscription: the track extensions, if
    /// there are any, and the object must pass.
    pub fn should_forward(
        &mut self,
        sub_id: SubscriptionId,
        obj: &ObjectInfo,
        track_extensions: Option<&[(u64, u64)]>,
    ) -> (r: bool)
        requires
            old(self).wf(),
        ensures
            final(self).wf(),
            r == (old(self)@.passes_some_extensions(track_extensions)
                && old(self)@.passes_object(sub_id, obj@)),
            final(self)@ == ({
                let checked = old(self)@.after_some_extensions(track_extensions);
                if old(self)@.passes_some_extensions(track_extensions) {
                    checked.after_object(sub_id, obj@)
                } else {
                    checked
                }
            }),
    {
        if !self.enabled {
            return true;
        }
        if !self.check_extensions(track_extensions) {
            return false;
        }
        self.filter_object(sub_id, obj)
    }

    /// Decides on the extensions of a track, if it has any, and counts the decision.
    fn check_extensions(&mut self, track_extensions: Option<&[(u64, u64)]>) -> (r: bool)
        requires
            old(self).wf(),
        ensures
            final(self).wf(),
            r == old(self)@.passes_some_extensions(track_extensions),
            final(self)@ == old(self)@.after_some_extensions(track_extensions),
    {
        match track_extensions {
            Some(extensions) => self.filter_track_extensions(extensions),
            None => true,
        }
    }

    /// As `should_forward`, and the object must be of one of the best tracks too.
    pub fn should_forward_with_topn(
        &mut self,
        sub_id: SubscriptionId,
        obj: &ObjectInfo,
        namespace: &TrackNamespace,
        track_name: &String,
        track_extensions: Option<&[(u64, u64)]>,
        input: &MetricInput,
    ) -> (r: bool)
        requires
            old(self).wf(),
            old(self)@.after_some_metric(
                (namespace@, track_name@),
                track_extensions,
                *input,
            ).scores_fit(input.scores@),
        ensures
            final(self).wf(),
            ({
                let before = old(self)@;
                let id = (namespace@, track_name@);
                let checked = before.after_some_extensions(track_extensions);
                if !before.enabled {
                    r && final(self)@ == before
                } else if !before.passes_some_extensions(track_extensions) {
                    !r && final(self)@ == checked
                } else if !before.passes_object(sub_id, obj@) {
                    !r && final(self)@ == checked.after_object(sub_id, obj@)
                } else {
                    checked.after_object(sub_id, obj@).after_some_metric(
                        id,
                        track_extensions,
                        *input,
                    ).topn_decides(id, input.scores@, input.now_ms, r, final(self)@)
                }
            }),
    {
        if !self.enabled {
            return true;
        }
        if !self.check_extensions(track_extensions) {
            return false;
        }
        if !self.filter_object(sub_id, obj) {
            return false;
        }
        if let Some(extensions) = track_extensions {
            self.update_topn_metric(
                namespace,
                track_name,
                extensions,
                input.smoothed,
                input.now_ms,
            );
        }
        self.filter_topn(namespace, track_name, &input.scores, input.now_ms)
    }

    /// Those of the subscriptions whose filters let an object pass, in order.
    fn passing(&self, subscriptions: &[SubscriptionId], obj: &ObjectInfo) -> (r: Vec<
        SubscriptionId,
    >)
        requires
            self.wf(),
        ensures
            r@ == subscriptions@.filter(|id: usize| self@.filter_passes(id, obj@)),
    {
        let ghost keep = |id: usize| self@.filter_passes(id, obj@);
        let ghost all = subscriptions@;
        let n: usize = subscriptions.len();
        let mut out: Vec<usize> = Vec::new();
        assert(all.take(0).filter(keep) =~= out@) by {
            reveal(Seq::filter);
        }
        let mut i: usize = 0;
        while i < n
            invariant
                i <= n,
                n == all.len(),
                all == subscriptions@,
                self.wf(),
                keep == (|id: usize| self@.filter_passes(id, obj@)),
                out@ == all.take(i as int).filter(keep),
            decreases n - i,
        {
            proof {
                reveal(Seq::filter);
                assert(all.take(i + 1).drop_last() =~= all.take(i as int));
            }
            let id: usize = subscriptions[i];
            let passed = match self.get_object_filter(id) {
                Some(filter) => filter.matches(obj),
                None => true,
            };
            assert(passed == keep(id));
            if passed {
                out.push(id);
            }
            i += 1;
        }
        assert(all.take(n as int) =~= all);
        out
    }

    /// A copy of a list of ids.
    fn copy_ids(subscriptions: &[SubscriptionId]) -> (r: Vec<SubscriptionId>)
        ensures
            r@ == subscriptions@,
    {
        let n: usize = subscriptions.len();
        let mut out: Vec<usize> = Vec::new();
        let mut i: usize = 0;
        while i < n
            invariant
                i <= n,
                n == subscriptions@.len(),
                out@ == subscriptions@.take(i as int),
            decreases n - i,
        {
            assert(subscriptions@.take(i + 1) =~= subscriptions@.take(i as int).push(
                subscriptions@[i as int],
            ));
            out.push(subscriptions[i]);
            i += 1;
        }
        assert(subscriptions@.take(n as int) =~= subscriptions@);
        out
    }

    /// Those of the subscriptions that an object is forwarded to. The decision on track
    /// extensions is made once, and the decisions of the object filters are not counted.
    pub fn filter_batch(
        &mut self,
        subscriptions: &[SubscriptionId],
        obj: &ObjectInfo,
        track_extensions: Option<&[(u64, u64)]>,
    ) -> (r: Vec<SubscriptionId>)
        requires
            old(self).wf(),
        ensures
            final(self).wf(),
            final(self)@ == old(self)@.after_some_extensions(track_extensions),
            r@ == if !old(self)@.enabled {
                subscriptions@
            } else if !old(self)@.passes_some_extensions(track_extensions) {
                Seq::empty()
            } else {
                subscriptions@.filter(|id: usize| old(self)@.filter_passes(id, obj@))
            },
    {
        if !self.enabled {
            return Self::copy_ids(subscriptions);
        }
        let ghost before = self@;
        if !self.check_extensions(track_extensions) {
            return Vec::new();
        }
        proof {
            lemma_same_passing(before, self@, subscriptions@, obj@);
        }
        self.passing(subscriptions, obj)
    }

    /// As `filter_batch`, and the object must be of one of the best tracks too.
    pub fn filter_batch_with_topn(
        &mut self,
        subscriptions: &[SubscriptionId],
        obj: &ObjectInfo,
        namespace: &TrackNamespace,
        track_name: &String,
        track_extensions: Option<&[(u64, u64)]>,
        input: &MetricInput,
    ) -> (r: Vec<SubscriptionId>)
        requires
            old(self).wf(),
            old(self)@.after_some_metric(
                (namespace@, track_name@),
                track_extensions,
                *input,
            ).scores_fit(input.scores@),
        ensures
            final(self).wf(),
            ({
                let before = old(self)@;
                let id = (namespace@, track_name@);
                let checked = before.after_some_extensions(track_extensions);
                if !before.enabled {
                    r@ == subscriptions@ && final(self)@ == before
                } else if !before.passes_some_extensions(track_extensions) {
                    r@ == Seq::<usize>::empty() && final(self)@ == checked
                } else {
                    exists|passed: bool| #[trigger]
                        checked.after_some_metric(
                            id,
                            track_extensions,
                            *input,
                        ).topn_decides(id, input.scores@, input.now_ms, passed, final(self)@)
                            && r@ == if passed {
                            subscriptions@.filter(|id: usize| before.filter_passes(id, obj@))
                        } else {
                            Seq::empty()
                        }
                }
            }),
    {
        if !self.enabled {
            return Self::copy_ids(subscriptions);
        }
        let ghost before = self@;
        if !self.check_extensions(track_extensions) {
            return Vec::new();
        }
        if let Some(extensions) = track_extensions {
            self.update_topn_metric(
                namespace,
                track_name,
                extensions,
                input.smoothed,
                input.now_ms,
            );
        }
        let ghost measured = self@;
        let passed = self.filter_topn(namespace, track_name, &input.scores, input.now_ms);
        assert(measured.topn_decides(
            (namespace@, track_name@),
            input.scores@,
            input.now_ms,
            passed,
            self@,
        ));
        if !passed {
            return Vec::new();
        }
        proof {
            lemma_same_passing(before, self@, subscriptions@, obj@);
        }
        self.passing(subscriptions, obj)
    }
}

/// The counts are those of the top-N filter.
pub open spec fn counts_of(filter: TopNFilterView, stats: TopNStats) -> bool {
    &&& stats.objects_processed == filter.objects_processed
    &&& stats.objects_filtered == filter.objects_filtered
    &&& stats.tracks_monitored == filter.tracks.len()
    &&& stats.current_top_n == filter.top.len()
}

/// With the same subscriptions the same ones let an object pass.
proof fn lemma_same_passing(
    a: FilterPipelineView,
    b: FilterPipelineView,
    ids: Seq<usize>,
    obj: ObjectInfoView,
)
    requires
        a.subscriptions == b.subscriptions,
    ensures
        ids.filter(|id: usize| a.filter_passes(id, obj)) == ids.filter(
            |id: usize| b.filter_passes(id, obj),
        ),
{
    assert((|id: usize| a.filter_passes(id, obj)) =~= (|id: usize| b.filter_passes(id, obj)));
}

/// The counts of all stages.
#[derive(Clone, Copy, Debug, PartialEq, Eq, Structural)]
pub struct PipelineReport {
    pub track_ext: FilterStatsSnapshot,
    pub track: FilterStatsSnapshot,
    /// Of the object filters of all subscriptions taken together.
    pub object: FilterStatsSnapshot,
    pub topn: Option<TopNStats>,
}

impl Default for PipelineReport {
    fn default() -> (r: Self)
        ensures
            r.track_ext == FilterStats::zero(false).now(),
            r.track == FilterStats::zero(false).now(),
            r.object == FilterStats::zero(false).now(),
            r.topn is None,
    {
        PipelineReport {
            track_ext: FilterStatsSnapshot::default(),
            track: FilterStatsSnapshot::default(),
            object: FilterStatsSnapshot::default(),
            topn: None,
        }
    }
}

impl PipelineReport {
    /// The number of decisions.
    pub open spec fn processed(self) -> int {
        self.track_ext.passed + self.track_ext.filtered + self.track.passed + self.track.filtered
            + self.object.passed + self.object.filtered
    }

    /// How many decisions all stages made.
    pub fn total_processed(&self) -> (r: u64)
        requires
            self.processed() <= u64::MAX,
        ensures
            r == self.processed(),
    {
        self.track_ext.total() + self.track.total() + self.object.total()
    }

    /// How many items all stages held back.
    pub fn total_filtered(&self) -> (r: u64)
        requires
            self.track_ext.filtered + self.track.filtered + self.object.filtered <= u64::MAX,
        ensures
            r == self.track_ext.filtered + self.track.filtered + self.object.filtered,
    {
        self.track_ext.filtered + self.track.filtered + self.object.filtered
    }
}

impl FilterPipeline {
    /// The ids of all subscriptions in ascending order.
    fn subscription_ids(&self) -> (r: Vec<usize>)
        ensures
            self@.lists_subscriptions(r@),
    {
        let keys: Vec<usize> = slab_keys(&self.subscriptions);
        assert(self@.subscriptions.dom() =~= entries(self.subscriptions).dom());
        keys
    }

    /// The counts of all stages. A filter that several subscriptions share counts for each
    /// of them.
    pub fn report(&self) -> (r: PipelineReport)
        requires
            self.wf(),
            forall|keys: Seq<usize>| #[trigger]
                self@.lists_subscriptions(keys) ==> self@.stats_add_up(keys),
        ensures
            r.track_ext == self@.track_ext.stats.now(),
            r.track == self@.track.stats.now(),
            exists|keys: Seq<usize>| #[trigger]
                self@.lists_subscriptions(keys) && r.object == self@.merged_stats(
                    keys,
                    keys.len() as int,
                ),
            match self@.topn {
                Some(filter) => r.topn matches Some(stats) && counts_of(filter, stats),
                None => r.topn is None,
            },
    {
        let keys: Vec<usize> = self.subscription_ids();
        let mut object = FilterStatsSnapshot::default();
        let mut i: usize = 0;
        while i < keys.len()
            invariant
                i <= keys@.len(),
                self.wf(),
                self@.lists_subscriptions(keys@),
                self@.stats_add_up(keys@),
                object == self@.merged_stats(keys@, i as int),
            decreases keys@.len() - i,
        {
            proof {
                assert(keys@.to_set().contains(keys@[i as int]));
                assert(self@.subscriptions.contains_key(keys@[i as int]));
            }
            if let Some(filter) = self.get_object_filter(keys[i]) {
                assert(self@.merged_stats(keys@, i as int).adds_up(filter@.stats.now()));
                object.merge(&filter.stats_snapshot());
            }
            i += 1;
        }
        PipelineReport {
            track_ext: self.track_ext_filter.stats_snapshot(),
            track: self.track_filter.stats_snapshot(),
            object,
            topn: self.topn_stats(),
        }
    }

    /// Sets the counters of all stages to zero.
    pub fn reset_stats(&mut self)
        requires
            old(self).wf(),
        ensures
            final(self).wf(),
            final(self)@ == (FilterPipelineView {
                track_ext: TrackExtensionFilterView {
                    stats: FilterStats::zero(old(self)@.track_ext.stats.enabled),
                    ..old(self)@.track_ext
                },
                track: TrackFilterView {
                    stats: FilterStats::zero(old(self)@.track.stats.enabled),
                    ..old(self)@.track
                },
                subscriptions: old(self)@.subscriptions_reset(),
                topn: match old(self)@.topn {
                    Some(filter) => Some(
                        TopNFilterView { objects_processed: 0, objects_filtered: 0, ..filter },
                    ),
                    None => None,
                },
                ..old(self)@
            }),
    {
        let ghost before = self@;
        let ghost own = self.own_filters@;
        let ghost groups = self.filter_groups@;
        self.track_ext_filter.reset_stats();
        self.track_filter.reset_stats();
        reset_filters(&mut self.own_filters);
        reset_filters(&mut self.filter_groups);
        match self.topn_filter.take() {
            None => {},
            Some(mut filter) => {
                filter.reset_stats();
                self.topn_filter = Some(filter);
            },
        }
        proof {
            let subs = entries(self.subscriptions);
            assert forall|key: u64| #[trigger]
                self.own_filters@.contains_key(key) implies key <= usize::MAX
                && subs.contains_key(key as usize) && subs[key as usize] is None
                && self.own_filters@[key].wf() && self.own_filters@[key]@.enabled
                == self.config.object_enabled by {
                assert(own.contains_key(key));
                assert(is_reset(own[key]@, self.own_filters@[key]@));
            }
            assert forall|group: u64| #[trigger]
                self.filter_groups@.contains_key(group) implies self.filter_groups@[group].wf()
                && self.filter_groups@[group]@.enabled == self.config.object_enabled by {
                assert(groups.contains_key(group));
                assert(is_reset(groups[group]@, self.filter_groups@[group]@));
            }
            assert forall|group: u64| #[trigger]
                self.filter_groups@.contains_key(group) <==> in_use(subs, group) by {
                assert(groups.contains_key(group) <==> in_use(subs, group));
            }
            assert forall|k: usize| #[trigger] subs.contains_key(k) implies
                self@.subscriptions[k] == before.subscriptions_reset()[k] by {
                match subs[k] {
                    Some(group) => {
                        assert(in_use(subs, group));
                        assert(groups.contains_key(group));
                        assert(is_reset(groups[group]@, self.filter_groups@[group]@));
                    },
                    None => {
                        assert(own.contains_key(k as u64));
                        assert(is_reset(own[k as u64]@, self.own_filters@[k as u64]@));
                    },
                }
            }
            assert(self@.subscriptions =~= before.subscriptions_reset());
        }
    }

    /// The number of subscriptions.
    pub fn subscription_count(&self) -> (r: usize)
        ensures
            r == self@.subscriptions.dom().len(),
    {
        assert(self@.subscriptions.dom() =~= entries(self.subscriptions).dom());
        slab_len(&self.subscriptions)
    }

    /// The number of groups that share a filter.
    pub fn filter_group_count(&self) -> (r: usize)
        requires
            self.wf(),
        ensures
            r == self@.groups().len(),
    {
        proof {
            let subs = entries(self.subscriptions);
            assert forall|group: u64| self@.uses_group(group) <==> #[trigger]
                self.filter_groups@.contains_key(group) by {
                if in_use(subs, group) {
                    let k = choose|k: usize| #[trigger]
                        subs.contains_key(k) && subs[k] == Some(group);
                    assert(self@.subscriptions.contains_key(k));
                }
                if self@.uses_group(group) {
                    let k = choose|k: usize| #[trigger]
                        self@.subscriptions.contains_key(k) && self@.subscriptions[k].group
                            == Some(group);
                    assert(subs.contains_key(k));
                }
            }
            assert(self@.groups() =~= self.filter_groups@.dom());
        }
        fx_map_len(&self.filter_groups)
    }

    /// An estimate of the memory in use, in bytes.
    pub fn memory_usage(&self) -> (r: usize)
        requires
            self.wf(),
            forall|types: Seq<u64>, keys: Seq<usize>| #[trigger]
                track_ext::lists_all(types, self@.track_ext.matchers.dom())
                    && #[trigger] self@.lists_subscriptions(keys) ==> self@.memory_estimate(
                    types,
                    keys,
                ) <= usize::MAX,
        ensures
            exists|types: Seq<u64>, keys: Seq<usize>| #[trigger]
                track_ext::lists_all(types, self@.track_ext.matchers.dom())
                    && #[trigger] self@.lists_subscriptions(keys) && r == self@.memory_estimate(
                    types,
                    keys,
                ),
    {
        let keys: Vec<usize> = self.subscription_ids();
        let ghost ext = self.track_ext_filter@;
        assert(self@.track_ext == ext);
        assert forall|types: Seq<u64>|
            track_ext::lists_all(types, ext.matchers.dom()) implies (
        #[trigger] track_ext::memory_estimate(ext, types)) <= usize::MAX by {
            assert(self@.memory_estimate(types, keys@) <= usize::MAX);
        }
        let track_ext: usize = self.track_ext_filter.memory_usage();
        let ghost types = choose|types: Seq<u64>| #[trigger]
            track_ext::lists_all(types, ext.matchers.dom()) && track_ext
                == track_ext::memory_estimate(ext, types);
        assert(self@.memory_estimate(types, keys@) <= usize::MAX);
        let mut total: usize = std::mem::size_of::<FilterPipeline>() + track_ext;
        total += self.track_filter.memory_usage();
        let mut i: usize = 0;
        while i < keys.len()
            invariant
                i <= keys@.len(),
                self.wf(),
                self@.lists_subscriptions(keys@),
                self@.memory_estimate(types, keys@) <= usize::MAX,
                total + self@.filter_bytes(keys@, keys@.len() as int) == self@.memory_estimate(
                    types,
                    keys@,
                ) + self@.filter_bytes(keys@, i as int),
            decreases keys@.len() - i,
        {
            proof {
                assert(keys@.to_set().contains(keys@[i as int]));
                assert(self@.subscriptions.contains_key(keys@[i as int]));
                lemma_filter_bytes_grow(self@, keys@, i + 1);
            }
            if let Some(filter) = self.get_object_filter(keys[i]) {
                total += filter.memory_usage();
            }
            i += 1;
        }
        total
    }
}

/// The filters of some of the subscriptions take no more than those of all.
proof fn lemma_filter_bytes_grow(pipeline: FilterPipelineView, keys: Seq<usize>, n: int)
    requires
        0 <= n <= keys.len(),
    ensures
        pipeline.filter_bytes(keys, n) <= pipeline.filter_bytes(keys, keys.len() as int),
    decreases keys.len() - n,
{
    if n < keys.len() {
        lemma_filter_bytes_grow(pipeline, keys, n + 1);
    }
}

/// `after` is the filter with its counters at zero.
spec fn is_reset(before: ObjectFilterView, after: ObjectFilterView) -> bool {
    after == (ObjectFilterView { stats: FilterStats::zero(before.stats.enabled), ..before })
}

/// Sets the counters of all filters to zero.
fn reset_filters(filters: &mut FxHashMap<u64, ObjectFilter>)
    ensures
        final(filters)@.dom() == old(filters)@.dom(),
        forall|key: u64| #[trigger]
            old(filters)@.contains_key(key) ==> is_reset(
                old(filters)@[key]@,
                final(filters)@[key]@,
            ),
{
    let ghost before = filters@;
    let keys: Vec<u64> = fx_map_keys(filters);
    let mut i: usize = 0;
    while i < keys.len()
        invariant
            i <= keys@.len(),
            keys@.no_duplicates(),
            keys@.to_set() == before.dom(),
            filters@.dom() == before.dom(),
            forall|k: int|
                0 <= k < i ==> is_reset(
                    before[#[trigger] keys@[k]]@,
                    filters@[keys@[k]]@,
                ),
            forall|k: int|
                i <= k < keys@.len() ==> filters@[#[trigger] keys@[k]] == before[keys@[k]],
        decreases keys@.len() - i,
    {
        let ghost sofar = filters@;
        assert(keys@.to_set().contains(keys@[i as int]));
        if let Some(mut filter) = fx_map_remove(filters, keys[i]) {
            filter.reset_stats();
            fx_map_insert(filters, keys[i], filter);
        }
        assert(filters@.dom() =~= before.dom());
        i += 1;
    }
    assert forall|key: u64| #[trigger] before.contains_key(key) implies is_reset(
        before[key]@,
        filters@[key]@,
    ) by {
        assert(keys@.to_set().contains(key));
        let k = choose|k: int| 0 <= k < keys@.len() && keys@[k] == key;
        assert(is_reset(before[keys@[k]]@, filters@[keys@[k]]@));
    }
}

/// Every pipeline has its object filters switched with their stage, and one filter for
/// each group.
pub proof fn law_pipeline_is_consistent(pipeline: FilterPipeline)
    requires
        pipeline.wf(),
    ensures
        pipeline@.is_consistent(),
{
    let subs = entries(pipeline.subscriptions);
    assert forall|id: usize| #[trigger] pipeline@.subscriptions.contains_key(id) implies
        pipeline@.subscriptions[id].filter.enabled == pipeline@.config.object_enabled by {
        assert(subs.contains_key(id));
        match subs[id] {
            Some(group) => {
                assert(in_use(subs, group));
                assert(pipeline.filter_groups@.contains_key(group));
            },
            None => {
                assert(pipeline.own_filters@.contains_key(id as u64));
            },
        }
    }
}

/// A pipeline that is off lets everything pass and changes nothing.
pub proof fn law_disabled_pipeline_passes_all(
    pipeline: FilterPipelineView,
    id: usize,
    obj: ObjectInfoView,
    extensions: Seq<(u64, u64)>,
    namespace: Seq<Seq<u8>>,
    name: Seq<char>,
)
    requires
        !pipeline.enabled,
    ensures
        pipeline.passes_extensions(extensions),
        pipeline.passes_track(namespace, name),
        pipeline.passes_object(id, obj),
        pipeline.after_extensions(extensions) == pipeline,
        pipeline.after_track(namespace, name) == pipeline,
        pipeline.after_object(id, obj) == pipeline,
{
}

/// A batch forwards an object to a subscription exactly if the decision on it alone does.
pub proof fn law_batch_agrees_with_single(
    pipeline: FilterPipelineView,
    id: usize,
    obj: ObjectInfoView,
)
    requires
        pipeline.enabled,
        pipeline.is_consistent(),
    ensures
        pipeline.filter_passes(id, obj) == pipeline.passes_object(id, obj),
{
}

/// Subscriptions of one group are sent the same objects.
pub proof fn law_group_is_sent_the_same(
    pipeline: FilterPipelineView,
    a: usize,
    b: usize,
    obj: ObjectInfoView,
)
    requires
        pipeline.is_consistent(),
        pipeline.subscriptions.contains_key(a),
        pipeline.subscriptions.contains_key(b),
        pipeline.subscriptions[a].group is Some,
        pipeline.subscriptions[a].group == pipeline.subscriptions[b].group,
    ensures
        pipeline.passes_object(a, obj) == pipeline.passes_object(b, obj),
{
}

/// A subscription that was taken out again leaves nothing behind.
pub proof fn law_unregister_undoes_register(
    pipeline: FilterPipelineView,
    id: usize,
    subscription: SubscriptionView,
)
    requires
        !pipeline.subscriptions.contains_key(id),
    ensures
        pipeline.with_subscription(id, subscription).subscriptions.remove(id)
            == pipeline.subscriptions,
{
    assert(pipeline.with_subscription(id, subscription).subscriptions.remove(id)
        =~= pipeline.subscriptions);
}

/// The stages of a pipeline that is on decide each for themselves. A stage that is switched off lets
/// everything pass and counts nothing. A track without extensions passes the stage on them, and an
/// object passes for an id without a subscription.
pub proof fn law_stages_decide_for_themselves(
    pipeline: FilterPipelineView,
    extensions: Seq<(u64, u64)>,
    namespace: Seq<Seq<u8>>,
    name: Seq<char>,
    id: usize,
    obj: ObjectInfoView,
)
    requires
        pipeline.enabled,
    ensures
        pipeline.config.track_ext_enabled ==> pipeline.passes_extensions(extensions)
            == pipeline.track_ext.passes(extensions),
        !pipeline.config.track_ext_enabled ==> pipeline.passes_extensions(extensions)
            && pipeline.after_extensions(extensions) == pipeline,
        pipeline.passes_some_extensions(None),
        pipeline.after_some_extensions(None) == pipeline,
        pipeline.config.track_enabled ==> pipeline.passes_track(namespace, name)
            == pipeline.track.accepts(namespace, name),
        !pipeline.config.track_enabled ==> pipeline.passes_track(namespace, name)
            && pipeline.after_track(namespace, name) == pipeline,
        pipeline.config.object_enabled && pipeline.subscriptions.contains_key(id)
            ==> pipeline.passes_object(id, obj) == pipeline.subscriptions[id].filter.passes(obj),
        !pipeline.config.object_enabled || !pipeline.subscriptions.contains_key(id)
            ==> pipeline.passes_object(id, obj) && pipeline.after_object(id, obj) == pipeline,
{
}

/// Deciding on track extensions, a track or an object counts one decision where it was made, as
/// passed or as filtered, and changes nothing else. A filter that is shared counts for all who share
/// it.
pub proof fn law_decisions_are_counted_once(
    pipeline: FilterPipelineView,
    extensions: Seq<(u64, u64)>,
    namespace: Seq<Seq<u8>>,
    name: Seq<char>,
    id: usize,
    obj: ObjectInfoView,
    other: usize,
)
    requires
        pipeline.enabled,
        pipeline.subscriptions.contains_key(id),
        pipeline.subscriptions.contains_key(other),
    ensures
        ({
            let after = pipeline.after_extensions(extensions);
            &&& after.track == pipeline.track
            &&& after.subscriptions == pipeline.subscriptions
            &&& after.topn == pipeline.topn
            &&& after.config == pipeline.config
            &&& after.track_ext.matchers == pipeline.track_ext.matchers
            &&& pipeline.config.track_ext_enabled ==> after.track_ext.stats
                == pipeline.track_ext.stats.counted(pipeline.track_ext.passes(extensions))
        }),
        ({
            let after = pipeline.after_track(namespace, name);
            &&& after.track_ext == pipeline.track_ext
            &&& after.subscriptions == pipeline.subscriptions
            &&& after.topn == pipeline.topn
            &&& after.config == pipeline.config
            &&& after.track.ids == pipeline.track.ids
            &&& pipeline.config.track_enabled && pipeline.track.selected_count < u64::MAX
                && pipeline.track.accepts(namespace, name) ==> after.track.selected_count
                == pipeline.track.selected_count + 1 && after.track.deselected_count
                == pipeline.track.deselected_count
            &&& pipeline.config.track_enabled && pipeline.track.deselected_count < u64::MAX
                && !pipeline.track.accepts(namespace, name) ==> after.track.deselected_count
                == pipeline.track.deselected_count + 1 && after.track.selected_count
                == pipeline.track.selected_count
        }),
        ({
            let after = pipeline.after_object(id, obj);
            let shared = other == id || (pipeline.subscriptions[id].group is Some
                && pipeline.subscriptions[id].group == pipeline.subscriptions[other].group);
            &&& after.track_ext == pipeline.track_ext
            &&& after.track == pipeline.track
            &&& after.topn == pipeline.topn
            &&& after.subscriptions.dom() =~= pipeline.subscriptions.dom()
            &&& after.subscriptions[other].group == pipeline.subscriptions[other].group
            &&& pipeline.config.object_enabled && shared
                ==> after.subscriptions[other].filter.stats
                == pipeline.subscriptions[other].filter.stats.counted(
                pipeline.subscriptions[id].filter.passes(obj),
            )
            &&& !shared ==> after.subscriptions[other] == pipeline.subscriptions[other]
            &&& after.subscriptions[other].filter.location
                == pipeline.subscriptions[other].filter.location
        }),
{
}

/// The metric of an object is taken in if the pipeline selects the best tracks and the object has an
/// extension with a metric; nothing else changes.
pub proof fn law_metrics_are_taken_in(
    pipeline: FilterPipelineView,
    id: (Seq<Seq<u8>>, Seq<char>),
    extensions: Seq<(u64, u64)>,
    smoothed: u64,
    now_ms: u64,
)
    requires
        pipeline.topn matches Some(filter) ==> filter.wf(),
    ensures
        ({
            let after = pipeline.after_metric(id, extensions, smoothed, now_ms);
            let measured = pipeline.topn is Some && exists|i: int|
                0 <= i < extensions.len() && (#[trigger] extensions[i]).0
                    == pipeline.topn->0.config.metric_extension_type;
            &&& measured ==> after.topn is Some && after.topn->0.tracks.contains(
                TrackMetricView { id, average: smoothed, last_update_ms: now_ms },
            )
            &&& !measured ==> after == pipeline
            &&& after.track_ext == pipeline.track_ext
            &&& after.track == pipeline.track
            &&& after.subscriptions == pipeline.subscriptions
        }),
{
    if pipeline.topn is Some {
        let filter = pipeline.topn->0;
        topn::law_metric_is_the_first_of_its_type(
            extensions,
            filter.config.metric_extension_type,
        );
        let metric = TrackMetricView { id, average: smoothed, last_update_ms: now_ms };
        topn::law_metric_is_held(filter, metric, metric);
    }
}

/// Without a selection of the best tracks everything passes that stage.
pub proof fn law_no_selection_passes_all(
    pipeline: FilterPipelineView,
    id: (Seq<Seq<u8>>, Seq<char>),
    scores: Seq<u64>,
    now_ms: u64,
    passed: bool,
    after: FilterPipelineView,
)
    requires
        pipeline.topn_decides(id, scores, now_ms, passed, after),
    ensures
        pipeline.topn is None ==> passed && after == pipeline,
        pipeline.topn is Some && !pipeline.topn->0.enabled ==> passed,
        pipeline.topn is Some && pipeline.topn->0.enabled ==> after.topn is Some && (passed <==>
            after.topn->0.top.contains(id)),
        after.subscriptions == pipeline.subscriptions,
        after.track == pipeline.track,
        after.track_ext == pipeline.track_ext,
{
    if pipeline.topn is Some {
        topn::law_selected_tracks_are_forwarded(
            pipeline.topn->0,
            id,
            scores,
            now_ms,
            passed,
            after.topn->0,
        );
    }
}

/// The filter of a subscription selects as its parameters say, and is on if the stage is.
pub proof fn law_subscription_selects_by_its_parameters(
    pipeline: FilterPipelineView,
    params: ObjectFilterParams,
    filter: ObjectFilterView,
)
    requires
        pipeline.makes_filter(params, filter),
    ensures
        object::selects_by(params, filter),
        filter.enabled == pipeline.config.object_enabled,
        filter.stats.enabled == pipeline.config.stats_enabled,
        filter.stats.passed == 0,
        filter.stats.filtered == 0,
        params.extensions is None ==> filter.extensions is None,
{
    let made = choose|made: ObjectFilterView| #[trigger]
        pipeline.describes(params, made) && filter == (ObjectFilterView {
            enabled: pipeline.config.object_enabled,
            ..made
        });
    assert(object::selects_by(params, made));
}

proof fn lemma_merged_passed(pipeline: FilterPipelineView, keys: Seq<usize>, n: int, i: int)
    requires
        0 <= n <= keys.len(),
        0 <= i < n,
        pipeline.stats_add_up(keys),
    ensures
        pipeline.merged_stats(keys, n).passed >= pipeline.subscriptions[keys[i]].filter.stats.passed,
        pipeline.merged_stats(keys, n).filtered
            >= pipeline.subscriptions[keys[i]].filter.stats.filtered,
        pipeline.merged_stats(keys, n).peak_memory_bytes
            >= pipeline.subscriptions[keys[i]].filter.stats.peak_memory_bytes,
    decreases n,
{
    let before = pipeline.merged_stats(keys, n - 1);
    assert(before.adds_up(pipeline.subscriptions[keys[n - 1]].filter.stats.now()));
    if i < n - 1 {
        lemma_merged_passed(pipeline, keys, n - 1, i);
    }
}

/// The counters of the object filters add up: one more subscription adds its own counters, and none
/// counts nothing.
pub proof fn law_object_counters_add_up(pipeline: FilterPipelineView, keys: Seq<usize>, n: int)
    requires
        0 <= n < keys.len(),
        pipeline.stats_add_up(keys),
    ensures
        pipeline.merged_stats(keys, 0).passed == 0,
        pipeline.merged_stats(keys, 0).filtered == 0,
        pipeline.merged_stats(keys, n + 1).passed == pipeline.merged_stats(keys, n).passed
            + pipeline.subscriptions[keys[n]].filter.stats.passed,
        pipeline.merged_stats(keys, n + 1).filtered == pipeline.merged_stats(keys, n).filtered
            + pipeline.subscriptions[keys[n]].filter.stats.filtered,
        pipeline.merged_stats(keys, n + 1).passed
            >= pipeline.subscriptions[keys[n]].filter.stats.passed,
{
    assert(pipeline.merged_stats(keys, n).adds_up(
        pipeline.subscriptions[keys[n]].filter.stats.now(),
    ));
    lemma_merged_passed(pipeline, keys, n + 1, n);
}

/// An empty pipeline has the stages that its configuration asks for, and no subscriptions.
pub proof fn law_new_pipeline_is_as_configured(config: FilterConfig, now_ms: u64)
    ensures
        ({
            let pipeline = FilterPipelineView::empty(config, now_ms);
            &&& pipeline.enabled
            &&& pipeline.config == config
            &&& pipeline.track_ext.enabled == config.track_ext_enabled
            &&& pipeline.track.enabled == config.track_enabled
            &&& pipeline.topn is Some == config.topn_enabled
            &&& pipeline.topn matches Some(filter) ==> filter.config == config.topn_config
                && filter.enabled
            &&& pipeline.subscriptions.dom() =~= Set::empty()
            &&& forall|namespace: Seq<Seq<u8>>, name: Seq<char>| #[trigger]
                pipeline.passes_track(namespace, name)
            &&& forall|extensions: Seq<(u64, u64)>| #[trigger]
                pipeline.passes_extensions(extensions)
        }),
{
    let pipeline = FilterPipelineView::empty(config, now_ms);
    assert(pipeline.track.listed() =~= Set::empty());
}

/// The decisions of the three stages are all that was processed.
pub proof fn law_all_stages_are_counted(report: PipelineReport)
    ensures
        report.processed() == (report.track_ext.passed + report.track.passed
            + report.object.passed) + (report.track_ext.filtered + report.track.filtered
            + report.object.filtered),
{
}

/// An object without extensions carries no metric, and one with them is taken in by them.
pub proof fn law_objects_without_extensions_carry_no_metric(
    pipeline: FilterPipelineView,
    id: (Seq<Seq<u8>>, Seq<char>),
    extensions: &[(u64, u64)],
    input: MetricInput,
)
    ensures
        pipeline.after_some_metric(id, None, input) == pipeline,
        pipeline.after_some_metric(id, Some(extensions), input) == pipeline.after_metric(
            id,
            extensions@,
            input.smoothed,
            input.now_ms,
        ),
{
}

/// The groups in use are those that a subscription has.
pub proof fn law_groups_in_use_are_those_of_subscriptions(
    pipeline: FilterPipelineView,
    id: usize,
    group: u64,
)
    ensures
        pipeline.subscriptions.contains_key(id) && pipeline.subscriptions[id].group == Some(group)
            ==> pipeline.groups().contains(group) && pipeline.uses_group(group),
        (forall|s: usize| #[trigger]
            pipeline.subscriptions.contains_key(s) ==> pipeline.subscriptions[s].group != Some(
                group,
            )) ==> !pipeline.groups().contains(group) && !pipeline.uses_group(group),
{
}

/// Resetting the counters of subscriptions resets these and nothing else.
pub proof fn law_reset_is_of_the_counters(pipeline: FilterPipelineView, id: usize)
    requires
        pipeline.subscriptions.contains_key(id),
    ensures
        pipeline.subscriptions_reset().dom() == pipeline.subscriptions.dom(),
        ({
            let before = pipeline.subscriptions[id];
            let after = pipeline.subscriptions_reset()[id];
            &&& after.group == before.group
            &&& after.filter.stats == FilterStats::zero(before.filter.stats.enabled)
            &&& (SubscriptionView {
                filter: ObjectFilterView { stats: before.filter.stats, ..after.filter },
                ..after
            }) == before
        }),
{
    assert(pipeline.subscriptions_reset().dom() =~= pipeline.subscriptions.dom());
}

/// A pipeline takes what it is itself, and what its filters take, those of all subscriptions
/// included.
pub proof fn law_all_filters_take_memory(
    pipeline: FilterPipelineView,
    types: Seq<u64>,
    keys: Seq<usize>,
    key: usize,
)
    ensures
        pipeline.memory_estimate(types, keys.push(key)) == pipeline.memory_estimate(types, keys)
            + object::memory_estimate(pipeline.subscriptions[key].filter),
        pipeline.memory_estimate(types, Seq::empty()) == vstd::layout::size_of::<FilterPipeline>()
            + track_ext::memory_estimate(pipeline.track_ext, types) + track::memory_estimate(
            pipeline.track,
        ),
{
    lemma_same_filter_bytes(pipeline, keys, keys.push(key), keys.len() as int);
    assert(keys.push(key).last() == key);
}

proof fn lemma_same_filter_bytes(
    pipeline: FilterPipelineView,
    a: Seq<usize>,
    b: Seq<usize>,
    n: int,
)
    requires
        n <= a.len(),
        n <= b.len(),
        forall|i: int| 0 <= i < n ==> a[i] == b[i],
    ensures
        pipeline.filter_bytes(a, n) == pipeline.filter_bytes(b, n),
    decreases n,
{
    if n > 0 {
        lemma_same_filter_bytes(pipeline, a, b, n - 1);
    }
}

} // verus!
