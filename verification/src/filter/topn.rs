//! The filter that forwards the tracks with the best values of a metric.
//!
//! The metric of a track is carried in an extension of its objects and smoothed over time. A
//! smoothed value, and a value that has decayed, is held here as a number that orders as the
//! value does.

use vstd::prelude::*;
use crate::filter::stats;
use crate::namespace::TrackNamespace;
use crate::text::text_eq;

verus! {

/// The extension type that carries the metric unless another one is set.
pub const DEFAULT_METRIC_EXTENSION_TYPE: u64 = 0x100;

/// The settings of a top-N filter.
#[derive(Clone, Copy, Debug, PartialEq, Eq, Structural)]
pub struct TopNConfig {
    /// How many tracks are forwarded.
    pub n: usize,
    /// The extension type that carries the metric.
    pub metric_extension_type: u64,
    /// After how long without an update a metric starts to decay.
    pub decay_after_ms: u64,
    /// How often the selection is made anew.
    pub recompute_interval_ms: u64,
    /// Whether higher values are better.
    pub higher_is_better: bool,
}

impl TopNConfig {
    /// The usual settings for the best `n` tracks.
    pub open spec fn usual(n: usize) -> TopNConfig {
        TopNConfig {
            n,
            metric_extension_type: DEFAULT_METRIC_EXTENSION_TYPE,
            decay_after_ms: 2000,
            recompute_interval_ms: 500,
            higher_is_better: true,
        }
    }

    /// The usual settings for the best `n` tracks.
    pub fn top(n: usize) -> (r: Self)
        ensures
            r == TopNConfig::usual(n),
    {
        TopNConfig {
            n,
            metric_extension_type: DEFAULT_METRIC_EXTENSION_TYPE,
            decay_after_ms: 2000,
            recompute_interval_ms: 500,
            higher_is_better: true,
        }
    }

    /// The settings with another extension type.
    pub fn with_metric_type(self, ext_type: u64) -> (r: Self)
        ensures
            r == (TopNConfig { metric_extension_type: ext_type, ..self }),
    {
        TopNConfig { metric_extension_type: ext_type, ..self }
    }

    /// The settings with another time before decay.
    pub fn with_decay(self, duration_ms: u64) -> (r: Self)
        ensures
            r == (TopNConfig { decay_after_ms: duration_ms, ..self }),
    {
        TopNConfig { decay_after_ms: duration_ms, ..self }
    }

    /// The settings with another interval between selections.
    pub fn with_recompute_interval(self, duration_ms: u64) -> (r: Self)
        ensures
            r == (TopNConfig { recompute_interval_ms: duration_ms, ..self }),
    {
        TopNConfig { recompute_interval_ms: duration_ms, ..self }
    }

    /// The settings with higher or lower values as the better ones.
    pub fn higher_is_better(self, value: bool) -> (r: Self)
        ensures
            r == (TopNConfig { higher_is_better: value, ..self }),
    {
        TopNConfig { higher_is_better: value, ..self }
    }
}

impl Default for TopNConfig {
    fn default() -> (r: Self)
        ensures
            r == TopNConfig::usual(3),
    {
        Self::top(3)
    }
}

/// A track.
#[derive(Debug)]
pub struct TrackId {
    pub namespace: TrackNamespace,
    pub name: String,
}

impl View for TrackId {
    type V = (Seq<Seq<u8>>, Seq<char>);

    open spec fn view(&self) -> (Seq<Seq<u8>>, Seq<char>) {
        (self.namespace@, self.name@)
    }
}

impl TrackId {
    pub fn new(namespace: TrackNamespace, name: String) -> (r: Self)
        ensures
            r@ == (namespace@, name@),
    {
        TrackId { namespace, name }
    }

    /// Whether this is the track of that namespace and name.
    fn names(&self, namespace: &TrackNamespace, name: &String) -> (r: bool)
        ensures
            r == (self@ == (namespace@, name@)),
    {
        text_eq(&self.name, name) && self.namespace.same_as(namespace)
    }
}

impl Clone for TrackId {
    fn clone(&self) -> (r: Self)
        ensures
            r@ == self@,
    {
        TrackId { namespace: self.namespace.clone(), name: self.name.clone() }
    }
}

/// The metric of one track.
#[derive(Debug)]
struct TrackMetric {
    id: TrackId,
    average: u64,
    last_update_ms: u64,
}

/// The metric of one track.
#[verifier::ext_equal]
pub struct TrackMetricView {
    pub id: (Seq<Seq<u8>>, Seq<char>),
    /// The smoothed value.
    pub average: u64,
    pub last_update_ms: u64,
}

impl TrackMetric {
    spec fn view(&self) -> TrackMetricView {
        TrackMetricView {
            id: self.id@,
            average: self.average,
            last_update_ms: self.last_update_ms,
        }
    }
}

/// A metric as it stands: the smoothed value, and for how long there was no update.
#[derive(Clone, Copy, Debug, PartialEq, Eq, Structural)]
pub struct MetricReading {
    pub average: u64,
    pub idle_ms: u64,
}

/// The time between two points of a millisecond clock; none if the second lies before.
pub open spec fn elapsed(since_ms: u64, now_ms: u64) -> u64 {
    if since_ms < now_ms {
        (now_ms - since_ms) as u64
    } else {
        0
    }
}

/// The first value that a list of extensions holds of a type.
pub open spec fn metric_in(extensions: Seq<(u64, u64)>, ext_type: u64) -> Option<u64>
    decreases extensions.len(),
{
    if extensions.len() == 0 {
        None
    } else if extensions[0].0 == ext_type {
        Some(extensions[0].1)
    } else {
        metric_in(extensions.drop_first(), ext_type)
    }
}

/// The first value that a list of extensions holds of a type.
pub fn extract_metric(extensions: &[(u64, u64)], ext_type: u64) -> (r: Option<u64>)
    ensures
        r == metric_in(extensions@, ext_type),
{
    let n: usize = extensions.len();
    assert(extensions@.skip(0) =~= extensions@);
    let mut i: usize = 0;
    while i < n
        invariant
            n == extensions@.len(),
            i <= n,
            metric_in(extensions@.skip(i as int), ext_type) == metric_in(extensions@, ext_type),
        decreases n - i,
    {
        assert(extensions@.skip(i as int).drop_first() =~= extensions@.skip(i + 1));
        if extensions[i].0 == ext_type {
            return Some(extensions[i].1);
        }
        i += 1;
    }
    None
}

/// The place of a track among the first `n` ones, or `n`.
pub open spec fn find_track(
    tracks: Seq<TrackMetricView>,
    id: (Seq<Seq<u8>>, Seq<char>),
    n: int,
) -> int
    decreases n,
{
    if n <= 0 {
        0
    } else {
        let before = find_track(tracks, id, n - 1);
        if before < n - 1 || tracks[n - 1].id == id {
            before
        } else {
            n
        }
    }
}

proof fn lemma_find_track(
    tracks: Seq<TrackMetricView>,
    id: (Seq<Seq<u8>>, Seq<char>),
    n: int,
)
    requires
        0 <= n <= tracks.len(),
    ensures
        0 <= find_track(tracks, id, n) <= n,
        forall|i: int| 0 <= i < find_track(tracks, id, n) ==> (#[trigger] tracks[i]).id != id,
        find_track(tracks, id, n) < n ==> tracks[find_track(tracks, id, n)].id == id,
    decreases n,
{
    if n > 0 {
        lemma_find_track(tracks, id, n - 1);
    }
}

proof fn lemma_find_track_is(
    tracks: Seq<TrackMetricView>,
    id: (Seq<Seq<u8>>, Seq<char>),
    at: int,
)
    requires
        0 <= at <= tracks.len(),
        forall|i: int| 0 <= i < at ==> (#[trigger] tracks[i]).id != id,
        at < tracks.len() ==> tracks[at].id == id,
    ensures
        find_track(tracks, id, tracks.len() as int) == at,
{
    lemma_find_track(tracks, id, tracks.len() as int);
}

/// The score at `i` comes before the one at `j`: it is better, or as good and earlier.
pub open spec fn scored_before(
    scores: Seq<u64>,
    higher_is_better: bool,
    i: int,
    j: int,
) -> bool {
    if scores[i] == scores[j] {
        i < j
    } else if higher_is_better {
        scores[i] > scores[j]
    } else {
        scores[i] < scores[j]
    }
}

/// `order` lists the places of the first `n` scores, the best one first.
pub open spec fn is_score_order(
    scores: Seq<u64>,
    higher_is_better: bool,
    order: Seq<int>,
    n: int,
) -> bool {
    &&& order.len() == n
    &&& forall|k: int| 0 <= k < order.len() ==> 0 <= #[trigger] order[k] < n
    &&& forall|j: int, k: int|
        0 <= j < k < order.len() ==> scored_before(
            scores,
            higher_is_better,
            #[trigger] order[j],
            #[trigger] order[k],
        )
}

/// Positions as integers.
pub open spec fn as_ints(order: Seq<usize>) -> Seq<int> {
    order.map_values(|i: usize| i as int)
}

/// Whether one score is better than another.
fn is_better(score: u64, other: u64, higher_is_better: bool) -> (r: bool)
    ensures
        r == if higher_is_better {
            score > other
        } else {
            score < other
        },
{
    if higher_is_better {
        score > other
    } else {
        score < other
    }
}

/// The places of the scores, the best one first.
pub fn score_order(scores: &Vec<u64>, higher_is_better: bool) -> (r: Vec<usize>)
    ensures
        is_score_order(scores@, higher_is_better, as_ints(r@), scores@.len() as int),
{
    let mut order: Vec<usize> = Vec::new();
    let mut i: usize = 0;
    while i < scores.len()
        invariant
            i <= scores@.len(),
            is_score_order(scores@, higher_is_better, as_ints(order@), i as int),
        decreases scores@.len() - i,
    {
        let score: u64 = scores[i];
        let ghost before = as_ints(order@);
        assert(before.len() == order@.len());
        assert forall|k: int| 0 <= k < order@.len() implies 0 <= #[trigger] order@[k] < i by {
            assert(before[k] == order@[k]);
        }
        let mut p: usize = order.len();
        while p > 0 && is_better(score, scores[order[p - 1]], higher_is_better)
            invariant
                p <= order@.len(),
                order@.len() == i,
                i < scores@.len(),
                score == scores@[i as int],
                before == as_ints(order@),
                forall|k: int| 0 <= k < order@.len() ==> 0 <= #[trigger] order@[k] < i,
                is_score_order(scores@, higher_is_better, before, i as int),
                forall|k: int|
                    p <= k < order@.len() ==> scored_before(
                        scores@,
                        higher_is_better,
                        i as int,
                        #[trigger] before[k],
                    ),
            decreases p,
        {
            p -= 1;
        }
        proof {
            assert forall|k: int| 0 <= k < p implies scored_before(
                scores@,
                higher_is_better,
                #[trigger] before[k],
                i as int,
            ) by {
                assert(before[k] == order@[k]);
                if k < p - 1 {
                    assert(scored_before(scores@, higher_is_better, before[k], before[p - 1]));
                }
                assert(before[p - 1] == order@[p - 1]);
            }
        }
        order.insert(p, i);
        proof {
            let after = as_ints(order@);
            assert(after =~= before.insert(p as int, i as int));
            assert forall|j: int, k: int| 0 <= j < k < after.len() implies scored_before(
                scores@,
                higher_is_better,
                #[trigger] after[j],
                #[trigger] after[k],
            ) by {
                let jj = if j > p { j - 1 } else { j };
                let kk = if k > p { k - 1 } else { k };
                if j != p && k != p {
                    assert(scored_before(scores@, higher_is_better, before[jj], before[kk]));
                }
            }
        }
        i += 1;
    }
    order
}

/// The filter that forwards the best tracks.
pub struct TopNFilter {
    config: TopNConfig,
    metrics: Vec<TrackMetric>,
    cached_top_n: Vec<TrackId>,
    last_compute_ms: u64,
    objects_processed: u64,
    objects_filtered: u64,
    enabled: bool,
}

/// The state of a top-N filter.
#[verifier::ext_equal]
pub struct TopNFilterView {
    pub config: TopNConfig,
    /// The tracks with a metric, in the order of their first updates.
    pub tracks: Seq<TrackMetricView>,
    /// The selection.
    pub top: Seq<(Seq<Seq<u8>>, Seq<char>)>,
    /// When the selection was made.
    pub last_compute_ms: u64,
    pub objects_processed: u64,
    pub objects_filtered: u64,
    pub enabled: bool,
}

impl TopNFilterView {
    /// A filter without tracks.
    pub open spec fn empty(config: TopNConfig, now_ms: u64) -> TopNFilterView {
        TopNFilterView {
            config,
            tracks: Seq::empty(),
            top: Seq::empty(),
            last_compute_ms: now_ms,
            objects_processed: 0,
            objects_filtered: 0,
            enabled: true,
        }
    }

    /// No track is listed twice.
    pub open spec fn wf(self) -> bool {
        forall|i: int, j: int|
            0 <= i < j < self.tracks.len() ==> (#[trigger] self.tracks[i]).id != (
            #[trigger] self.tracks[j]).id
    }

    /// The place of a track in the list, or the length of the list.
    pub open spec fn place(self, id: (Seq<Seq<u8>>, Seq<char>)) -> int {
        find_track(self.tracks, id, self.tracks.len() as int)
    }

    /// The filter once the metric of a track was set.
    pub open spec fn with_metric(self, metric: TrackMetricView) -> TopNFilterView {
        let at = self.place(metric.id);
        TopNFilterView {
            tracks: if at < self.tracks.len() {
                self.tracks.update(at, metric)
            } else {
                self.tracks.push(metric)
            },
            ..self
        }
    }

    /// `after` is the filter once the selection was made from these scores.
    pub open spec fn recomputed(
        self,
        scores: Seq<u64>,
        now_ms: u64,
        after: TopNFilterView,
    ) -> bool {
        &&& after == (TopNFilterView { top: after.top, last_compute_ms: now_ms, ..self })
        &&& exists|order: Seq<int>| #[trigger]
            is_score_order(
                scores,
                self.config.higher_is_better,
                order,
                self.tracks.len() as int,
            ) && is_selection(self.tracks, order, self.config.n as int, after.top)
    }

    /// It is time to make the selection anew.
    pub open spec fn recompute_due(self, now_ms: u64) -> bool {
        elapsed(self.last_compute_ms, now_ms) >= self.config.recompute_interval_ms
    }

    /// The filter once an object was counted that is forwarded or not.
    pub open spec fn counted(self, forwarded: bool) -> TopNFilterView {
        TopNFilterView {
            objects_processed: stats::wrapping_sum(self.objects_processed, 1),
            objects_filtered: if forwarded {
                self.objects_filtered
            } else {
                stats::wrapping_sum(self.objects_filtered, 1)
            },
            ..self
        }
    }

    /// `after` is the filter once an object of a track was decided on.
    pub open spec fn forwards(
        self,
        id: (Seq<Seq<u8>>, Seq<char>),
        scores: Seq<u64>,
        now_ms: u64,
        forwarded: bool,
        after: TopNFilterView,
    ) -> bool {
        if !self.enabled {
            forwarded && after == self
        } else if self.recompute_due(now_ms) {
            exists|made: TopNFilterView| #[trigger]
                self.recomputed(scores, now_ms, made) && forwarded == made.top.contains(id)
                    && after == made.counted(forwarded)
        } else {
            forwarded == self.top.contains(id) && after == self.counted(forwarded)
        }
    }

    /// The tracks that had an update within `max_age_ms`, in order, among the first `n`.
    pub open spec fn lively(self, max_age_ms: u64, now_ms: u64, n: int) -> Seq<TrackMetricView>
        decreases n,
    {
        if n <= 0 {
            Seq::empty()
        } else {
            let before = self.lively(max_age_ms, now_ms, n - 1);
            if elapsed(self.tracks[n - 1].last_update_ms, now_ms) < max_age_ms {
                before.push(self.tracks[n - 1])
            } else {
                before
            }
        }
    }
}

/// `top` are the tracks at the first places of `order`, at most `n`.
pub open spec fn is_selection(
    tracks: Seq<TrackMetricView>,
    order: Seq<int>,
    n: int,
    top: Seq<(Seq<Seq<u8>>, Seq<char>)>,
) -> bool {
    &&& top.len() == if n < order.len() {
        n
    } else {
        order.len() as int
    }
    &&& forall|k: int| 0 <= k < top.len() ==> #[trigger] top[k] == tracks[order[k]].id
}

impl View for TopNFilter {
    type V = TopNFilterView;

    closed spec fn view(&self) -> TopNFilterView {
        TopNFilterView {
            config: self.config,
            tracks: self.metrics@.map_values(|m: TrackMetric| m@),
            top: self.cached_top_n@.map_values(|id: TrackId| id@),
            last_compute_ms: self.last_compute_ms,
            objects_processed: self.objects_processed,
            objects_filtered: self.objects_filtered,
            enabled: self.enabled,
        }
    }
}

/// Counts of a top-N filter.
#[derive(Clone, Copy, Debug, PartialEq, Eq, Structural)]
pub struct TopNStats {
    pub objects_processed: u64,
    pub objects_filtered: u64,
    pub tracks_monitored: usize,
    pub current_top_n: usize,
}

impl TopNFilter {
    pub open spec fn wf(&self) -> bool {
        self@.wf()
    }

    /// A filter without tracks.
    pub fn new(config: TopNConfig, now_ms: u64) -> (r: Self)
        ensures
            r.wf(),
            r@ == TopNFilterView::empty(config, now_ms),
    {
        let r = TopNFilter {
            config,
            metrics: Vec::new(),
            cached_top_n: Vec::new(),
            last_compute_ms: now_ms,
            objects_processed: 0,
            objects_filtered: 0,
            enabled: true,
        };
        assert(r@ =~= TopNFilterView::empty(config, now_ms));
        r
    }

    /// A filter with the usual settings for the best `n` tracks.
    pub fn default_config(n: usize, now_ms: u64) -> (r: Self)
        ensures
            r.wf(),
            r@ == TopNFilterView::empty(TopNConfig::usual(n), now_ms),
    {
        Self::new(TopNConfig::top(n), now_ms)
    }

    /// Turns the filter on.
    pub fn enable(&mut self)
        ensures
            final(self)@ == (TopNFilterView { enabled: true, ..old(self)@ }),
    {
        self.enabled = true;
    }

    /// Turns the filter off: every track is forwarded.
    pub fn disable(&mut self)
        ensures
            final(self)@ == (TopNFilterView { enabled: false, ..old(self)@ }),
    {
        self.enabled = false;
    }

    /// Whether the filter is on.
    pub fn is_enabled(&self) -> (r: bool)
        ensures
            r == self@.enabled,
    {
        self.enabled
    }

    /// The place of a track in the list, or the length of the list.
    fn find(&self, namespace: &TrackNamespace, name: &String) -> (r: usize)
        ensures
            r == self@.place((namespace@, name@)),
            r <= self.metrics@.len(),
    {
        let ghost id = (namespace@, name@);
        let mut i: usize = 0;
        while i < self.metrics.len()
            invariant
                i <= self.metrics@.len(),
                id == (namespace@, name@),
                forall|k: int| 0 <= k < i ==> (#[trigger] self@.tracks[k]).id != id,
            decreases self.metrics@.len() - i,
        {
            assert(self@.tracks[i as int] == self.metrics@[i as int]@);
            if self.metrics[i].id.names(namespace, name) {
                proof {
                    lemma_find_track_is(self@.tracks, id, i as int);
                }
                return i;
            }
            i += 1;
        }
        proof {
            lemma_find_track_is(self@.tracks, id, i as int);
        }
        i
    }

    /// Sets the metric of a track from an object's extensions, if they carry it. `smoothed`
    /// is the average with that value taken in.
    pub fn update_metric(
        &mut self,
        namespace: &TrackNamespace,
        track_name: &String,
        extensions: &[(u64, u64)],
        smoothed: u64,
        now_ms: u64,
    ) -> (r: Option<u64>)
        requires
            old(self).wf(),
        ensures
            final(self).wf(),
            r == metric_in(extensions@, old(self)@.config.metric_extension_type),
            final(self)@ == if r is Some {
                old(self)@.with_metric(
                    TrackMetricView {
                        id: (namespace@, track_name@),
                        average: smoothed,
                        last_update_ms: now_ms,
                    },
                )
            } else {
                old(self)@
            },
    {
        let ghost before = self@;
        let value: Option<u64> = extract_metric(extensions, self.config.metric_extension_type);
        if value.is_none() {
            return None;
        }
        let ghost id = (namespace@, track_name@);
        let at: usize = self.find(namespace, track_name);
        proof {
            lemma_find_track(before.tracks, id, before.tracks.len() as int);
        }
        let metric = TrackMetric {
            id: TrackId::new(namespace.clone(), track_name.clone()),
            average: smoothed,
            last_update_ms: now_ms,
        };
        let ghost view = metric@;
        if at < self.metrics.len() {
            self.metrics.set(at, metric);
            assert(self@.tracks =~= before.tracks.update(at as int, view));
        } else {
            self.metrics.push(metric);
            assert(self@.tracks =~= before.tracks.push(view));
        }
        assert(self@ =~= before.with_metric(view));
        value
    }

    /// Whether it is time to make the selection anew.
    pub fn recompute_due(&self, now_ms: u64) -> (r: bool)
        ensures
            r == self@.recompute_due(now_ms),
    {
        now_ms.saturating_sub(self.last_compute_ms) >= self.config.recompute_interval_ms
    }

    /// Decides whether an object of a track is forwarded. The selection is made anew if it
    /// is time, from the scores of the tracks in order.
    pub fn should_forward(
        &mut self,
        namespace: &TrackNamespace,
        track_name: &String,
        scores: &Vec<u64>,
        now_ms: u64,
    ) -> (r: bool)
        requires
            old(self).wf(),
            scores@.len() == old(self)@.tracks.len(),
        ensures
            final(self).wf(),
            old(self)@.forwards((namespace@, track_name@), scores@, now_ms, r, final(self)@),
    {
        if !self.enabled {
            return true;
        }
        let ghost before = self@;
        if self.recompute_due(now_ms) {
            self.recompute_top_n(scores, now_ms);
        }
        let ghost made = self@;
        let selected = self.is_selected(namespace, track_name);
        self.objects_processed = self.objects_processed.wrapping_add(1);
        if !selected {
            self.objects_filtered = self.objects_filtered.wrapping_add(1);
        }
        assert(self@ =~= made.counted(selected));
        assert(before.recompute_due(now_ms) ==> before.recomputed(scores@, now_ms, made));
        selected
    }

    /// Whether a track is in the selection.
    fn is_selected(&self, namespace: &TrackNamespace, track_name: &String) -> (r: bool)
        ensures
            r == self@.top.contains((namespace@, track_name@)),
    {
        let ghost id = (namespace@, track_name@);
        let mut i: usize = 0;
        while i < self.cached_top_n.len()
            invariant
                i <= self.cached_top_n@.len(),
                id == (namespace@, track_name@),
                forall|k: int| 0 <= k < i ==> #[trigger] self@.top[k] != id,
            decreases self.cached_top_n@.len() - i,
        {
            assert(self@.top[i as int] == self.cached_top_n@[i as int]@);
            if self.cached_top_n[i].names(namespace, track_name) {
                return true;
            }
            i += 1;
        }
        false
    }

    /// Makes the selection from the scores of the tracks in order.
    pub fn recompute_top_n(&mut self, scores: &Vec<u64>, now_ms: u64)
        requires
            old(self).wf(),
            scores@.len() == old(self)@.tracks.len(),
        ensures
            final(self).wf(),
            old(self)@.recomputed(scores@, now_ms, final(self)@),
    {
        let ghost before = self@;
        assert(before.tracks.len() == self.metrics@.len());
        let order: Vec<usize> = score_order(scores, self.config.higher_is_better);
        let ghost ints = as_ints(order@);
        let wanted: usize = if self.config.n < order.len() {
            self.config.n
        } else {
            order.len()
        };
        let mut top: Vec<TrackId> = Vec::new();
        let mut i: usize = 0;
        while i < wanted
            invariant
                i <= wanted <= order@.len(),
                ints == as_ints(order@),
                self@ == before,
                before.tracks.len() == self.metrics@.len(),
                is_score_order(
                    scores@,
                    before.config.higher_is_better,
                    ints,
                    self.metrics@.len() as int,
                ),
                top@.len() == i,
                forall|k: int| 0 <= k < i ==> (#[trigger] top@[k])@ == before.tracks[ints[k]].id,
            decreases wanted - i,
        {
            assert(ints[i as int] == order@[i as int]);
            let at: usize = order[i];
            assert(before.tracks[at as int] == self.metrics@[at as int]@);
            top.push(self.metrics[at].id.clone());
            i += 1;
        }
        self.cached_top_n = top;
        self.last_compute_ms = now_ms;
        proof {
            assert forall|k: int| 0 <= k < self@.top.len() implies #[trigger] self@.top[k]
                == before.tracks[ints[k]].id by {
                assert(self@.top[k] == top@[k]@);
            }
            assert(is_selection(before.tracks, ints, before.config.n as int, self@.top));
            assert(self@ =~= (TopNFilterView {
                top: self@.top,
                last_compute_ms: now_ms,
                ..before
            }));
        }
    }

    /// The selection.
    pub fn get_top_n(&self) -> (r: Vec<TrackId>)
        ensures
            r@.map_values(|id: TrackId| id@) == self@.top,
    {
        let mut out: Vec<TrackId> = Vec::new();
        let mut i: usize = 0;
        while i < self.cached_top_n.len()
            invariant
                i <= self.cached_top_n@.len(),
                out@.len() == i,
                forall|k: int| 0 <= k < i ==> (#[trigger] out@[k])@ == self.cached_top_n@[k]@,
            decreases self.cached_top_n@.len() - i,
        {
            out.push(self.cached_top_n[i].clone());
            i += 1;
        }
        assert(out@.map_values(|id: TrackId| id@) =~= self@.top);
        out
    }

    /// The metric of a track as it stands, if it has one.
    pub fn get_metric(
        &self,
        namespace: &TrackNamespace,
        track_name: &String,
        now_ms: u64,
    ) -> (r: Option<MetricReading>)
        requires
            self.wf(),
        ensures
            r == {
                let at = self@.place((namespace@, track_name@));
                if at < self@.tracks.len() {
                    Some(reading(self@.tracks[at], now_ms))
                } else {
                    None
                }
            },
    {
        let at: usize = self.find(namespace, track_name);
        if at < self.metrics.len() {
            assert(self@.tracks[at as int] == self.metrics@[at as int]@);
            Some(
                MetricReading {
                    average: self.metrics[at].average,
                    idle_ms: now_ms.saturating_sub(self.metrics[at].last_update_ms),
                },
            )
        } else {
            None
        }
    }

    /// The metrics of all tracks as they stand, in order.
    pub fn all_metrics(&self, now_ms: u64) -> (r: Vec<(TrackId, MetricReading)>)
        ensures
            r@.len() == self@.tracks.len(),
            forall|k: int|
                0 <= k < r@.len() ==> (#[trigger] r@[k]).0@ == self@.tracks[k].id && r@[k].1
                    == reading(self@.tracks[k], now_ms),
    {
        let mut out: Vec<(TrackId, MetricReading)> = Vec::new();
        let mut i: usize = 0;
        while i < self.metrics.len()
            invariant
                i <= self.metrics@.len(),
                self@.tracks.len() == self.metrics@.len(),
                out@.len() == i,
                forall|k: int|
                    0 <= k < i ==> (#[trigger] out@[k]).0@ == self@.tracks[k].id && out@[k].1
                        == reading(self@.tracks[k], now_ms),
            decreases self.metrics@.len() - i,
        {
            assert(self@.tracks[i as int] == self.metrics@[i as int]@);
            let m = &self.metrics[i];
            out.push(
                (
                    m.id.clone(),
                    MetricReading {
                        average: m.average,
                        idle_ms: now_ms.saturating_sub(m.last_update_ms),
                    },
                ),
            );
            i += 1;
        }
        out
    }

    /// The counts of the filter.
    pub fn stats(&self) -> (r: TopNStats)
        ensures
            r.objects_processed == self@.objects_processed,
            r.objects_filtered == self@.objects_filtered,
            r.tracks_monitored == self@.tracks.len(),
            r.current_top_n == self@.top.len(),
    {
        TopNStats {
            objects_processed: self.objects_processed,
            objects_filtered: self.objects_filtered,
            tracks_monitored: self.metrics.len(),
            current_top_n: self.cached_top_n.len(),
        }
    }

    /// Sets the counts to zero.
    pub fn reset_stats(&mut self)
        ensures
            final(self)@ == (TopNFilterView {
                objects_processed: 0,
                objects_filtered: 0,
                ..old(self)@
            }),
    {
        self.objects_processed = 0;
        self.objects_filtered = 0;
    }

    /// Takes out the tracks that had no update for `max_age_ms`.
    pub fn cleanup_stale(&mut self, max_age_ms: u64, now_ms: u64)
        requires
            old(self).wf(),
        ensures
            final(self).wf(),
            final(self)@ == (TopNFilterView {
                tracks: old(self)@.lively(max_age_ms, now_ms, old(self)@.tracks.len() as int),
                ..old(self)@
            }),
    {
        let ghost before = self@;
        let mut metrics: Vec<TrackMetric> = Vec::new();
        std::mem::swap(&mut metrics, &mut self.metrics);
        let ghost all = metrics@;
        let mut kept: Vec<TrackMetric> = Vec::new();
        let n: usize = metrics.len();
        let mut i: usize = 0;
        assert(before.tracks.len() == all.len());
        while i < n
            invariant
                i <= n,
                n == all.len(),
                before.tracks == all.map_values(|m: TrackMetric| m@),
                metrics@ == all.skip(i as int),
                kept@.map_values(|m: TrackMetric| m@) == before.lively(
                    max_age_ms,
                    now_ms,
                    i as int,
                ),
            decreases n - i,
        {
            let ghost sofar = kept@.map_values(|m: TrackMetric| m@);
            let metric = metrics.remove(0);
            assert(metrics@ =~= all.skip(i + 1));
            assert(metric@ == before.tracks[i as int]);
            if now_ms.saturating_sub(metric.last_update_ms) < max_age_ms {
                kept.push(metric);
                assert(kept@.map_values(|m: TrackMetric| m@) =~= sofar.push(metric@));
            }
            i += 1;
        }
        self.metrics = kept;
        proof {
            lemma_lively(before, max_age_ms, now_ms, n as int);
            assert(self@ =~= (TopNFilterView {
                tracks: before.lively(max_age_ms, now_ms, n as int),
                ..before
            }));
        }
    }

    /// The settings.
    pub fn config(&self) -> (r: &TopNConfig)
        ensures
            *r == self@.config,
    {
        &self.config
    }
}

/// A metric as it stands at a point in time.
pub open spec fn reading(metric: TrackMetricView, now_ms: u64) -> MetricReading {
    MetricReading {
        average: metric.average,
        idle_ms: elapsed(metric.last_update_ms, now_ms),
    }
}

/// The lively tracks are some of the listed ones, each at most once.
proof fn lemma_lively(filter: TopNFilterView, max_age_ms: u64, now_ms: u64, n: int)
    requires
        filter.wf(),
        0 <= n <= filter.tracks.len(),
    ensures
        forall|k: int|
            0 <= k < filter.lively(max_age_ms, now_ms, n).len() ==> exists|i: int|
                0 <= i < n && #[trigger] filter.tracks[i] == (#[trigger] filter.lively(
                    max_age_ms,
                    now_ms,
                    n,
                )[k]),
        forall|j: int, k: int|
            0 <= j < k < filter.lively(max_age_ms, now_ms, n).len() ==> (
            #[trigger] filter.lively(max_age_ms, now_ms, n)[j]).id != (#[trigger] filter.lively(
                max_age_ms,
                now_ms,
                n,
            )[k]).id,
    decreases n,
{
    if n > 0 {
        lemma_lively(filter, max_age_ms, now_ms, n - 1);
        let before = filter.lively(max_age_ms, now_ms, n - 1);
        let after = filter.lively(max_age_ms, now_ms, n);
        assert forall|k: int| 0 <= k < after.len() implies exists|i: int|
            0 <= i < n && #[trigger] filter.tracks[i] == (#[trigger] after[k]) by {
            if k < before.len() {
                let i = choose|i: int| 0 <= i < n - 1 && #[trigger] filter.tracks[i] == before[k];
                assert(filter.tracks[i] == after[k]);
            } else {
                assert(filter.tracks[n - 1] == after[k]);
            }
        }
        assert forall|j: int, k: int| 0 <= j < k < after.len() implies (#[trigger] after[j]).id
            != (#[trigger] after[k]).id by {
            if k == before.len() {
                let i = choose|i: int| 0 <= i < n - 1 && #[trigger] filter.tracks[i] == before[j];
                assert(filter.tracks[i].id != filter.tracks[n - 1].id);
            }
        }
    }
}

/// A track of the selection has a score at least as good as one outside of it, and the
/// selection is as large as asked for as long as there are tracks enough.
pub proof fn law_selection_is_best(
    before: TopNFilterView,
    scores: Seq<u64>,
    now_ms: u64,
    after: TopNFilterView,
    i: int,
    j: int,
)
    requires
        before.wf(),
        scores.len() == before.tracks.len(),
        before.recomputed(scores, now_ms, after),
        0 <= i < before.tracks.len(),
        0 <= j < before.tracks.len(),
        after.top.contains(before.tracks[i].id),
        !after.top.contains(before.tracks[j].id),
    ensures
        if before.config.higher_is_better {
            scores[i] >= scores[j]
        } else {
            scores[i] <= scores[j]
        },
        after.top.len() == before.config.n,
{
    let higher = before.config.higher_is_better;
    let n = before.tracks.len() as int;
    let order = choose|order: Seq<int>| #[trigger]
        is_score_order(scores, higher, order, n) && is_selection(
            before.tracks,
            order,
            before.config.n as int,
            after.top,
        );
    lemma_order_has_all(scores, higher, order, n, i);
    lemma_order_has_all(scores, higher, order, n, j);
    let a = choose|a: int| 0 <= a < order.len() && order[a] == i;
    let b = choose|b: int| 0 <= b < order.len() && order[b] == j;
    let k = choose|k: int| 0 <= k < after.top.len() && after.top[k] == before.tracks[i].id;
    if b < after.top.len() {
        assert(after.top[b] == before.tracks[j].id);
    }
    assert(before.tracks[order[k]].id == before.tracks[i].id);
    if order[k] < i {
        assert(before.tracks[order[k]].id != before.tracks[i].id);
    } else if i < order[k] {
        assert(before.tracks[i].id != before.tracks[order[k]].id);
    }
    if a < k {
        assert(scored_before(scores, higher, order[a], order[k]));
    } else if k < a {
        assert(scored_before(scores, higher, order[k], order[a]));
    }
    assert(a < b);
    assert(scored_before(scores, higher, order[a], order[b]));
}

/// A list of `n` different places below `n` holds every place.
proof fn lemma_order_has_all(
    scores: Seq<u64>,
    higher_is_better: bool,
    order: Seq<int>,
    n: int,
    i: int,
)
    requires
        is_score_order(scores, higher_is_better, order, n),
        0 <= i < n,
    ensures
        exists|k: int| 0 <= k < order.len() && order[k] == i,
{
    assert(order.no_duplicates()) by {
        assert forall|j: int, k: int| 0 <= j < order.len() && 0 <= k < order.len() && j
            != k implies order[j] != order[k] by {
            if j < k {
                assert(scored_before(scores, higher_is_better, order[j], order[k]));
            } else {
                assert(scored_before(scores, higher_is_better, order[k], order[j]));
            }
        }
    }
    let places = vstd::set_lib::set_int_range(0, n);
    vstd::set_lib::lemma_int_range(0, n);
    order.unique_seq_to_set();
    assert(order.to_set().subset_of(places)) by {
        assert forall|x: int| order.to_set().contains(x) implies places.contains(x) by {
            let k = choose|k: int| 0 <= k < order.len() && order[k] == x;
            assert(0 <= order[k] < n);
        }
    }
    vstd::set_lib::lemma_subset_equality(order.to_set(), places);
    assert(order.to_set().contains(i));
}

proof fn lemma_find_place(tracks: Seq<TrackMetricView>, id: (Seq<Seq<u8>>, Seq<char>), n: int)
    requires
        0 <= n <= tracks.len(),
    ensures
        0 <= find_track(tracks, id, n) <= n,
        find_track(tracks, id, n) < n ==> tracks[find_track(tracks, id, n)].id == id,
        find_track(tracks, id, n) == n ==> forall|k: int|
            0 <= k < n ==> (#[trigger] tracks[k]).id != id,
    decreases n,
{
    if n > 0 {
        lemma_find_place(tracks, id, n - 1);
    }
}

/// The metric of a track is held once it is set, in the place of an earlier one of the same track,
/// and those of other tracks stay.
pub proof fn law_metric_is_held(
    before: TopNFilterView,
    metric: TrackMetricView,
    other: TrackMetricView,
)
    requires
        before.wf(),
    ensures
        ({
            let after = before.with_metric(metric);
            &&& after.tracks.contains(metric)
            &&& other.id != metric.id ==> (after.tracks.contains(other) <==>
                before.tracks.contains(other))
            &&& other.id == metric.id ==> (after.tracks.contains(other) <==> other == metric)
            &&& after.top == before.top
            &&& after.config == before.config
        }),
{
    let after = before.with_metric(metric);
    let n = before.tracks.len() as int;
    lemma_find_place(before.tracks, metric.id, n);
    let at = before.place(metric.id);
    assert(after.tracks[at] == metric);
    if other.id != metric.id {
        if before.tracks.contains(other) {
            let k = choose|k: int| 0 <= k < n && before.tracks[k] == other;
            assert(after.tracks[k] == other);
        }
        if after.tracks.contains(other) {
            let k = choose|k: int| 0 <= k < after.tracks.len() && after.tracks[k] == other;
            assert(before.tracks[k] == other);
        }
    } else if after.tracks.contains(other) {
        let k = choose|k: int| 0 <= k < after.tracks.len() && after.tracks[k] == other;
        if k != at {
            assert(before.tracks[k].id == metric.id);
            if at < n {
                assert(before.tracks[at].id == metric.id);
                if k < at {
                    assert(before.tracks[k].id != before.tracks[at].id);
                } else {
                    assert(before.tracks[at].id != before.tracks[k].id);
                }
            }
        }
    }
}

/// The metric of an object is the value of its first extension of the type, if it has one.
pub proof fn law_metric_is_the_first_of_its_type(extensions: Seq<(u64, u64)>, ext_type: u64)
    ensures
        match metric_in(extensions, ext_type) {
            Some(value) => exists|i: int|
                0 <= i < extensions.len() && (#[trigger] extensions[i]) == (ext_type, value)
                    && forall|j: int| 0 <= j < i ==> (#[trigger] extensions[j]).0 != ext_type,
            None => forall|j: int|
                0 <= j < extensions.len() ==> (#[trigger] extensions[j]).0 != ext_type,
        },
    decreases extensions.len(),
{
    if extensions.len() > 0 {
        let rest = extensions.drop_first();
        law_metric_is_the_first_of_its_type(rest, ext_type);
        if extensions[0].0 == ext_type {
            assert(extensions[0] == (ext_type, extensions[0].1));
        } else {
            match metric_in(rest, ext_type) {
                Some(value) => {
                    let i = choose|i: int|
                        0 <= i < rest.len() && (#[trigger] rest[i]) == (ext_type, value)
                            && forall|j: int| 0 <= j < i ==> (#[trigger] rest[j]).0 != ext_type;
                    assert(extensions[i + 1] == rest[i]);
                    assert forall|j: int| 0 <= j < i + 1 implies (#[trigger] extensions[j]).0
                        != ext_type by {
                        if j > 0 {
                            assert(rest[j - 1] == extensions[j]);
                        }
                    }
                },
                None => {
                    assert forall|j: int| 0 <= j < extensions.len() implies (
                    #[trigger] extensions[j]).0 != ext_type by {
                        if j > 0 {
                            assert(rest[j - 1] == extensions[j]);
                        }
                    }
                },
            }
        }
    }
}

/// A filter that is off forwards everything. One that is on forwards a track exactly if it is
/// selected, by a selection that is made anew once the interval has passed since the last one, and
/// counts what it decides.
pub proof fn law_selected_tracks_are_forwarded(
    before: TopNFilterView,
    id: (Seq<Seq<u8>>, Seq<char>),
    scores: Seq<u64>,
    now_ms: u64,
    forwarded: bool,
    after: TopNFilterView,
)
    requires
        before.forwards(id, scores, now_ms, forwarded, after),
    ensures
        !before.enabled ==> forwarded && after == before,
        before.enabled ==> (forwarded <==> after.top.contains(id)),
        before.enabled && before.last_compute_ms + before.config.recompute_interval_ms > now_ms
            && before.config.recompute_interval_ms > 0 ==> after.top == before.top
            && after.last_compute_ms == before.last_compute_ms,
        before.enabled && before.last_compute_ms + before.config.recompute_interval_ms <= now_ms
            ==> after.last_compute_ms == now_ms && exists|made: TopNFilterView| #[trigger]
            before.recomputed(scores, now_ms, made) && made.top == after.top,
        before.enabled && before.objects_processed < u64::MAX ==> after.objects_processed
            == before.objects_processed + 1,
        before.enabled && before.objects_filtered < u64::MAX ==> after.objects_filtered
            == before.objects_filtered + if forwarded {
            0int
        } else {
            1
        },
        after.tracks == before.tracks,
        after.config == before.config,
        after.enabled == before.enabled,
{
}

/// A selection holds the tracks that are listed, no more than asked for.
pub proof fn law_selection_is_of_listed_tracks(
    before: TopNFilterView,
    scores: Seq<u64>,
    now_ms: u64,
    after: TopNFilterView,
    k: int,
)
    requires
        before.recomputed(scores, now_ms, after),
        0 <= k < after.top.len(),
    ensures
        after.top.len() <= before.config.n,
        after.top.len() <= before.tracks.len(),
        exists|i: int|
            0 <= i < before.tracks.len() && (#[trigger] before.tracks[i]).id == after.top[k],
        after.last_compute_ms == now_ms,
        after.tracks == before.tracks,
{
    let order = choose|order: Seq<int>| #[trigger]
        is_score_order(
            scores,
            before.config.higher_is_better,
            order,
            before.tracks.len() as int,
        ) && is_selection(before.tracks, order, before.config.n as int, after.top);
    assert(after.top[k] == before.tracks[order[k]].id);
}

proof fn lemma_lively_members(
    filter: TopNFilterView,
    max_age_ms: u64,
    now_ms: u64,
    n: int,
    track: TrackMetricView,
)
    requires
        0 <= n <= filter.tracks.len(),
    ensures
        filter.lively(max_age_ms, now_ms, n).contains(track) <==> filter.tracks.take(n).contains(
            track,
        ) && (now_ms < track.last_update_ms + max_age_ms && max_age_ms > 0),
    decreases n,
{
    if n > 0 {
        lemma_lively_members(filter, max_age_ms, now_ms, n - 1, track);
        let before = filter.lively(max_age_ms, now_ms, n - 1);
        let last = filter.tracks[n - 1];
        let shorter = filter.tracks.take(n - 1);
        let head = filter.tracks.take(n);
        assert(head =~= shorter.push(last));
        assert(head.contains(track) <==> shorter.contains(track) || track == last) by {
            if shorter.contains(track) {
                let i = choose|i: int| 0 <= i < shorter.len() && shorter[i] == track;
                assert(head[i] == track);
            }
            assert(head[n - 1] == last);
        }
        assert(before.push(last).contains(track) <==> before.contains(track) || track == last) by {
            if before.contains(track) {
                let i = choose|i: int| 0 <= i < before.len() && before[i] == track;
                assert(before.push(last)[i] == track);
            }
            assert(before.push(last)[before.len() as int] == last);
        }
    }
}

/// Cleaning up keeps the tracks whose last update is younger than the given age, and no others.
pub proof fn law_cleanup_keeps_lively_tracks(
    filter: TopNFilterView,
    max_age_ms: u64,
    now_ms: u64,
    track: TrackMetricView,
)
    ensures
        filter.lively(max_age_ms, now_ms, filter.tracks.len() as int).contains(track) <==>
            filter.tracks.contains(track) && now_ms < track.last_update_ms + max_age_ms
            && max_age_ms > 0,
{
    lemma_lively_members(filter, max_age_ms, now_ms, filter.tracks.len() as int, track);
    assert(filter.tracks.take(filter.tracks.len() as int) =~= filter.tracks);
}

/// A reading tells the average that is held, and how long ago it was updated.
pub proof fn law_reading_tells_the_idle_time(metric: TrackMetricView, now_ms: u64)
    requires
        metric.last_update_ms <= now_ms,
    ensures
        reading(metric, now_ms).average == metric.average,
        reading(metric, now_ms).idle_ms + metric.last_update_ms == now_ms,
{
}

} // verus!
