//! Track selection for many publishers and subscribers, where nobody is sent their own tracks.
//!
//! Updates of track metrics are buffered and taken in by batches. Each batch ends with a new
//! snapshot of the ranking, which answers all questions until the next one. The metrics are
//! smoothed and decay over time; the averages are held here as the numbers that the caller
//! keeps them in.

use vstd::prelude::*;
use crate::filter::stats;
use crate::filter::topn::{self, extract_metric};
use crate::text::text_eq;

verus! {

/// A publisher, by its session.
pub type PublisherId = u64;

/// A subscriber.
pub type SubscriberId = u64;

/// The number of a track in the order of arrival.
pub type ArrivalSeq = u64;

/// The settings of the filter.
#[derive(Clone, Copy, Debug, PartialEq, Eq, Structural)]
pub struct ScalableTopNConfig {
    /// How many tracks are selected.
    pub n: usize,
    /// The extension type that carries the metric.
    pub metric_extension_type: u64,
    /// After how long without an update a metric starts to decay.
    pub decay_after_ms: u64,
    /// How often a batch is taken in.
    pub batch_interval_ms: u64,
    /// Whether higher values are better.
    pub higher_is_better: bool,
    /// The room for notifications to all viewers.
    pub broadcast_capacity: usize,
    /// The room for notifications to one subscriber.
    pub individual_capacity: usize,
}

impl ScalableTopNConfig {
    /// The usual settings for the best `n` tracks.
    pub open spec fn usual(n: usize) -> ScalableTopNConfig {
        ScalableTopNConfig {
            n,
            metric_extension_type: 0x100,
            decay_after_ms: 2000,
            batch_interval_ms: 10,
            higher_is_better: true,
            broadcast_capacity: 64,
            individual_capacity: 16,
        }
    }

    /// The usual settings for the best `n` tracks.
    pub fn top(n: usize) -> (r: Self)
        ensures
            r == ScalableTopNConfig::usual(n),
    {
        ScalableTopNConfig {
            n,
            metric_extension_type: 0x100,
            decay_after_ms: 2000,
            batch_interval_ms: 10,
            higher_is_better: true,
            broadcast_capacity: 64,
            individual_capacity: 16,
        }
    }

    /// The settings with another extension type.
    pub fn with_metric_type(self, ext_type: u64) -> (r: Self)
        ensures
            r == (ScalableTopNConfig { metric_extension_type: ext_type, ..self }),
    {
        ScalableTopNConfig { metric_extension_type: ext_type, ..self }
    }

    /// The settings with another interval between batches.
    pub fn with_batch_interval(self, interval_ms: u64) -> (r: Self)
        ensures
            r == (ScalableTopNConfig { batch_interval_ms: interval_ms, ..self }),
    {
        ScalableTopNConfig { batch_interval_ms: interval_ms, ..self }
    }
}

impl Default for ScalableTopNConfig {
    fn default() -> (r: Self)
        ensures
            r == ScalableTopNConfig::usual(5),
    {
        Self::top(5)
    }
}

/// A track in the ranking.
#[derive(Debug)]
pub struct RankedTrack {
    pub publisher_id: PublisherId,
    pub namespace: String,
    pub name: String,
    /// The value that the track is ranked by.
    pub value: u64,
    /// Decides between equal values: the earlier arrival comes first.
    pub arrival_seq: ArrivalSeq,
    pub last_update_ms: u64,
    /// The smoothed value before decay.
    pub average: u64,
}

/// A track in the ranking.
#[verifier::ext_equal]
pub struct RankedTrackView {
    pub publisher_id: u64,
    pub namespace: Seq<char>,
    pub name: Seq<char>,
    pub value: u64,
    pub arrival_seq: u64,
    pub last_update_ms: u64,
    pub average: u64,
}

impl RankedTrackView {
    /// What tells tracks apart.
    pub open spec fn key(self) -> (Seq<char>, Seq<char>) {
        (self.namespace, self.name)
    }

    /// This track comes before another one: its value is better, or as good and it arrived
    /// earlier.
    pub open spec fn ranks_before(self, other: RankedTrackView, higher_is_better: bool) -> bool {
        if self.value == other.value {
            self.arrival_seq < other.arrival_seq
        } else if higher_is_better {
            self.value > other.value
        } else {
            self.value < other.value
        }
    }
}

impl View for RankedTrack {
    type V = RankedTrackView;

    open spec fn view(&self) -> RankedTrackView {
        RankedTrackView {
            publisher_id: self.publisher_id,
            namespace: self.namespace@,
            name: self.name@,
            value: self.value,
            arrival_seq: self.arrival_seq,
            last_update_ms: self.last_update_ms,
            average: self.average,
        }
    }
}

impl Clone for RankedTrack {
    fn clone(&self) -> (r: Self)
        ensures
            r@ == self@,
    {
        RankedTrack {
            publisher_id: self.publisher_id,
            namespace: self.namespace.clone(),
            name: self.name.clone(),
            value: self.value,
            arrival_seq: self.arrival_seq,
            last_update_ms: self.last_update_ms,
            average: self.average,
        }
    }
}

impl RankedTrack {
    /// Whether this track comes before another one.
    fn ranks_before(&self, other: &RankedTrack, higher_is_better: bool) -> (r: bool)
        ensures
            r == self@.ranks_before(other@, higher_is_better),
    {
        if self.value == other.value {
            self.arrival_seq < other.arrival_seq
        } else if higher_is_better {
            self.value > other.value
        } else {
            self.value < other.value
        }
    }

    /// Whether this is the track of that namespace and name.
    fn is_track(&self, namespace: &String, name: &String) -> (r: bool)
        ensures
            r == (self@.key() == (namespace@, name@)),
    {
        text_eq(&self.namespace, namespace) && text_eq(&self.name, name)
    }
}

/// The contents of a list of tracks.
pub open spec fn ranks(tracks: Seq<RankedTrack>) -> Seq<RankedTrackView> {
    tracks.map_values(|t: RankedTrack| t@)
}

/// A copy of a list of tracks.
fn copy_tracks(tracks: &Vec<RankedTrack>, n: usize) -> (r: Vec<RankedTrack>)
    requires
        n <= tracks@.len(),
    ensures
        ranks(r@) == ranks(tracks@).take(n as int),
{
    let mut out: Vec<RankedTrack> = Vec::new();
    let mut i: usize = 0;
    while i < n
        invariant
            i <= n <= tracks@.len(),
            out@.len() == i,
            forall|k: int| 0 <= k < i ==> (#[trigger] out@[k])@ == tracks@[k]@,
        decreases n - i,
    {
        out.push(tracks[i].clone());
        i += 1;
    }
    assert(ranks(out@) =~= ranks(tracks@).take(n as int));
    out
}

/// The best track comes first.
pub open spec fn is_ranked(ordered: Seq<RankedTrackView>, higher_is_better: bool) -> bool {
    forall|i: int, j: int|
        0 <= i < j < ordered.len() ==> (#[trigger] ordered[i]).ranks_before(
            #[trigger] ordered[j],
            higher_is_better,
        )
}

/// No two tracks have one key, or one place in the order of arrival.
pub open spec fn all_differ(ordered: Seq<RankedTrackView>) -> bool {
    forall|i: int, j: int|
        0 <= i < j < ordered.len() ==> (#[trigger] ordered[i]).key() != (
        #[trigger] ordered[j]).key() && ordered[i].arrival_seq != ordered[j].arrival_seq
}

/// All tracks arrived before `next_seq`.
pub open spec fn arrived_before(ordered: Seq<RankedTrackView>, next_seq: u64) -> bool {
    forall|i: int| 0 <= i < ordered.len() ==> (#[trigger] ordered[i]).arrival_seq < next_seq
}

/// One of the tracks has the key.
pub open spec fn has_key(ordered: Seq<RankedTrackView>, key: (Seq<char>, Seq<char>)) -> bool {
    exists|i: int| 0 <= i < ordered.len() && (#[trigger] ordered[i]).key() == key
}

/// The place of the track with the key.
pub open spec fn place_of(ordered: Seq<RankedTrackView>, key: (Seq<char>, Seq<char>)) -> int {
    choose|i: int| 0 <= i < ordered.len() && (#[trigger] ordered[i]).key() == key
}

/// The tracks by their keys.
pub open spec fn by_key(ordered: Seq<RankedTrackView>) -> Map<
    (Seq<char>, Seq<char>),
    RankedTrackView,
> {
    Map::new(
        |key: (Seq<char>, Seq<char>)| has_key(ordered, key),
        |key: (Seq<char>, Seq<char>)| ordered[place_of(ordered, key)],
    )
}

proof fn lemma_by_key(ordered: Seq<RankedTrackView>, i: int)
    requires
        all_differ(ordered),
        0 <= i < ordered.len(),
    ensures
        has_key(ordered, ordered[i].key()),
        place_of(ordered, ordered[i].key()) == i,
        by_key(ordered).contains_key(ordered[i].key()),
        by_key(ordered)[ordered[i].key()] == ordered[i],
{
    let key = ordered[i].key();
    let p = place_of(ordered, key);
    assert(0 <= p < ordered.len() && ordered[p].key() == key);
    if p < i {
        assert(ordered[p].key() != ordered[i].key());
    } else if i < p {
        assert(ordered[i].key() != ordered[p].key());
    }
}

/// Two rankings of the same tracks are equal: the values and arrivals decide the order.
pub proof fn law_ranking_is_determined(
    a: Seq<RankedTrackView>,
    b: Seq<RankedTrackView>,
    higher_is_better: bool,
)
    requires
        is_ranked(a, higher_is_better),
        is_ranked(b, higher_is_better),
        forall|t: RankedTrackView| #[trigger] a.contains(t) <==> b.contains(t),
    ensures
        a == b,
    decreases a.len(),
{
    if a.len() == 0 {
        if b.len() > 0 {
            assert(b.contains(b[0]));
            assert(a.contains(b[0]));
        }
        assert(a =~= b);
    } else {
        assert(a.contains(a[0]));
        let j = choose|j: int| 0 <= j < b.len() && b[j] == a[0];
        assert(b.contains(b[0]));
        assert(a.contains(b[0]));
        let i = choose|i: int| 0 <= i < a.len() && a[i] == b[0];
        if j > 0 {
            assert(b[0].ranks_before(b[j], higher_is_better));
            if i > 0 {
                assert(a[0].ranks_before(a[i], higher_is_better));
            }
        }
        assert(j == 0);
        let ra = a.drop_first();
        let rb = b.drop_first();
        assert forall|x: int, y: int| 0 <= x < y < ra.len() implies (
        #[trigger] ra[x]).ranks_before(#[trigger] ra[y], higher_is_better) by {
            assert(a[x + 1].ranks_before(a[y + 1], higher_is_better));
        }
        assert forall|x: int, y: int| 0 <= x < y < rb.len() implies (
        #[trigger] rb[x]).ranks_before(#[trigger] rb[y], higher_is_better) by {
            assert(b[x + 1].ranks_before(b[y + 1], higher_is_better));
        }
        assert forall|t: RankedTrackView| #[trigger] ra.contains(t) <==> rb.contains(t) by {
            if ra.contains(t) {
                let x = choose|x: int| 0 <= x < ra.len() && ra[x] == t;
                assert(a[x + 1] == t);
                assert(a.contains(a[x + 1]));
                assert(b.contains(t));
                let y = choose|y: int| 0 <= y < b.len() && b[y] == t;
                assert(a[0].ranks_before(a[x + 1], higher_is_better));
                assert(y != 0);
                assert(rb[y - 1] == t);
            }
            if rb.contains(t) {
                let y = choose|y: int| 0 <= y < rb.len() && rb[y] == t;
                assert(b[y + 1] == t);
                assert(b.contains(b[y + 1]));
                assert(a.contains(t));
                let x = choose|x: int| 0 <= x < a.len() && a[x] == t;
                assert(b[0].ranks_before(b[y + 1], higher_is_better));
                assert(x != 0);
                assert(ra[x - 1] == t);
            }
        }
        law_ranking_is_determined(ra, rb, higher_is_better);
        assert(a =~= seq![a[0]] + ra);
        assert(b =~= seq![b[0]] + rb);
    }
}

/// Puts a track in its place among ranked tracks.
fn insert_ranked(tracks: &mut Vec<RankedTrack>, track: RankedTrack, higher_is_better: bool)
    requires
        is_ranked(ranks(old(tracks)@), higher_is_better),
        all_differ(ranks(old(tracks)@).push(track@)),
    ensures
        is_ranked(ranks(final(tracks)@), higher_is_better),
        all_differ(ranks(final(tracks)@)),
        exists|p: int|
            0 <= p <= old(tracks)@.len() && ranks(final(tracks)@) == #[trigger] ranks(
                old(tracks)@,
            ).insert(p, track@),
{
    let ghost before = ranks(tracks@);
    let ghost t = track@;
    let mut p: usize = tracks.len();
    while p > 0 && track.ranks_before(&tracks[p - 1], higher_is_better)
        invariant
            p <= tracks@.len(),
            before == ranks(tracks@),
            t == track@,
            forall|k: int|
                p <= k < before.len() ==> t.ranks_before(#[trigger] before[k], higher_is_better),
        decreases p,
    {
        p -= 1;
        assert(before[p as int] == tracks@[p as int]@);
    }
    proof {
        let all = before.push(t);
        assert forall|k: int| 0 <= k < p implies (#[trigger] before[k]).ranks_before(
            t,
            higher_is_better,
        ) by {
            assert(before[p - 1] == tracks@[p - 1]@);
            assert(all[k].arrival_seq != all[before.len() as int].arrival_seq);
            assert(all[p - 1].arrival_seq != all[before.len() as int].arrival_seq);
            if k < p - 1 {
                assert(before[k].ranks_before(before[p - 1], higher_is_better));
            }
        }
    }
    tracks.insert(p, track);
    proof {
        let after = ranks(tracks@);
        let all = before.push(t);
        assert(after =~= before.insert(p as int, t));
        assert forall|i: int, j: int| 0 <= i < j < after.len() implies (
        #[trigger] after[i]).ranks_before(#[trigger] after[j], higher_is_better) && after[i].key()
            != after[j].key() && after[i].arrival_seq != after[j].arrival_seq by {
            let ii = if i > p { i - 1 } else { i };
            let jj = if j > p { j - 1 } else { j };
            if i == p {
                assert(all[jj] == before[jj]);
                assert(all[jj].key() != all[before.len() as int].key());
            } else if j == p {
                assert(all[ii] == before[ii]);
                assert(all[ii].key() != all[before.len() as int].key());
            } else {
                assert(before[ii].ranks_before(before[jj], higher_is_better));
                assert(all[ii].key() != all[jj].key());
            }
        }
    }
}

/// An update of a metric that waits for the next batch.
#[derive(Debug)]
pub struct PendingUpdate {
    pub publisher_id: PublisherId,
    pub namespace: String,
    pub name: String,
    pub value: u64,
    pub timestamp_ms: u64,
}

/// An update of a metric that waits for the next batch.
#[verifier::ext_equal]
pub struct PendingUpdateView {
    pub publisher_id: u64,
    pub namespace: Seq<char>,
    pub name: Seq<char>,
    pub value: u64,
    pub timestamp_ms: u64,
}

impl View for PendingUpdate {
    type V = PendingUpdateView;

    open spec fn view(&self) -> PendingUpdateView {
        PendingUpdateView {
            publisher_id: self.publisher_id,
            namespace: self.namespace@,
            name: self.name@,
            value: self.value,
            timestamp_ms: self.timestamp_ms,
        }
    }
}

/// The average of a track with an update taken in, and the value that it stands for.
#[derive(Clone, Copy, Debug, PartialEq, Eq, Structural)]
pub struct Smoothed {
    pub average: u64,
    pub value: u64,
}

/// The tracks by their keys, and the number of the next one to arrive.
#[verifier::ext_equal]
pub struct Standing {
    pub tracks: Map<(Seq<char>, Seq<char>), RankedTrackView>,
    pub next_seq: int,
}

impl Standing {
    /// The standing with an update taken in. A new track starts with the value as it came,
    /// a known one has the smoothed value and keeps its publisher and arrival.
    pub open spec fn updated(self, update: PendingUpdateView, smoothed: Smoothed) -> Standing {
        let key = (update.namespace, update.name);
        if self.tracks.contains_key(key) {
            Standing {
                tracks: self.tracks.insert(
                    key,
                    RankedTrackView {
                        value: smoothed.value,
                        average: smoothed.average,
                        last_update_ms: update.timestamp_ms,
                        ..self.tracks[key]
                    },
                ),
                ..self
            }
        } else {
            Standing {
                tracks: self.tracks.insert(
                    key,
                    RankedTrackView {
                        publisher_id: update.publisher_id,
                        namespace: update.namespace,
                        name: update.name,
                        value: update.value,
                        arrival_seq: self.next_seq as u64,
                        last_update_ms: update.timestamp_ms,
                        average: smoothed.average,
                    },
                ),
                next_seq: self.next_seq + 1,
            }
        }
    }

    /// The standing with the first `n` updates of a batch taken in.
    pub open spec fn batched(
        self,
        updates: Seq<PendingUpdateView>,
        smoothed: Seq<Smoothed>,
        n: int,
    ) -> Standing
        decreases n,
    {
        if n <= 0 {
            self
        } else {
            self.batched(updates, smoothed, n - 1).updated(updates[n - 1], smoothed[n - 1])
        }
    }
}

/// A track with decay taken in: the value is replaced if there was no update for too long.
pub open spec fn settled(
    track: RankedTrackView,
    decayed: u64,
    decay_after_ms: u64,
    now_ms: u64,
) -> RankedTrackView {
    if topn::elapsed(track.last_update_ms, now_ms) > decay_after_ms {
        RankedTrackView { value: decayed, ..track }
    } else {
        track
    }
}

/// `after` is the ranking of the tracks of `before` with decay taken in.
pub open spec fn is_settling(
    before: Seq<RankedTrackView>,
    decayed: Seq<u64>,
    config: ScalableTopNConfig,
    now_ms: u64,
    after: Seq<RankedTrackView>,
) -> bool {
    &&& is_ranked(after, config.higher_is_better)
    &&& all_differ(after)
    &&& after.len() == before.len()
    &&& forall|i: int|
        0 <= i < before.len() ==> after.contains(
            settled(#[trigger] before[i], decayed[i], config.decay_after_ms, now_ms),
        )
}

/// The tracks that had an update within `max_age_ms`, in order.
pub open spec fn fresh_tracks(
    ordered: Seq<RankedTrackView>,
    max_age_ms: u64,
    now_ms: u64,
) -> Seq<RankedTrackView> {
    ordered.filter(
        |t: RankedTrackView| topn::elapsed(t.last_update_ms, now_ms) <= max_age_ms,
    )
}

/// The ranking between batches.
struct RankingState {
    ordered: Vec<RankedTrack>,
    next_seq: ArrivalSeq,
    config: ScalableTopNConfig,
}

/// The tracks are in order, and each is listed once.
pub open spec fn is_ranking_state(
    ordered: Seq<RankedTrackView>,
    next_seq: u64,
    higher_is_better: bool,
) -> bool {
    &&& is_ranked(ordered, higher_is_better)
    &&& all_differ(ordered)
    &&& arrived_before(ordered, next_seq)
}

impl RankingState {
    spec fn wf(&self) -> bool {
        is_ranking_state(ranks(self.ordered@), self.next_seq, self.config.higher_is_better)
    }

    spec fn standing(&self) -> Standing {
        Standing { tracks: by_key(ranks(self.ordered@)), next_seq: self.next_seq as int }
    }

    fn new(config: ScalableTopNConfig) -> (r: Self)
        ensures
            r.wf(),
            r.ordered@.len() == 0,
            r.next_seq == 0,
            r.config == config,
    {
        RankingState { ordered: Vec::new(), next_seq: 0, config }
    }

    /// The place of a track, or the number of tracks.
    fn find(&self, namespace: &String, name: &String) -> (r: usize)
        ensures
            r <= self.ordered@.len(),
            r < self.ordered@.len() ==> ranks(self.ordered@)[r as int].key() == (
                namespace@,
                name@,
            ),
            r == self.ordered@.len() ==> !has_key(ranks(self.ordered@), (namespace@, name@)),
    {
        let mut i: usize = 0;
        while i < self.ordered.len()
            invariant
                i <= self.ordered@.len(),
                forall|k: int|
                    0 <= k < i ==> (#[trigger] ranks(self.ordered@)[k]).key() != (
                        namespace@,
                        name@,
                    ),
            decreases self.ordered@.len() - i,
        {
            if self.ordered[i].is_track(namespace, name) {
                return i;
            }
            i += 1;
        }
        i
    }

    /// Takes an update in.
    fn apply_update(&mut self, update: PendingUpdate, smoothed: Smoothed)
        requires
            old(self).wf(),
            old(self).next_seq < u64::MAX,
        ensures
            final(self).wf(),
            final(self).config == old(self).config,
            final(self).standing() == old(self).standing().updated(update@, smoothed),
            final(self).next_seq <= old(self).next_seq + 1,
    {
        let ghost start = *self;
        let ghost before = ranks(self.ordered@);
        let ghost key = (update.namespace@, update.name@);
        let ghost u = update@;
        let at: usize = self.find(&update.namespace, &update.name);
        if at < self.ordered.len() {
            proof {
                lemma_by_key(before, at as int);
            }
            let mut track = self.ordered.remove(at);
            let ghost rest = ranks(self.ordered@);
            assert(rest =~= before.remove(at as int));
            assert(track@ == before[at as int]);
            track.average = smoothed.average;
            track.value = smoothed.value;
            track.last_update_ms = update.timestamp_ms;
            let ghost t = track@;
            proof {
                lemma_removed(before, at as int, self.config.higher_is_better, t);
            }
            insert_ranked(&mut self.ordered, track, self.config.higher_is_better);
            proof {
                let after = ranks(self.ordered@);
                let p = choose|p: int|
                    0 <= p <= rest.len() && after == #[trigger] rest.insert(p, t);
                lemma_replaced(before, at as int, p, t, after);
                assert(arrived_before(after, self.next_seq)) by {
                    assert forall|i: int| 0 <= i < after.len() implies (
                    #[trigger] after[i]).arrival_seq < self.next_seq by {
                        lemma_by_key(after, i);
                        assert(by_key(after).contains_key(after[i].key()));
                        if after[i].key() != key {
                            let k = place_of(before, after[i].key());
                            assert(before[k].arrival_seq < self.next_seq);
                        } else {
                            assert(before[at as int].arrival_seq < self.next_seq);
                        }
                    }
                }
                assert(self.standing() =~= start.standing().updated(u, smoothed));
            }
        } else {
            let track = RankedTrack {
                publisher_id: update.publisher_id,
                namespace: update.namespace,
                name: update.name,
                value: update.value,
                arrival_seq: self.next_seq,
                last_update_ms: update.timestamp_ms,
                average: smoothed.average,
            };
            let ghost t = track@;
            self.next_seq = self.next_seq + 1;
            proof {
                let all = before.push(t);
                assert forall|i: int, j: int| 0 <= i < j < all.len() implies (
                #[trigger] all[i]).key() != (#[trigger] all[j]).key() && all[i].arrival_seq
                    != all[j].arrival_seq by {
                    assert(all[i] == before[i]);
                    if j < before.len() {
                        assert(before[i].key() != before[j].key());
                    }
                }
            }
            insert_ranked(&mut self.ordered, track, self.config.higher_is_better);
            proof {
                let after = ranks(self.ordered@);
                let p = choose|p: int|
                    0 <= p <= before.len() && after == #[trigger] before.insert(p, t);
                lemma_added(before, p, t, after);
                assert forall|i: int| 0 <= i < after.len() implies (
                #[trigger] after[i]).arrival_seq < self.next_seq by {
                    if i < p {
                        assert(after[i] == before[i]);
                    } else if i > p {
                        assert(after[i] == before[i - 1]);
                    }
                }
                assert(self.standing() =~= start.standing().updated(u, smoothed));
            }
        }
    }
}

/// What is left without one track, with room for a track of the same key and arrival.
proof fn lemma_removed(
    before: Seq<RankedTrackView>,
    at: int,
    higher_is_better: bool,
    t: RankedTrackView,
)
    requires
        is_ranked(before, higher_is_better),
        all_differ(before),
        0 <= at < before.len(),
        t.key() == before[at].key(),
        t.arrival_seq == before[at].arrival_seq,
    ensures
        is_ranked(before.remove(at), higher_is_better),
        all_differ(before.remove(at).push(t)),
{
    let rest = before.remove(at);
    assert forall|i: int, j: int| 0 <= i < j < rest.len() implies (
    #[trigger] rest[i]).ranks_before(#[trigger] rest[j], higher_is_better) by {
        let ii = if i >= at { i + 1 } else { i };
        let jj = if j >= at { j + 1 } else { j };
        assert(before[ii].ranks_before(before[jj], higher_is_better));
    }
    let all = rest.push(t);
    assert forall|i: int, j: int| 0 <= i < j < all.len() implies (#[trigger] all[i]).key() != (
    #[trigger] all[j]).key() && all[i].arrival_seq != all[j].arrival_seq by {
        let ii = if i >= at { i + 1 } else { i };
        assert(all[i] == before[ii]);
        if j < rest.len() {
            let jj = if j >= at { j + 1 } else { j };
            assert(before[ii].key() != before[jj].key());
        } else if ii < at {
            assert(before[ii].key() != before[at].key());
        } else {
            assert(before[at].key() != before[ii].key());
        }
    }
}

/// One track in place of the one with its key.
proof fn lemma_replaced(
    before: Seq<RankedTrackView>,
    at: int,
    p: int,
    t: RankedTrackView,
    after: Seq<RankedTrackView>,
)
    requires
        all_differ(before),
        all_differ(after),
        0 <= at < before.len(),
        0 <= p < before.len(),
        t.key() == before[at].key(),
        after == before.remove(at).insert(p, t),
    ensures
        by_key(after) == by_key(before).insert(t.key(), t),
{
    let rest = before.remove(at);
    let a = by_key(after);
    let b = by_key(before).insert(t.key(), t);
    assert(after[p] == t);
    lemma_by_key(after, p);
    lemma_by_key(before, at);
    assert forall|key: (Seq<char>, Seq<char>)| a.contains_key(key) <==> b.contains_key(key) by {
        if a.contains_key(key) && key != t.key() {
            let i = place_of(after, key);
            let r = if i > p { i - 1 } else { i };
            let o = if r >= at { r + 1 } else { r };
            assert(after[i] == rest[r]);
            assert(rest[r] == before[o]);
            assert(before[o].key() == key);
        }
        if by_key(before).contains_key(key) && key != t.key() {
            let o = place_of(before, key);
            let r = if o > at { o - 1 } else { o };
            let i = if r >= p { r + 1 } else { r };
            assert(rest[r] == before[o]);
            assert(after[i] == before[o]);
            assert(after[i].key() == key);
        }
    }
    assert forall|key: (Seq<char>, Seq<char>)| a.contains_key(key) implies a[key] == b[key] by {
        if key != t.key() {
            let i = place_of(after, key);
            let r = if i > p { i - 1 } else { i };
            let o = if r >= at { r + 1 } else { r };
            assert(after[i] == rest[r]);
            assert(rest[r] == before[o]);
            lemma_by_key(before, o);
        }
    }
    assert(a =~= b);
}

/// One track beside the others.
proof fn lemma_added(
    before: Seq<RankedTrackView>,
    p: int,
    t: RankedTrackView,
    after: Seq<RankedTrackView>,
)
    requires
        all_differ(before),
        all_differ(after),
        0 <= p <= before.len(),
        !has_key(before, t.key()),
        after == before.insert(p, t),
    ensures
        by_key(after) == by_key(before).insert(t.key(), t),
{
    let a = by_key(after);
    let b = by_key(before).insert(t.key(), t);
    assert(after[p] == t);
    lemma_by_key(after, p);
    assert forall|key: (Seq<char>, Seq<char>)| a.contains_key(key) <==> b.contains_key(key) by {
        if a.contains_key(key) && key != t.key() {
            let i = place_of(after, key);
            let o = if i > p { i - 1 } else { i };
            assert(after[i] == before[o]);
            assert(before[o].key() == key);
        }
        if by_key(before).contains_key(key) && key != t.key() {
            let o = place_of(before, key);
            let i = if o >= p { o + 1 } else { o };
            assert(after[i] == before[o]);
            assert(after[i].key() == key);
        }
    }
    assert forall|key: (Seq<char>, Seq<char>)| a.contains_key(key) implies a[key] == b[key] by {
        if key != t.key() {
            let i = place_of(after, key);
            let o = if i > p { i - 1 } else { i };
            assert(after[i] == before[o]);
            lemma_by_key(before, o);
        }
    }
    assert(a =~= b);
}

impl RankingState {
    /// Takes decay in. `decayed` holds for each track, in order, the value that it has
    /// decayed to.
    fn apply_decay(&mut self, decayed: &Vec<u64>, now_ms: u64)
        requires
            old(self).wf(),
            decayed@.len() == old(self).ordered@.len(),
        ensures
            final(self).wf(),
            final(self).config == old(self).config,
            final(self).next_seq == old(self).next_seq,
            is_settling(
                ranks(old(self).ordered@),
                decayed@,
                old(self).config,
                now_ms,
                ranks(final(self).ordered@),
            ),
    {
        let ghost before = ranks(self.ordered@);
        let ghost config = self.config;
        let higher = self.config.higher_is_better;
        let mut todo: Vec<RankedTrack> = Vec::new();
        std::mem::swap(&mut todo, &mut self.ordered);
        let ghost all = todo@;
        let mut done: Vec<RankedTrack> = Vec::new();
        let n: usize = todo.len();
        let mut i: usize = 0;
        while i < n
            invariant
                i <= n,
                n == before.len(),
                before == ranks(all),
                all_differ(before),
                arrived_before(before, self.next_seq),
                todo@ == all.skip(i as int),
                decayed@.len() == n,
                config == self.config,
                higher == config.higher_is_better,
                is_ranked(ranks(done@), higher),
                all_differ(ranks(done@)),
                done@.len() == i,
                settled_from(before, decayed@, config, now_ms, ranks(done@), i as int),
            decreases n - i,
        {
            let ghost sofar = ranks(done@);
            let mut track = todo.remove(0);
            assert(todo@ =~= all.skip(i + 1));
            assert(track@ == before[i as int]);
            if now_ms.saturating_sub(track.last_update_ms) > self.config.decay_after_ms {
                track.value = decayed[i];
            }
            let ghost t = track@;
            assert(t == settled(before[i as int], decayed@[i as int], config.decay_after_ms, now_ms));
            proof {
                lemma_settled_differ(before, decayed@, config, now_ms, sofar, i as int, t);
            }
            insert_ranked(&mut done, track, higher);
            proof {
                let after = ranks(done@);
                let p = choose|p: int|
                    0 <= p <= sofar.len() && after == #[trigger] sofar.insert(p, t);
                lemma_settled_more(before, decayed@, config, now_ms, sofar, i as int, t, p);
            }
            i += 1;
        }
        self.ordered = done;
        proof {
            let after = ranks(done@);
            assert forall|k: int| 0 <= k < before.len() implies after.contains(
                settled(#[trigger] before[k], decayed@[k], config.decay_after_ms, now_ms),
            ) by {
                assert(after.contains(
                    settled(before[k], decayed@[k], config.decay_after_ms, now_ms),
                ));
            }
            assert forall|k: int| 0 <= k < after.len() implies (#[trigger] after[k]).arrival_seq
                < self.next_seq by {
                let o = choose|o: int|
                    0 <= o < n && after[k] == settled(
                        #[trigger] before[o],
                        decayed@[o],
                        config.decay_after_ms,
                        now_ms,
                    );
                assert(before[o].arrival_seq < self.next_seq);
            }
        }
    }

    /// Takes out the tracks that had no update for longer than `max_age_ms`.
    fn cleanup_stale(&mut self, max_age_ms: u64, now_ms: u64)
        requires
            old(self).wf(),
        ensures
            final(self).wf(),
            final(self).config == old(self).config,
            final(self).next_seq == old(self).next_seq,
            ranks(final(self).ordered@) == fresh_tracks(
                ranks(old(self).ordered@),
                max_age_ms,
                now_ms,
            ),
    {
        let ghost before = ranks(self.ordered@);
        let ghost keep = |t: RankedTrackView|
            topn::elapsed(t.last_update_ms, now_ms) <= max_age_ms;
        let mut todo: Vec<RankedTrack> = Vec::new();
        std::mem::swap(&mut todo, &mut self.ordered);
        let ghost all = todo@;
        let mut kept: Vec<RankedTrack> = Vec::new();
        let n: usize = todo.len();
        let mut i: usize = 0;
        assert(before.take(0).filter(keep) =~= ranks(kept@)) by {
            reveal(Seq::filter);
        }
        while i < n
            invariant
                i <= n,
                n == before.len(),
                before == ranks(all),
                todo@ == all.skip(i as int),
                keep == (|t: RankedTrackView|
                    topn::elapsed(t.last_update_ms, now_ms) <= max_age_ms),
                ranks(kept@) == before.take(i as int).filter(keep),
            decreases n - i,
        {
            let ghost sofar = ranks(kept@);
            let track = todo.remove(0);
            assert(todo@ =~= all.skip(i + 1));
            assert(track@ == before[i as int]);
            proof {
                reveal(Seq::filter);
                assert(before.take(i + 1).drop_last() =~= before.take(i as int));
            }
            if now_ms.saturating_sub(track.last_update_ms) <= max_age_ms {
                kept.push(track);
                assert(ranks(kept@) =~= sofar.push(track@));
            }
            i += 1;
        }
        self.ordered = kept;
        proof {
            assert(before.take(n as int) =~= before);
            lemma_filtered(before, keep, self.config.higher_is_better, self.next_seq);
        }
    }

    /// The ranking as it stands.
    fn snapshot(&self) -> (r: RankingSnapshot)
        requires
            0 < self.config.n,
        ensures
            r@ == snapshot_of(ranks(self.ordered@), self.config),
    {
        let ordered: Vec<RankedTrack> = copy_tracks(&self.ordered, self.ordered.len());
        assert(ranks(self.ordered@).take(self.ordered@.len() as int) =~= ranks(self.ordered@));
        let n: usize = self.config.n;
        assert(forall|k: int|
            0 <= k < ordered@.len() ==> ranks(ordered@)[k] == (#[trigger] ordered@[k])@);
        assert(ranks(ordered@).len() == ordered@.len());
        let threshold: u64 = if ordered.len() >= n {
            ordered[n - 1].value
        } else if ordered.len() > 0 {
            ordered[ordered.len() - 1].value
        } else {
            0
        };
        let threshold_plus_one: u64 = if ordered.len() > n {
            ordered[n].value
        } else if self.config.higher_is_better {
            0
        } else {
            u64::MAX
        };
        RankingSnapshot {
            ordered,
            threshold,
            threshold_plus_one,
            n,
            higher_is_better: self.config.higher_is_better,
        }
    }
}

/// `done` holds the first `n` tracks of `before` with decay taken in.
pub open spec fn settled_from(
    before: Seq<RankedTrackView>,
    decayed: Seq<u64>,
    config: ScalableTopNConfig,
    now_ms: u64,
    done: Seq<RankedTrackView>,
    n: int,
) -> bool {
    &&& forall|k: int|
        0 <= k < n ==> done.contains(
            settled(#[trigger] before[k], decayed[k], config.decay_after_ms, now_ms),
        )
    &&& forall|k: int|
        0 <= k < done.len() ==> exists|o: int|
            0 <= o < n && #[trigger] done[k] == settled(
                #[trigger] before[o],
                decayed[o],
                config.decay_after_ms,
                now_ms,
            )
}

proof fn lemma_settled_differ(
    before: Seq<RankedTrackView>,
    decayed: Seq<u64>,
    config: ScalableTopNConfig,
    now_ms: u64,
    done: Seq<RankedTrackView>,
    n: int,
    t: RankedTrackView,
)
    requires
        all_differ(before),
        all_differ(done),
        0 <= n < before.len(),
        settled_from(before, decayed, config, now_ms, done, n),
        t == settled(before[n], decayed[n], config.decay_after_ms, now_ms),
    ensures
        all_differ(done.push(t)),
{
    let all = done.push(t);
    assert forall|i: int, j: int| 0 <= i < j < all.len() implies (#[trigger] all[i]).key() != (
    #[trigger] all[j]).key() && all[i].arrival_seq != all[j].arrival_seq by {
        assert(all[i] == done[i]);
        if j < done.len() {
            assert(done[i].key() != done[j].key());
        } else {
            let o = choose|o: int|
                0 <= o < n && done[i] == settled(
                    #[trigger] before[o],
                    decayed[o],
                    config.decay_after_ms,
                    now_ms,
                );
            assert(before[o].key() != before[n].key());
        }
    }
}

proof fn lemma_settled_more(
    before: Seq<RankedTrackView>,
    decayed: Seq<u64>,
    config: ScalableTopNConfig,
    now_ms: u64,
    done: Seq<RankedTrackView>,
    n: int,
    t: RankedTrackView,
    p: int,
)
    requires
        0 <= n < before.len(),
        0 <= p <= done.len(),
        settled_from(before, decayed, config, now_ms, done, n),
        t == settled(before[n], decayed[n], config.decay_after_ms, now_ms),
    ensures
        settled_from(before, decayed, config, now_ms, done.insert(p, t), n + 1),
{
    let after = done.insert(p, t);
    assert(after[p] == t);
    assert forall|k: int| 0 <= k < n + 1 implies after.contains(
        settled(#[trigger] before[k], decayed[k], config.decay_after_ms, now_ms),
    ) by {
        if k < n {
            let s = settled(before[k], decayed[k], config.decay_after_ms, now_ms);
            assert(done.contains(s));
            let x = choose|x: int| 0 <= x < done.len() && done[x] == s;
            let y = if x >= p { x + 1 } else { x };
            assert(after[y] == s);
        }
    }
    assert forall|k: int| 0 <= k < after.len() implies exists|o: int|
        0 <= o < n + 1 && #[trigger] after[k] == settled(
            #[trigger] before[o],
            decayed[o],
            config.decay_after_ms,
            now_ms,
        ) by {
        if k == p {
            assert(after[k] == settled(before[n], decayed[n], config.decay_after_ms, now_ms));
        } else {
            let x = if k > p { k - 1 } else { k };
            assert(after[k] == done[x]);
            let o = choose|o: int|
                0 <= o < n && done[x] == settled(
                    #[trigger] before[o],
                    decayed[o],
                    config.decay_after_ms,
                    now_ms,
                );
            assert(after[k] == settled(before[o], decayed[o], config.decay_after_ms, now_ms));
        }
    }
}

/// Some of the tracks of a ranking, in order, are a ranking.
proof fn lemma_filtered(
    before: Seq<RankedTrackView>,
    keep: spec_fn(RankedTrackView) -> bool,
    higher_is_better: bool,
    next_seq: u64,
)
    requires
        is_ranking_state(before, next_seq, higher_is_better),
    ensures
        is_ranking_state(before.filter(keep), next_seq, higher_is_better),
        forall|k: int| 0 <= k < before.filter(keep).len() ==> before.contains(#[trigger] before.filter(keep)[k]),
    decreases before.len(),
{
    reveal(Seq::filter);
    if before.len() > 0 {
        let most = before.drop_last();
        let last = before.last();
        assert forall|i: int, j: int| 0 <= i < j < most.len() implies (
        #[trigger] most[i]).ranks_before(#[trigger] most[j], higher_is_better) && most[i].key()
            != most[j].key() && most[i].arrival_seq != most[j].arrival_seq by {
            assert(before[i].ranks_before(before[j], higher_is_better));
            assert(before[i].key() != before[j].key());
        }
        assert forall|i: int| 0 <= i < most.len() implies (#[trigger] most[i]).arrival_seq
            < next_seq by {
            assert(before[i].arrival_seq < next_seq);
        }
        lemma_filtered(most, keep, higher_is_better, next_seq);
        let some = most.filter(keep);
        let after = before.filter(keep);
        assert forall|k: int| 0 <= k < after.len() implies before.contains(
            #[trigger] after[k],
        ) by {
            if k < some.len() {
                assert(after[k] == some[k]);
                assert(most.contains(some[k]));
                let x = choose|x: int| 0 <= x < most.len() && most[x] == some[k];
                assert(before[x] == after[k]);
            } else {
                assert(before[before.len() - 1] == after[k]);
            }
        }
        assert forall|i: int, j: int| 0 <= i < j < after.len() implies (
        #[trigger] after[i]).ranks_before(#[trigger] after[j], higher_is_better)
            && after[i].key() != after[j].key() && after[i].arrival_seq
            != after[j].arrival_seq by {
            assert(after[i] == some[i]);
            if j < some.len() {
                assert(some[i].ranks_before(some[j], higher_is_better));
                assert(some[i].key() != some[j].key());
            } else {
                assert(most.contains(some[i]));
                let x = choose|x: int| 0 <= x < most.len() && most[x] == some[i];
                assert(before[x].ranks_before(before[before.len() - 1], higher_is_better));
                assert(before[x].key() != before[before.len() - 1].key());
            }
        }
        assert forall|i: int| 0 <= i < after.len() implies (#[trigger] after[i]).arrival_seq
            < next_seq by {
            assert(before.contains(after[i]));
            let x = choose|x: int| 0 <= x < before.len() && before[x] == after[i];
            assert(before[x].arrival_seq < next_seq);
        }
    }
}

/// The ranking at one point in time.
pub struct RankingSnapshot {
    ordered: Vec<RankedTrack>,
    threshold: u64,
    threshold_plus_one: u64,
    n: usize,
    higher_is_better: bool,
}

/// The ranking at one point in time.
#[verifier::ext_equal]
pub struct RankingSnapshotView {
    /// The tracks, the best one first.
    pub ordered: Seq<RankedTrackView>,
    /// The value that is needed to be selected.
    pub threshold: u64,
    /// The value of the best track that is not selected.
    pub threshold_plus_one: u64,
    /// How many tracks are selected.
    pub n: usize,
    pub higher_is_better: bool,
}

/// The snapshot of a ranking.
pub open spec fn snapshot_of(
    ordered: Seq<RankedTrackView>,
    config: ScalableTopNConfig,
) -> RankingSnapshotView {
    RankingSnapshotView {
        ordered,
        threshold: if ordered.len() >= config.n {
            ordered[config.n - 1].value
        } else if ordered.len() > 0 {
            ordered.last().value
        } else {
            0
        },
        threshold_plus_one: if ordered.len() > config.n {
            ordered[config.n as int].value
        } else if config.higher_is_better {
            0
        } else {
            u64::MAX
        },
        n: config.n,
        higher_is_better: config.higher_is_better,
    }
}

impl RankingSnapshotView {
    /// How many tracks are selected.
    pub open spec fn selected(self) -> int {
        if self.n < self.ordered.len() {
            self.n as int
        } else {
            self.ordered.len() as int
        }
    }

    /// The track is selected.
    pub open spec fn selects(self, key: (Seq<char>, Seq<char>)) -> bool {
        exists|i: int| 0 <= i < self.selected() && (#[trigger] self.ordered[i]).key() == key
    }

    /// A track of the publisher is selected.
    pub open spec fn selects_from(self, publisher_id: u64) -> bool {
        exists|i: int|
            0 <= i < self.selected() && (#[trigger] self.ordered[i]).publisher_id == publisher_id
    }

    /// The value that a track needs to be forwarded to the publisher.
    pub open spec fn waterline(self, publisher_id: u64) -> u64 {
        if self.selects_from(publisher_id) {
            self.threshold_plus_one
        } else {
            self.threshold
        }
    }

    /// The value reaches the waterline.
    pub open spec fn reaches(self, value: u64, waterline: u64) -> bool {
        if self.higher_is_better {
            value >= waterline
        } else {
            value <= waterline
        }
    }

    /// The track is forwarded to a viewer, or to a subscriber that publishes too. A
    /// publisher is not sent their own tracks.
    pub open spec fn forwards(
        self,
        key: (Seq<char>, Seq<char>),
        subscriber_publisher_id: Option<u64>,
    ) -> bool {
        match subscriber_publisher_id {
            None => self.selects(key),
            Some(publisher_id) => {
                &&& has_key(self.ordered, key)
                &&& self.ordered[place_of(self.ordered, key)].publisher_id != publisher_id
                &&& self.reaches(
                    self.ordered[place_of(self.ordered, key)].value,
                    self.waterline(publisher_id),
                )
            },
        }
    }

    /// The selected tracks.
    pub open spec fn top(self) -> Seq<RankedTrackView> {
        self.ordered.take(self.selected())
    }

    /// The names of the selected tracks.
    pub open spec fn top_keys(self) -> Seq<(Seq<char>, Seq<char>)> {
        self.top().map_values(|t: RankedTrackView| t.key())
    }

    /// No track is listed twice.
    pub open spec fn wf(self) -> bool {
        all_differ(self.ordered)
    }
}

impl View for RankingSnapshot {
    type V = RankingSnapshotView;

    closed spec fn view(&self) -> RankingSnapshotView {
        RankingSnapshotView {
            ordered: ranks(self.ordered@),
            threshold: self.threshold,
            threshold_plus_one: self.threshold_plus_one,
            n: self.n,
            higher_is_better: self.higher_is_better,
        }
    }
}

impl RankingSnapshot {
    /// The number of selected tracks.
    fn selected(&self) -> (r: usize)
        ensures
            r == self@.selected(),
            r <= self.ordered@.len(),
    {
        if self.n < self.ordered.len() {
            self.n
        } else {
            self.ordered.len()
        }
    }

    /// Whether a track is selected.
    pub fn is_in_top_n(&self, namespace: &String, name: &String) -> (r: bool)
        ensures
            r == self@.selects((namespace@, name@)),
    {
        let end: usize = self.selected();
        let mut i: usize = 0;
        while i < end
            invariant
                i <= end <= self.ordered@.len(),
                end == self@.selected(),
                forall|k: int|
                    0 <= k < i ==> (#[trigger] self@.ordered[k]).key() != (namespace@, name@),
            decreases end - i,
        {
            assert(self@.ordered[i as int] == self.ordered@[i as int]@);
            if self.ordered[i].is_track(namespace, name) {
                return true;
            }
            i += 1;
        }
        false
    }

    /// The value that is needed to be selected.
    pub fn threshold(&self) -> (r: u64)
        ensures
            r == self@.threshold,
    {
        self.threshold
    }

    /// The selected tracks.
    pub fn top_n(&self) -> (r: Vec<RankedTrack>)
        ensures
            ranks(r@) == self@.top(),
    {
        copy_tracks(&self.ordered, self.selected())
    }

    /// The value that a track needs to be forwarded to a publisher. It is that of the best
    /// track that is not selected if one of their own is.
    pub fn waterline_for(&self, publisher_id: PublisherId) -> (r: u64)
        ensures
            r == self@.waterline(publisher_id),
    {
        let end: usize = self.selected();
        let mut i: usize = 0;
        while i < end
            invariant
                i <= end <= self.ordered@.len(),
                end == self@.selected(),
                forall|k: int|
                    0 <= k < i ==> (#[trigger] self@.ordered[k]).publisher_id != publisher_id,
            decreases end - i,
        {
            assert(self@.ordered[i as int] == self.ordered@[i as int]@);
            if self.ordered[i].publisher_id == publisher_id {
                return self.threshold_plus_one;
            }
            i += 1;
        }
        self.threshold
    }

    /// Whether a track is forwarded to a viewer, or to a subscriber that publishes too.
    pub fn should_forward(
        &self,
        namespace: &String,
        name: &String,
        subscriber_publisher_id: Option<PublisherId>,
    ) -> (r: bool)
        requires
            self@.wf(),
        ensures
            r == self@.forwards((namespace@, name@), subscriber_publisher_id),
    {
        match subscriber_publisher_id {
            None => self.is_in_top_n(namespace, name),
            Some(publisher_id) => {
                let waterline: u64 = self.waterline_for(publisher_id);
                let mut i: usize = 0;
                while i < self.ordered.len()
                    invariant
                        i <= self.ordered@.len(),
                        self@.wf(),
                        waterline == self@.waterline(publisher_id),
                        subscriber_publisher_id == Some(publisher_id),
                        forall|k: int|
                            0 <= k < i ==> (#[trigger] self@.ordered[k]).key() != (
                                namespace@,
                                name@,
                            ),
                    decreases self.ordered@.len() - i,
                {
                    assert(self@.ordered[i as int] == self.ordered@[i as int]@);
                    if self.ordered[i].is_track(namespace, name) {
                        proof {
                            lemma_by_key(self@.ordered, i as int);
                        }
                        if self.ordered[i].publisher_id == publisher_id {
                            return false;
                        }
                        return if self.higher_is_better {
                            self.ordered[i].value >= waterline
                        } else {
                            self.ordered[i].value <= waterline
                        };
                    }
                    i += 1;
                }
                false
            },
        }
    }
}

/// Nobody is sent their own tracks.
pub proof fn law_own_tracks_are_not_forwarded(
    snapshot: RankingSnapshotView,
    i: int,
)
    requires
        snapshot.wf(),
        0 <= i < snapshot.ordered.len(),
    ensures
        !snapshot.forwards(snapshot.ordered[i].key(), Some(snapshot.ordered[i].publisher_id)),
{
    lemma_by_key(snapshot.ordered, i);
}

/// A publisher is sent the best `n` tracks of others, if at most one of their own is among
/// the best `n`. Where the values around the last place differ, no others are sent.
pub proof fn law_personal_selection(
    ordered: Seq<RankedTrackView>,
    config: ScalableTopNConfig,
    publisher_id: u64,
    i: int,
)
    requires
        0 < config.n,
        is_ranked(ordered, config.higher_is_better),
        all_differ(ordered),
        0 <= i < ordered.len(),
        ordered[i].publisher_id != publisher_id,
    ensures
        ({
            let snapshot = snapshot_of(ordered, config);
            let places = config.n + if snapshot.selects_from(publisher_id) {
                1int
            } else {
                0
            };
            &&& i < places ==> snapshot.forwards(ordered[i].key(), Some(publisher_id))
            &&& places <= i && ordered[i].value != ordered[places - 1].value
                ==> !snapshot.forwards(ordered[i].key(), Some(publisher_id))
        }),
{
    let snapshot = snapshot_of(ordered, config);
    lemma_by_key(ordered, i);
    let places = config.n + if snapshot.selects_from(publisher_id) {
        1int
    } else {
        0
    };
    let last = if places <= ordered.len() {
        places - 1
    } else {
        ordered.len() - 1
    };
    if i < last {
        assert(ordered[i].ranks_before(ordered[last], config.higher_is_better));
    } else if last < i {
        assert(ordered[last].ranks_before(ordered[i], config.higher_is_better));
    }
}

/// A viewer is sent the best `n` tracks and no others.
pub proof fn law_viewer_selection(
    ordered: Seq<RankedTrackView>,
    config: ScalableTopNConfig,
    i: int,
)
    requires
        all_differ(ordered),
        0 <= i < ordered.len(),
    ensures
        snapshot_of(ordered, config).forwards(ordered[i].key(), None) <==> i < config.n,
{
    let snapshot = snapshot_of(ordered, config);
    if snapshot.selects(ordered[i].key()) {
        let k = choose|k: int|
            0 <= k < snapshot.selected() && (#[trigger] snapshot.ordered[k]).key()
                == ordered[i].key();
        if k < i {
            assert(ordered[k].key() != ordered[i].key());
        } else if i < k {
            assert(ordered[i].key() != ordered[k].key());
        }
    }
    if i < config.n {
        assert(snapshot.ordered[i].key() == ordered[i].key());
    }
}

/// What changed in a selection.
#[derive(Debug)]
pub enum SelectionChange {
    /// A track is selected now.
    Selected { namespace: String, name: String, publisher_id: PublisherId, rank: usize },
    /// A track is no longer selected.
    Deselected { namespace: String, name: String, publisher_id: PublisherId },
    /// The selection is another one: the namespaces and names of its tracks in order.
    TopNChanged { new_top_n: Vec<(String, String)> },
}

/// The contents of a list of track names.
pub open spec fn keys_view(keys: Seq<(String, String)>) -> Seq<(Seq<char>, Seq<char>)> {
    keys.map_values(|k: (String, String)| (k.0@, k.1@))
}

/// What a subscriber is.
#[derive(Clone, Copy, Debug, PartialEq, Eq, Structural)]
pub enum SubscriberType {
    /// Watches only, and is told of changes together with all others.
    Viewer,
    /// Publishes too, and is not sent their own tracks.
    PublisherSubscriber { publisher_id: PublisherId },
}

impl SubscriberType {
    /// The publisher that the subscriber is, if any.
    pub open spec fn publisher(self) -> Option<u64> {
        match self {
            SubscriberType::Viewer => None,
            SubscriberType::PublisherSubscriber { publisher_id } => Some(publisher_id),
        }
    }
}

/// The type of a subscriber among those that are registered.
pub open spec fn type_of(subscribers: Seq<(u64, SubscriberType)>, id: u64) -> Option<
    SubscriberType,
>
    decreases subscribers.len(),
{
    if subscribers.len() == 0 {
        None
    } else if subscribers[0].0 == id {
        Some(subscribers[0].1)
    } else {
        type_of(subscribers.drop_first(), id)
    }
}

/// The subscribers that do not have the id.
pub open spec fn other_than(id: u64) -> spec_fn((u64, SubscriberType)) -> bool {
    |s: (u64, SubscriberType)| s.0 != id
}

/// The subscribers without one.
pub open spec fn without(subscribers: Seq<(u64, SubscriberType)>, id: u64) -> Seq<
    (u64, SubscriberType),
> {
    subscribers.filter(other_than(id))
}

/// How many of the subscribers are viewers.
pub open spec fn viewers(subscribers: Seq<(u64, SubscriberType)>) -> nat
    decreases subscribers.len(),
{
    if subscribers.len() == 0 {
        0
    } else {
        viewers(subscribers.drop_last()) + if subscribers.last().1 == SubscriberType::Viewer {
            1nat
        } else {
            0
        }
    }
}

/// The filter that selects the best tracks for many subscribers.
pub struct ScalableTopNFilter {
    config: ScalableTopNConfig,
    snapshot: RankingSnapshot,
    state: RankingState,
    pending_updates: Vec<PendingUpdate>,
    subscribers: Vec<(SubscriberId, SubscriberType)>,
    next_id: SubscriberId,
    last_batch_ms: u64,
    updates_received: u64,
    updates_processed: u64,
    queries_served: u64,
}

/// The state of a [`ScalableTopNFilter`].
#[verifier::ext_equal]
pub struct ScalableTopNFilterView {
    pub config: ScalableTopNConfig,
    /// The ranking that questions are answered from.
    pub snapshot: RankingSnapshotView,
    /// The ranking as the updates leave it.
    pub ordered: Seq<RankedTrackView>,
    /// The number of the next track to arrive.
    pub next_seq: u64,
    /// The updates that wait for the next batch.
    pub pending: Seq<PendingUpdateView>,
    pub subscribers: Seq<(u64, SubscriberType)>,
    /// The id of the next subscriber.
    pub next_id: u64,
    pub last_batch_ms: u64,
    pub updates_received: u64,
    pub updates_processed: u64,
    pub queries_served: u64,
}

impl ScalableTopNFilterView {
    /// A filter without tracks and subscribers.
    pub open spec fn empty(config: ScalableTopNConfig, now_ms: u64) -> ScalableTopNFilterView {
        ScalableTopNFilterView {
            config,
            snapshot: RankingSnapshotView {
                ordered: Seq::empty(),
                threshold: 0,
                threshold_plus_one: 0,
                n: config.n,
                higher_is_better: config.higher_is_better,
            },
            ordered: Seq::empty(),
            next_seq: 0,
            pending: Seq::empty(),
            subscribers: Seq::empty(),
            next_id: 0,
            last_batch_ms: now_ms,
            updates_received: 0,
            updates_processed: 0,
            queries_served: 0,
        }
    }

    pub open spec fn wf(self) -> bool {
        &&& is_ranking_state(self.ordered, self.next_seq, self.config.higher_is_better)
        &&& self.snapshot.wf()
        &&& is_ranked(self.snapshot.ordered, self.config.higher_is_better)
        &&& self.snapshot.n == self.config.n
        &&& self.snapshot.higher_is_better == self.config.higher_is_better
    }

    /// The tracks as the updates leave them.
    pub open spec fn standing(self) -> Standing {
        Standing { tracks: by_key(self.ordered), next_seq: self.next_seq as int }
    }

    /// The filter with one more question answered.
    pub open spec fn asked(self) -> ScalableTopNFilterView {
        ScalableTopNFilterView {
            queries_served: stats::wrapping_sum(self.queries_served, 1),
            ..self
        }
    }

    /// It is time for the next batch.
    pub open spec fn batch_due(self, now_ms: u64) -> bool {
        topn::elapsed(self.last_batch_ms, now_ms) >= self.config.batch_interval_ms
    }

    /// The filter with a subscriber registered.
    pub open spec fn with_subscriber(self, kind: SubscriberType) -> ScalableTopNFilterView {
        ScalableTopNFilterView {
            subscribers: self.subscribers.push((self.next_id, kind)),
            next_id: (self.next_id + 1) as u64,
            ..self
        }
    }
}

impl View for ScalableTopNFilter {
    type V = ScalableTopNFilterView;

    closed spec fn view(&self) -> ScalableTopNFilterView {
        ScalableTopNFilterView {
            config: self.config,
            snapshot: self.snapshot@,
            ordered: ranks(self.state.ordered@),
            next_seq: self.state.next_seq,
            pending: self.pending_updates@.map_values(|u: PendingUpdate| u@),
            subscribers: self.subscribers@,
            next_id: self.next_id,
            last_batch_ms: self.last_batch_ms,
            updates_received: self.updates_received,
            updates_processed: self.updates_processed,
            queries_served: self.queries_served,
        }
    }
}

/// Counts of a [`ScalableTopNFilter`].
#[derive(Clone, Copy, Debug, PartialEq, Eq, Structural)]
pub struct ScalableTopNStats {
    pub updates_received: u64,
    pub updates_processed: u64,
    pub queries_served: u64,
    pub tracks_monitored: usize,
    pub current_top_n: usize,
    pub threshold: u64,
    pub viewer_count: usize,
    pub pub_sub_count: usize,
}

impl ScalableTopNStats {
    /// An estimate of the memory in use, in bytes: some for every viewer, for every
    /// subscriber that publishes and for every track.
    pub open spec fn memory_estimate(self) -> int {
        self.viewer_count * 10 + self.pub_sub_count * 140 + self.tracks_monitored * 200
    }

    /// An estimate of the memory in use, in bytes.
    pub fn estimated_memory(&self) -> (r: usize)
        requires
            self.memory_estimate() <= usize::MAX,
        ensures
            r == self.memory_estimate(),
    {
        self.viewer_count * 10 + self.pub_sub_count * 140 + self.tracks_monitored * 200
    }
}

impl ScalableTopNFilter {
    pub closed spec fn wf(&self) -> bool {
        &&& self@.wf()
        &&& self.state.config == self.config
    }

    /// A filter without tracks and subscribers.
    pub fn new(config: ScalableTopNConfig, now_ms: u64) -> (r: Self)
        ensures
            r.wf(),
            r@ == ScalableTopNFilterView::empty(config, now_ms),
    {
        let r = ScalableTopNFilter {
            config,
            snapshot: RankingSnapshot {
                ordered: Vec::new(),
                threshold: 0,
                threshold_plus_one: 0,
                n: config.n,
                higher_is_better: config.higher_is_better,
            },
            state: RankingState::new(config),
            pending_updates: Vec::new(),
            subscribers: Vec::new(),
            next_id: 0,
            last_batch_ms: now_ms,
            updates_received: 0,
            updates_processed: 0,
            queries_served: 0,
        };
        assert(r@.snapshot =~= ScalableTopNFilterView::empty(config, now_ms).snapshot);
        assert(r@ =~= ScalableTopNFilterView::empty(config, now_ms));
        r
    }

    /// A filter with the usual settings for the best `n` tracks.
    pub fn top(n: usize, now_ms: u64) -> (r: Self)
        ensures
            r.wf(),
            r@ == ScalableTopNFilterView::empty(ScalableTopNConfig::usual(n), now_ms),
    {
        Self::new(ScalableTopNConfig::top(n), now_ms)
    }

    /// The ranking that questions are answered from.
    pub fn snapshot(&self) -> (r: &RankingSnapshot)
        ensures
            r@ == self@.snapshot,
    {
        &self.snapshot
    }

    /// The type of a subscriber.
    fn subscriber_type(&self, id: SubscriberId) -> (r: Option<SubscriberType>)
        ensures
            r == type_of(self@.subscribers, id),
    {
        let ghost all = self.subscribers@;
        assert(all.skip(0) =~= all);
        let mut i: usize = 0;
        while i < self.subscribers.len()
            invariant
                i <= all.len(),
                all == self.subscribers@,
                type_of(all.skip(i as int), id) == type_of(all, id),
            decreases all.len() - i,
        {
            assert(all.skip(i as int).drop_first() =~= all.skip(i + 1));
            if self.subscribers[i].0 == id {
                return Some(self.subscribers[i].1);
            }
            i += 1;
        }
        None
    }

    /// Whether a track is forwarded to a subscriber. One that is not registered is taken
    /// for a viewer.
    pub fn should_forward(
        &mut self,
        namespace: &String,
        name: &String,
        subscriber_id: SubscriberId,
    ) -> (r: bool)
        requires
            old(self).wf(),
        ensures
            final(self).wf(),
            r == old(self)@.snapshot.forwards(
                (namespace@, name@),
                match type_of(old(self)@.subscribers, subscriber_id) {
                    Some(kind) => kind.publisher(),
                    None => None,
                },
            ),
            final(self)@ == old(self)@.asked(),
    {
        self.queries_served = self.queries_served.wrapping_add(1);
        let publisher_id: Option<u64> = match self.subscriber_type(subscriber_id) {
            Some(SubscriberType::PublisherSubscriber { publisher_id }) => Some(publisher_id),
            Some(SubscriberType::Viewer) => None,
            None => None,
        };
        self.snapshot.should_forward(namespace, name, publisher_id)
    }

    /// Whether a track is selected.
    pub fn is_in_global_top_n(&mut self, namespace: &String, name: &String) -> (r: bool)
        requires
            old(self).wf(),
        ensures
            final(self).wf(),
            r == old(self)@.snapshot.selects((namespace@, name@)),
            final(self)@ == old(self)@.asked(),
    {
        self.queries_served = self.queries_served.wrapping_add(1);
        self.snapshot.is_in_top_n(namespace, name)
    }

    /// Buffers an update of a track's metric, if the extensions carry it.
    pub fn update_metric(
        &mut self,
        publisher_id: PublisherId,
        namespace: &String,
        name: &String,
        extensions: &[(u64, u64)],
        now_ms: u64,
    ) -> (r: Option<u64>)
        requires
            old(self).wf(),
        ensures
            final(self).wf(),
            r == topn::metric_in(extensions@, old(self)@.config.metric_extension_type),
            final(self)@ == match r {
                Some(value) => ScalableTopNFilterView {
                    pending: old(self)@.pending.push(
                        PendingUpdateView {
                            publisher_id,
                            namespace: namespace@,
                            name: name@,
                            value,
                            timestamp_ms: now_ms,
                        },
                    ),
                    updates_received: stats::wrapping_sum(old(self)@.updates_received, 1),
                    ..old(self)@
                },
                None => old(self)@,
            },
    {
        let ghost before = self@;
        match extract_metric(extensions, self.config.metric_extension_type) {
            None => None,
            Some(value) => {
                self.updates_received = self.updates_received.wrapping_add(1);
                let update = PendingUpdate {
                    publisher_id,
                    namespace: namespace.clone(),
                    name: name.clone(),
                    value,
                    timestamp_ms: now_ms,
                };
                let ghost u = update@;
                self.pending_updates.push(update);
                assert(self@.pending =~= before.pending.push(u));
                Some(value)
            },
        }
    }

    /// Whether it is time for the next batch.
    pub fn batch_due(&self, now_ms: u64) -> (r: bool)
        ensures
            r == self@.batch_due(now_ms),
    {
        now_ms.saturating_sub(self.last_batch_ms) >= self.config.batch_interval_ms
    }

    /// The updates that wait for the next batch.
    pub fn pending(&self) -> (r: &Vec<PendingUpdate>)
        ensures
            r@.map_values(|u: PendingUpdate| u@) == self@.pending,
    {
        &self.pending_updates
    }

    /// The tracks as the updates leave them, the best one first.
    pub fn ranked_tracks(&self) -> (r: &Vec<RankedTrack>)
        ensures
            ranks(r@) == self@.ordered,
    {
        &self.state.ordered
    }

    /// Takes the buffered updates in; false if there are none. `smoothed` holds for each of
    /// them the average of its track with it taken in.
    pub fn apply_updates(&mut self, smoothed: &Vec<Smoothed>) -> (r: bool)
        requires
            old(self).wf(),
            smoothed@.len() == old(self)@.pending.len(),
            old(self)@.next_seq + old(self)@.pending.len() <= u64::MAX,
        ensures
            final(self).wf(),
            r == (old(self)@.pending.len() > 0),
            final(self)@.standing() == old(self)@.standing().batched(
                old(self)@.pending,
                smoothed@,
                smoothed@.len() as int,
            ),
            final(self)@ == (ScalableTopNFilterView {
                ordered: final(self)@.ordered,
                next_seq: final(self)@.next_seq,
                pending: Seq::empty(),
                updates_processed: stats::wrapping_sum(
                    old(self)@.updates_processed,
                    smoothed@.len() as u64,
                ),
                ..old(self)@
            }),
    {
        let ghost before = self@;
        let ghost pending = before.pending;
        let mut updates: Vec<PendingUpdate> = Vec::new();
        std::mem::swap(&mut updates, &mut self.pending_updates);
        let ghost all = updates@;
        assert(pending.len() == all.len());
        let n: usize = updates.len();
        let ghost start = self.state.standing();
        let mut i: usize = 0;
        while i < n
            invariant
                i <= n,
                n == all.len(),
                n == smoothed@.len(),
                pending == all.map_values(|u: PendingUpdate| u@),
                updates@ == all.skip(i as int),
                self.state.wf(),
                self.state.config == self.config,
                self.state.next_seq + (n - i) <= u64::MAX,
                self.state.standing() == start.batched(pending, smoothed@, i as int),
                self@ == (ScalableTopNFilterView {
                    ordered: self@.ordered,
                    next_seq: self@.next_seq,
                    pending: Seq::empty(),
                    ..before
                }),
            decreases n - i,
        {
            let update = updates.remove(0);
            assert(updates@ =~= all.skip(i + 1));
            assert(update@ == pending[i as int]);
            self.state.apply_update(update, smoothed[i]);
            i += 1;
        }
        self.updates_processed = self.updates_processed.wrapping_add(n as u64);
        n > 0
    }

    /// Ends a batch: takes decay in, makes a new snapshot and gives the new selection if it
    /// is another one. `decayed` holds for each track, in order, the value that it has
    /// decayed to.
    pub fn process_batch(&mut self, decayed: &Vec<u64>, now_ms: u64) -> (r: Option<
        SelectionChange,
    >)
        requires
            old(self).wf(),
            0 < old(self)@.config.n,
            decayed@.len() == old(self)@.ordered.len(),
        ensures
            final(self).wf(),
            is_settling(
                old(self)@.ordered,
                decayed@,
                old(self)@.config,
                now_ms,
                final(self)@.ordered,
            ),
            final(self)@ == (ScalableTopNFilterView {
                ordered: final(self)@.ordered,
                snapshot: snapshot_of(final(self)@.ordered, old(self)@.config),
                last_batch_ms: now_ms,
                ..old(self)@
            }),
            r is None <==> old(self)@.snapshot.top_keys() == final(self)@.snapshot.top_keys(),
            r matches Some(change) ==> (change matches SelectionChange::TopNChanged { new_top_n }
                && keys_view(new_top_n@) == final(self)@.snapshot.top_keys()),
    {
        let old_top: Vec<RankedTrack> = self.snapshot.top_n();
        let ghost old_keys = self@.snapshot.top_keys();
        self.state.apply_decay(decayed, now_ms);
        self.snapshot = self.state.snapshot();
        self.last_batch_ms = now_ms;
        let new_top: Vec<RankedTrack> = self.snapshot.top_n();
        let ghost new_keys = self@.snapshot.top_keys();
        if same_keys(&old_top, &new_top) {
            assert(old_keys =~= key_list(ranks(old_top@)));
            assert(new_keys =~= key_list(ranks(new_top@)));
            return None;
        }
        assert(old_keys =~= key_list(ranks(old_top@)));
        assert(new_keys =~= key_list(ranks(new_top@)));
        Some(SelectionChange::TopNChanged { new_top_n: names_of(&new_top) })
    }

    /// Registers a viewer.
    pub fn register_viewer(&mut self) -> (r: SubscriberId)
        requires
            old(self).wf(),
            old(self)@.next_id < u64::MAX,
        ensures
            final(self).wf(),
            r == old(self)@.next_id,
            final(self)@ == old(self)@.with_subscriber(SubscriberType::Viewer),
    {
        let id: u64 = self.next_id;
        self.next_id = id + 1;
        self.subscribers.push((id, SubscriberType::Viewer));
        id
    }

    /// Registers a subscriber that publishes too.
    pub fn register_publisher_subscriber(&mut self, publisher_id: PublisherId) -> (r: SubscriberId)
        requires
            old(self).wf(),
            old(self)@.next_id < u64::MAX,
        ensures
            final(self).wf(),
            r == old(self)@.next_id,
            final(self)@ == old(self)@.with_subscriber(
                SubscriberType::PublisherSubscriber { publisher_id },
            ),
    {
        let id: u64 = self.next_id;
        self.next_id = id + 1;
        self.subscribers.push((id, SubscriberType::PublisherSubscriber { publisher_id }));
        id
    }

    /// Takes a subscriber out.
    pub fn unregister(&mut self, id: SubscriberId)
        requires
            old(self).wf(),
        ensures
            final(self).wf(),
            final(self)@ == (ScalableTopNFilterView {
                subscribers: without(old(self)@.subscribers, id),
                ..old(self)@
            }),
    {
        let ghost all = self.subscribers@;
        let ghost keep = other_than(id);
        let mut kept: Vec<(u64, SubscriberType)> = Vec::new();
        assert(all.take(0).filter(keep) =~= kept@) by {
            reveal(Seq::filter);
        }
        let mut i: usize = 0;
        while i < self.subscribers.len()
            invariant
                i <= all.len(),
                all == self.subscribers@,
                keep == other_than(id),
                kept@ == all.take(i as int).filter(keep),
            decreases all.len() - i,
        {
            proof {
                reveal(Seq::filter);
                assert(all.take(i + 1).drop_last() =~= all.take(i as int));
            }
            let entry: (u64, SubscriberType) = self.subscribers[i];
            if entry.0 != id {
                kept.push(entry);
            }
            i += 1;
        }
        assert(all.take(i as int) =~= all);
        self.subscribers = kept;
    }

    /// The selected tracks.
    pub fn top_n(&self) -> (r: Vec<RankedTrack>)
        ensures
            ranks(r@) == self@.snapshot.top(),
    {
        self.snapshot.top_n()
    }

    /// The counts of the filter.
    pub fn stats(&self) -> (r: ScalableTopNStats)
        ensures
            r.updates_received == self@.updates_received,
            r.updates_processed == self@.updates_processed,
            r.queries_served == self@.queries_served,
            r.tracks_monitored == self@.snapshot.ordered.len(),
            r.current_top_n == self@.snapshot.selected(),
            r.threshold == self@.snapshot.threshold,
            r.viewer_count == viewers(self@.subscribers),
            r.viewer_count + r.pub_sub_count == self@.subscribers.len(),
    {
        let ghost all = self.subscribers@;
        let mut viewer_count: usize = 0;
        let mut i: usize = 0;
        while i < self.subscribers.len()
            invariant
                i <= all.len(),
                all == self.subscribers@,
                viewer_count <= i,
                viewer_count == viewers(all.take(i as int)),
            decreases all.len() - i,
        {
            assert(all.take(i + 1).drop_last() =~= all.take(i as int));
            if let SubscriberType::Viewer = self.subscribers[i].1 {
                viewer_count += 1;
            }
            i += 1;
        }
        assert(all.take(i as int) =~= all);
        ScalableTopNStats {
            updates_received: self.updates_received,
            updates_processed: self.updates_processed,
            queries_served: self.queries_served,
            tracks_monitored: self.snapshot.ordered.len(),
            current_top_n: self.snapshot.selected(),
            threshold: self.snapshot.threshold,
            viewer_count,
            pub_sub_count: self.subscribers.len() - viewer_count,
        }
    }

    /// Takes out the tracks that had no update for longer than `max_age_ms`, and makes a
    /// new snapshot.
    pub fn cleanup_stale(&mut self, max_age_ms: u64, now_ms: u64)
        requires
            old(self).wf(),
            0 < old(self)@.config.n,
        ensures
            final(self).wf(),
            final(self)@ == ({
                let fresh = fresh_tracks(old(self)@.ordered, max_age_ms, now_ms);
                ScalableTopNFilterView {
                    ordered: fresh,
                    snapshot: snapshot_of(fresh, old(self)@.config),
                    ..old(self)@
                }
            }),
    {
        self.state.cleanup_stale(max_age_ms, now_ms);
        self.snapshot = self.state.snapshot();
    }

    /// The value that a track needs to be forwarded to a publisher.
    pub fn waterline_for(&self, publisher_id: PublisherId) -> (r: u64)
        ensures
            r == self@.snapshot.waterline(publisher_id),
    {
        self.snapshot.waterline_for(publisher_id)
    }
}

/// The keys of tracks in order.
pub open spec fn key_list(tracks: Seq<RankedTrackView>) -> Seq<(Seq<char>, Seq<char>)> {
    tracks.map_values(|t: RankedTrackView| t.key())
}

/// Whether two lists name the same tracks in the same order.
fn same_keys(a: &Vec<RankedTrack>, b: &Vec<RankedTrack>) -> (r: bool)
    ensures
        r == (key_list(ranks(a@)) == key_list(ranks(b@))),
{
    let ghost x = key_list(ranks(a@));
    let ghost y = key_list(ranks(b@));
    if a.len() != b.len() {
        assert(x.len() != y.len());
        return false;
    }
    let mut i: usize = 0;
    while i < a.len()
        invariant
            i <= a@.len(),
            a@.len() == b@.len(),
            x == key_list(ranks(a@)),
            y == key_list(ranks(b@)),
            forall|k: int| 0 <= k < i ==> #[trigger] x[k] == y[k],
        decreases a@.len() - i,
    {
        assert(x[i as int] == a@[i as int]@.key());
        assert(y[i as int] == b@[i as int]@.key());
        if !a[i].is_track(&b[i].namespace, &b[i].name) {
            return false;
        }
        i += 1;
    }
    assert(x =~= y);
    true
}

/// The namespaces and names of tracks in order.
fn names_of(tracks: &Vec<RankedTrack>) -> (r: Vec<(String, String)>)
    ensures
        keys_view(r@) == key_list(ranks(tracks@)),
{
    let mut out: Vec<(String, String)> = Vec::new();
    let mut i: usize = 0;
    while i < tracks.len()
        invariant
            i <= tracks@.len(),
            out@.len() == i,
            forall|k: int|
                0 <= k < i ==> (#[trigger] out@[k]).0@ == tracks@[k].namespace@ && out@[k].1@
                    == tracks@[k].name@,
        decreases tracks@.len() - i,
    {
        out.push((tracks[i].namespace.clone(), tracks[i].name.clone()));
        i += 1;
    }
    assert(keys_view(out@) =~= key_list(ranks(tracks@)));
    out
}

/// Every filter holds a ranking of its tracks, each of them once, and answers from a snapshot
/// that is ranked the same way.
pub proof fn law_filter_is_consistent(filter: ScalableTopNFilter)
    requires
        filter.wf(),
    ensures
        filter@.wf(),
{
}

/// A better value comes first, a higher one or a lower one as asked; of equal values the one that
/// arrived first.
pub proof fn law_better_values_come_first(a: RankedTrackView, b: RankedTrackView)
    ensures
        a.value > b.value ==> a.ranks_before(b, true) && !a.ranks_before(b, false),
        a.value < b.value ==> !a.ranks_before(b, true) && a.ranks_before(b, false),
        a.value == b.value ==> (a.ranks_before(b, true) <==> a.arrival_seq < b.arrival_seq) && (
        a.ranks_before(b, false) <==> a.arrival_seq < b.arrival_seq),
{
}

/// An update of a known track brings the smoothed value and the time of the update, and keeps its
/// publisher and its arrival. A new track has the value as it came, and arrives last. Other tracks
/// stay as they are.
pub proof fn law_update_is_taken_in(
    before: Standing,
    update: PendingUpdateView,
    smoothed: Smoothed,
    other: (Seq<char>, Seq<char>),
)
    requires
        0 <= before.next_seq < u64::MAX,
    ensures
        ({
            let key = (update.namespace, update.name);
            let after = before.updated(update, smoothed);
            let track = after.tracks[key];
            &&& after.tracks.contains_key(key)
            &&& track.last_update_ms == update.timestamp_ms
            &&& track.average == smoothed.average
            &&& before.tracks.contains_key(key) ==> {
                &&& track.value == smoothed.value
                &&& track.publisher_id == before.tracks[key].publisher_id
                &&& track.arrival_seq == before.tracks[key].arrival_seq
                &&& track.key() == before.tracks[key].key()
                &&& after.next_seq == before.next_seq
            }
            &&& !before.tracks.contains_key(key) ==> {
                &&& track.value == update.value
                &&& track.publisher_id == update.publisher_id
                &&& track.arrival_seq == before.next_seq
                &&& track.key() == key
                &&& after.next_seq == before.next_seq + 1
            }
            &&& other != key ==> after.tracks.contains_key(other) == before.tracks.contains_key(
                other,
            ) && after.tracks[other] == before.tracks[other]
        }),
{
}

/// A batch is taken in one update after the other, in the order in which they came.
pub proof fn law_batch_is_taken_in_order(
    before: Standing,
    updates: Seq<PendingUpdateView>,
    smoothed: Seq<Smoothed>,
    update: PendingUpdateView,
    last: Smoothed,
)
    requires
        updates.len() == smoothed.len(),
    ensures
        before.batched(seq![], seq![], 0) == before,
        before.batched(updates.push(update), smoothed.push(last), (updates.len() + 1) as int)
            == before.batched(updates, smoothed, updates.len() as int).updated(update, last),
{
    lemma_batched_prefix(
        before,
        updates,
        smoothed,
        updates.push(update),
        smoothed.push(last),
        updates.len() as int,
    );
}

proof fn lemma_batched_prefix(
    before: Standing,
    a: Seq<PendingUpdateView>,
    sa: Seq<Smoothed>,
    b: Seq<PendingUpdateView>,
    sb: Seq<Smoothed>,
    n: int,
)
    requires
        n <= a.len(),
        n <= b.len(),
        n <= sa.len(),
        n <= sb.len(),
        forall|i: int| 0 <= i < n ==> #[trigger] a[i] == b[i],
        forall|i: int| 0 <= i < n ==> #[trigger] sa[i] == sb[i],
    ensures
        before.batched(a, sa, n) == before.batched(b, sb, n),
    decreases n,
{
    if n > 0 {
        lemma_batched_prefix(before, a, sa, b, sb, n - 1);
        assert(a[n - 1] == b[n - 1]);
        assert(sa[n - 1] == sb[n - 1]);
    }
}

/// Every track stays in a ranking when decay is taken in. One whose last update is longer ago than
/// the time allowed has the decayed value then, and the others have the value that they had.
pub proof fn law_decay_sets_in_after_its_time(
    before: Seq<RankedTrackView>,
    decayed: Seq<u64>,
    config: ScalableTopNConfig,
    now_ms: u64,
    after: Seq<RankedTrackView>,
    i: int,
)
    requires
        is_settling(before, decayed, config, now_ms, after),
        0 <= i < before.len(),
    ensures
        after.len() == before.len(),
        exists|k: int|
            0 <= k < after.len() && (#[trigger] after[k]).key() == before[i].key()
                && after[k].publisher_id == before[i].publisher_id && after[k].arrival_seq
                == before[i].arrival_seq && after[k].last_update_ms == before[i].last_update_ms
                && after[k].value == if before[i].last_update_ms + config.decay_after_ms < now_ms {
                decayed[i]
            } else {
                before[i].value
            },
        forall|j: int, k: int|
            0 <= j < k < after.len() ==> (#[trigger] after[j]).ranks_before(
                #[trigger] after[k],
                config.higher_is_better,
            ),
{
    let track = settled(before[i], decayed[i], config.decay_after_ms, now_ms);
    assert(after.contains(track));
    let k = choose|k: int| 0 <= k < after.len() && after[k] == track;
    assert(after[k].key() == before[i].key());
}

/// Cleaning up keeps the tracks whose last update is no longer ago than the given age, in their
/// order, and no others.
pub proof fn law_cleanup_keeps_fresh_tracks(
    ordered: Seq<RankedTrackView>,
    max_age_ms: u64,
    now_ms: u64,
    track: RankedTrackView,
)
    ensures
        fresh_tracks(ordered, max_age_ms, now_ms).contains(track) <==> ordered.contains(track)
            && now_ms <= track.last_update_ms + max_age_ms,
        fresh_tracks(ordered, max_age_ms, now_ms).len() <= ordered.len(),
    decreases ordered.len(),
{
    reveal(Seq::filter);
    let kept = fresh_tracks(ordered, max_age_ms, now_ms);
    if ordered.len() > 0 {
        let shorter = ordered.drop_last();
        let last = ordered.last();
        law_cleanup_keeps_fresh_tracks(shorter, max_age_ms, now_ms, track);
        let before = fresh_tracks(shorter, max_age_ms, now_ms);
        assert(ordered =~= shorter.push(last));
        assert(ordered.contains(track) <==> shorter.contains(track) || track == last) by {
            if shorter.contains(track) {
                let i = choose|i: int| 0 <= i < shorter.len() && shorter[i] == track;
                assert(ordered[i] == track);
            }
            assert(ordered[ordered.len() - 1] == last);
        }
        assert(before.push(last).contains(track) <==> before.contains(track) || track == last) by {
            if before.contains(track) {
                let i = choose|i: int| 0 <= i < before.len() && before[i] == track;
                assert(before.push(last)[i] == track);
            }
            assert(before.push(last)[before.len() as int] == last);
        }
    }
}

/// The value that others need is that of the last selected track, and for a publisher who has a
/// track among the selected ones that of the next track.
pub proof fn law_waterline_is_the_last_place(
    ordered: Seq<RankedTrackView>,
    config: ScalableTopNConfig,
    publisher_id: u64,
)
    requires
        0 < config.n < ordered.len(),
    ensures
        ({
            let snapshot = snapshot_of(ordered, config);
            let own = exists|i: int|
                0 <= i < config.n && (#[trigger] ordered[i]).publisher_id == publisher_id;
            &&& snapshot.threshold == ordered[config.n - 1].value
            &&& own ==> snapshot.waterline(publisher_id) == ordered[config.n as int].value
            &&& !own ==> snapshot.waterline(publisher_id) == ordered[config.n - 1].value
            &&& snapshot.top().len() == config.n
            &&& forall|i: int| 0 <= i < config.n ==> #[trigger] snapshot.top()[i] == ordered[i]
        }),
{
    let snapshot = snapshot_of(ordered, config);
    if snapshot.selects_from(publisher_id) {
        let i = choose|i: int|
            0 <= i < snapshot.selected() && (#[trigger] snapshot.ordered[i]).publisher_id
                == publisher_id;
        assert(ordered[i].publisher_id == publisher_id);
    }
    if exists|i: int| 0 <= i < config.n && (#[trigger] ordered[i]).publisher_id == publisher_id {
        let i = choose|i: int|
            0 <= i < config.n && (#[trigger] ordered[i]).publisher_id == publisher_id;
        assert(snapshot.ordered[i].publisher_id == publisher_id);
    }
}

/// A track that is not ranked is forwarded to nobody, and fewer tracks than asked for are all
/// forwarded to viewers and to publishers of other tracks.
pub proof fn law_unranked_tracks_are_not_forwarded(
    ordered: Seq<RankedTrackView>,
    config: ScalableTopNConfig,
    key: (Seq<char>, Seq<char>),
    publisher_id: u64,
    i: int,
)
    requires
        0 < config.n,
        is_ranked(ordered, config.higher_is_better),
        all_differ(ordered),
        forall|k: int| 0 <= k < ordered.len() ==> (#[trigger] ordered[k]).key() != key,
    ensures
        !snapshot_of(ordered, config).forwards(key, None),
        !snapshot_of(ordered, config).forwards(key, Some(publisher_id)),
        0 <= i < ordered.len() < config.n && ordered[i].publisher_id != publisher_id
            ==> snapshot_of(ordered, config).forwards(ordered[i].key(), None) && snapshot_of(
            ordered,
            config,
        ).forwards(ordered[i].key(), Some(publisher_id)),
{
    let snapshot = snapshot_of(ordered, config);
    if 0 <= i < ordered.len() < config.n && ordered[i].publisher_id != publisher_id {
        law_personal_selection(ordered, config, publisher_id, i);
        law_viewer_selection(ordered, config, i);
    }
}

/// A subscriber is known by its id from its registration until it is unregistered, and the others
/// are known as they were.
pub proof fn law_subscribers_are_known_by_id(
    subscribers: Seq<(u64, SubscriberType)>,
    id: u64,
    kind: SubscriberType,
    other: u64,
)
    requires
        type_of(subscribers, id) is None,
        other != id,
    ensures
        type_of(subscribers.push((id, kind)), id) == Some(kind),
        type_of(subscribers.push((id, kind)), other) == type_of(subscribers, other),
        type_of(without(subscribers.push((id, kind)), id), id) is None,
        type_of(without(subscribers.push((id, kind)), id), other) == type_of(subscribers, other),
        viewers(subscribers.push((id, kind))) == viewers(subscribers) + if kind
            == SubscriberType::Viewer {
            1nat
        } else {
            0
        },
    decreases subscribers.len(),
{
    let more = subscribers.push((id, kind));
    assert(more.drop_last() =~= subscribers);
    lemma_type_of_push(subscribers, (id, kind), id);
    lemma_type_of_push(subscribers, (id, kind), other);
    lemma_type_of_without(more, id, id);
    lemma_type_of_without(more, id, other);
}

proof fn lemma_type_of_push(
    subscribers: Seq<(u64, SubscriberType)>,
    added: (u64, SubscriberType),
    id: u64,
)
    ensures
        type_of(subscribers.push(added), id) == match type_of(subscribers, id) {
            Some(kind) => Some(kind),
            None => if added.0 == id {
                Some(added.1)
            } else {
                None
            },
        },
    decreases subscribers.len(),
{
    let more = subscribers.push(added);
    if subscribers.len() == 0 {
        assert(more.drop_first() =~= seq![]);
        assert(more[0] == added);
        assert(type_of(more.drop_first(), id) is None);
    } else {
        lemma_type_of_push(subscribers.drop_first(), added, id);
        assert(more.drop_first() =~= subscribers.drop_first().push(added));
    }
}

proof fn lemma_type_of_without(subscribers: Seq<(u64, SubscriberType)>, id: u64, other: u64)
    ensures
        type_of(without(subscribers, id), other) == if other == id {
            None
        } else {
            type_of(subscribers, other)
        },
    decreases subscribers.len(),
{
    reveal(Seq::filter);
    if subscribers.len() > 0 {
        let shorter = subscribers.drop_last();
        let last = subscribers.last();
        lemma_type_of_without(shorter, id, other);
        assert(subscribers =~= shorter.push(last));
        lemma_type_of_push(shorter, last, other);
        lemma_type_of_push(without(shorter, id), last, other);
    }
}

/// A batch is due once its interval has passed since the last one.
pub proof fn law_batch_is_due_after_its_interval(filter: ScalableTopNFilterView, now_ms: u64)
    requires
        filter.last_batch_ms <= now_ms,
    ensures
        filter.batch_due(now_ms) <==> filter.last_batch_ms + filter.config.batch_interval_ms
            <= now_ms,
{
}

/// A query is counted, and changes nothing else.
pub proof fn law_queries_are_counted(filter: ScalableTopNFilterView)
    ensures
        filter.queries_served < u64::MAX ==> filter.asked().queries_served == filter.queries_served
            + 1,
        (ScalableTopNFilterView { queries_served: filter.queries_served, ..filter.asked() })
            == filter,
{
}

/// A new subscriber has the next identifier, which no earlier one has, and is of its kind.
pub proof fn law_new_subscriber_has_the_next_id(
    filter: ScalableTopNFilterView,
    kind: SubscriberType,
)
    requires
        filter.next_id < u64::MAX,
    ensures
        ({
            let after = filter.with_subscriber(kind);
            &&& after.subscribers.drop_last() == filter.subscribers
            &&& after.subscribers.last() == (filter.next_id, kind)
            &&& after.next_id == filter.next_id + 1
            &&& (ScalableTopNFilterView {
                subscribers: filter.subscribers,
                next_id: filter.next_id,
                ..after
            }) == filter
        }),
{
    assert(filter.with_subscriber(kind).subscribers.drop_last() =~= filter.subscribers);
}

/// A viewer publishes nothing, and a publisher that also subscribes publishes as itself.
pub proof fn law_viewers_publish_nothing(publisher_id: u64)
    ensures
        SubscriberType::Viewer.publisher() is None,
        (SubscriberType::PublisherSubscriber { publisher_id }).publisher() == Some(publisher_id),
{
}

/// The keys of the top are those of its tracks, in their order.
pub proof fn law_keys_of_the_top_are_in_order(snapshot: RankingSnapshotView, i: int)
    requires
        0 <= i < snapshot.top().len(),
    ensures
        snapshot.top_keys().len() == snapshot.top().len(),
        snapshot.top_keys()[i] == snapshot.top()[i].key(),
        key_list(snapshot.top())[i] == snapshot.top()[i].key(),
{
}

/// Both ways to rank tracks have the same usual settings: as many tracks as asked for, the same
/// metric, more of which is better, and a decay that sets in after two seconds.
pub proof fn law_usual_settings_agree(n: usize)
    ensures
        ({
            let config = ScalableTopNConfig::usual(n);
            let other = crate::filter::topn::TopNConfig::usual(n);
            &&& config.n == n && other.n == n
            &&& config.metric_extension_type == other.metric_extension_type
                && config.metric_extension_type == 0x100
            &&& config.decay_after_ms == other.decay_after_ms && config.decay_after_ms == 2 * 1000
            &&& config.higher_is_better && other.higher_is_better
            &&& config.batch_interval_ms * 100 == 1000
            &&& other.recompute_interval_ms * 2 == 1000
            &&& config.broadcast_capacity == 4 * config.individual_capacity
                && config.individual_capacity == 16
        }),
{
}

/// One more viewer, one more publisher that subscribes, and one more track take their share of
/// memory each.
pub proof fn law_every_party_takes_its_share(stats: ScalableTopNStats)
    requires
        stats.viewer_count < usize::MAX,
        stats.pub_sub_count < usize::MAX,
        stats.tracks_monitored < usize::MAX,
    ensures
        (ScalableTopNStats {
            viewer_count: (stats.viewer_count + 1) as usize,
            ..stats
        }).memory_estimate() == stats.memory_estimate() + 10,
        (ScalableTopNStats {
            pub_sub_count: (stats.pub_sub_count + 1) as usize,
            ..stats
        }).memory_estimate() == stats.memory_estimate() + 140,
        (ScalableTopNStats {
            tracks_monitored: (stats.tracks_monitored + 1) as usize,
            ..stats
        }).memory_estimate() == stats.memory_estimate() + 200,
        stats.viewer_count == 0 && stats.pub_sub_count == 0 && stats.tracks_monitored == 0
            ==> stats.memory_estimate() == 0,
{
}

} // verus!
