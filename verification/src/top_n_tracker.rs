//! Ranking of tracks by a property value, with each session's own tracks left out.
//!
//! - One sorted snapshot serves all subscribers of a namespace.
//! - Its size is `max_n + max_x`: the largest N that a subscriber asks for, and the largest
//!   number of tracks that one publisher has.
//! - A session's own tracks are skipped when it asks.
//!
//! Times are milliseconds of the caller's clock.

use vstd::prelude::*;
use crate::namespace::TrackNamespace;
use crate::top_n_events::TrackEvent;

verus! {

/// Which of two tracks with equal values ranks higher.
#[derive(Clone, Copy, Debug, PartialEq, Eq, Structural)]
pub enum TieBreakPolicy {
    /// The one that arrived first.
    OldestWins,
    /// The one that was active last.
    MostRecentWins,
}

impl Default for TieBreakPolicy {
    fn default() -> (r: Self)
        ensures
            r == TieBreakPolicy::OldestWins,
    {
        TieBreakPolicy::OldestWins
    }
}

/// Configuration of a [`TopNTracker`].
#[derive(Clone, Copy, Debug, PartialEq, Eq, Structural)]
pub struct TopNTrackerConfig {
    pub tie_break_policy: TieBreakPolicy,
    /// How long a track may be silent before it is stale. `None` is for ever.
    pub staleness_timeout_ms: Option<u64>,
    /// Whether events are logged.
    pub enable_event_logging: bool,
}

impl TopNTrackerConfig {
    pub open spec fn standard() -> TopNTrackerConfig {
        TopNTrackerConfig {
            tie_break_policy: TieBreakPolicy::OldestWins,
            staleness_timeout_ms: None,
            enable_event_logging: false,
        }
    }
}

impl Default for TopNTrackerConfig {
    fn default() -> (r: Self)
        ensures
            r == TopNTrackerConfig::standard(),
    {
        TopNTrackerConfig {
            tie_break_policy: TieBreakPolicy::OldestWins,
            staleness_timeout_ms: None,
            enable_event_logging: false,
        }
    }
}

/// A track and what it is ranked by.
#[derive(Debug)]
pub struct TrackRank {
    pub namespace: TrackNamespace,
    pub track_name: String,
    pub property_value: u64,
    pub arrival_seq: u64,
    pub last_update_ms: u64,
    pub publisher_session_id: u64,
}

/// The contents of a [`TrackRank`].
#[verifier::ext_equal]
pub struct TrackRankView {
    pub namespace: Seq<Seq<u8>>,
    pub track_name: Seq<char>,
    pub property_value: u64,
    pub arrival_seq: u64,
    pub last_update_ms: u64,
    pub publisher_session_id: u64,
}

impl View for TrackRank {
    type V = TrackRankView;

    open spec fn view(&self) -> TrackRankView {
        TrackRankView {
            namespace: self.namespace@,
            track_name: self.track_name@,
            property_value: self.property_value,
            arrival_seq: self.arrival_seq,
            last_update_ms: self.last_update_ms,
            publisher_session_id: self.publisher_session_id,
        }
    }
}

impl Clone for TrackRank {
    fn clone(&self) -> (r: Self)
        ensures
            r@ == self@,
    {
        TrackRank {
            namespace: self.namespace.clone(),
            track_name: self.track_name.clone(),
            property_value: self.property_value,
            arrival_seq: self.arrival_seq,
            last_update_ms: self.last_update_ms,
            publisher_session_id: self.publisher_session_id,
        }
    }
}

impl TrackRankView {
    /// The track has this name.
    pub open spec fn is_track(self, namespace: Seq<Seq<u8>>, track_name: Seq<char>) -> bool {
        self.namespace == namespace && self.track_name == track_name
    }

    /// The track ranks strictly higher: by value, then by the policy for ties.
    pub open spec fn outranks(self, other: TrackRankView, policy: TieBreakPolicy) -> bool {
        self.property_value > other.property_value || (self.property_value == other.property_value
            && match policy {
            TieBreakPolicy::OldestWins => self.arrival_seq < other.arrival_seq,
            TieBreakPolicy::MostRecentWins => self.last_update_ms > other.last_update_ms,
        })
    }

    /// The track is not stale.
    pub open spec fn fresh(self, timeout_ms: Option<u64>, now_ms: u64) -> bool {
        match timeout_ms {
            Some(timeout) => 0 < timeout && now_ms - self.last_update_ms < timeout,
            None => true,
        }
    }
}

impl TrackRank {
    fn outranks(&self, other: &TrackRank, policy: TieBreakPolicy) -> (r: bool)
        ensures
            r == self@.outranks(other@, policy),
    {
        self.property_value > other.property_value || (self.property_value == other.property_value
            && match policy {
            TieBreakPolicy::OldestWins => self.arrival_seq < other.arrival_seq,
            TieBreakPolicy::MostRecentWins => self.last_update_ms > other.last_update_ms,
        })
    }

    fn fresh(&self, timeout_ms: Option<u64>, now_ms: u64) -> (r: bool)
        ensures
            r == self@.fresh(timeout_ms, now_ms),
    {
        match timeout_ms {
            Some(timeout) => 0 < timeout && (now_ms <= self.last_update_ms || now_ms
                - self.last_update_ms < timeout),
            None => true,
        }
    }

    fn is_track(&self, namespace: &TrackNamespace, track_name: &String) -> (r: bool)
        ensures
            r == self@.is_track(namespace@, track_name@),
    {
        self.namespace.same_as(namespace) && self.track_name == *track_name
    }
}

/// The contents of a list of tracks.
pub open spec fn ranks_view(tracks: Seq<TrackRank>) -> Seq<TrackRankView> {
    tracks.map_values(|t: TrackRank| t@)
}

/// Position of the first of the first `n` tracks with this name.
pub open spec fn find_track(
    tracks: Seq<TrackRankView>,
    namespace: Seq<Seq<u8>>,
    track_name: Seq<char>,
    n: nat,
) -> Option<int>
    decreases n,
{
    if n == 0 {
        None
    } else {
        match find_track(tracks, namespace, track_name, (n - 1) as nat) {
            Some(i) => Some(i),
            None => if tracks[n - 1].is_track(namespace, track_name) {
                Some(n - 1)
            } else {
                None
            },
        }
    }
}

proof fn lemma_find_track(
    tracks: Seq<TrackRankView>,
    namespace: Seq<Seq<u8>>,
    track_name: Seq<char>,
    n: nat,
)
    requires
        n <= tracks.len(),
    ensures
        match find_track(tracks, namespace, track_name, n) {
            Some(i) => 0 <= i < n && tracks[i].is_track(namespace, track_name) && forall|j: int|
                0 <= j < i ==> !(#[trigger] tracks[j]).is_track(namespace, track_name),
            None => forall|j: int|
                0 <= j < n ==> !(#[trigger] tracks[j]).is_track(namespace, track_name),
        },
    decreases n,
{
    if n > 0 {
        lemma_find_track(tracks, namespace, track_name, (n - 1) as nat);
    }
}

proof fn lemma_find_track_extends(
    tracks: Seq<TrackRankView>,
    namespace: Seq<Seq<u8>>,
    track_name: Seq<char>,
    m: nat,
    n: nat,
)
    requires
        m <= n <= tracks.len(),
        find_track(tracks, namespace, track_name, m) is Some,
    ensures
        find_track(tracks, namespace, track_name, n) == find_track(
            tracks,
            namespace,
            track_name,
            m,
        ),
    decreases n,
{
    if m < n {
        lemma_find_track_extends(tracks, namespace, track_name, m, (n - 1) as nat);
    }
}

fn position_of(tracks: &Vec<TrackRank>, namespace: &TrackNamespace, track_name: &String) -> (r:
    Option<usize>)
    ensures
        match r {
            Some(i) => i < tracks@.len() && find_track(
                ranks_view(tracks@),
                namespace@,
                track_name@,
                tracks@.len(),
            ) == Some(i as int),
            None => find_track(ranks_view(tracks@), namespace@, track_name@, tracks@.len()) is None,
        },
{
    let ghost view = ranks_view(tracks@);
    let mut i: usize = 0;
    while i < tracks.len()
        invariant
            i <= tracks@.len(),
            view == ranks_view(tracks@),
            find_track(view, namespace@, track_name@, i as nat) is None,
        decreases tracks@.len() - i,
    {
        assert(view[i as int] == tracks@[i as int]@);
        if tracks[i].is_track(namespace, track_name) {
            proof {
                lemma_find_track_extends(
                    view,
                    namespace@,
                    track_name@,
                    (i + 1) as nat,
                    view.len(),
                );
            }
            return Some(i);
        }
        i += 1;
    }
    None
}

/// The number of the first `n` tracks that this session publishes.
pub open spec fn published_count(tracks: Seq<TrackRankView>, session_id: u64, n: nat) -> nat
    decreases n,
{
    if n == 0 {
        0
    } else {
        published_count(tracks, session_id, (n - 1) as nat) + if tracks[n - 1].publisher_session_id
            == session_id {
            1nat
        } else {
            0
        }
    }
}

/// The largest number of tracks that one of the first `n` tracks' publishers has.
pub open spec fn largest_count(tracks: Seq<TrackRankView>, n: nat) -> nat
    decreases n,
{
    if n == 0 {
        0
    } else {
        let before = largest_count(tracks, (n - 1) as nat);
        let count = published_count(tracks, tracks[n - 1].publisher_session_id, tracks.len());
        if count > before {
            count
        } else {
            before
        }
    }
}

/// The largest number of tracks per publisher, held to what a byte can say.
pub open spec fn max_x_of(tracks: Seq<TrackRankView>) -> u8 {
    let largest = largest_count(tracks, tracks.len());
    if largest > 255 {
        255
    } else {
        largest as u8
    }
}

fn compute_max_x(tracks: &Vec<TrackRank>) -> (r: u8)
    ensures
        r == max_x_of(ranks_view(tracks@)),
{
    let ghost view = ranks_view(tracks@);
    let mut largest: usize = 0;
    let mut i: usize = 0;
    while i < tracks.len()
        invariant
            i <= tracks@.len(),
            view == ranks_view(tracks@),
            largest == largest_count(view, i as nat),
        decreases tracks@.len() - i,
    {
        let session_id: u64 = tracks[i].publisher_session_id;
        assert(view[i as int] == tracks@[i as int]@);
        let mut count: usize = 0;
        let mut j: usize = 0;
        while j < tracks.len()
            invariant
                j <= tracks@.len(),
                count <= j,
                view == ranks_view(tracks@),
                count == published_count(view, session_id, j as nat),
            decreases tracks@.len() - j,
        {
            assert(view[j as int] == tracks@[j as int]@);
            if tracks[j].publisher_session_id == session_id {
                count += 1;
            }
            j += 1;
        }
        if count > largest {
            largest = count;
        }
        i += 1;
    }
    if largest > 255 {
        255
    } else {
        largest as u8
    }
}

/// The track at `i` comes before the one at `j`: by rank, then by position.
pub open spec fn ranked_before(
    tracks: Seq<TrackRankView>,
    policy: TieBreakPolicy,
    i: int,
    j: int,
) -> bool {
    tracks[i].outranks(tracks[j], policy) || (!tracks[j].outranks(tracks[i], policy) && i < j)
}

/// `order` lists those of the first `n` tracks that are not stale, the highest rank first.
pub open spec fn is_ranking(
    tracks: Seq<TrackRankView>,
    config: TopNTrackerConfig,
    now_ms: u64,
    order: Seq<int>,
    n: int,
) -> bool {
    &&& forall|k: int|
        0 <= k < order.len() ==> 0 <= #[trigger] order[k] < n && tracks[order[k]].fresh(
            config.staleness_timeout_ms,
            now_ms,
        )
    &&& forall|i: int|
        0 <= i < n && (#[trigger] tracks[i]).fresh(config.staleness_timeout_ms, now_ms)
            ==> order.contains(i)
    &&& forall|j: int, k: int|
        0 <= j < k < order.len() ==> ranked_before(
            tracks,
            config.tie_break_policy,
            #[trigger] order[j],
            #[trigger] order[k],
        )
}

/// The tracks at the first positions of `order`, as many as `size` allows.
pub open spec fn leading(tracks: Seq<TrackRankView>, order: Seq<int>, size: int) -> Seq<
    TrackRankView,
> {
    Seq::new(
        if order.len() < size { order.len() } else { size as nat },
        |k: int| tracks[order[k]],
    )
}

/// `snapshot` holds the highest-ranking tracks that are not stale, `max_n + max_x` at most,
/// and nothing while nobody asks for any.
pub open spec fn is_snapshot(
    tracks: Seq<TrackRankView>,
    config: TopNTrackerConfig,
    max_n: u8,
    max_x: u8,
    now_ms: u64,
    snapshot: Seq<TrackRankView>,
) -> bool {
    if max_n == 0 {
        snapshot.len() == 0
    } else {
        exists|order: Seq<int>| #[trigger]
            is_ranking(tracks, config, now_ms, order, tracks.len() as int) && snapshot == leading(
                tracks,
                order,
                max_n + max_x,
            )
    }
}

spec fn as_ints(order: Seq<usize>) -> Seq<int> {
    order.map_values(|i: usize| i as int)
}

proof fn lemma_ranking_insert(
    tracks: Seq<TrackRankView>,
    config: TopNTrackerConfig,
    now_ms: u64,
    order: Seq<int>,
    n: int,
    p: int,
)
    requires
        0 <= n < tracks.len(),
        is_ranking(tracks, config, now_ms, order, n),
        tracks[n].fresh(config.staleness_timeout_ms, now_ms),
        0 <= p <= order.len(),
        forall|k: int|
            0 <= k < p ==> !tracks[n].outranks(
                tracks[#[trigger] order[k]],
                config.tie_break_policy,
            ),
        p < order.len() ==> tracks[n].outranks(tracks[order[p]], config.tie_break_policy),
    ensures
        is_ranking(tracks, config, now_ms, order.insert(p, n), n + 1),
{
    let new = order.insert(p, n);
    assert forall|i: int|
        0 <= i < n + 1 && (#[trigger] tracks[i]).fresh(
            config.staleness_timeout_ms,
            now_ms,
        ) implies new.contains(i) by {
        if i == n {
            assert(new[p] == n);
        } else {
            assert(order.contains(i));
            let k = choose|k: int| 0 <= k < order.len() && order[k] == i;
            if k < p {
                assert(new[k] == i);
            } else {
                assert(new[k + 1] == i);
            }
        }
    }
    assert forall|j: int, k: int| 0 <= j < k < new.len() implies ranked_before(
        tracks,
        config.tie_break_policy,
        #[trigger] new[j],
        #[trigger] new[k],
    ) by {
        let oj = if j < p { j } else { j - 1 };
        let ok = if k < p { k } else { k - 1 };
        if j != p {
            assert(new[j] == order[oj]);
        }
        if k != p {
            assert(new[k] == order[ok]);
        }
        if j != p && k != p {
            assert(ranked_before(tracks, config.tie_break_policy, order[oj], order[ok]));
        } else if j == p {
            if ok > p {
                assert(ranked_before(tracks, config.tie_break_policy, order[p], order[ok]));
            }
        }
    }
}

/// The positions of the tracks that are not stale, the highest rank first.
fn ranking(tracks: &Vec<TrackRank>, config: &TopNTrackerConfig, now_ms: u64) -> (r: Vec<usize>)
    ensures
        is_ranking(ranks_view(tracks@), *config, now_ms, as_ints(r@), tracks@.len() as int),
{
    let ghost view = ranks_view(tracks@);
    let mut order: Vec<usize> = Vec::new();
    let mut i: usize = 0;
    while i < tracks.len()
        invariant
            i <= tracks@.len(),
            view == ranks_view(tracks@),
            is_ranking(view, *config, now_ms, as_ints(order@), i as int),
        decreases tracks@.len() - i,
    {
        let ghost ints = as_ints(order@);
        assert(view[i as int] == tracks@[i as int]@);
        if tracks[i].fresh(config.staleness_timeout_ms, now_ms) {
            assert forall|k: int| 0 <= k < order@.len() implies #[trigger] order@[k] < i by {
                assert(ints[k] == order@[k]);
            }
            let mut p: usize = 0;
            while p < order.len() && !tracks[i].outranks(
                &tracks[order[p]],
                config.tie_break_policy,
            )
                invariant
                    p <= order@.len(),
                    i < tracks@.len(),
                    view == ranks_view(tracks@),
                    ints == as_ints(order@),
                    forall|k: int| 0 <= k < order@.len() ==> #[trigger] order@[k] < i,
                    forall|k: int|
                        0 <= k < p ==> !view[i as int].outranks(
                            view[#[trigger] ints[k]],
                            config.tie_break_policy,
                        ),
                decreases order@.len() - p,
            {
                assert(ints[p as int] == order@[p as int]);
                assert(view[i as int] == tracks@[i as int]@);
                assert(view[ints[p as int]] == tracks@[order@[p as int] as int]@);
                p += 1;
            }
            proof {
                if p < order@.len() {
                    assert(ints[p as int] == order@[p as int]);
                    assert(view[ints[p as int]] == tracks@[order@[p as int] as int]@);
                }
                lemma_ranking_insert(view, *config, now_ms, ints, i as int, p as int);
            }
            order.insert(p, i);
            assert(as_ints(order@) =~= ints.insert(p as int, i as int));
        } else {
            assert(is_ranking(view, *config, now_ms, ints, i + 1)) by {
                assert forall|m: int|
                    0 <= m < i + 1 && (#[trigger] view[m]).fresh(
                        config.staleness_timeout_ms,
                        now_ms,
                    ) implies ints.contains(m) by {
                    assert(m < i);
                }
            }
        }
        i += 1;
    }
    order
}


/// The name of a track.
#[derive(Debug, PartialEq, Eq, Hash)]
pub struct TrackKey {
    pub namespace: TrackNamespace,
    pub track_name: String,
}

impl TrackKey {
    pub fn new(namespace: TrackNamespace, track_name: String) -> (r: Self)
        ensures
            r.namespace == namespace,
            r.track_name == track_name,
    {
        TrackKey { namespace, track_name }
    }
}

/// The names of the tracks that a session gets when it asks for the top `n`, among the
/// first `k` of the snapshot: in rank order, its own left out, until there are `n`.
pub open spec fn top_n(
    snapshot: Seq<TrackRankView>,
    session_id: u64,
    n: nat,
    k: nat,
) -> Seq<(Seq<Seq<u8>>, Seq<char>)>
    decreases k,
{
    if k == 0 {
        Seq::empty()
    } else {
        let before = top_n(snapshot, session_id, n, (k - 1) as nat);
        let track = snapshot[k - 1];
        if before.len() < n && track.publisher_session_id != session_id {
            before.push((track.namespace, track.track_name))
        } else {
            before
        }
    }
}

/// The names and values of the tracks that a session gets when it asks for the top `n`, among
/// the first `k` of the snapshot.
pub open spec fn top_values(
    snapshot: Seq<TrackRankView>,
    session_id: u64,
    n: nat,
    k: nat,
) -> Seq<(Seq<char>, u64)>
    decreases k,
{
    if k == 0 {
        Seq::empty()
    } else {
        let before = top_values(snapshot, session_id, n, (k - 1) as nat);
        let track = snapshot[k - 1];
        if before.len() < n && track.publisher_session_id != session_id {
            before.push((track.track_name, track.property_value))
        } else {
            before
        }
    }
}

/// A track of the session itself stands among the first `k` of the snapshot, with fewer than
/// `n` tracks of other sessions before it.
pub open spec fn passes_over_own(
    snapshot: Seq<TrackRankView>,
    session_id: u64,
    n: nat,
    k: nat,
) -> bool {
    exists|p: int|
        0 <= p < k && (#[trigger] snapshot[p]).publisher_session_id == session_id && top_values(
            snapshot,
            session_id,
            n,
            p as nat,
        ).len() < n
}

/// What is told of a session that asks for its top N.
#[derive(Debug)]
pub struct QueryReport {
    /// The tracks that it gets, by name and value.
    pub selected: Vec<(String, u64)>,
    /// The session, if tracks of its own were passed over.
    pub excluded_self: Option<u64>,
}

/// The contents of a list of names and values.
pub open spec fn values_view(selected: Seq<(String, u64)>) -> Seq<(Seq<char>, u64)> {
    selected.map_values(|s: (String, u64)| (s.0@, s.1))
}

/// The number of the first `k` tracks that other sessions publish.
pub open spec fn others_count(snapshot: Seq<TrackRankView>, session_id: u64, k: nat) -> nat {
    (k - published_count(snapshot, session_id, k)) as nat
}

/// Another session's track of this name stands in the snapshot with fewer than `n` tracks
/// of other sessions before it.
pub open spec fn within_top(
    snapshot: Seq<TrackRankView>,
    namespace: Seq<Seq<u8>>,
    track_name: Seq<char>,
    session_id: u64,
    n: nat,
) -> bool {
    exists|p: int|
        0 <= p < snapshot.len() && (#[trigger] snapshot[p]).is_track(namespace, track_name)
            && snapshot[p].publisher_session_id != session_id && others_count(
            snapshot,
            session_id,
            p as nat,
        ) < n
}

/// A position as a byte holds it: 255 stands for all from it on.
pub open spec fn capped(position: nat) -> nat {
    if position > 255 {
        255
    } else {
        position
    }
}

/// A track at this position cannot be among the top `n` of a session whose last own track
/// stands at the capped position `last`.
pub open spec fn ruled_out(position: nat, n: nat, last: nat) -> bool {
    last < 255 && position > n + last
}

/// Position of the last of the first `k` tracks that the session publishes, or 0.
pub open spec fn last_self(snapshot: Seq<TrackRankView>, session_id: u64, k: nat) -> nat
    decreases k,
{
    if k == 0 {
        0
    } else if snapshot[k - 1].publisher_session_id == session_id {
        (k - 1) as nat
    } else {
        last_self(snapshot, session_id, (k - 1) as nat)
    }
}

proof fn lemma_published_count_bound(snapshot: Seq<TrackRankView>, session_id: u64, k: nat)
    ensures
        published_count(snapshot, session_id, k) <= k,
        published_count(snapshot, session_id, k) > 0 ==> published_count(snapshot, session_id, k)
            <= last_self(snapshot, session_id, k) + 1,
        published_count(snapshot, session_id, k) == 0 ==> last_self(snapshot, session_id, k) == 0,
        last_self(snapshot, session_id, k) < k || k == 0,
    decreases k,
{
    if k > 0 {
        lemma_published_count_bound(snapshot, session_id, (k - 1) as nat);
    }
}

proof fn lemma_others_monotonic(snapshot: Seq<TrackRankView>, session_id: u64, m: nat, k: nat)
    requires
        m <= k,
    ensures
        others_count(snapshot, session_id, m) <= others_count(snapshot, session_id, k),
        published_count(snapshot, session_id, m) <= published_count(snapshot, session_id, k),
        last_self(snapshot, session_id, m) <= last_self(snapshot, session_id, k),
    decreases k,
{
    lemma_published_count_bound(snapshot, session_id, m);
    if m < k {
        lemma_others_monotonic(snapshot, session_id, m, (k - 1) as nat);
        lemma_published_count_bound(snapshot, session_id, (k - 1) as nat);
    }
}

/// Ranking of tracks by one property, with a snapshot of the highest.
pub struct TopNTracker {
    /// The highest-ranking tracks when the snapshot was made.
    snapshot: Vec<TrackRank>,
    /// All tracks in the order of their registration.
    tracks: Vec<TrackRank>,
    max_n: u8,
    max_x: u8,
    next_seq: u64,
    property_type: u64,
    config: TopNTrackerConfig,
    event_logging: bool,
}

/// The contents of a [`TopNTracker`].
#[verifier::ext_equal]
pub struct TopNTrackerView {
    /// All tracks in the order of their registration.
    pub tracks: Seq<TrackRankView>,
    /// The highest-ranking tracks when the snapshot was made.
    pub snapshot: Seq<TrackRankView>,
    /// The largest N that a subscriber asks for.
    pub max_n: u8,
    /// The arrival number of the next track.
    pub next_seq: u64,
    pub property_type: u64,
    pub config: TopNTrackerConfig,
    pub event_logging: bool,
}

impl View for TopNTracker {
    type V = TopNTrackerView;

    closed spec fn view(&self) -> TopNTrackerView {
        TopNTrackerView {
            tracks: ranks_view(self.tracks@),
            snapshot: ranks_view(self.snapshot@),
            max_n: self.max_n,
            next_seq: self.next_seq,
            property_type: self.property_type,
            config: self.config,
            event_logging: self.event_logging,
        }
    }
}

impl TopNTrackerView {
    /// A tracker without tracks.
    pub open spec fn fresh(property_type: u64, config: TopNTrackerConfig) -> TopNTrackerView {
        TopNTrackerView {
            tracks: Seq::empty(),
            snapshot: Seq::empty(),
            max_n: 0,
            next_seq: 0,
            property_type,
            config,
            event_logging: config.enable_event_logging,
        }
    }

    /// Position of a track among all tracks.
    pub open spec fn position(self, namespace: Seq<Seq<u8>>, track_name: Seq<char>) -> Option<int> {
        find_track(self.tracks, namespace, track_name, self.tracks.len())
    }

    /// The snapshot is one made at `now_ms` of the tracks as they are.
    pub open spec fn snapshot_made_at(self, now_ms: u64) -> bool {
        is_snapshot(
            self.tracks,
            self.config,
            self.max_n,
            max_x_of(self.tracks),
            now_ms,
            self.snapshot,
        )
    }

    /// `after` is this tracker with other tracks and a snapshot made of them.
    pub open spec fn remade(
        self,
        tracks: Seq<TrackRankView>,
        now_ms: u64,
        after: TopNTrackerView,
    ) -> bool {
        &&& after == TopNTrackerView { tracks, snapshot: after.snapshot, ..self }
        &&& after.snapshot_made_at(now_ms)
    }

    /// The arrival number after the next one.
    pub open spec fn bumped(self) -> TopNTrackerView {
        TopNTrackerView {
            next_seq: if self.next_seq == u64::MAX {
                0
            } else {
                (self.next_seq + 1) as u64
            },
            ..self
        }
    }

    /// `after` is what registering a track leads to. One that is there already is left as
    /// it is.
    pub open spec fn registers(
        self,
        namespace: Seq<Seq<u8>>,
        track_name: Seq<char>,
        property_value: u64,
        publisher_session_id: u64,
        now_ms: u64,
        after: TopNTrackerView,
    ) -> bool {
        if self.position(namespace, track_name) is Some {
            after == self.bumped()
        } else {
            self.bumped().remade(
                self.tracks.push(
                    TrackRankView {
                        namespace,
                        track_name,
                        property_value,
                        arrival_seq: self.next_seq,
                        last_update_ms: now_ms,
                        publisher_session_id,
                    },
                ),
                now_ms,
                after,
            )
        }
    }

    /// `after` is what a new value of a track leads to. Where the value is the same only the
    /// time is noted.
    pub open spec fn updates(
        self,
        namespace: Seq<Seq<u8>>,
        track_name: Seq<char>,
        new_value: u64,
        now_ms: u64,
        after: TopNTrackerView,
    ) -> bool {
        match self.position(namespace, track_name) {
            Some(i) => {
                let tracks = self.tracks.update(
                    i,
                    TrackRankView {
                        property_value: new_value,
                        last_update_ms: now_ms,
                        ..self.tracks[i]
                    },
                );
                if self.tracks[i].property_value == new_value {
                    after == TopNTrackerView { tracks, ..self }
                } else {
                    self.remade(tracks, now_ms, after)
                }
            },
            None => after == self,
        }
    }

    /// `after` is what removing a track leads to.
    pub open spec fn removes(
        self,
        namespace: Seq<Seq<u8>>,
        track_name: Seq<char>,
        now_ms: u64,
        after: TopNTrackerView,
    ) -> bool {
        let tracks = match self.position(namespace, track_name) {
            Some(i) => self.tracks.remove(i),
            None => self.tracks,
        };
        self.remade(tracks, now_ms, after)
    }

    /// What is told of a track that is registered.
    pub open spec fn registration(
        self,
        namespace: Seq<Seq<u8>>,
        track_name: Seq<char>,
        property_value: u64,
        publisher_session_id: u64,
    ) -> Option<TrackEvent> {
        if self.event_logging && self.position(namespace, track_name) is None {
            Some(
                TrackEvent::Registered { value: property_value, publisher_id: publisher_session_id },
            )
        } else {
            None
        }
    }

    /// What is told of a new value of a track. A value that stays the same is not told of.
    pub open spec fn value_change(
        self,
        namespace: Seq<Seq<u8>>,
        track_name: Seq<char>,
        new_value: u64,
    ) -> Option<TrackEvent> {
        match self.position(namespace, track_name) {
            Some(i) => if self.event_logging && self.tracks[i].property_value != new_value {
                Some(
                    TrackEvent::ValueUpdated {
                        old_value: self.tracks[i].property_value,
                        new_value,
                        publisher_id: self.tracks[i].publisher_session_id,
                    },
                )
            } else {
                None
            },
            None => None,
        }
    }

    /// What is told of a track that is removed.
    pub open spec fn removal(self, namespace: Seq<Seq<u8>>, track_name: Seq<char>) -> Option<
        TrackEvent,
    > {
        match self.position(namespace, track_name) {
            Some(i) => if self.event_logging {
                Some(TrackEvent::Removed { publisher_id: self.tracks[i].publisher_session_id })
            } else {
                None
            },
            None => None,
        }
    }

    /// `after` is what another largest N leads to.
    pub open spec fn resizes(self, max_n: u8, now_ms: u64, after: TopNTrackerView) -> bool {
        if max_n == self.max_n {
            after == self
        } else {
            TopNTrackerView { max_n, ..self }.remade(self.tracks, now_ms, after)
        }
    }
}

impl TopNTracker {
    /// All tracks in the order of their registration.
    pub open spec fn tracks(&self) -> Seq<TrackRankView> {
        self@.tracks
    }

    /// The snapshot.
    pub open spec fn snapshot(&self) -> Seq<TrackRankView> {
        self@.snapshot
    }

    /// No track twice, and the largest number per publisher is kept.
    pub closed spec fn wf(&self) -> bool {
        &&& self.max_x == max_x_of(self.tracks())
        &&& forall|i: int, j: int|
            0 <= i < j < self.tracks().len() ==> !(#[trigger] self.tracks()[i]).is_track(
                (#[trigger] self.tracks()[j]).namespace,
                self.tracks()[j].track_name,
            )
    }

    /// A tracker with the standard configuration.
    pub fn new(property_type: u64) -> (r: Self)
        ensures
            r.wf(),
            r@ == TopNTrackerView::fresh(property_type, TopNTrackerConfig::standard()),
    {
        Self::with_config(property_type, TopNTrackerConfig::default())
    }

    pub fn with_config(property_type: u64, config: TopNTrackerConfig) -> (r: Self)
        ensures
            r.wf(),
            r@ == TopNTrackerView::fresh(property_type, config),
    {
        let r = TopNTracker {
            snapshot: Vec::new(),
            tracks: Vec::new(),
            max_n: 0,
            max_x: 0,
            next_seq: 0,
            property_type,
            config,
            event_logging: config.enable_event_logging,
        };
        assert(r.tracks() =~= Seq::empty());
        assert(r.snapshot() =~= Seq::empty());
        r
    }

    /// Turns event logging on or off.
    pub fn set_event_logging(&mut self, enabled: bool)
        ensures
            final(self)@ == (TopNTrackerView { event_logging: enabled, ..old(self)@ }),
            old(self).wf() ==> final(self).wf(),
    {
        self.event_logging = enabled;
    }

    /// Whether events are logged.
    pub fn is_event_logging_enabled(&self) -> (r: bool)
        ensures
            r == self@.event_logging,
    {
        self.event_logging
    }

    /// The configuration in use.
    pub fn config(&self) -> (r: &TopNTrackerConfig)
        ensures
            *r == self@.config,
    {
        &self.config
    }

    /// The property by which tracks are ranked.
    pub fn property_type(&self) -> (r: u64)
        ensures
            r == self@.property_type,
    {
        self.property_type
    }

    fn rebuild_snapshot(&mut self, now_ms: u64)
        requires
            old(self).wf(),
        ensures
            final(self).wf(),
            old(self)@.remade(old(self)@.tracks, now_ms, final(self)@),
    {
        if self.max_n == 0 {
            self.snapshot = Vec::new();
            assert(self.snapshot() =~= Seq::empty());
            return;
        }
        let size: usize = self.max_n as usize + self.max_x as usize;
        let order = ranking(&self.tracks, &self.config, now_ms);
        let ghost ints = as_ints(order@);
        let ghost tracks = self.tracks();
        let mut snapshot: Vec<TrackRank> = Vec::new();
        let mut k: usize = 0;
        while k < order.len() && k < size
            invariant
                k <= order@.len(),
                k <= size,
                ints == as_ints(order@),
                tracks == ranks_view(self.tracks@),
                is_ranking(tracks, self.config, now_ms, ints, tracks.len() as int),
                snapshot@.len() == k,
                forall|j: int|
                    0 <= j < k ==> (#[trigger] snapshot@[j])@ == tracks[ints[j]],
            decreases order@.len() - k,
        {
            assert(ints[k as int] == order@[k as int]);
            assert(tracks[ints[k as int]] == self.tracks@[order@[k as int] as int]@);
            snapshot.push(self.tracks[order[k]].clone());
            k += 1;
        }
        self.snapshot = snapshot;
        assert(self.snapshot() =~= leading(tracks, ints, size as int));
    }

    /// Registers a track. One that is there already is left as it is.
    pub fn register_track(
        &mut self,
        namespace: TrackNamespace,
        track_name: String,
        property_value: u64,
        publisher_session_id: u64,
        now_ms: u64,
    )
        requires
            old(self).wf(),
        ensures
            final(self).wf(),
            old(self)@.registers(
                namespace@,
                track_name@,
                property_value,
                publisher_session_id,
                now_ms,
                final(self)@,
            ),
    {
        let ghost before = self.tracks();
        let arrival_seq: u64 = self.next_seq;
        self.next_seq = self.next_seq.wrapping_add(1);
        proof {
            lemma_find_track(before, namespace@, track_name@, before.len());
        }
        if position_of(&self.tracks, &namespace, &track_name).is_some() {
            return;
        }
        let track = TrackRank {
            namespace,
            track_name,
            property_value,
            arrival_seq,
            last_update_ms: now_ms,
            publisher_session_id,
        };
        let ghost added = track@;
        self.tracks.push(track);
        assert(self.tracks() =~= before.push(added));
        assert forall|i: int, j: int| 0 <= i < j < self.tracks().len() implies !(
        #[trigger] self.tracks()[i]).is_track(
            (#[trigger] self.tracks()[j]).namespace,
            self.tracks()[j].track_name,
        ) by {
            assert(self.tracks()[i] == before[i]);
            if j < before.len() {
                assert(self.tracks()[j] == before[j]);
            }
        }
        self.max_x = compute_max_x(&self.tracks);
        self.rebuild_snapshot(now_ms);
    }

    /// Changes a track's value. Where the value is the same only the time is noted.
    pub fn update_value(
        &mut self,
        namespace: &TrackNamespace,
        track_name: &String,
        new_value: u64,
        now_ms: u64,
    )
        requires
            old(self).wf(),
        ensures
            final(self).wf(),
            old(self)@.updates(namespace@, track_name@, new_value, now_ms, final(self)@),
    {
        let i: usize = match position_of(&self.tracks, namespace, track_name) {
            Some(i) => i,
            None => return,
        };
        let changed = self.tracks[i].property_value != new_value;
        self.revise(i, new_value, now_ms);
        if changed {
            self.rebuild_snapshot(now_ms);
        }
    }

    /// Gives the track at `i` a value and a time.
    fn revise(&mut self, i: usize, value: u64, now_ms: u64)
        requires
            old(self).wf(),
            i < old(self).tracks().len(),
        ensures
            final(self).wf(),
            final(self)@ == (TopNTrackerView {
                tracks: old(self)@.tracks.update(
                    i as int,
                    TrackRankView {
                        property_value: value,
                        last_update_ms: now_ms,
                        ..old(self)@.tracks[i as int]
                    },
                ),
                ..old(self)@
            }),
    {
        let ghost before = self.tracks();
        assert(before[i as int] == self.tracks@[i as int]@);
        self.tracks[i].property_value = value;
        self.tracks[i].last_update_ms = now_ms;
        let ghost revised = TrackRankView {
            property_value: value,
            last_update_ms: now_ms,
            ..before[i as int]
        };
        assert(self.tracks@[i as int]@ == revised);
        assert(self.tracks() =~= before.update(i as int, revised));
        proof {
            lemma_same_publishers(before, self.tracks(), before.len());
            assert forall|j: int, k: int| 0 <= j < k < self.tracks().len() implies !(
            #[trigger] self.tracks()[j]).is_track(
                (#[trigger] self.tracks()[k]).namespace,
                self.tracks()[k].track_name,
            ) by {
                assert(!before[j].is_track(before[k].namespace, before[k].track_name));
            }
        }
    }

    /// Notes that a track is active, without a change of value.
    pub fn touch_track(&mut self, namespace: &TrackNamespace, track_name: &String, now_ms: u64)
        requires
            old(self).wf(),
        ensures
            final(self).wf(),
            final(self)@ == (TopNTrackerView {
                tracks: match old(self)@.position(namespace@, track_name@) {
                    Some(i) => old(self)@.tracks.update(
                        i,
                        TrackRankView { last_update_ms: now_ms, ..old(self)@.tracks[i] },
                    ),
                    None => old(self)@.tracks,
                },
                ..old(self)@
            }),
    {
        if let Some(i) = position_of(&self.tracks, namespace, track_name) {
            let value: u64 = self.tracks[i].property_value;
            assert(self.tracks()[i as int] == self.tracks@[i as int]@);
            self.revise(i, value, now_ms);
        }
    }

    /// Removes a track.
    pub fn remove_track(&mut self, namespace: &TrackNamespace, track_name: &String, now_ms: u64)
        requires
            old(self).wf(),
        ensures
            final(self).wf(),
            old(self)@.removes(namespace@, track_name@, now_ms, final(self)@),
    {
        let ghost before = self.tracks();
        if let Some(i) = position_of(&self.tracks, namespace, track_name) {
            self.tracks.remove(i);
            assert(self.tracks() =~= before.remove(i as int));
            self.max_x = compute_max_x(&self.tracks);
            assert forall|j: int, k: int| 0 <= j < k < self.tracks().len() implies !(
            #[trigger] self.tracks()[j]).is_track(
                (#[trigger] self.tracks()[k]).namespace,
                self.tracks()[k].track_name,
            ) by {
                let oj = if j < i { j } else { j + 1 };
                let ok = if k < i { k } else { k + 1 };
                assert(!before[oj].is_track(before[ok].namespace, before[ok].track_name));
            }
        }
        self.rebuild_snapshot(now_ms);
    }

    /// Sets the largest N that a subscriber asks for.
    pub fn update_max_n(&mut self, new_max_n: u8, now_ms: u64)
        requires
            old(self).wf(),
        ensures
            final(self).wf(),
            old(self)@.resizes(new_max_n, now_ms, final(self)@),
    {
        let changed = self.max_n != new_max_n;
        self.max_n = new_max_n;
        if changed {
            self.rebuild_snapshot(now_ms);
        }
    }

    /// The largest N that a subscriber asks for.
    pub fn max_n(&self) -> (r: u8)
        ensures
            r == self@.max_n,
    {
        self.max_n
    }

    /// The current snapshot.
    pub fn load_snapshot(&self) -> (r: &Vec<TrackRank>)
        ensures
            ranks_view(r@) == self.snapshot(),
    {
        &self.snapshot
    }

    /// The number of tracks.
    pub fn num_tracks(&self) -> (r: usize)
        ensures
            r == self.tracks().len(),
    {
        self.tracks.len()
    }
}

/// Counts depend on the publishers alone.
proof fn lemma_same_publishers(a: Seq<TrackRankView>, b: Seq<TrackRankView>, n: nat)
    requires
        a.len() == b.len(),
        n <= a.len(),
        forall|i: int|
            0 <= i < a.len() ==> (#[trigger] a[i]).publisher_session_id
                == b[i].publisher_session_id,
    ensures
        largest_count(a, n) == largest_count(b, n),
    decreases n,
{
    if n > 0 {
        lemma_same_publishers(a, b, (n - 1) as nat);
        assert(a[n - 1].publisher_session_id == b[n - 1].publisher_session_id);
        lemma_same_total(a, b, a.len());
    }
}

proof fn lemma_same_total(a: Seq<TrackRankView>, b: Seq<TrackRankView>, n: nat)
    requires
        a.len() == b.len(),
        n <= a.len(),
        forall|i: int|
            0 <= i < a.len() ==> (#[trigger] a[i]).publisher_session_id
                == b[i].publisher_session_id,
    ensures
        forall|session_id: u64|
            published_count(a, session_id, n) == #[trigger] published_count(b, session_id, n),
    decreases n,
{
    if n > 0 {
        lemma_same_total(a, b, (n - 1) as nat);
        assert forall|session_id: u64|
            published_count(a, session_id, n) == #[trigger] published_count(b, session_id, n) by {
            assert(published_count(a, session_id, (n - 1) as nat) == published_count(
                b,
                session_id,
                (n - 1) as nat,
            ));
            assert(a[n - 1].publisher_session_id == b[n - 1].publisher_session_id);
        }
    }
}


/// The contents of a list of track names.
pub open spec fn names_view(names: Seq<(TrackNamespace, String)>) -> Seq<
    (Seq<Seq<u8>>, Seq<char>),
> {
    names.map_values(|name: (TrackNamespace, String)| (name.0@, name.1@))
}

/// The tracks among the first `n` that are not stale.
pub open spec fn fresh_tracks(
    tracks: Seq<TrackRankView>,
    timeout_ms: Option<u64>,
    now_ms: u64,
    n: nat,
) -> Seq<TrackRankView>
    decreases n,
{
    if n == 0 {
        Seq::empty()
    } else {
        let before = fresh_tracks(tracks, timeout_ms, now_ms, (n - 1) as nat);
        if tracks[n - 1].fresh(timeout_ms, now_ms) {
            before.push(tracks[n - 1])
        } else {
            before
        }
    }
}

/// Leaving tracks out brings no track in twice.
proof fn lemma_fresh_tracks_distinct(
    tracks: Seq<TrackRankView>,
    timeout_ms: Option<u64>,
    now_ms: u64,
    n: nat,
)
    requires
        n <= tracks.len(),
        forall|i: int, j: int|
            0 <= i < j < tracks.len() ==> !(#[trigger] tracks[i]).is_track(
                (#[trigger] tracks[j]).namespace,
                tracks[j].track_name,
            ),
    ensures
        ({
            let kept = fresh_tracks(tracks, timeout_ms, now_ms, n);
            &&& kept.len() <= n
            &&& forall|i: int|
                0 <= i < kept.len() ==> exists|m: int|
                    0 <= m < n && #[trigger] tracks[m] == #[trigger] kept[i]
            &&& forall|i: int, j: int|
                0 <= i < j < kept.len() ==> !(#[trigger] kept[i]).is_track(
                    (#[trigger] kept[j]).namespace,
                    kept[j].track_name,
                )
        }),
    decreases n,
{
    if n > 0 {
        lemma_fresh_tracks_distinct(tracks, timeout_ms, now_ms, (n - 1) as nat);
        let before = fresh_tracks(tracks, timeout_ms, now_ms, (n - 1) as nat);
        let kept = fresh_tracks(tracks, timeout_ms, now_ms, n);
        if tracks[n - 1].fresh(timeout_ms, now_ms) {
            assert forall|i: int| 0 <= i < kept.len() implies exists|m: int|
                0 <= m < n && #[trigger] tracks[m] == #[trigger] kept[i] by {
                if i < before.len() {
                    let m = choose|m: int|
                        0 <= m < n - 1 && #[trigger] tracks[m] == before[i];
                    assert(tracks[m] == kept[i]);
                } else {
                    assert(tracks[n - 1] == kept[i]);
                }
            }
            assert forall|i: int, j: int| 0 <= i < j < kept.len() implies !(
            #[trigger] kept[i]).is_track(
                (#[trigger] kept[j]).namespace,
                kept[j].track_name,
            ) by {
                if j < before.len() {
                    assert(!before[i].is_track(before[j].namespace, before[j].track_name));
                } else {
                    let m = choose|m: int|
                        0 <= m < n - 1 && #[trigger] tracks[m] == before[i];
                    assert(!tracks[m].is_track(tracks[n - 1].namespace, tracks[n - 1].track_name));
                }
            }
        }
    }
}

impl TopNTracker {
    /// The tracks that a session gets when it asks for the top `n`: in rank order, its own
    /// left out.
    pub fn compute_top_n_for_session(&self, session_id: u64, n: u8) -> (r: Vec<
        (TrackNamespace, String),
    >)
        ensures
            names_view(r@) == top_n(
                self.snapshot(),
                session_id,
                n as nat,
                self.snapshot().len(),
            ),
    {
        let ghost snapshot = self.snapshot();
        let mut out: Vec<(TrackNamespace, String)> = Vec::new();
        assert(names_view(out@) =~= Seq::empty());
        let mut k: usize = 0;
        while k < self.snapshot.len()
            invariant
                k <= self.snapshot@.len(),
                snapshot == ranks_view(self.snapshot@),
                names_view(out@) == top_n(snapshot, session_id, n as nat, k as nat),
            decreases self.snapshot@.len() - k,
        {
            let track = &self.snapshot[k];
            assert(snapshot[k as int] == track@);
            assert(names_view(out@).len() == out@.len());
            if out.len() < n as usize && track.publisher_session_id != session_id {
                let ghost before = names_view(out@);
                out.push((track.namespace.clone(), track.track_name.clone()));
                assert(names_view(out@) =~= before.push((track.namespace@, track.track_name@)));
            }
            k += 1;
        }
        out
    }

    /// What is told of a session that asks for the top `n`.
    pub fn report_query(&self, session_id: u64, n: u8) -> (r: Option<QueryReport>)
        ensures
            match r {
                Some(report) => {
                    &&& self@.event_logging
                    &&& values_view(report.selected@) == top_values(
                        self.snapshot(),
                        session_id,
                        n as nat,
                        self.snapshot().len(),
                    )
                    &&& report.excluded_self == (if passes_over_own(
                        self.snapshot(),
                        session_id,
                        n as nat,
                        self.snapshot().len(),
                    ) {
                        Some(session_id)
                    } else {
                        None
                    })
                },
                None => !self@.event_logging,
            },
    {
        if !self.event_logging {
            return None;
        }
        let ghost snapshot = self.snapshot();
        let mut selected: Vec<(String, u64)> = Vec::new();
        let mut own = false;
        assert(values_view(selected@) =~= Seq::empty());
        let mut k: usize = 0;
        while k < self.snapshot.len()
            invariant
                k <= self.snapshot@.len(),
                snapshot == ranks_view(self.snapshot@),
                values_view(selected@) == top_values(snapshot, session_id, n as nat, k as nat),
                own == passes_over_own(snapshot, session_id, n as nat, k as nat),
            decreases self.snapshot@.len() - k,
        {
            let track = &self.snapshot[k];
            assert(snapshot[k as int] == track@);
            assert(values_view(selected@).len() == selected@.len());
            let ghost before = values_view(selected@);
            if selected.len() < n as usize {
                if track.publisher_session_id != session_id {
                    selected.push((track.track_name.clone(), track.property_value));
                    assert(values_view(selected@) =~= before.push(
                        (track.track_name@, track.property_value),
                    ));
                } else {
                    own = true;
                }
            }
            k += 1;
        }
        let excluded_self = if own {
            Some(session_id)
        } else {
            None
        };
        Some(QueryReport { selected, excluded_self })
    }

    /// What is told of a track that is going to be registered.
    pub fn registration_event(
        &self,
        namespace: &TrackNamespace,
        track_name: &String,
        property_value: u64,
        publisher_session_id: u64,
    ) -> (r: Option<TrackEvent>)
        ensures
            r == self@.registration(
                namespace@,
                track_name@,
                property_value,
                publisher_session_id,
            ),
    {
        if self.event_logging && position_of(&self.tracks, namespace, track_name).is_none() {
            Some(
                TrackEvent::Registered { value: property_value, publisher_id: publisher_session_id },
            )
        } else {
            None
        }
    }

    /// What is told of a track that is going to have another value.
    pub fn update_event(&self, namespace: &TrackNamespace, track_name: &String, new_value: u64) -> (r:
        Option<TrackEvent>)
        ensures
            r == self@.value_change(namespace@, track_name@, new_value),
    {
        match position_of(&self.tracks, namespace, track_name) {
            Some(i) => {
                assert(self@.tracks[i as int] == self.tracks@[i as int]@);
                let old_value: u64 = self.tracks[i].property_value;
                if self.event_logging && old_value != new_value {
                    Some(
                        TrackEvent::ValueUpdated {
                            old_value,
                            new_value,
                            publisher_id: self.tracks[i].publisher_session_id,
                        },
                    )
                } else {
                    None
                }
            },
            None => None,
        }
    }

    /// What is told of a track that is going to be removed.
    pub fn removal_event(&self, namespace: &TrackNamespace, track_name: &String) -> (r: Option<
        TrackEvent,
    >)
        ensures
            r == self@.removal(namespace@, track_name@),
    {
        match position_of(&self.tracks, namespace, track_name) {
            Some(i) => {
                assert(self@.tracks[i as int] == self.tracks@[i as int]@);
                if self.event_logging {
                    Some(TrackEvent::Removed { publisher_id: self.tracks[i].publisher_session_id })
                } else {
                    None
                }
            },
            None => None,
        }
    }

    /// Whether a track is among the top `n` for a session.
    pub fn is_in_top_n(
        &self,
        namespace: &TrackNamespace,
        track_name: &String,
        session_id: u64,
        n: u8,
    ) -> (r: bool)
        ensures
            r == within_top(
                self.snapshot(),
                namespace@,
                track_name@,
                session_id,
                n as nat,
            ),
    {
        self.is_in_top_n_with_snapshot(
            namespace,
            track_name,
            session_id,
            n,
            self.snapshot.as_slice(),
        )
    }

    /// Whether a track is among the top `n` for a session in a snapshot.
    pub fn is_in_top_n_with_snapshot(
        &self,
        namespace: &TrackNamespace,
        track_name: &String,
        session_id: u64,
        n: u8,
        snapshot: &[TrackRank],
    ) -> (r: bool)
        ensures
            r == within_top(
                ranks_view(snapshot@),
                namespace@,
                track_name@,
                session_id,
                n as nat,
            ),
    {
        let ghost view = ranks_view(snapshot@);
        let ghost limit = n as nat;
        if n == 0 {
            return false;
        }
        let mut others: u8 = 0;
        let mut k: usize = 0;
        while k < snapshot.len()
            invariant
                k <= snapshot@.len(),
                view == ranks_view(snapshot@),
                limit == n,
                others == others_count(view, session_id, k as nat),
                published_count(view, session_id, k as nat) <= k,
                others < limit,
                forall|p: int|
                    0 <= p < k ==> !((#[trigger] view[p]).is_track(namespace@, track_name@)
                        && view[p].publisher_session_id != session_id),
            decreases snapshot@.len() - k,
        {
            let track = &snapshot[k];
            assert(view[k as int] == track@);
            if track.publisher_session_id != session_id {
                if track.is_track(namespace, track_name) {
                    return true;
                }
                others += 1;
                if others >= n {
                    assert forall|p: int| 0 <= p < view.len() && (#[trigger] view[p]).is_track(
                        namespace@,
                        track_name@,
                    ) && view[p].publisher_session_id != session_id implies others_count(
                        view,
                        session_id,
                        p as nat,
                    ) >= limit by {
                        assert(p > k);
                        lemma_others_monotonic(view, session_id, (k + 1) as nat, p as nat);
                    }
                    return false;
                }
            }
            k += 1;
        }
        false
    }

    /// Whether a track is among the top `n` for a session, with a quick way out for a track
    /// whose position in the snapshot rules it out. The largest cached position stands for all
    /// from it on, and rules nothing out.
    pub fn is_in_top_n_fast(
        &self,
        namespace: &TrackNamespace,
        track_name: &String,
        track_position: usize,
        session_id: u64,
        n: u8,
        cached_last_self_pos: u8,
        snapshot: &[TrackRank],
    ) -> (r: bool)
        ensures
            r == (!ruled_out(track_position as nat, n as nat, cached_last_self_pos as nat)
                && within_top(
                ranks_view(snapshot@),
                namespace@,
                track_name@,
                session_id,
                n as nat,
            )),
    {
        if cached_last_self_pos < u8::MAX && !Self::might_be_in_top_n(track_position, n, cached_last_self_pos) {
            return false;
        }
        self.is_in_top_n_with_snapshot(namespace, track_name, session_id, n, snapshot)
    }

    /// Whether a track at this position can be among the top `n` of a session whose last own
    /// track stands at `cached_last_self_pos`.
    pub fn might_be_in_top_n(track_position: usize, n: u8, cached_last_self_pos: u8) -> (r: bool)
        ensures
            r == (track_position <= n + cached_last_self_pos),
    {
        track_position <= n as usize + cached_last_self_pos as usize
    }

    /// The position of the session's last own track in the snapshot, or 0; 255 where it is
    /// further down.
    pub fn compute_last_self_position(&self, session_id: u64) -> (r: u8)
        ensures
            r == capped(last_self(self.snapshot(), session_id, self.snapshot().len())),
    {
        Self::compute_last_self_position_in_snapshot(session_id, self.snapshot.as_slice())
    }

    /// The position of the session's last own track in a snapshot, or 0; 255 where it is
    /// further down.
    pub fn compute_last_self_position_in_snapshot(session_id: u64, snapshot: &[TrackRank]) -> (r:
        u8)
        ensures
            r == capped(last_self(ranks_view(snapshot@), session_id, snapshot@.len())),
    {
        let ghost view = ranks_view(snapshot@);
        let mut last: usize = 0;
        let mut k: usize = 0;
        while k < snapshot.len()
            invariant
                k <= snapshot@.len(),
                view == ranks_view(snapshot@),
                last == last_self(view, session_id, k as nat),
            decreases snapshot@.len() - k,
        {
            assert(view[k as int] == snapshot@[k as int]@);
            if snapshot[k].publisher_session_id == session_id {
                last = k;
            }
            k += 1;
        }
        if last > 255 {
            255
        } else {
            last as u8
        }
    }

    /// The position of a track in the snapshot.
    pub fn find_track_position(&self, namespace: &TrackNamespace, track_name: &String) -> (r:
        Option<usize>)
        ensures
            match r {
                Some(p) => find_track(
                    self.snapshot(),
                    namespace@,
                    track_name@,
                    self.snapshot().len(),
                ) == Some(p as int),
                None => find_track(
                    self.snapshot(),
                    namespace@,
                    track_name@,
                    self.snapshot().len(),
                ) is None,
            },
    {
        position_of(&self.snapshot, namespace, track_name)
    }

    /// Removes the tracks that are stale. Returns how many there were.
    pub fn sweep_stale(&mut self, now_ms: u64) -> (removed: usize)
        requires
            old(self).wf(),
        ensures
            final(self).wf(),
            ({
                let kept = fresh_tracks(
                    old(self)@.tracks,
                    old(self)@.config.staleness_timeout_ms,
                    now_ms,
                    old(self)@.tracks.len(),
                );
                &&& removed == old(self)@.tracks.len() - kept.len()
                &&& if removed == 0 {
                    final(self)@ == old(self)@
                } else {
                    old(self)@.remade(kept, now_ms, final(self)@)
                }
            }),
    {
        let ghost before = self.tracks();
        let timeout = self.config.staleness_timeout_ms;
        let mut kept: Vec<TrackRank> = Vec::new();
        assert(ranks_view(kept@) =~= Seq::empty());
        let mut i: usize = 0;
        while i < self.tracks.len()
            invariant
                i <= self.tracks@.len(),
                before == ranks_view(self.tracks@),
                kept@.len() <= i,
                ranks_view(kept@) == fresh_tracks(before, timeout, now_ms, i as nat),
            decreases self.tracks@.len() - i,
        {
            let track = &self.tracks[i];
            assert(before[i as int] == track@);
            if track.fresh(timeout, now_ms) {
                let ghost so_far = ranks_view(kept@);
                kept.push(track.clone());
                assert(ranks_view(kept@) =~= so_far.push(track@));
            }
            i += 1;
        }
        let removed: usize = self.tracks.len() - kept.len();
        assert(ranks_view(kept@).len() == kept@.len());
        proof {
            lemma_fresh_tracks_distinct(before, timeout, now_ms, before.len());
            if removed == 0 {
                lemma_none_stale(before, timeout, now_ms, before.len());
            }
        }
        if removed > 0 {
            self.tracks = kept;
            self.max_x = compute_max_x(&self.tracks);
            self.rebuild_snapshot(now_ms);
        }
        removed
    }
}

/// Where as many tracks are kept as there were, they are the same.
proof fn lemma_none_stale(
    tracks: Seq<TrackRankView>,
    timeout_ms: Option<u64>,
    now_ms: u64,
    n: nat,
)
    requires
        n <= tracks.len(),
    ensures
        fresh_tracks(tracks, timeout_ms, now_ms, n).len() <= n,
        fresh_tracks(tracks, timeout_ms, now_ms, n).len() == n ==> fresh_tracks(
            tracks,
            timeout_ms,
            now_ms,
            n,
        ) == tracks.subrange(0, n as int),
    decreases n,
{
    if n > 0 {
        lemma_none_stale(tracks, timeout_ms, now_ms, (n - 1) as nat);
        assert(tracks.subrange(0, n as int) =~= tracks.subrange(0, n - 1).push(tracks[n - 1]));
    } else {
        assert(tracks.subrange(0, 0) =~= Seq::empty());
    }
    if n == tracks.len() {
        assert(tracks.subrange(0, n as int) =~= tracks);
    }
}


proof fn lemma_top_n_members(snapshot: Seq<TrackRankView>, session_id: u64, n: nat, k: nat)
    requires
        k <= snapshot.len(),
    ensures
        top_n(snapshot, session_id, n, k).len() == if others_count(snapshot, session_id, k) < n {
            others_count(snapshot, session_id, k)
        } else {
            n
        },
        forall|namespace: Seq<Seq<u8>>, track_name: Seq<char>|
            top_n(snapshot, session_id, n, k).contains((namespace, track_name)) <==> exists|p: int|
                0 <= p < k && (#[trigger] snapshot[p]).is_track(namespace, track_name)
                    && snapshot[p].publisher_session_id != session_id && others_count(
                    snapshot,
                    session_id,
                    p as nat,
                ) < n,
    decreases k,
{
    lemma_published_count_bound(snapshot, session_id, k);
    if k > 0 {
        let before = top_n(snapshot, session_id, n, (k - 1) as nat);
        let after = top_n(snapshot, session_id, n, k);
        let track = snapshot[k - 1];
        lemma_top_n_members(snapshot, session_id, n, (k - 1) as nat);
        lemma_published_count_bound(snapshot, session_id, (k - 1) as nat);
        assert forall|namespace: Seq<Seq<u8>>, track_name: Seq<char>|
            after.contains((namespace, track_name)) <==> exists|p: int|
                0 <= p < k && (#[trigger] snapshot[p]).is_track(namespace, track_name)
                    && snapshot[p].publisher_session_id != session_id && others_count(
                    snapshot,
                    session_id,
                    p as nat,
                ) < n by {
            let name = (namespace, track_name);
            if after.contains(name) {
                let q = choose|q: int| 0 <= q < after.len() && after[q] == name;
                if q < before.len() {
                    assert(before[q] == name);
                    assert(before.contains(name));
                } else {
                    assert(track.is_track(namespace, track_name));
                }
            }
            if exists|p: int|
                0 <= p < k && (#[trigger] snapshot[p]).is_track(namespace, track_name)
                    && snapshot[p].publisher_session_id != session_id && others_count(
                    snapshot,
                    session_id,
                    p as nat,
                ) < n {
                let p = choose|p: int|
                    0 <= p < k && (#[trigger] snapshot[p]).is_track(namespace, track_name)
                        && snapshot[p].publisher_session_id != session_id && others_count(
                        snapshot,
                        session_id,
                        p as nat,
                    ) < n;
                if p < k - 1 {
                    assert(before.contains(name));
                    let q = choose|q: int| 0 <= q < before.len() && before[q] == name;
                    assert(after[q] == name);
                } else {
                    assert(after[before.len() as int] == name);
                }
            }
        }
    }
}

/// Both ways of asking agree: a track is in the top `n` for a session if and only if the
/// list of the session's top `n` holds it.
pub proof fn law_top_n_queries_agree(
    snapshot: Seq<TrackRankView>,
    namespace: Seq<Seq<u8>>,
    track_name: Seq<char>,
    session_id: u64,
    n: nat,
)
    ensures
        within_top(snapshot, namespace, track_name, session_id, n) <==> top_n(
            snapshot,
            session_id,
            n,
            snapshot.len(),
        ).contains((namespace, track_name)),
{
    lemma_top_n_members(snapshot, session_id, n, snapshot.len());
}

/// What is told of a session that asks names the tracks that it gets.
pub proof fn law_report_names_the_selected(
    snapshot: Seq<TrackRankView>,
    session_id: u64,
    n: nat,
    k: nat,
)
    requires
        k <= snapshot.len(),
    ensures
        top_values(snapshot, session_id, n, k).len() == top_n(snapshot, session_id, n, k).len(),
        forall|i: int|
            0 <= i < top_n(snapshot, session_id, n, k).len() ==> (#[trigger] top_values(
                snapshot,
                session_id,
                n,
                k,
            )[i]).0 == top_n(snapshot, session_id, n, k)[i].1,
    decreases k,
{
    if k > 0 {
        law_report_names_the_selected(snapshot, session_id, n, (k - 1) as nat);
    }
}

/// A session gets `n` tracks where other sessions have that many in the snapshot, and all
/// of those otherwise.
pub proof fn law_top_n_length(snapshot: Seq<TrackRankView>, session_id: u64, n: nat)
    ensures
        top_n(snapshot, session_id, n, snapshot.len()).len() == if others_count(
            snapshot,
            session_id,
            snapshot.len(),
        ) < n {
            others_count(snapshot, session_id, snapshot.len())
        } else {
            n
        },
{
    lemma_top_n_members(snapshot, session_id, n, snapshot.len());
}

/// A session never gets a track that only it publishes.
pub proof fn law_own_tracks_are_left_out(
    snapshot: Seq<TrackRankView>,
    namespace: Seq<Seq<u8>>,
    track_name: Seq<char>,
    session_id: u64,
    n: nat,
)
    requires
        forall|p: int|
            0 <= p < snapshot.len() && (#[trigger] snapshot[p]).is_track(namespace, track_name)
                ==> snapshot[p].publisher_session_id == session_id,
    ensures
        !within_top(snapshot, namespace, track_name, session_id, n),
        !top_n(snapshot, session_id, n, snapshot.len()).contains((namespace, track_name)),
{
    lemma_top_n_members(snapshot, session_id, n, snapshot.len());
}

/// The quick way out rules out no track that is in the top `n`.
pub proof fn law_fast_rejection_is_sound(
    snapshot: Seq<TrackRankView>,
    session_id: u64,
    n: nat,
    p: nat,
)
    requires
        p < snapshot.len(),
        snapshot[p as int].publisher_session_id != session_id,
        others_count(snapshot, session_id, p) < n,
    ensures
        !ruled_out(p, n, capped(last_self(snapshot, session_id, snapshot.len()))),
{
    lemma_published_count_bound(snapshot, session_id, p);
    lemma_published_count_bound(snapshot, session_id, snapshot.len());
    lemma_others_monotonic(snapshot, session_id, p, snapshot.len());
}

/// No track of a snapshot is outranked by one behind it, and a snapshot holds no more than
/// `max_n + max_x` tracks.
pub proof fn law_snapshot_is_ranked(
    tracks: Seq<TrackRankView>,
    config: TopNTrackerConfig,
    max_n: u8,
    max_x: u8,
    now_ms: u64,
    snapshot: Seq<TrackRankView>,
)
    requires
        is_snapshot(tracks, config, max_n, max_x, now_ms, snapshot),
    ensures
        snapshot.len() <= max_n + max_x,
        forall|j: int, k: int|
            0 <= j < k < snapshot.len() ==> !(#[trigger] snapshot[k]).outranks(
                #[trigger] snapshot[j],
                config.tie_break_policy,
            ),
{
    if max_n > 0 {
        let order = choose|order: Seq<int>| #[trigger]
            is_ranking(tracks, config, now_ms, order, tracks.len() as int) && snapshot == leading(
                tracks,
                order,
                max_n + max_x,
            );
        assert forall|j: int, k: int| 0 <= j < k < snapshot.len() implies !(
        #[trigger] snapshot[k]).outranks(#[trigger] snapshot[j], config.tie_break_policy) by {
            assert(ranked_before(tracks, config.tie_break_policy, order[j], order[k]));
        }
    }
}

proof fn lemma_top_n_prefix(
    a: Seq<TrackRankView>,
    b: Seq<TrackRankView>,
    session_id: u64,
    n: nat,
    k: nat,
)
    requires
        k <= a.len(),
        k <= b.len(),
        forall|i: int| 0 <= i < k ==> #[trigger] a[i] == b[i],
    ensures
        top_n(a, session_id, n, k) == top_n(b, session_id, n, k),
        published_count(a, session_id, k) == published_count(b, session_id, k),
    decreases k,
{
    if k > 0 {
        lemma_top_n_prefix(a, b, session_id, n, (k - 1) as nat);
        assert(a[k - 1] == b[k - 1]);
    }
}

proof fn lemma_top_n_full(snapshot: Seq<TrackRankView>, session_id: u64, n: nat, m: nat, k: nat)
    requires
        m <= k <= snapshot.len(),
        top_n(snapshot, session_id, n, m).len() >= n,
    ensures
        top_n(snapshot, session_id, n, k) == top_n(snapshot, session_id, n, m),
    decreases k,
{
    if m < k {
        lemma_top_n_full(snapshot, session_id, n, m, (k - 1) as nat);
    }
}

/// The size of the snapshot suffices: a session that publishes at most `max_x` tracks and
/// asks for at most `max_n` gets from the snapshot what it would get from all tracks.
pub proof fn law_snapshot_size_suffices(
    tracks: Seq<TrackRankView>,
    order: Seq<int>,
    max_n: u8,
    max_x: u8,
    session_id: u64,
    n: nat,
)
    requires
        n <= max_n,
        published_count(leading(tracks, order, order.len() as int), session_id, order.len())
            <= max_x,
    ensures
        ({
            let all = leading(tracks, order, order.len() as int);
            let snapshot = leading(tracks, order, max_n + max_x);
            top_n(snapshot, session_id, n, snapshot.len()) == top_n(
                all,
                session_id,
                n,
                all.len(),
            )
        }),
{
    let all = leading(tracks, order, order.len() as int);
    let snapshot = leading(tracks, order, max_n + max_x);
    let size = snapshot.len();
    lemma_top_n_prefix(snapshot, all, session_id, n, size);
    if size < all.len() {
        lemma_others_monotonic(all, session_id, size, all.len());
        lemma_published_count_bound(all, session_id, size);
        lemma_top_n_members(all, session_id, n, size);
        lemma_top_n_full(all, session_id, n, size, all.len());
    }
}

/// Every tracker holds each track once.
pub proof fn law_tracks_are_distinct(tracker: TopNTracker, i: int, j: int)
    requires
        tracker.wf(),
        0 <= i < j < tracker.tracks().len(),
    ensures
        !tracker.tracks()[i].is_track(
            tracker.tracks()[j].namespace,
            tracker.tracks()[j].track_name,
        ),
{
}

proof fn lemma_find_track_only(
    tracks: Seq<TrackRankView>,
    namespace: Seq<Seq<u8>>,
    track_name: Seq<char>,
    k: int,
    n: nat,
)
    requires
        k < n <= tracks.len(),
        0 <= k,
        tracks[k].namespace == namespace,
        tracks[k].track_name == track_name,
        forall|j: int|
            0 <= j < tracks.len() && (#[trigger] tracks[j]).namespace == namespace
                && tracks[j].track_name == track_name ==> j == k,
    ensures
        find_track(tracks, namespace, track_name, n) == Some(k),
    decreases n,
{
    if n > k + 1 {
        lemma_find_track_only(tracks, namespace, track_name, k, (n - 1) as nat);
    } else {
        lemma_find_track_none(tracks, namespace, track_name, k as nat);
    }
}

proof fn lemma_find_track_none(
    tracks: Seq<TrackRankView>,
    namespace: Seq<Seq<u8>>,
    track_name: Seq<char>,
    n: nat,
)
    requires
        n <= tracks.len(),
        forall|j: int|
            0 <= j < n ==> (#[trigger] tracks[j]).namespace != namespace || tracks[j].track_name
                != track_name,
    ensures
        find_track(tracks, namespace, track_name, n) is None,
    decreases n,
{
    if n > 0 {
        lemma_find_track_none(tracks, namespace, track_name, (n - 1) as nat);
    }
}

/// A new value of a track replaces the one that is held, with the time of it, and leaves the other
/// tracks alone. If it is another value, the snapshot is made anew of the tracks as they are then.
pub proof fn law_new_value_is_held(
    before: TopNTrackerView,
    namespace: Seq<Seq<u8>>,
    track_name: Seq<char>,
    new_value: u64,
    now_ms: u64,
    after: TopNTrackerView,
    k: int,
)
    requires
        before.updates(namespace, track_name, new_value, now_ms, after),
        0 <= k < before.tracks.len(),
        before.tracks[k].namespace == namespace,
        before.tracks[k].track_name == track_name,
        forall|j: int|
            0 <= j < before.tracks.len() && (#[trigger] before.tracks[j]).namespace == namespace
                && before.tracks[j].track_name == track_name ==> j == k,
    ensures
        after.tracks.len() == before.tracks.len(),
        after.tracks[k].property_value == new_value,
        after.tracks[k].last_update_ms == now_ms,
        after.tracks[k].namespace == namespace,
        after.tracks[k].track_name == track_name,
        after.tracks[k].arrival_seq == before.tracks[k].arrival_seq,
        after.tracks[k].publisher_session_id == before.tracks[k].publisher_session_id,
        forall|j: int|
            0 <= j < before.tracks.len() && j != k ==> #[trigger] after.tracks[j]
                == before.tracks[j],
        before.tracks[k].property_value != new_value ==> is_snapshot(
            after.tracks,
            before.config,
            before.max_n,
            max_x_of(after.tracks),
            now_ms,
            after.snapshot,
        ),
        before.tracks[k].property_value == new_value ==> after.snapshot == before.snapshot,
        after.max_n == before.max_n,
        after.config == before.config,
        after.property_type == before.property_type,
        after.next_seq == before.next_seq,
{
    lemma_find_track_only(before.tracks, namespace, track_name, k, before.tracks.len());
}

/// A track that was not held is held after its registration, behind the others, and the snapshot is
/// made anew. One that was held stays as it was.
pub proof fn law_registered_track_is_held(
    before: TopNTrackerView,
    namespace: Seq<Seq<u8>>,
    track_name: Seq<char>,
    property_value: u64,
    publisher_session_id: u64,
    now_ms: u64,
    after: TopNTrackerView,
)
    requires
        before.registers(
            namespace,
            track_name,
            property_value,
            publisher_session_id,
            now_ms,
            after,
        ),
    ensures
        ({
            let held = exists|j: int|
                0 <= j < before.tracks.len() && (#[trigger] before.tracks[j]).namespace == namespace
                    && before.tracks[j].track_name == track_name;
            &&& held ==> after.tracks == before.tracks && after.snapshot == before.snapshot
            &&& !held ==> {
                let last = after.tracks.last();
                &&& after.tracks.len() == before.tracks.len() + 1
                &&& after.tracks.drop_last() == before.tracks
                &&& last.namespace == namespace
                &&& last.track_name == track_name
                &&& last.property_value == property_value
                &&& last.publisher_session_id == publisher_session_id
                &&& last.last_update_ms == now_ms
                &&& last.arrival_seq == before.next_seq
                &&& is_snapshot(
                    after.tracks,
                    before.config,
                    before.max_n,
                    max_x_of(after.tracks),
                    now_ms,
                    after.snapshot,
                )
            }
            &&& before.next_seq < u64::MAX ==> after.next_seq == before.next_seq + 1
            &&& after.max_n == before.max_n
            &&& after.config == before.config
            &&& after.property_type == before.property_type
        }),
{
    let held = exists|j: int|
        0 <= j < before.tracks.len() && (#[trigger] before.tracks[j]).namespace == namespace
            && before.tracks[j].track_name == track_name;
    if held {
        lemma_find_track_some(before.tracks, namespace, track_name, before.tracks.len());
    } else {
        lemma_find_track_none(before.tracks, namespace, track_name, before.tracks.len());
        assert(after.tracks.drop_last() =~= before.tracks);
    }
}

proof fn lemma_find_track_some(
    tracks: Seq<TrackRankView>,
    namespace: Seq<Seq<u8>>,
    track_name: Seq<char>,
    n: nat,
)
    requires
        n <= tracks.len(),
        exists|j: int|
            0 <= j < n && (#[trigger] tracks[j]).namespace == namespace && tracks[j].track_name
                == track_name,
    ensures
        find_track(tracks, namespace, track_name, n) matches Some(i) && 0 <= i < n
            && tracks[i].namespace == namespace && tracks[i].track_name == track_name,
    decreases n,
{
    let j = choose|j: int|
        0 <= j < n && (#[trigger] tracks[j]).namespace == namespace && tracks[j].track_name
            == track_name;
    if j < n - 1 {
        assert(tracks[j].namespace == namespace);
        lemma_find_track_some(tracks, namespace, track_name, (n - 1) as nat);
    } else if find_track(tracks, namespace, track_name, (n - 1) as nat) is Some {
        if exists|i: int|
            0 <= i < n - 1 && (#[trigger] tracks[i]).namespace == namespace && tracks[i].track_name
                == track_name {
            lemma_find_track_some(tracks, namespace, track_name, (n - 1) as nat);
        } else {
            lemma_find_track_none(tracks, namespace, track_name, (n - 1) as nat);
        }
    }
}

/// A track that is removed is not held any more, the others are, and the snapshot is made anew.
pub proof fn law_removed_track_is_gone(
    before: TopNTrackerView,
    namespace: Seq<Seq<u8>>,
    track_name: Seq<char>,
    now_ms: u64,
    after: TopNTrackerView,
    k: int,
)
    requires
        before.removes(namespace, track_name, now_ms, after),
        0 <= k < before.tracks.len(),
        before.tracks[k].namespace == namespace,
        before.tracks[k].track_name == track_name,
        forall|j: int|
            0 <= j < before.tracks.len() && (#[trigger] before.tracks[j]).namespace == namespace
                && before.tracks[j].track_name == track_name ==> j == k,
    ensures
        after.tracks == before.tracks.take(k) + before.tracks.skip(k + 1),
        forall|j: int|
            0 <= j < after.tracks.len() ==> (#[trigger] after.tracks[j]).namespace != namespace
                || after.tracks[j].track_name != track_name,
        is_snapshot(
            after.tracks,
            before.config,
            before.max_n,
            max_x_of(after.tracks),
            now_ms,
            after.snapshot,
        ),
{
    lemma_find_track_only(before.tracks, namespace, track_name, k, before.tracks.len());
    assert(after.tracks =~= before.tracks.take(k) + before.tracks.skip(k + 1));
    assert forall|j: int| 0 <= j < after.tracks.len() implies (#[trigger] after.tracks[j]).namespace
        != namespace || after.tracks[j].track_name != track_name by {
        if j < k {
            assert(after.tracks[j] == before.tracks[j]);
        } else {
            assert(after.tracks[j] == before.tracks[j + 1]);
        }
    }
}

/// A higher value ranks higher. Of equal values, the one that arrived first does, or the one that
/// was updated last, as the policy has it.
pub proof fn law_higher_values_rank_higher(a: TrackRankView, b: TrackRankView)
    ensures
        a.property_value > b.property_value ==> a.outranks(b, TieBreakPolicy::OldestWins)
            && a.outranks(b, TieBreakPolicy::MostRecentWins),
        a.property_value < b.property_value ==> !a.outranks(b, TieBreakPolicy::OldestWins)
            && !a.outranks(b, TieBreakPolicy::MostRecentWins),
        a.property_value == b.property_value ==> (a.outranks(b, TieBreakPolicy::OldestWins) <==>
            a.arrival_seq < b.arrival_seq) && (a.outranks(b, TieBreakPolicy::MostRecentWins) <==>
            a.last_update_ms > b.last_update_ms),
{
}

/// A snapshot holds tracks that are not stale and not outranked by one that it leaves out. It leaves
/// out none as long as there is room.
pub proof fn law_snapshot_holds_the_best(
    tracks: Seq<TrackRankView>,
    config: TopNTrackerConfig,
    max_n: u8,
    max_x: u8,
    now_ms: u64,
    snapshot: Seq<TrackRankView>,
    i: int,
)
    requires
        max_n > 0,
        is_snapshot(tracks, config, max_n, max_x, now_ms, snapshot),
        0 <= i < tracks.len(),
        config.staleness_timeout_ms matches Some(timeout) ==> now_ms
            < tracks[i].last_update_ms + timeout && 0 < timeout,
    ensures
        snapshot.contains(tracks[i]) || (snapshot.len() == max_n + max_x && forall|k: int|
            0 <= k < snapshot.len() ==> !tracks[i].outranks(
                #[trigger] snapshot[k],
                config.tie_break_policy,
            )),
{
    let order = choose|order: Seq<int>| #[trigger]
        is_ranking(tracks, config, now_ms, order, tracks.len() as int) && snapshot == leading(
            tracks,
            order,
            max_n + max_x,
        );
    assert(tracks[i].fresh(config.staleness_timeout_ms, now_ms));
    let p = choose|p: int| 0 <= p < order.len() && order[p] == i;
    if p < snapshot.len() {
        assert(snapshot[p] == tracks[i]);
    } else {
        assert forall|k: int| 0 <= k < snapshot.len() implies !tracks[i].outranks(
            #[trigger] snapshot[k],
            config.tie_break_policy,
        ) by {
            assert(ranked_before(tracks, config.tie_break_policy, order[k], order[p]));
        }
    }
}

/// Every track of a snapshot is one of the tracks, and was updated less than the timeout ago.
pub proof fn law_snapshot_holds_no_stale_tracks(
    tracks: Seq<TrackRankView>,
    config: TopNTrackerConfig,
    max_n: u8,
    max_x: u8,
    now_ms: u64,
    snapshot: Seq<TrackRankView>,
    k: int,
)
    requires
        is_snapshot(tracks, config, max_n, max_x, now_ms, snapshot),
        0 <= k < snapshot.len(),
    ensures
        tracks.contains(snapshot[k]),
        config.staleness_timeout_ms matches Some(timeout) ==> now_ms < snapshot[k].last_update_ms
            + timeout,
{
    let order = choose|order: Seq<int>| #[trigger]
        is_ranking(tracks, config, now_ms, order, tracks.len() as int) && snapshot == leading(
            tracks,
            order,
            max_n + max_x,
        );
    assert(snapshot[k] == tracks[order[k]]);
}

/// The highest-ranking track of another session is in the top of everybody who asks for at least
/// one.
pub proof fn law_first_of_others_is_in_the_top(
    snapshot: Seq<TrackRankView>,
    session_id: u64,
    n: nat,
    p: int,
)
    requires
        n > 0,
        0 <= p < snapshot.len(),
        snapshot[p].publisher_session_id != session_id,
        forall|q: int|
            0 <= q < p ==> (#[trigger] snapshot[q]).publisher_session_id == session_id,
    ensures
        within_top(snapshot, snapshot[p].namespace, snapshot[p].track_name, session_id, n),
        top_n(snapshot, session_id, n, snapshot.len()).len() > 0,
        top_n(snapshot, session_id, n, snapshot.len())[0] == (
            snapshot[p].namespace,
            snapshot[p].track_name,
        ),
{
    lemma_own_head(snapshot, session_id, n, p as nat);
    assert(snapshot[p].is_track(snapshot[p].namespace, snapshot[p].track_name));
    lemma_top_n_first(snapshot, session_id, n, p as nat, snapshot.len());
}

proof fn lemma_own_head(snapshot: Seq<TrackRankView>, session_id: u64, n: nat, p: nat)
    requires
        p <= snapshot.len(),
        forall|q: int|
            0 <= q < p ==> (#[trigger] snapshot[q]).publisher_session_id == session_id,
    ensures
        published_count(snapshot, session_id, p) == p,
        top_n(snapshot, session_id, n, p).len() == 0,
    decreases p,
{
    if p > 0 {
        lemma_own_head(snapshot, session_id, n, (p - 1) as nat);
    }
}

proof fn lemma_top_n_first(
    snapshot: Seq<TrackRankView>,
    session_id: u64,
    n: nat,
    p: nat,
    k: nat,
)
    requires
        n > 0,
        p < k <= snapshot.len(),
        snapshot[p as int].publisher_session_id != session_id,
        top_n(snapshot, session_id, n, p).len() == 0,
    ensures
        top_n(snapshot, session_id, n, k).len() > 0,
        top_n(snapshot, session_id, n, k)[0] == (
            snapshot[p as int].namespace,
            snapshot[p as int].track_name,
        ),
    decreases k,
{
    if p + 1 < k {
        lemma_top_n_first(snapshot, session_id, n, p, (k - 1) as nat);
    }
}

/// What a session gets holds tracks of other sessions alone, in the order of the snapshot.
pub proof fn law_top_n_is_in_order(
    snapshot: Seq<TrackRankView>,
    session_id: u64,
    n: nat,
    k: nat,
) -> (at: Seq<int>)
    requires
        k <= snapshot.len(),
    ensures
        at.len() == top_n(snapshot, session_id, n, k).len(),
        at.len() <= n,
        forall|i: int|
            0 <= i < at.len() ==> 0 <= #[trigger] at[i] < k
                && snapshot[at[i]].publisher_session_id != session_id && top_n(
                snapshot,
                session_id,
                n,
                k,
            )[i] == (snapshot[at[i]].namespace, snapshot[at[i]].track_name),
        forall|i: int, j: int| 0 <= i < j < at.len() ==> #[trigger] at[i] < #[trigger] at[j],
    decreases k,
{
    if k == 0 {
        seq![]
    } else {
        let before = law_top_n_is_in_order(snapshot, session_id, n, (k - 1) as nat);
        if before.len() < n && snapshot[k - 1].publisher_session_id != session_id {
            before.push(k - 1)
        } else {
            before
        }
    }
}

proof fn lemma_find_track_at(
    tracks: Seq<TrackRankView>,
    namespace: Seq<Seq<u8>>,
    track_name: Seq<char>,
)
    ensures
        find_track(tracks, namespace, track_name, tracks.len()) is Some <==> exists|j: int|
            0 <= j < tracks.len() && (#[trigger] tracks[j]).namespace == namespace
                && tracks[j].track_name == track_name,
{
    if exists|j: int|
        0 <= j < tracks.len() && (#[trigger] tracks[j]).namespace == namespace
            && tracks[j].track_name == track_name {
        lemma_find_track_some(tracks, namespace, track_name, tracks.len());
    } else {
        lemma_find_track_none(tracks, namespace, track_name, tracks.len());
    }
}

/// With logging, the registration of a new track and the new value of a track that is held are told
/// of; without it nothing is.
pub proof fn law_changes_are_told(
    tracker: TopNTrackerView,
    namespace: Seq<Seq<u8>>,
    track_name: Seq<char>,
    value: u64,
    session_id: u64,
)
    ensures
        ({
            let held = exists|j: int|
                0 <= j < tracker.tracks.len() && (#[trigger] tracker.tracks[j]).namespace
                    == namespace && tracker.tracks[j].track_name == track_name;
            &&& tracker.registration(namespace, track_name, value, session_id) == (
            if tracker.event_logging && !held {
                Some(TrackEvent::Registered { value, publisher_id: session_id })
            } else {
                None
            })
            &&& tracker.removal(namespace, track_name) is Some <==> tracker.event_logging && held
            &&& tracker.value_change(namespace, track_name, value) is Some ==>
                tracker.event_logging && held
            &&& tracker.value_change(namespace, track_name, value) matches Some(
                TrackEvent::ValueUpdated { old_value, new_value, publisher_id },
            ) ==> new_value == value && old_value != value
        }),
{
    lemma_find_track_at(tracker.tracks, namespace, track_name);
}

proof fn lemma_published_filter(tracks: Seq<TrackRankView>, session_id: u64, n: nat)
    requires
        n <= tracks.len(),
    ensures
        published_count(tracks, session_id, n) == tracks.take(n as int).filter(
            |t: TrackRankView| t.publisher_session_id == session_id,
        ).len(),
    decreases n,
{
    let own = |t: TrackRankView| t.publisher_session_id == session_id;
    reveal(Seq::filter);
    if n > 0 {
        lemma_published_filter(tracks, session_id, (n - 1) as nat);
        assert(tracks.take(n as int).drop_last() =~= tracks.take(n - 1));
        assert(tracks.take(n as int).last() == tracks[n - 1]);
    }
}

proof fn lemma_largest_count(tracks: Seq<TrackRankView>, n: nat)
    requires
        n <= tracks.len(),
    ensures
        forall|i: int|
            0 <= i < n ==> published_count(
                tracks,
                (#[trigger] tracks[i]).publisher_session_id,
                tracks.len(),
            ) <= largest_count(tracks, n),
        n > 0 ==> exists|i: int|
            0 <= i < n && published_count(
                tracks,
                (#[trigger] tracks[i]).publisher_session_id,
                tracks.len(),
            ) == largest_count(tracks, n),
    decreases n,
{
    if n > 0 {
        lemma_largest_count(tracks, (n - 1) as nat);
        let count = published_count(tracks, tracks[n - 1].publisher_session_id, tracks.len());
        assert(count <= largest_count(tracks, n));
        if count != largest_count(tracks, n) {
            let i = choose|i: int|
                0 <= i < n - 1 && published_count(
                    tracks,
                    (#[trigger] tracks[i]).publisher_session_id,
                    tracks.len(),
                ) == largest_count(tracks, (n - 1) as nat);
            assert(published_count(tracks, tracks[i].publisher_session_id, tracks.len())
                == largest_count(tracks, n));
        }
    }
}

/// Room is made in a snapshot for the tracks of each publisher, as far as a byte can count them: no
/// publisher has more, and one has as many.
pub proof fn law_room_suffices_for_every_publisher(tracks: Seq<TrackRankView>, session_id: u64)
    ensures
        ({
            let own = tracks.filter(|t: TrackRankView| t.publisher_session_id == session_id).len();
            own <= max_x_of(tracks) || max_x_of(tracks) == 255
        }),
        0 < max_x_of(tracks) < 255 ==> exists|i: int|
            0 <= i < tracks.len() && max_x_of(tracks) == tracks.filter(
                |t: TrackRankView|
                    t.publisher_session_id == (#[trigger] tracks[i]).publisher_session_id,
            ).len(),
{
    lemma_published_filter(tracks, session_id, tracks.len());
    lemma_largest_count(tracks, tracks.len());
    assert(tracks.take(tracks.len() as int) =~= tracks);
    let own = tracks.filter(|t: TrackRankView| t.publisher_session_id == session_id);
    if own.len() > 0 {
        lemma_some_published(tracks, session_id, tracks.len());
    }
    if 0 < max_x_of(tracks) < 255 {
        let i = choose|i: int|
            0 <= i < tracks.len() && published_count(
                tracks,
                (#[trigger] tracks[i]).publisher_session_id,
                tracks.len(),
            ) == largest_count(tracks, tracks.len());
        lemma_published_filter(tracks, tracks[i].publisher_session_id, tracks.len());
        assert(tracks[i] == tracks[i]);
    }
}

proof fn lemma_some_published(tracks: Seq<TrackRankView>, session_id: u64, n: nat)
    requires
        n <= tracks.len(),
        published_count(tracks, session_id, n) > 0,
    ensures
        exists|i: int| 0 <= i < n && (#[trigger] tracks[i]).publisher_session_id == session_id,
    decreases n,
{
    if tracks[n - 1].publisher_session_id != session_id {
        lemma_some_published(tracks, session_id, (n - 1) as nat);
    }
}

/// A change of the value of a track is told with both values and its publisher, and its end with
/// its publisher, wherever events are logged. The same value again is not told.
pub proof fn law_events_tell_of_the_track(
    tracker: TopNTrackerView,
    namespace: Seq<Seq<u8>>,
    track_name: Seq<char>,
    value: u64,
    i: int,
)
    requires
        0 <= i < tracker.tracks.len(),
        tracker.tracks[i].namespace == namespace,
        tracker.tracks[i].track_name == track_name,
        forall|j: int|
            0 <= j < i ==> (#[trigger] tracker.tracks[j]).namespace != namespace
                || tracker.tracks[j].track_name != track_name,
    ensures
        tracker.value_change(namespace, track_name, value) == (if tracker.event_logging
            && tracker.tracks[i].property_value != value {
            Some(
                TrackEvent::ValueUpdated {
                    old_value: tracker.tracks[i].property_value,
                    new_value: value,
                    publisher_id: tracker.tracks[i].publisher_session_id,
                },
            )
        } else {
            None
        }),
        tracker.removal(namespace, track_name) == (if tracker.event_logging {
            Some(
                TrackEvent::Removed { publisher_id: tracker.tracks[i].publisher_session_id },
            )
        } else {
            None
        }),
{
    lemma_find_track(tracker.tracks, namespace, track_name, tracker.tracks.len());
    let found = tracker.position(namespace, track_name);
    assert(tracker.tracks[i].is_track(namespace, track_name));
    assert(found == Some(i));
}

/// A subscriber that publishes nothing in the ranking is not passed over, and one that leads it is
/// as soon as it asks for a track.
pub proof fn law_own_tracks_are_passed_over(
    snapshot: Seq<TrackRankView>,
    session_id: u64,
    n: nat,
    k: nat,
)
    requires
        k <= snapshot.len(),
    ensures
        (forall|p: int|
            0 <= p < k ==> (#[trigger] snapshot[p]).publisher_session_id != session_id)
            ==> !passes_over_own(snapshot, session_id, n, k),
        k > 0 && n > 0 && snapshot[0].publisher_session_id == session_id ==> passes_over_own(
            snapshot,
            session_id,
            n,
            k,
        ),
{
    if k > 0 && n > 0 && snapshot[0].publisher_session_id == session_id {
        assert(top_values(snapshot, session_id, n, 0).len() == 0);
    }
}

/// Unless told otherwise, the older one of two tracks with the same value ranks higher, no track
/// becomes stale, and no events are logged.
pub proof fn law_standard_ranking_prefers_the_older()
    ensures
        TopNTrackerConfig::standard().tie_break_policy == TieBreakPolicy::OldestWins,
        TopNTrackerConfig::standard().staleness_timeout_ms is None,
        !TopNTrackerConfig::standard().enable_event_logging,
{
}

/// Another largest number of tracks keeps the tracks and makes the snapshot anew for it. The same
/// number changes nothing.
pub proof fn law_resizing_keeps_the_tracks(
    tracker: TopNTrackerView,
    max_n: u8,
    now_ms: u64,
    after: TopNTrackerView,
)
    requires
        tracker.resizes(max_n, now_ms, after),
    ensures
        after.max_n == max_n,
        after.tracks == tracker.tracks,
        after.config == tracker.config && after.next_seq == tracker.next_seq
            && after.event_logging == tracker.event_logging,
        max_n == tracker.max_n ==> after == tracker,
        max_n != tracker.max_n ==> is_snapshot(
            tracker.tracks,
            tracker.config,
            max_n,
            max_x_of(tracker.tracks),
            now_ms,
            after.snapshot,
        ),
{
}

} // verus!
