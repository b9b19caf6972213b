//! Dynamic track switching: choosing one track per switching set by bandwidth.
//!
//! Each subscriber can have several switching sets, each holding tracks that are
//! time-aligned at different bitrates. At most one track of a set is selected.
//!
//! 1. Active sets are visited by rank, the lowest rank first.
//! 2. The target of a set is `bandwidth * fraction / sum of fractions`.
//! 3. The set is given `min(target, bandwidth that remains)`.
//! 4. The track of the highest throughput that fits is selected.
//! 5. Its throughput is taken off the bandwidth that remains.

use std::collections::HashMap;
use vstd::prelude::*;
use crate::namespace::TrackNamespace;

verus! {

broadcast use vstd::std_specs::hash::group_hash_axioms;

/// A track within a switching set.
#[derive(Debug)]
pub struct DtsTrack {
    pub namespace: TrackNamespace,
    pub track_name: String,
    pub throughput_kbps: u64,
    pub subscription_id: u64,
}

/// The contents of a [`DtsTrack`].
#[verifier::ext_equal]
pub struct DtsTrackView {
    pub namespace: Seq<Seq<u8>>,
    pub track_name: Seq<char>,
    pub throughput_kbps: u64,
    pub subscription_id: u64,
}

impl View for DtsTrack {
    type V = DtsTrackView;

    open spec fn view(&self) -> DtsTrackView {
        DtsTrackView {
            namespace: self.namespace@,
            track_name: self.track_name@,
            throughput_kbps: self.throughput_kbps,
            subscription_id: self.subscription_id,
        }
    }
}

impl Clone for DtsTrack {
    fn clone(&self) -> (r: Self)
        ensures
            r@ == self@,
    {
        DtsTrack {
            namespace: self.namespace.clone(),
            track_name: self.track_name.clone(),
            throughput_kbps: self.throughput_kbps,
            subscription_id: self.subscription_id,
        }
    }
}

/// The switching-set parameter of a subscription.
#[derive(Clone, Copy, Debug, PartialEq, Eq, Structural)]
pub struct SwitchingSetAssignment {
    pub set_id: u64,
    pub throughput_kbps: u64,
    pub fraction: u64,
    pub activate: bool,
    pub rank: Option<u8>,
}

impl SwitchingSetAssignment {
    /// An assignment with a fraction of 1 that does not activate its set.
    pub fn new(set_id: u64, throughput_kbps: u64) -> (r: Self)
        ensures
            r == (SwitchingSetAssignment {
                set_id,
                throughput_kbps,
                fraction: 1,
                activate: false,
                rank: None,
            }),
    {
        SwitchingSetAssignment { set_id, throughput_kbps, fraction: 1, activate: false, rank: None }
    }

    pub fn with_fraction(self, fraction: u64) -> (r: Self)
        ensures
            r == (SwitchingSetAssignment { fraction, ..self }),
    {
        SwitchingSetAssignment { fraction, ..self }
    }

    pub fn with_activate(self, activate: bool) -> (r: Self)
        ensures
            r == (SwitchingSetAssignment { activate, ..self }),
    {
        SwitchingSetAssignment { activate, ..self }
    }

    pub fn with_rank(self, rank: u8) -> (r: Self)
        ensures
            r == (SwitchingSetAssignment { rank: Some(rank), ..self }),
    {
        SwitchingSetAssignment { rank: Some(rank), ..self }
    }

    /// The rank that applies: the one given, 0 where none is.
    pub open spec fn rank_or_default(self) -> u8 {
        match self.rank {
            Some(rank) => rank,
            None => 0,
        }
    }

    /// The rank that applies: the one given, 0 where none is.
    pub fn effective_rank(&self) -> (r: u8)
        ensures
            r == self.rank_or_default(),
    {
        match self.rank {
            Some(rank) => rank,
            None => 0,
        }
    }
}

/// A switching set: tracks of one content at different bitrates.
#[derive(Debug)]
pub struct SwitchingSet {
    pub set_id: u64,
    pub fraction: u64,
    pub rank: u8,
    /// Tracks by throughput, the highest first.
    pub tracks: Vec<DtsTrack>,
    /// Index of the selected track, if one is selected.
    pub selected_track: Option<usize>,
    /// Whether the set takes part in selection.
    pub active: bool,
    /// When the selection was last computed, in milliseconds.
    pub last_update_ms: u64,
}

/// The contents of a [`SwitchingSet`].
#[verifier::ext_equal]
pub struct SwitchingSetView {
    pub set_id: u64,
    pub fraction: u64,
    pub rank: u8,
    pub tracks: Seq<DtsTrackView>,
    pub selected_track: Option<int>,
    pub active: bool,
    pub last_update_ms: u64,
}

/// The contents of a list of tracks.
pub open spec fn tracks_view(tracks: Seq<DtsTrack>) -> Seq<DtsTrackView> {
    tracks.map_values(|t: DtsTrack| t@)
}

pub open spec fn index_view(index: Option<usize>) -> Option<int> {
    match index {
        Some(i) => Some(i as int),
        None => None,
    }
}

impl View for SwitchingSet {
    type V = SwitchingSetView;

    open spec fn view(&self) -> SwitchingSetView {
        SwitchingSetView {
            set_id: self.set_id,
            fraction: self.fraction,
            rank: self.rank,
            tracks: tracks_view(self.tracks@),
            selected_track: index_view(self.selected_track),
            active: self.active,
            last_update_ms: self.last_update_ms,
        }
    }
}

/// Index of the first of the first `n` tracks whose throughput is at most `kbps`.
pub open spec fn first_fit(tracks: Seq<DtsTrackView>, kbps: int, n: nat) -> Option<int>
    decreases n,
{
    if n == 0 {
        None
    } else {
        match first_fit(tracks, kbps, (n - 1) as nat) {
            Some(i) => Some(i),
            None => if tracks[n - 1].throughput_kbps <= kbps {
                Some(n - 1)
            } else {
                None
            },
        }
    }
}

/// Index of the first of the first `n` tracks that carries `subscription_id`.
pub open spec fn first_with_id(tracks: Seq<DtsTrackView>, subscription_id: u64, n: nat) -> Option<int>
    decreases n,
{
    if n == 0 {
        None
    } else {
        match first_with_id(tracks, subscription_id, (n - 1) as nat) {
            Some(i) => Some(i),
            None => if tracks[n - 1].subscription_id == subscription_id {
                Some(n - 1)
            } else {
                None
            },
        }
    }
}

/// The lowest throughput above `kbps` among the first `n` tracks.
pub open spec fn next_higher(tracks: Seq<DtsTrackView>, kbps: u64, n: nat) -> Option<u64>
    decreases n,
{
    if n == 0 {
        None
    } else {
        let before = next_higher(tracks, kbps, (n - 1) as nat);
        let t = tracks[n - 1].throughput_kbps;
        if t > kbps && (before is None || t < before->0) {
            Some(t)
        } else {
            before
        }
    }
}

impl SwitchingSetView {
    /// The highest throughput comes first.
    pub open spec fn sorted(self) -> bool {
        forall|i: int, j: int|
            0 <= i <= j < self.tracks.len() ==> (#[trigger] self.tracks[i]).throughput_kbps
                >= (#[trigger] self.tracks[j]).throughput_kbps
    }

    /// The tracks are sorted and the selection, if any, is one of them.
    pub open spec fn wf(self) -> bool {
        &&& self.sorted()
        &&& self.selected_track is Some ==> 0 <= self.selected_track->0 < self.tracks.len()
    }

    /// The selected track.
    pub open spec fn selected(self) -> Option<DtsTrackView> {
        match self.selected_track {
            Some(i) => if 0 <= i < self.tracks.len() {
                Some(self.tracks[i])
            } else {
                None
            },
            None => None,
        }
    }

    /// Where a track of this throughput is put: before the first that is no higher.
    pub open spec fn insert_position(self, kbps: u64) -> int {
        match first_fit(self.tracks, kbps as int, self.tracks.len()) {
            Some(i) => i,
            None => self.tracks.len() as int,
        }
    }

    /// The set with one more track.
    pub open spec fn with_track(self, track: DtsTrackView) -> SwitchingSetView {
        SwitchingSetView {
            tracks: self.tracks.insert(self.insert_position(track.throughput_kbps), track),
            ..self
        }
    }

    /// The set without the track at `pos`; the selection follows its track.
    pub open spec fn without_track_at(self, pos: int) -> SwitchingSetView {
        SwitchingSetView {
            tracks: self.tracks.remove(pos),
            selected_track: match self.selected_track {
                Some(s) => if pos < s {
                    Some(s - 1)
                } else if pos == s {
                    None
                } else {
                    Some(s)
                },
                None => None,
            },
            ..self
        }
    }

    /// The set with the selection that fits `kbps`.
    pub open spec fn selected_for(self, kbps: int, now_ms: u64) -> SwitchingSetView {
        SwitchingSetView {
            selected_track: first_fit(self.tracks, kbps, self.tracks.len()),
            last_update_ms: now_ms,
            ..self
        }
    }

    /// The selected track carries this subscription.
    pub open spec fn selects_subscription(self, subscription_id: u64) -> bool {
        match self.selected() {
            Some(t) => t.subscription_id == subscription_id,
            None => false,
        }
    }

    /// Some track of the set carries this subscription.
    pub open spec fn has_subscription(self, subscription_id: u64) -> bool {
        first_with_id(self.tracks, subscription_id, self.tracks.len()) is Some
    }
}

proof fn lemma_first_fit(tracks: Seq<DtsTrackView>, kbps: int, n: nat)
    requires
        n <= tracks.len(),
    ensures
        match first_fit(tracks, kbps, n) {
            Some(i) => 0 <= i < n && tracks[i].throughput_kbps <= kbps && forall|j: int|
                0 <= j < i ==> (#[trigger] tracks[j]).throughput_kbps > kbps,
            None => forall|j: int| 0 <= j < n ==> (#[trigger] tracks[j]).throughput_kbps > kbps,
        },
    decreases n,
{
    if n > 0 {
        lemma_first_fit(tracks, kbps, (n - 1) as nat);
    }
}

proof fn lemma_first_with_id(tracks: Seq<DtsTrackView>, id: u64, n: nat)
    requires
        n <= tracks.len(),
    ensures
        match first_with_id(tracks, id, n) {
            Some(i) => 0 <= i < n && tracks[i].subscription_id == id && forall|j: int|
                0 <= j < i ==> (#[trigger] tracks[j]).subscription_id != id,
            None => forall|j: int| 0 <= j < n ==> (#[trigger] tracks[j]).subscription_id != id,
        },
    decreases n,
{
    if n > 0 {
        lemma_first_with_id(tracks, id, (n - 1) as nat);
    }
}

/// Finding a fit among more tracks does not change a fit found among fewer.
proof fn lemma_first_fit_extends(tracks: Seq<DtsTrackView>, kbps: int, m: nat, n: nat)
    requires
        m <= n <= tracks.len(),
        first_fit(tracks, kbps, m) is Some,
    ensures
        first_fit(tracks, kbps, n) == first_fit(tracks, kbps, m),
    decreases n,
{
    if m < n {
        lemma_first_fit_extends(tracks, kbps, m, (n - 1) as nat);
    }
}

proof fn lemma_first_with_id_extends(tracks: Seq<DtsTrackView>, id: u64, m: nat, n: nat)
    requires
        m <= n <= tracks.len(),
        first_with_id(tracks, id, m) is Some,
    ensures
        first_with_id(tracks, id, n) == first_with_id(tracks, id, m),
    decreases n,
{
    if m < n {
        lemma_first_with_id_extends(tracks, id, m, (n - 1) as nat);
    }
}

/// Putting a track at its insert position keeps the order.
proof fn lemma_with_track_wf(set: SwitchingSetView, track: DtsTrackView)
    requires
        set.sorted(),
    ensures
        set.with_track(track).sorted(),
        0 <= set.insert_position(track.throughput_kbps) <= set.tracks.len(),
{
    lemma_first_fit(set.tracks, track.throughput_kbps as int, set.tracks.len());
    let p = set.insert_position(track.throughput_kbps);
    let new = set.with_track(track).tracks;
    assert forall|i: int, j: int| 0 <= i <= j < new.len() implies (#[trigger] new[i]).throughput_kbps
        >= (#[trigger] new[j]).throughput_kbps by {
        let oi = if i < p { i } else { i - 1 };
        let oj = if j < p { j } else { j - 1 };
        if i != p {
            assert(new[i] == set.tracks[oi]);
        }
        if j != p {
            assert(new[j] == set.tracks[oj]);
        }
        if i != p && j != p {
            assert(set.tracks[oi].throughput_kbps >= set.tracks[oj].throughput_kbps);
        } else if i == p && j > p {
            assert(set.tracks[p].throughput_kbps >= set.tracks[oj].throughput_kbps);
        }
    }
}

proof fn lemma_without_track_wf(set: SwitchingSetView, pos: int)
    requires
        set.wf(),
        0 <= pos < set.tracks.len(),
    ensures
        set.without_track_at(pos).wf(),
{
    let new = set.without_track_at(pos).tracks;
    assert forall|i: int, j: int| 0 <= i <= j < new.len() implies (#[trigger] new[i]).throughput_kbps
        >= (#[trigger] new[j]).throughput_kbps by {
        let oi = if i < pos { i } else { i + 1 };
        let oj = if j < pos { j } else { j + 1 };
        assert(new[i] == set.tracks[oi]);
        assert(new[j] == set.tracks[oj]);
        assert(set.tracks[oi].throughput_kbps >= set.tracks[oj].throughput_kbps);
    }
}

impl SwitchingSet {
    /// An empty, inactive set.
    pub fn new(set_id: u64, fraction: u64, rank: u8, now_ms: u64) -> (r: Self)
        ensures
            r@ == (SwitchingSetView {
                set_id,
                fraction,
                rank,
                tracks: Seq::empty(),
                selected_track: None,
                active: false,
                last_update_ms: now_ms,
            }),
            r@.wf(),
    {
        let r = SwitchingSet {
            set_id,
            fraction,
            rank,
            tracks: Vec::new(),
            selected_track: None,
            active: false,
            last_update_ms: now_ms,
        };
        assert(r@.tracks =~= Seq::empty());
        r
    }

    /// The first track, from the front, whose throughput is at most `kbps`.
    fn position_for(&self, kbps: u64) -> (r: usize)
        requires
            self@.sorted(),
        ensures
            r == self@.insert_position(kbps),
            r <= self.tracks@.len(),
    {
        let ghost tracks = self@.tracks;
        let mut lo: usize = 0;
        let mut hi: usize = self.tracks.len();
        while lo < hi
            invariant
                lo <= hi <= self.tracks@.len(),
                tracks == self@.tracks,
                self@.sorted(),
                forall|j: int| 0 <= j < lo ==> (#[trigger] tracks[j]).throughput_kbps > kbps,
                forall|j: int|
                    hi <= j < tracks.len() ==> (#[trigger] tracks[j]).throughput_kbps <= kbps,
            decreases hi - lo,
        {
            let mid: usize = lo + (hi - lo) / 2;
            let t: u64 = self.tracks[mid].throughput_kbps;
            assert(tracks[mid as int].throughput_kbps == t);
            if t > kbps {
                lo = mid + 1;
            } else {
                hi = mid;
            }
        }
        proof {
            lemma_first_fit(tracks, kbps as int, tracks.len());
            assert(lo < tracks.len() ==> tracks[lo as int].throughput_kbps <= kbps);
        }
        lo
    }

    /// Adds a track, keeping the tracks sorted by throughput.
    pub fn add_track(&mut self, track: DtsTrack)
        requires
            old(self)@.sorted(),
        ensures
            final(self)@ == old(self)@.with_track(track@),
            final(self)@.sorted(),
            old(self)@.wf() ==> final(self)@.wf(),
    {
        proof {
            lemma_with_track_wf(self@, track@);
        }
        let pos: usize = self.position_for(track.throughput_kbps);
        let ghost before = self@;
        let ghost added = track@;
        let ghost old_tracks = self.tracks@;
        self.tracks.insert(pos, track);
        assert(self@.tracks =~= before.tracks.insert(pos as int, added));
    }

    /// The position of the track that carries this subscription.
    fn position_of(&self, subscription_id: u64) -> (r: Option<usize>)
        ensures
            index_view(r) == first_with_id(self@.tracks, subscription_id, self@.tracks.len()),
            r is Some ==> r->0 < self.tracks@.len(),
    {
        let ghost tracks = self@.tracks;
        let mut i: usize = 0;
        while i < self.tracks.len()
            invariant
                i <= self.tracks@.len(),
                tracks == self@.tracks,
                first_with_id(tracks, subscription_id, i as nat) is None,
            decreases self.tracks@.len() - i,
        {
            assert(tracks[i as int].subscription_id == self.tracks@[i as int].subscription_id);
            if self.tracks[i].subscription_id == subscription_id {
                proof {
                    lemma_first_with_id_extends(
                        tracks,
                        subscription_id,
                        (i + 1) as nat,
                        tracks.len(),
                    );
                }
                return Some(i);
            }
            i += 1;
        }
        None
    }

    /// Takes out the track at `pos`.
    fn take_at(&mut self, pos: usize) -> (r: DtsTrack)
        requires
            pos < old(self).tracks@.len(),
            old(self)@.wf(),
        ensures
            r@ == old(self)@.tracks[pos as int],
            final(self)@ == old(self)@.without_track_at(pos as int),
            final(self)@.wf(),
    {
        proof {
            lemma_without_track_wf(self@, pos as int);
        }
        let ghost before = self@;
        let track = self.tracks.remove(pos);
        if let Some(selected) = self.selected_track {
            if pos < selected {
                self.selected_track = Some(selected - 1);
            } else if pos == selected {
                self.selected_track = None;
            }
        }
        assert(self@.tracks =~= before.tracks.remove(pos as int));
        track
    }

    /// Removes the track that carries this subscription. Returns whether there was one.
    pub fn remove_track(&mut self, subscription_id: u64) -> (r: bool)
        requires
            old(self)@.wf(),
        ensures
            r == old(self)@.has_subscription(subscription_id),
            final(self)@.wf(),
            match first_with_id(old(self)@.tracks, subscription_id, old(self)@.tracks.len()) {
                Some(pos) => final(self)@ == old(self)@.without_track_at(pos),
                None => *final(self) == *old(self),
            },
    {
        match self.position_of(subscription_id) {
            Some(pos) => {
                self.take_at(pos);
                true
            },
            None => false,
        }
    }

    /// The selected track.
    pub fn selected(&self) -> (r: Option<&DtsTrack>)
        ensures
            match r {
                Some(t) => self@.selected() == Some(t@),
                None => self@.selected() is None,
            },
    {
        match self.selected_track {
            Some(i) => if i < self.tracks.len() {
                Some(&self.tracks[i])
            } else {
                None
            },
            None => None,
        }
    }

    /// Selects the best track that fits within the allocated bandwidth.
    /// Returns whether the selection changed.
    pub fn select_for_bandwidth(&mut self, allocated_kbps: u64, now_ms: u64) -> (r: bool)
        ensures
            final(self)@ == old(self)@.selected_for(allocated_kbps as int, now_ms),
            r == (final(self)@.selected_track != old(self)@.selected_track),
            old(self)@.sorted() ==> final(self)@.wf(),
    {
        let ghost before = self@;
        let old_selected = self.selected_track;
        let mut found: Option<usize> = None;
        let mut i: usize = 0;
        while i < self.tracks.len()
            invariant_except_break
                i <= self.tracks@.len(),
                self@ == before,
                found is None,
                first_fit(before.tracks, allocated_kbps as int, i as nat) is None,
            ensures
                self@ == before,
                index_view(found) == first_fit(
                    before.tracks,
                    allocated_kbps as int,
                    before.tracks.len(),
                ),
            decreases self.tracks@.len() - i,
        {
            assert(before.tracks[i as int].throughput_kbps == self.tracks@[i as int].throughput_kbps);
            if self.tracks[i].throughput_kbps <= allocated_kbps {
                proof {
                    lemma_first_fit_extends(
                        before.tracks,
                        allocated_kbps as int,
                        (i + 1) as nat,
                        before.tracks.len(),
                    );
                }
                found = Some(i);
                break;
            }
            i += 1;
        }
        self.selected_track = found;
        self.last_update_ms = now_ms;
        proof {
            lemma_first_fit(before.tracks, allocated_kbps as int, before.tracks.len());
        }
        match (old_selected, found) {
            (Some(a), Some(b)) => a != b,
            (None, None) => false,
            _ => true,
        }
    }
}


/// A track chosen for a set, with the bandwidth that the set was given.
#[derive(Debug)]
pub struct TrackSelection {
    pub set_id: u64,
    pub track: DtsTrack,
    pub allocated_kbps: u64,
}

/// The contents of a [`TrackSelection`].
#[verifier::ext_equal]
pub struct TrackSelectionView {
    pub set_id: u64,
    pub track: DtsTrackView,
    pub allocated_kbps: int,
}

impl View for TrackSelection {
    type V = TrackSelectionView;

    open spec fn view(&self) -> TrackSelectionView {
        TrackSelectionView {
            set_id: self.set_id,
            track: self.track@,
            allocated_kbps: self.allocated_kbps as int,
        }
    }
}

/// What a selection changed.
#[derive(Debug)]
pub struct SelectionChange {
    /// Tracks of sets that had no selection (start forwarding).
    pub newly_selected: Vec<TrackSelection>,
    /// Sets that lost their selection, with the track they had (stop forwarding).
    pub deselected: Vec<(u64, DtsTrack)>,
    /// Sets that changed track: the new one and the old one.
    pub switched: Vec<(TrackSelection, DtsTrack)>,
}

/// The contents of a [`SelectionChange`].
#[verifier::ext_equal]
pub struct SelectionChangeView {
    pub newly_selected: Seq<TrackSelectionView>,
    pub deselected: Seq<(u64, DtsTrackView)>,
    pub switched: Seq<(TrackSelectionView, DtsTrackView)>,
}

impl SelectionChangeView {
    pub open spec fn empty() -> SelectionChangeView {
        SelectionChangeView {
            newly_selected: Seq::empty(),
            deselected: Seq::empty(),
            switched: Seq::empty(),
        }
    }
}

impl View for SelectionChange {
    type V = SelectionChangeView;

    open spec fn view(&self) -> SelectionChangeView {
        SelectionChangeView {
            newly_selected: self.newly_selected@.map_values(|s: TrackSelection| s@),
            deselected: self.deselected@.map_values(|d: (u64, DtsTrack)| (d.0, d.1@)),
            switched: self.switched@.map_values(|s: (TrackSelection, DtsTrack)| (s.0@, s.1@)),
        }
    }
}

impl Default for SelectionChange {
    fn default() -> (r: Self)
        ensures
            r@ == SelectionChangeView::empty(),
    {
        let r = SelectionChange {
            newly_selected: Vec::new(),
            deselected: Vec::new(),
            switched: Vec::new(),
        };
        assert(r@ =~= SelectionChangeView::empty());
        r
    }
}

impl SelectionChange {
    /// Whether nothing changed.
    pub fn is_empty(&self) -> (r: bool)
        ensures
            r == (self@ == SelectionChangeView::empty()),
    {
        proof {
            if self.newly_selected@.len() == 0 && self.deselected@.len() == 0
                && self.switched@.len() == 0 {
                assert(self@ =~= SelectionChangeView::empty());
            } else {
                assert(self@.newly_selected.len() == self.newly_selected@.len());
                assert(self@.deselected.len() == self.deselected@.len());
                assert(self@.switched.len() == self.switched@.len());
            }
        }
        self.newly_selected.is_empty() && self.deselected.is_empty() && self.switched.is_empty()
    }

    fn push_newly_selected(&mut self, selection: TrackSelection)
        ensures
            final(self)@ == (SelectionChangeView {
                newly_selected: old(self)@.newly_selected.push(selection@),
                ..old(self)@
            }),
    {
        let ghost before = self@;
        self.newly_selected.push(selection);
        assert(self@.newly_selected =~= before.newly_selected.push(selection@));
    }

    fn push_deselected(&mut self, set_id: u64, track: DtsTrack)
        ensures
            final(self)@ == (SelectionChangeView {
                deselected: old(self)@.deselected.push((set_id, track@)),
                ..old(self)@
            }),
    {
        let ghost before = self@;
        self.deselected.push((set_id, track));
        assert(self@.deselected =~= before.deselected.push((set_id, track@)));
    }

    fn push_switched(&mut self, selection: TrackSelection, track: DtsTrack)
        ensures
            final(self)@ == (SelectionChangeView {
                switched: old(self)@.switched.push((selection@, track@)),
                ..old(self)@
            }),
    {
        let ghost before = self@;
        self.switched.push((selection, track));
        assert(self@.switched =~= before.switched.push((selection@, track@)));
    }
}

/// Configuration of a [`DtsTracker`].
#[derive(Clone, Copy, Debug, PartialEq, Eq, Structural)]
pub struct DtsTrackerConfig {
    /// Least time after a switch before a set may go up, in milliseconds.
    pub min_switch_interval_ms: u64,
    /// Extra bandwidth, in percent, that going up asks for.
    pub upswitch_headroom_pct: u64,
    /// How far below its track, in percent, a set must fall before it goes down.
    pub downswitch_margin_pct: u64,
    /// Whether selections are logged.
    pub enable_logging: bool,
}

impl DtsTrackerConfig {
    pub open spec fn standard() -> DtsTrackerConfig {
        DtsTrackerConfig {
            min_switch_interval_ms: 2000,
            upswitch_headroom_pct: 15,
            downswitch_margin_pct: 20,
            enable_logging: false,
        }
    }
}

impl Default for DtsTrackerConfig {
    fn default() -> (r: Self)
        ensures
            r == DtsTrackerConfig::standard(),
    {
        DtsTrackerConfig {
            min_switch_interval_ms: 2000,
            upswitch_headroom_pct: 15,
            downswitch_margin_pct: 20,
            enable_logging: false,
        }
    }
}

/// What one selection pass works with.
pub struct SelectionPlan {
    pub bandwidth_kbps: u64,
    pub sum_fractions: int,
    /// Enough time has passed since the last switch to go up.
    pub may_upswitch: bool,
    pub now_ms: u64,
    pub config: DtsTrackerConfig,
}

/// A set falls below this allocation before it gives up a track of `current` kbps.
pub open spec fn downswitch_threshold(config: DtsTrackerConfig, current: u64) -> int {
    let margin = current * config.downswitch_margin_pct / 100;
    if margin > current {
        0
    } else {
        current - margin
    }
}

/// A set needs this allocation before it goes up to a track of `higher` kbps.
pub open spec fn upswitch_threshold(config: DtsTrackerConfig, higher: u64) -> int {
    higher + higher * config.upswitch_headroom_pct / 100
}

/// A pass over the sets, part of the way through.
#[verifier::ext_equal]
pub struct SelectionPass {
    pub sets: Seq<SwitchingSetView>,
    pub remaining_kbps: int,
    pub change: SelectionChangeView,
}

impl SelectionPlan {
    /// What a set is given when `remaining` is left.
    pub open spec fn allocation(self, set: SwitchingSetView, remaining: int) -> int {
        let target = self.bandwidth_kbps * set.fraction / self.sum_fractions;
        if target < remaining {
            target
        } else {
            remaining
        }
    }

    /// The allocation lies far enough below the selected track to give it up.
    pub open spec fn goes_down(self, set: SwitchingSetView, allocated: int) -> bool {
        set.selected() matches Some(t) && allocated < downswitch_threshold(
            self.config,
            t.throughput_kbps,
        )
    }

    /// The allocation lies far enough above the next higher track to go up to it.
    pub open spec fn goes_up(self, set: SwitchingSetView, allocated: int) -> bool {
        set.selected() matches Some(t) && next_higher(
            set.tracks,
            t.throughput_kbps,
            set.tracks.len(),
        ) matches Some(higher) && allocated >= upswitch_threshold(self.config, higher)
    }

    /// The set's selection is computed anew.
    pub open spec fn reselects(self, set: SwitchingSetView, allocated: int) -> bool {
        ||| set.selected() is None
        ||| self.goes_down(set, allocated)
        ||| self.may_upswitch && self.goes_up(set, allocated)
    }

    /// The set after its turn.
    pub open spec fn served(self, set: SwitchingSetView, allocated: int) -> SwitchingSetView {
        if self.reselects(set, allocated) {
            set.selected_for(allocated, self.now_ms)
        } else {
            set
        }
    }

    /// What the turn of a set adds to the change.
    pub open spec fn noted(
        self,
        change: SelectionChangeView,
        before: SwitchingSetView,
        after: SwitchingSetView,
        allocated: int,
    ) -> SelectionChangeView {
        if before.selected_track == after.selected_track {
            change
        } else {
            match (before.selected(), after.selected()) {
                (None, Some(new)) => SelectionChangeView {
                    newly_selected: change.newly_selected.push(
                        TrackSelectionView {
                            set_id: before.set_id,
                            track: new,
                            allocated_kbps: allocated,
                        },
                    ),
                    ..change
                },
                (Some(was), None) => SelectionChangeView {
                    deselected: change.deselected.push((before.set_id, was)),
                    ..change
                },
                (Some(was), Some(new)) => if was.subscription_id != new.subscription_id {
                    SelectionChangeView {
                        switched: change.switched.push(
                            (
                                TrackSelectionView {
                                    set_id: before.set_id,
                                    track: new,
                                    allocated_kbps: allocated,
                                },
                                was,
                            ),
                        ),
                        ..change
                    }
                } else {
                    change
                },
                (None, None) => change,
            }
        }
    }

    /// What remains once the set has had its turn.
    pub open spec fn left_over(self, remaining: int, after: SwitchingSetView) -> int {
        match after.selected() {
            Some(t) => if t.throughput_kbps < remaining {
                remaining - t.throughput_kbps
            } else {
                0
            },
            None => remaining,
        }
    }

    /// The turn of the set at `i`.
    pub open spec fn turn(self, pass: SelectionPass, i: int) -> SelectionPass {
        let set = pass.sets[i];
        let allocated = self.allocation(set, pass.remaining_kbps);
        let after = self.served(set, allocated);
        SelectionPass {
            sets: pass.sets.update(i, after),
            remaining_kbps: self.left_over(pass.remaining_kbps, after),
            change: self.noted(pass.change, set, after, allocated),
        }
    }

    /// The pass after the first `k` sets of `order` have had their turn.
    pub open spec fn run(
        self,
        sets: Seq<SwitchingSetView>,
        order: Seq<int>,
        k: nat,
    ) -> SelectionPass
        decreases k,
    {
        if k == 0 {
            SelectionPass {
                sets,
                remaining_kbps: self.bandwidth_kbps as int,
                change: SelectionChangeView::empty(),
            }
        } else {
            self.turn(self.run(sets, order, (k - 1) as nat), order[k - 1])
        }
    }
}

/// The set takes part in selection.
pub open spec fn takes_part(set: SwitchingSetView) -> bool {
    set.active && set.tracks.len() > 0
}

/// The set at `i` has its turn before the set at `j`: by rank, then by position.
pub open spec fn turn_before(sets: Seq<SwitchingSetView>, i: int, j: int) -> bool {
    sets[i].rank < sets[j].rank || (sets[i].rank == sets[j].rank && i < j)
}

/// `order` lists the first `n` sets that take part, by rank.
pub open spec fn is_turn_order(sets: Seq<SwitchingSetView>, order: Seq<int>, n: int) -> bool {
    &&& forall|k: int|
        0 <= k < order.len() ==> 0 <= #[trigger] order[k] < n && takes_part(sets[order[k]])
    &&& forall|i: int| 0 <= i < n && #[trigger] takes_part(sets[i]) ==> order.contains(i)
    &&& forall|j: int, k: int|
        0 <= j < k < order.len() ==> turn_before(sets, #[trigger] order[j], #[trigger] order[k])
}

/// The sum of the fractions of the active sets.
pub open spec fn sum_of_fractions(sets: Seq<SwitchingSetView>) -> int
    decreases sets.len(),
{
    if sets.len() == 0 {
        0
    } else {
        sum_of_fractions(sets.drop_last()) + if sets.last().active {
            sets.last().fraction as int
        } else {
            0
        }
    }
}

/// The contents of a list of sets.
pub open spec fn sets_view(sets: Seq<SwitchingSet>) -> Seq<SwitchingSetView> {
    sets.map_values(|s: SwitchingSet| s@)
}

/// One subscriber's sets, in the order in which they were first registered.
struct SubscriberDtsState {
    sets: Vec<SwitchingSet>,
    bandwidth_kbps: u64,
    last_bandwidth_update_ms: u64,
    /// When a set last changed track.
    last_switch_ms: Option<u64>,
}

/// The contents of one subscriber's state.
#[verifier::ext_equal]
pub struct SubscriberDtsView {
    pub sets: Seq<SwitchingSetView>,
    pub bandwidth_kbps: u64,
    pub last_bandwidth_update_ms: u64,
    pub last_switch_ms: Option<u64>,
}

impl SubscriberDtsView {
    /// No set twice, and each set well-formed.
    pub open spec fn wf(self) -> bool {
        &&& forall|i: int| 0 <= i < self.sets.len() ==> (#[trigger] self.sets[i]).wf()
        &&& forall|i: int, j: int|
            0 <= i < j < self.sets.len() ==> (#[trigger] self.sets[i]).set_id
                != (#[trigger] self.sets[j]).set_id
    }

    /// A state without sets.
    pub open spec fn fresh(now_ms: u64) -> SubscriberDtsView {
        SubscriberDtsView {
            sets: Seq::empty(),
            bandwidth_kbps: 0,
            last_bandwidth_update_ms: now_ms,
            last_switch_ms: None,
        }
    }

    /// Enough time has passed since the last switch to go up.
    pub open spec fn may_upswitch(self, config: DtsTrackerConfig, now_ms: u64) -> bool {
        match self.last_switch_ms {
            Some(last) => now_ms - last >= config.min_switch_interval_ms,
            None => true,
        }
    }

    pub open spec fn plan(self, config: DtsTrackerConfig, now_ms: u64) -> SelectionPlan {
        SelectionPlan {
            bandwidth_kbps: self.bandwidth_kbps,
            sum_fractions: sum_of_fractions(self.sets),
            may_upswitch: self.may_upswitch(config, now_ms),
            now_ms,
            config,
        }
    }

    /// `after` and `change` are what selection makes of this state: nothing without
    /// bandwidth or active sets, else the outcome of a pass in turn order.
    pub open spec fn selects(
        self,
        config: DtsTrackerConfig,
        now_ms: u64,
        after: SubscriberDtsView,
        change: SelectionChangeView,
    ) -> bool {
        if self.bandwidth_kbps == 0 || sum_of_fractions(self.sets) == 0 {
            after == self && change == SelectionChangeView::empty()
        } else {
            exists|order: Seq<int>| #[trigger]
                is_turn_order(self.sets, order, self.sets.len() as int) && {
                    let done = self.plan(config, now_ms).run(self.sets, order, order.len());
                    &&& change == done.change
                    &&& after == SubscriberDtsView {
                        sets: done.sets,
                        last_switch_ms: if done.change.switched.len() > 0 {
                            Some(now_ms)
                        } else {
                            self.last_switch_ms
                        },
                        ..self
                    }
                }
        }
    }
}

impl View for SubscriberDtsState {
    type V = SubscriberDtsView;

    closed spec fn view(&self) -> SubscriberDtsView {
        SubscriberDtsView {
            sets: sets_view(self.sets@),
            bandwidth_kbps: self.bandwidth_kbps,
            last_bandwidth_update_ms: self.last_bandwidth_update_ms,
            last_switch_ms: self.last_switch_ms,
        }
    }
}

proof fn lemma_sum_step(sets: Seq<SwitchingSetView>, n: int)
    requires
        0 <= n < sets.len(),
    ensures
        sum_of_fractions(sets.subrange(0, n + 1)) == sum_of_fractions(sets.subrange(0, n))
            + if sets[n].active {
            sets[n].fraction as int
        } else {
            0
        },
{
    assert(sets.subrange(0, n + 1).drop_last() =~= sets.subrange(0, n));
}

proof fn lemma_fraction_le_sum(sets: Seq<SwitchingSetView>, i: int)
    requires
        0 <= i < sets.len(),
        sets[i].active,
    ensures
        sets[i].fraction <= sum_of_fractions(sets),
    decreases sets.len(),
{
    lemma_sum_nonneg(sets.drop_last());
    if i < sets.len() - 1 {
        assert(sets.drop_last()[i] == sets[i]);
        lemma_fraction_le_sum(sets.drop_last(), i);
    }
}

proof fn lemma_sum_nonneg(sets: Seq<SwitchingSetView>)
    ensures
        sum_of_fractions(sets) >= 0,
    decreases sets.len(),
{
    if sets.len() > 0 {
        lemma_sum_nonneg(sets.drop_last());
    }
}


/// The positions as integers.
spec fn as_ints(order: Seq<usize>) -> Seq<int> {
    order.map_values(|i: usize| i as int)
}

/// Putting the next position behind those of no higher rank keeps a turn order.
proof fn lemma_turn_order_insert(
    sets: Seq<SwitchingSetView>,
    order: Seq<int>,
    n: int,
    p: int,
)
    requires
        0 <= n < sets.len(),
        is_turn_order(sets, order, n),
        takes_part(sets[n]),
        0 <= p <= order.len(),
        forall|k: int| 0 <= k < p ==> sets[#[trigger] order[k]].rank <= sets[n].rank,
        p < order.len() ==> sets[order[p]].rank > sets[n].rank,
    ensures
        is_turn_order(sets, order.insert(p, n), n + 1),
{
    let new = order.insert(p, n);
    assert forall|i: int| 0 <= i < n + 1 && #[trigger] takes_part(sets[i]) implies new.contains(
        i,
    ) by {
        if i == n {
            assert(new[p] == n);
        } else {
            assert(order.contains(i));
            let k = choose|k: int| 0 <= k < order.len() && order[k] == i;
            if k < p {
                assert(new[k] == i);
            } else {
                assert(new[k + 1] == i);
            }
        }
    }
    assert forall|j: int, k: int| 0 <= j < k < new.len() implies turn_before(
        sets,
        #[trigger] new[j],
        #[trigger] new[k],
    ) by {
        let oj = if j < p { j } else { j - 1 };
        let ok = if k < p { k } else { k - 1 };
        if j != p {
            assert(new[j] == order[oj]);
        }
        if k != p {
            assert(new[k] == order[ok]);
        }
        if j != p && k != p {
            assert(turn_before(sets, order[oj], order[ok]));
        } else if j == p {
            if ok > p {
                assert(turn_before(sets, order[p], order[ok]));
            }
        }
    }
}

impl SubscriberDtsState {
    fn new(now_ms: u64) -> (r: Self)
        ensures
            r@ == SubscriberDtsView::fresh(now_ms),
            r@.wf(),
    {
        let r = SubscriberDtsState {
            sets: Vec::new(),
            bandwidth_kbps: 0,
            last_bandwidth_update_ms: now_ms,
            last_switch_ms: None,
        };
        assert(r@.sets =~= Seq::empty());
        r
    }

    /// The sum of the fractions of the active sets.
    fn sum_fractions(&self) -> (r: u128)
        ensures
            r == sum_of_fractions(self@.sets),
    {
        let ghost sets = self@.sets;
        let n: usize = self.sets.len();
        let mut sum: u128 = 0;
        let mut i: usize = 0;
        while i < n
            invariant
                i <= n,
                n == self.sets@.len(),
                sets == self@.sets,
                sum == sum_of_fractions(sets.subrange(0, i as int)),
                sum <= i * u64::MAX,
            decreases self.sets@.len() - i,
        {
            proof {
                lemma_sum_step(sets, i as int);
                assert(i * u64::MAX + u64::MAX == (i + 1) * u64::MAX) by (nonlinear_arith);
                assert((i + 1) * u64::MAX <= u128::MAX) by (nonlinear_arith)
                    requires
                        i < usize::MAX,
                ;
            }
            if self.sets[i].active {
                sum = sum + self.sets[i].fraction as u128;
            }
            i += 1;
        }
        assert(sets.subrange(0, i as int) =~= sets);
        sum
    }

    /// The positions of the sets that take part, in turn order.
    fn turn_order(&self) -> (r: Vec<usize>)
        ensures
            is_turn_order(self@.sets, as_ints(r@), self@.sets.len() as int),
    {
        let ghost sets = self@.sets;
        let mut order: Vec<usize> = Vec::new();
        let mut i: usize = 0;
        while i < self.sets.len()
            invariant
                i <= self.sets@.len(),
                sets == self@.sets,
                is_turn_order(sets, as_ints(order@), i as int),
            decreases self.sets@.len() - i,
        {
            let ghost ints = as_ints(order@);
            assert(sets[i as int] == self.sets@[i as int]@);
            if self.sets[i].active && self.sets[i].tracks.len() > 0 {
                assert(takes_part(sets[i as int]));
                let rank: u8 = self.sets[i].rank;
                assert forall|k: int| 0 <= k < order@.len() implies #[trigger] order@[k] < i by {
                    assert(ints[k] == order@[k]);
                }
                let mut p: usize = 0;
                while p < order.len() && self.sets[order[p]].rank <= rank
                    invariant
                        p <= order@.len(),
                        i < self.sets@.len(),
                        sets == self@.sets,
                        ints == as_ints(order@),
                        is_turn_order(sets, ints, i as int),
                        rank == sets[i as int].rank,
                        forall|k: int| 0 <= k < order@.len() ==> #[trigger] order@[k] < i,
                        forall|k: int|
                            0 <= k < p ==> sets[#[trigger] ints[k]].rank <= sets[i as int].rank,
                    decreases order@.len() - p,
                {
                    assert(ints[p as int] == order@[p as int]);
                    assert(sets[ints[p as int]] == self.sets@[order@[p as int] as int]@);
                    p += 1;
                }
                proof {
                    if p < order@.len() {
                        assert(ints[p as int] == order@[p as int]);
                        assert(sets[ints[p as int]] == self.sets@[order@[p as int] as int]@);
                    }
                    lemma_turn_order_insert(sets, ints, i as int, p as int);
                }
                let ghost before = order@;
                order.insert(p, i);
                assert(as_ints(order@) =~= ints.insert(p as int, i as int));
            } else {
                assert(!takes_part(sets[i as int]));
                assert(is_turn_order(sets, ints, i + 1)) by {
                    assert forall|m: int| 0 <= m < i + 1 && #[trigger] takes_part(
                        sets[m],
                    ) implies ints.contains(m) by {
                        assert(m < i);
                    }
                }
            }
            i += 1;
        }
        order
    }
}


impl SwitchingSet {
    /// The lowest throughput above `kbps` among the tracks.
    fn next_higher(&self, kbps: u64) -> (r: Option<u64>)
        ensures
            r == next_higher(self@.tracks, kbps, self@.tracks.len()),
    {
        let ghost tracks = self@.tracks;
        let mut best: Option<u64> = None;
        let mut i: usize = 0;
        while i < self.tracks.len()
            invariant
                i <= self.tracks@.len(),
                tracks == self@.tracks,
                best == next_higher(tracks, kbps, i as nat),
            decreases self.tracks@.len() - i,
        {
            let t: u64 = self.tracks[i].throughput_kbps;
            assert(tracks[i as int].throughput_kbps == t);
            let better = match best {
                Some(b) => t < b,
                None => true,
            };
            if t > kbps && better {
                best = Some(t);
            }
            i += 1;
        }
        best
    }

    /// Whether the set's selection is to be computed anew at this allocation.
    fn reselects(
        &self,
        allocated: u64,
        may_upswitch: bool,
        config: &DtsTrackerConfig,
        Ghost(plan): Ghost<SelectionPlan>,
    ) -> (r: bool)
        requires
            plan.may_upswitch == may_upswitch,
            plan.config == *config,
        ensures
            r == plan.reselects(self@, allocated as int),
    {
        match self.selected() {
            None => true,
            Some(current) => {
                let kbps: u64 = current.throughput_kbps;
                assert(kbps * config.downswitch_margin_pct <= u128::MAX) by (nonlinear_arith)
                    requires
                        kbps <= u64::MAX,
                        config.downswitch_margin_pct <= u64::MAX,
                ;
                let margin: u128 = kbps as u128 * config.downswitch_margin_pct as u128 / 100;
                let floor: u128 = if margin > kbps as u128 {
                    0
                } else {
                    kbps as u128 - margin
                };
                let goes_down = (allocated as u128) < floor;
                let goes_up = match self.next_higher(kbps) {
                    Some(higher) => {
                        assert(higher * config.upswitch_headroom_pct <= u128::MAX)
                            by (nonlinear_arith)
                            requires
                                higher <= u64::MAX,
                                config.upswitch_headroom_pct <= u64::MAX,
                        ;
                        let headroom: u128 = higher as u128 * config.upswitch_headroom_pct as u128
                            / 100;
                        allocated as u128 >= higher as u128 + headroom
                    },
                    None => false,
                };
                goes_down || (may_upswitch && goes_up)
            },
        }
    }
}

impl SubscriberDtsState {
    /// The turn of the set at `i`. Returns what remains of the bandwidth.
    fn serve(
        &mut self,
        i: usize,
        sum: u128,
        remaining: u64,
        may_upswitch: bool,
        config: &DtsTrackerConfig,
        now_ms: u64,
        change: &mut SelectionChange,
        Ghost(plan): Ghost<SelectionPlan>,
    ) -> (r: u64)
        requires
            i < old(self).sets@.len(),
            sum > 0,
            old(self)@.wf(),
            plan == (SelectionPlan {
                bandwidth_kbps: old(self)@.bandwidth_kbps,
                sum_fractions: sum as int,
                may_upswitch,
                now_ms,
                config: *config,
            }),
        ensures
            final(self)@.wf(),
            ({
                let pass = plan.turn(
                    SelectionPass {
                        sets: old(self)@.sets,
                        remaining_kbps: remaining as int,
                        change: old(change)@,
                    },
                    i as int,
                );
                &&& r == pass.remaining_kbps
                &&& final(change)@ == pass.change
                &&& final(self)@ == SubscriberDtsView { sets: pass.sets, ..old(self)@ }
            }),
    {
        let ghost sets = self@.sets;
        let ghost view = self@;
        let ghost old_change = change@;
        let ghost set = sets[i as int];
        assert(set == self.sets@[i as int]@);
        let fraction: u64 = self.sets[i].fraction;
        assert(self.bandwidth_kbps * fraction <= u128::MAX) by (nonlinear_arith)
            requires
                self.bandwidth_kbps <= u64::MAX,
                fraction <= u64::MAX,
        ;
        let target: u128 = self.bandwidth_kbps as u128 * fraction as u128 / sum;
        let allocated: u64 = if target < remaining as u128 {
            target as u64
        } else {
            remaining
        };
        assert(allocated == plan.allocation(set, remaining as int));
        let set_id: u64 = self.sets[i].set_id;
        let before: Option<DtsTrack> = match self.sets[i].selected() {
            Some(t) => Some(t.clone()),
            None => None,
        };
        let again = self.sets[i].reselects(allocated, may_upswitch, config, Ghost(plan));
        let ghost after = plan.served(set, allocated as int);
        let changed = if again {
            self.sets[i].select_for_bandwidth(allocated, now_ms)
        } else {
            false
        };
        assert(self.sets@[i as int]@ == after);
        assert(self@.sets =~= sets.update(i as int, after));
        if changed {
            let new: Option<DtsTrack> = match self.sets[i].selected() {
                Some(t) => Some(t.clone()),
                None => None,
            };
            match (before, new) {
                (None, Some(new)) => {
                    change.push_newly_selected(
                        TrackSelection { set_id, track: new, allocated_kbps: allocated },
                    );
                },
                (Some(was), None) => {
                    change.push_deselected(set_id, was);
                },
                (Some(was), Some(new)) => {
                    if was.subscription_id != new.subscription_id {
                        change.push_switched(
                            TrackSelection { set_id, track: new, allocated_kbps: allocated },
                            was,
                        );
                    }
                },
                (None, None) => {},
            }
        }
        assert(change@ =~= plan.noted(old_change, set, after, allocated as int));
        assert(self@.wf()) by {
            assert forall|k: int| 0 <= k < self@.sets.len() implies (#[trigger] self@.sets[k]).wf() by {
                assert(sets[k].wf());
                assert(after.wf());
            }
            assert forall|j: int, k: int| 0 <= j < k < self@.sets.len() implies (
            #[trigger] self@.sets[j]).set_id != (#[trigger] self@.sets[k]).set_id by {
                assert(sets[j].set_id != sets[k].set_id);
            }
        }
        match self.sets[i].selected() {
            Some(t) => if t.throughput_kbps < remaining {
                remaining - t.throughput_kbps
            } else {
                0
            },
            None => remaining,
        }
    }

    /// Selects a track for each set that takes part.
    fn select(&mut self, config: &DtsTrackerConfig, now_ms: u64) -> (change: SelectionChange)
        requires
            old(self)@.wf(),
        ensures
            final(self)@.wf(),
            old(self)@.selects(*config, now_ms, final(self)@, change@),
    {
        let mut change = SelectionChange::default();
        let sum: u128 = self.sum_fractions();
        if sum == 0 || self.bandwidth_kbps == 0 {
            return change;
        }
        let ghost start = self@;
        let may_upswitch = match self.last_switch_ms {
            Some(last) => now_ms >= last && now_ms - last >= config.min_switch_interval_ms,
            None => true,
        };
        let ghost plan = start.plan(*config, now_ms);
        let order = self.turn_order();
        let ghost ints = as_ints(order@);
        let mut remaining: u64 = self.bandwidth_kbps;
        let mut k: usize = 0;
        while k < order.len()
            invariant
                k <= order@.len(),
                ints == as_ints(order@),
                is_turn_order(start.sets, ints, start.sets.len() as int),
                sum > 0,
                plan == (SelectionPlan {
                    bandwidth_kbps: start.bandwidth_kbps,
                    sum_fractions: sum as int,
                    may_upswitch,
                    now_ms,
                    config: *config,
                }),
                self@.wf(),
                ({
                    let pass = plan.run(start.sets, ints, k as nat);
                    &&& remaining == pass.remaining_kbps
                    &&& change@ == pass.change
                    &&& self@ == SubscriberDtsView { sets: pass.sets, ..start }
                    &&& pass.sets.len() == start.sets.len()
                }),
            decreases order@.len() - k,
        {
            assert(ints[k as int] == order@[k as int]);
            remaining = self.serve(
                order[k],
                sum,
                remaining,
                may_upswitch,
                config,
                now_ms,
                &mut change,
                Ghost(plan),
            );
            k += 1;
        }
        assert(change@.switched.len() == change.switched@.len());
        if change.switched.len() > 0 {
            self.last_switch_ms = Some(now_ms);
        }
        assert(is_turn_order(start.sets, ints, start.sets.len() as int));
        change
    }
}


/// Position of the first of the first `n` sets with this id.
pub open spec fn find_set(sets: Seq<SwitchingSetView>, set_id: u64, n: nat) -> Option<int>
    decreases n,
{
    if n == 0 {
        None
    } else {
        match find_set(sets, set_id, (n - 1) as nat) {
            Some(i) => Some(i),
            None => if sets[n - 1].set_id == set_id {
                Some(n - 1)
            } else {
                None
            },
        }
    }
}

/// Position of the first of the first `n` sets with a track of this subscription.
pub open spec fn find_subscription(
    sets: Seq<SwitchingSetView>,
    subscription_id: u64,
    n: nat,
) -> Option<int>
    decreases n,
{
    if n == 0 {
        None
    } else {
        match find_subscription(sets, subscription_id, (n - 1) as nat) {
            Some(i) => Some(i),
            None => if sets[n - 1].has_subscription(subscription_id) {
                Some(n - 1)
            } else {
                None
            },
        }
    }
}

proof fn lemma_find_set(sets: Seq<SwitchingSetView>, set_id: u64, n: nat)
    requires
        n <= sets.len(),
    ensures
        match find_set(sets, set_id, n) {
            Some(i) => 0 <= i < n && sets[i].set_id == set_id,
            None => forall|j: int| 0 <= j < n ==> (#[trigger] sets[j]).set_id != set_id,
        },
    decreases n,
{
    if n > 0 {
        lemma_find_set(sets, set_id, (n - 1) as nat);
    }
}

proof fn lemma_find_set_extends(sets: Seq<SwitchingSetView>, set_id: u64, m: nat, n: nat)
    requires
        m <= n <= sets.len(),
        find_set(sets, set_id, m) is Some,
    ensures
        find_set(sets, set_id, n) == find_set(sets, set_id, m),
    decreases n,
{
    if m < n {
        lemma_find_set_extends(sets, set_id, m, (n - 1) as nat);
    }
}

proof fn lemma_find_subscription(sets: Seq<SwitchingSetView>, id: u64, n: nat)
    requires
        n <= sets.len(),
    ensures
        match find_subscription(sets, id, n) {
            Some(i) => 0 <= i < n && sets[i].has_subscription(id),
            None => forall|j: int| 0 <= j < n ==> !(#[trigger] sets[j]).has_subscription(id),
        },
    decreases n,
{
    if n > 0 {
        lemma_find_subscription(sets, id, (n - 1) as nat);
    }
}

proof fn lemma_find_subscription_extends(sets: Seq<SwitchingSetView>, id: u64, m: nat, n: nat)
    requires
        m <= n <= sets.len(),
        find_subscription(sets, id, m) is Some,
    ensures
        find_subscription(sets, id, n) == find_subscription(sets, id, m),
    decreases n,
{
    if m < n {
        lemma_find_subscription_extends(sets, id, m, (n - 1) as nat);
    }
}

/// The selections of the active sets among the first `n`.
pub open spec fn active_selections(sets: Seq<SwitchingSetView>, n: nat) -> Seq<TrackSelectionView>
    decreases n,
{
    if n == 0 {
        Seq::empty()
    } else {
        let before = active_selections(sets, (n - 1) as nat);
        let set = sets[n - 1];
        match set.selected() {
            Some(t) => if set.active {
                before.push(
                    TrackSelectionView {
                        set_id: set.set_id,
                        track: t,
                        allocated_kbps: t.throughput_kbps as int,
                    },
                )
            } else {
                before
            },
            None => before,
        }
    }
}

impl SubscriberDtsView {
    /// Position of the set with this id.
    pub open spec fn set_position(self, set_id: u64) -> Option<int> {
        find_set(self.sets, set_id, self.sets.len())
    }

    /// Position of the first set with a track of this subscription.
    pub open spec fn subscription_position(self, subscription_id: u64) -> Option<int> {
        find_subscription(self.sets, subscription_id, self.sets.len())
    }

    /// The state once `track` is in its set, which is made if it is not there.
    pub open spec fn registered(
        self,
        track: DtsTrackView,
        assignment: SwitchingSetAssignment,
        now_ms: u64,
    ) -> SubscriberDtsView {
        let enrolled = |set: SwitchingSetView| SwitchingSetView {
            fraction: assignment.fraction,
            rank: assignment.rank_or_default(),
            active: set.active || assignment.activate,
            ..set
        }.with_track(track);
        SubscriberDtsView {
            sets: match self.set_position(assignment.set_id) {
                Some(i) => self.sets.update(i, enrolled(self.sets[i])),
                None => self.sets.push(
                    enrolled(
                        SwitchingSetView {
                            set_id: assignment.set_id,
                            fraction: assignment.fraction,
                            rank: assignment.rank_or_default(),
                            tracks: Seq::empty(),
                            selected_track: None,
                            active: false,
                            last_update_ms: now_ms,
                        },
                    ),
                ),
            },
            ..self
        }
    }

    /// The state once the set with this id, if there is one, is active.
    pub open spec fn activated(self, set_id: u64) -> SubscriberDtsView {
        match self.set_position(set_id) {
            Some(i) => SubscriberDtsView {
                sets: self.sets.update(i, SwitchingSetView { active: true, ..self.sets[i] }),
                ..self
            },
            None => self,
        }
    }

    /// Where the first track of this subscription stands within the set at `i`.
    pub open spec fn track_position(self, i: int, subscription_id: u64) -> int {
        first_with_id(self.sets[i].tracks, subscription_id, self.sets[i].tracks.len())->0
    }

    /// The state once the track at `pos` of the set at `i` is gone.
    pub open spec fn without_track(self, i: int, pos: int) -> SubscriberDtsView {
        SubscriberDtsView {
            sets: self.sets.update(i, self.sets[i].without_track_at(pos)),
            ..self
        }
    }

    /// The track that carries this subscription is the selected one of its set.
    pub open spec fn removes_selected(self, subscription_id: u64) -> bool {
        match self.subscription_position(subscription_id) {
            Some(i) => self.sets[i].selected_track == Some(
                self.track_position(i, subscription_id),
            ),
            None => false,
        }
    }

    /// `after` is the state once the subscription's track is gone: where it was the selected
    /// one, the tracks are selected anew.
    pub open spec fn removal_selects(
        self,
        subscription_id: u64,
        config: DtsTrackerConfig,
        now_ms: u64,
        after: SubscriberDtsView,
    ) -> bool {
        let i = self.subscription_position(subscription_id)->0;
        let pos = self.track_position(i, subscription_id);
        let rest = self.without_track(i, pos);
        if self.removes_selected(subscription_id) {
            exists|change: SelectionChangeView| #[trigger]
                rest.selects(config, now_ms, after, change)
        } else {
            after == rest
        }
    }

    /// The selection of the set with this id, if it is active and has one.
    pub open spec fn selection_for_set(self, set_id: u64) -> Option<TrackSelectionView> {
        match self.set_position(set_id) {
            Some(i) => match self.sets[i].selected() {
                Some(t) => if self.sets[i].active {
                    Some(
                        TrackSelectionView {
                            set_id,
                            track: t,
                            allocated_kbps: t.throughput_kbps as int,
                        },
                    )
                } else {
                    None
                },
                None => None,
            },
            None => None,
        }
    }

    /// The selected track of some set carries this subscription.
    pub open spec fn subscription_selected(self, subscription_id: u64) -> bool {
        exists|i: int|
            0 <= i < self.sets.len() && (#[trigger] self.sets[i]).selects_subscription(
                subscription_id,
            )
    }
}

/// Changing one set in place keeps the state well-formed.
proof fn lemma_update_set_wf(state: SubscriberDtsView, i: int, set: SwitchingSetView)
    requires
        state.wf(),
        0 <= i < state.sets.len(),
        set.wf(),
        set.set_id == state.sets[i].set_id,
    ensures
        (SubscriberDtsView { sets: state.sets.update(i, set), ..state }).wf(),
{
    let new = state.sets.update(i, set);
    assert forall|k: int| 0 <= k < new.len() implies (#[trigger] new[k]).wf() by {
        assert(state.sets[k].wf());
    }
    assert forall|j: int, k: int| 0 <= j < k < new.len() implies (#[trigger] new[j]).set_id != (
    #[trigger] new[k]).set_id by {
        assert(state.sets[j].set_id != state.sets[k].set_id);
    }
}

impl SubscriberDtsState {
    fn position_of_set(&self, set_id: u64) -> (r: Option<usize>)
        ensures
            index_view(r) == self@.set_position(set_id),
            r is Some ==> r->0 < self.sets@.len(),
    {
        let ghost sets = self@.sets;
        let mut i: usize = 0;
        while i < self.sets.len()
            invariant
                i <= self.sets@.len(),
                sets == self@.sets,
                find_set(sets, set_id, i as nat) is None,
            decreases self.sets@.len() - i,
        {
            assert(sets[i as int] == self.sets@[i as int]@);
            if self.sets[i].set_id == set_id {
                proof {
                    lemma_find_set_extends(sets, set_id, (i + 1) as nat, sets.len());
                }
                return Some(i);
            }
            i += 1;
        }
        None
    }

    fn position_of_subscription(&self, subscription_id: u64) -> (r: Option<usize>)
        ensures
            index_view(r) == self@.subscription_position(subscription_id),
            r is Some ==> r->0 < self.sets@.len(),
    {
        let ghost sets = self@.sets;
        let mut i: usize = 0;
        while i < self.sets.len()
            invariant
                i <= self.sets@.len(),
                sets == self@.sets,
                find_subscription(sets, subscription_id, i as nat) is None,
            decreases self.sets@.len() - i,
        {
            assert(sets[i as int] == self.sets@[i as int]@);
            if self.sets[i].position_of(subscription_id).is_some() {
                proof {
                    lemma_find_subscription_extends(
                        sets,
                        subscription_id,
                        (i + 1) as nat,
                        sets.len(),
                    );
                }
                return Some(i);
            }
            i += 1;
        }
        None
    }

    fn register(
        &mut self,
        track: DtsTrack,
        assignment: &SwitchingSetAssignment,
        now_ms: u64,
    )
        requires
            old(self)@.wf(),
        ensures
            final(self)@ == old(self)@.registered(track@, *assignment, now_ms),
            final(self)@.wf(),
    {
        let ghost start = self@;
        let ghost added = track@;
        proof {
            lemma_find_set(start.sets, assignment.set_id, start.sets.len());
        }
        let rank: u8 = assignment.effective_rank();
        match self.position_of_set(assignment.set_id) {
            Some(i) => {
                let ghost set = start.sets[i as int];
                assert(self.sets@[i as int]@ == set);
                assert(set.wf());
                self.sets[i].fraction = assignment.fraction;
                self.sets[i].rank = rank;
                if assignment.activate {
                    self.sets[i].active = true;
                }
                self.sets[i].add_track(track);
                let ghost enrolled = SwitchingSetView {
                    fraction: assignment.fraction,
                    rank,
                    active: set.active || assignment.activate,
                    ..set
                }.with_track(added);
                assert(self.sets@[i as int]@ == enrolled);
                assert(self@.sets =~= start.sets.update(i as int, enrolled));
                proof {
                    lemma_update_set_wf(start, i as int, enrolled);
                }
            },
            None => {
                let mut set = SwitchingSet::new(
                    assignment.set_id,
                    assignment.fraction,
                    rank,
                    now_ms,
                );
                if assignment.activate {
                    set.active = true;
                }
                set.add_track(track);
                let ghost enrolled = set@;
                self.sets.push(set);
                assert(self@.sets =~= start.sets.push(enrolled));
                assert forall|k: int| 0 <= k < self@.sets.len() implies (
                #[trigger] self@.sets[k]).wf() by {
                    if k < start.sets.len() {
                        assert(start.sets[k].wf());
                    }
                }
                assert forall|j: int, k: int| 0 <= j < k < self@.sets.len() implies (
                #[trigger] self@.sets[j]).set_id != (#[trigger] self@.sets[k]).set_id by {
                    assert(start.sets[j].set_id != assignment.set_id);
                }
            },
        }
    }
}

/// Bandwidth-based track selection for all subscribers.
pub struct DtsTracker {
    subscribers: HashMap<u64, SubscriberDtsState>,
    config: DtsTrackerConfig,
}

impl View for DtsTracker {
    type V = Map<u64, SubscriberDtsView>;

    closed spec fn view(&self) -> Map<u64, SubscriberDtsView> {
        self.subscribers@.map_values(|s: SubscriberDtsState| s@)
    }
}

impl DtsTracker {
    /// The configuration in use.
    pub closed spec fn spec_config(&self) -> DtsTrackerConfig {
        self.config
    }

    /// The state of every subscriber is well-formed.
    pub open spec fn wf(&self) -> bool {
        forall|s: u64| #[trigger] self@.contains_key(s) ==> self@[s].wf()
    }

    /// A tracker with the standard configuration.
    pub fn new() -> (r: Self)
        ensures
            r@ == Map::<u64, SubscriberDtsView>::empty(),
            r.spec_config() == DtsTrackerConfig::standard(),
            r.wf(),
    {
        Self::with_config(DtsTrackerConfig::default())
    }

    pub fn with_config(config: DtsTrackerConfig) -> (r: Self)
        ensures
            r@ == Map::<u64, SubscriberDtsView>::empty(),
            r.spec_config() == config,
            r.wf(),
    {
        let r = DtsTracker { subscribers: HashMap::new(), config };
        assert(r@ =~= Map::<u64, SubscriberDtsView>::empty());
        r
    }

    /// Takes the state of a subscriber out.
    fn take_state(&mut self, session_id: u64) -> (r: Option<SubscriberDtsState>)
        ensures
            final(self).config == old(self).config,
            match r {
                Some(state) => {
                    &&& old(self)@.contains_key(session_id)
                    &&& state@ == old(self)@[session_id]
                    &&& final(self)@ == old(self)@.remove(session_id)
                },
                None => !old(self)@.contains_key(session_id) && *final(self) == *old(self),
            },
    {
        let ghost before = self@;
        if !self.subscribers.contains_key(&session_id) {
            return None;
        }
        let r = self.subscribers.remove(&session_id);
        assert(self@ =~= before.remove(session_id));
        r
    }

    fn put_state(&mut self, session_id: u64, state: SubscriberDtsState)
        ensures
            final(self).config == old(self).config,
            final(self)@ == old(self)@.insert(session_id, state@),
    {
        let ghost before = self@;
        self.subscribers.insert(session_id, state);
        assert(self@ =~= before.insert(session_id, state@));
    }

    fn state(&self, session_id: u64) -> (r: Option<&SubscriberDtsState>)
        ensures
            match r {
                Some(state) => self@.contains_key(session_id) && state@ == self@[session_id],
                None => !self@.contains_key(session_id),
            },
    {
        self.subscribers.get(&session_id)
    }

    /// Registers a track in a switching set of a subscriber.
    pub fn register_track(
        &mut self,
        session_id: u64,
        subscription_id: u64,
        namespace: TrackNamespace,
        track_name: String,
        assignment: &SwitchingSetAssignment,
        now_ms: u64,
    )
        requires
            old(self).wf(),
        ensures
            final(self).wf(),
            final(self).spec_config() == old(self).spec_config(),
            ({
                let state = if old(self)@.contains_key(session_id) {
                    old(self)@[session_id]
                } else {
                    SubscriberDtsView::fresh(now_ms)
                };
                let track = DtsTrackView {
                    namespace: namespace@,
                    track_name: track_name@,
                    throughput_kbps: assignment.throughput_kbps,
                    subscription_id,
                };
                final(self)@ == old(self)@.insert(
                    session_id,
                    state.registered(track, *assignment, now_ms),
                )
            }),
    {
        let ghost before = self@;
        let mut state = match self.take_state(session_id) {
            Some(state) => state,
            None => SubscriberDtsState::new(now_ms),
        };
        let track = DtsTrack {
            namespace,
            track_name,
            throughput_kbps: assignment.throughput_kbps,
            subscription_id,
        };
        state.register(track, assignment, now_ms);
        self.put_state(session_id, state);
        assert(self@ =~= before.insert(session_id, state@));
    }

    /// Removes a track of a subscriber and selects anew if it was the selected one.
    /// Returns the id of its set and the track.
    pub fn remove_track(
        &mut self,
        session_id: u64,
        subscription_id: u64,
        now_ms: u64,
    ) -> (r: Option<(u64, DtsTrack)>)
        requires
            old(self).wf(),
        ensures
            final(self).wf(),
            final(self).spec_config() == old(self).spec_config(),
            ({
                let state = old(self)@[session_id];
                if !old(self)@.contains_key(session_id) || state.subscription_position(
                    subscription_id,
                ) is None {
                    r is None && final(self)@ == old(self)@
                } else {
                    let i = state.subscription_position(subscription_id)->0;
                    let pos = state.track_position(i, subscription_id);
                    &&& r matches Some(removed) && removed.0 == state.sets[i].set_id
                        && removed.1@ == state.sets[i].tracks[pos]
                    &&& final(self)@ == old(self)@.insert(session_id, final(self)@[session_id])
                    &&& state.removal_selects(
                        subscription_id,
                        old(self).spec_config(),
                        now_ms,
                        final(self)@[session_id],
                    )
                }
            }),
    {
        let ghost before = self@;
        let mut state = match self.take_state(session_id) {
            Some(state) => state,
            None => return None,
        };
        let ghost start = state@;
        proof {
            lemma_find_subscription(start.sets, subscription_id, start.sets.len());
        }
        let ghost mut noted = SelectionChangeView::empty();
        let r = match state.position_of_subscription(subscription_id) {
            None => None,
            Some(i) => {
                let ghost set = start.sets[i as int];
                assert(state.sets@[i as int]@ == set);
                let set_id: u64 = state.sets[i].set_id;
                match state.sets[i].position_of(subscription_id) {
                    None => None,
                    Some(pos) => {
                        let was_selected = match state.sets[i].selected_track {
                            Some(selected) => selected == pos,
                            None => false,
                        };
                        assert(set.wf());
                        let track = state.sets[i].take_at(pos);
                        let ghost rest = start.without_track(i as int, pos as int);
                        assert(state.sets@[i as int]@ == set.without_track_at(pos as int));
                        assert(state@.sets =~= rest.sets);
                        proof {
                            lemma_update_set_wf(
                                start,
                                i as int,
                                set.without_track_at(pos as int),
                            );
                        }
                        if was_selected {
                            let change = state.select(&self.config, now_ms);
                            proof {
                                noted = change@;
                            }
                        }
                        Some((set_id, track))
                    },
                }
            },
        };
        self.put_state(session_id, state);
        assert(self@ =~= before.insert(session_id, state@));
        assert(r is None ==> self@ =~= before);
        proof {
            if r is Some {
                let i = start.subscription_position(subscription_id)->0;
                let pos = start.track_position(i, subscription_id);
                let rest = start.without_track(i, pos);
                if start.sets[i].selected_track == Some(pos) {
                    assert(rest.selects(old(self).spec_config(), now_ms, self@[session_id], noted));
                } else {
                    assert(self@[session_id] == rest);
                }
            }
        }
        r
    }

    /// Removes all state of a subscriber.
    pub fn remove_subscriber(&mut self, session_id: u64)
        ensures
            final(self)@ == old(self)@.remove(session_id),
            final(self).spec_config() == old(self).spec_config(),
            old(self).wf() ==> final(self).wf(),
    {
        let ghost before = self@;
        self.take_state(session_id);
        assert(self@ =~= before.remove(session_id));
    }

    /// Sets the bandwidth estimate of a subscriber and selects anew.
    pub fn update_bandwidth(
        &mut self,
        session_id: u64,
        bandwidth_kbps: u64,
        now_ms: u64,
    ) -> (change: SelectionChange)
        requires
            old(self).wf(),
        ensures
            final(self).wf(),
            final(self).spec_config() == old(self).spec_config(),
            if old(self)@.contains_key(session_id) {
                &&& final(self)@ == old(self)@.insert(session_id, final(self)@[session_id])
                &&& (SubscriberDtsView {
                    bandwidth_kbps,
                    last_bandwidth_update_ms: now_ms,
                    ..old(self)@[session_id]
                }).selects(old(self).spec_config(), now_ms, final(self)@[session_id], change@)
            } else {
                final(self)@ == old(self)@ && change@ == SelectionChangeView::empty()
            },
    {
        let ghost before = self@;
        let mut state = match self.take_state(session_id) {
            Some(state) => state,
            None => return SelectionChange::default(),
        };
        let ghost start = state@;
        state.bandwidth_kbps = bandwidth_kbps;
        state.last_bandwidth_update_ms = now_ms;
        assert(state@.sets =~= start.sets);
        let change = state.select(&self.config, now_ms);
        self.put_state(session_id, state);
        assert(self@ =~= before.insert(session_id, state@));
        change
    }

    /// Activates a switching set and selects anew.
    pub fn activate_set(&mut self, session_id: u64, set_id: u64, now_ms: u64) -> (change:
        SelectionChange)
        requires
            old(self).wf(),
        ensures
            final(self).wf(),
            final(self).spec_config() == old(self).spec_config(),
            if old(self)@.contains_key(session_id) {
                &&& final(self)@ == old(self)@.insert(session_id, final(self)@[session_id])
                &&& old(self)@[session_id].activated(set_id).selects(
                    old(self).spec_config(),
                    now_ms,
                    final(self)@[session_id],
                    change@,
                )
            } else {
                final(self)@ == old(self)@ && change@ == SelectionChangeView::empty()
            },
    {
        let ghost before = self@;
        let mut state = match self.take_state(session_id) {
            Some(state) => state,
            None => return SelectionChange::default(),
        };
        let ghost start = state@;
        proof {
            lemma_find_set(start.sets, set_id, start.sets.len());
        }
        if let Some(i) = state.position_of_set(set_id) {
            let ghost set = start.sets[i as int];
            assert(state.sets@[i as int]@ == set);
            state.sets[i].active = true;
            let ghost active = SwitchingSetView { active: true, ..set };
            assert(state.sets@[i as int]@ == active);
            assert(state@.sets =~= start.sets.update(i as int, active));
            proof {
                assert(set.wf());
                lemma_update_set_wf(start, i as int, active);
            }
        }
        assert(state@ == start.activated(set_id));
        let change = state.select(&self.config, now_ms);
        self.put_state(session_id, state);
        assert(self@ =~= before.insert(session_id, state@));
        change
    }
}


/// The number of active sets among the first `n`.
pub open spec fn active_count(sets: Seq<SwitchingSetView>, n: nat) -> nat
    decreases n,
{
    if n == 0 {
        0
    } else {
        active_count(sets, (n - 1) as nat) + if sets[n - 1].active {
            1nat
        } else {
            0
        }
    }
}

/// The number of tracks in the first `n` sets.
pub open spec fn track_count(sets: Seq<SwitchingSetView>, n: nat) -> nat
    decreases n,
{
    if n == 0 {
        0
    } else {
        track_count(sets, (n - 1) as nat) + sets[n - 1].tracks.len()
    }
}

/// Id, track name and throughput of each selection of the first `n` sets.
pub open spec fn selected_names(sets: Seq<SwitchingSetView>, n: nat) -> Seq<(u64, Seq<char>, u64)>
    decreases n,
{
    if n == 0 {
        Seq::empty()
    } else {
        let before = selected_names(sets, (n - 1) as nat);
        match sets[n - 1].selected() {
            Some(t) => before.push((sets[n - 1].set_id, t.track_name, t.throughput_kbps)),
            None => before,
        }
    }
}

proof fn lemma_track_count_monotonic(sets: Seq<SwitchingSetView>, m: nat, n: nat)
    requires
        m <= n,
    ensures
        track_count(sets, m) <= track_count(sets, n),
    decreases n,
{
    if m < n {
        lemma_track_count_monotonic(sets, m, (n - 1) as nat);
    }
}

/// Figures on one subscriber.
#[derive(Debug)]
pub struct DtsStats {
    pub bandwidth_kbps: u64,
    pub num_sets: usize,
    pub num_active_sets: usize,
    pub num_tracks: usize,
    /// Set id, track name and throughput of each selection.
    pub selections: Vec<(u64, String, u64)>,
}

impl DtsTracker {
    /// The current selections of a subscriber's active sets.
    pub fn get_selections(&self, session_id: u64) -> (r: Vec<TrackSelection>)
        ensures
            r@.map_values(|s: TrackSelection| s@) == if self@.contains_key(session_id) {
                active_selections(self@[session_id].sets, self@[session_id].sets.len())
            } else {
                Seq::empty()
            },
    {
        let mut out: Vec<TrackSelection> = Vec::new();
        let state = match self.state(session_id) {
            Some(state) => state,
            None => {
                assert(out@.map_values(|s: TrackSelection| s@) =~= Seq::empty());
                return out;
            },
        };
        let ghost sets = state@.sets;
        assert(out@.map_values(|s: TrackSelection| s@) =~= Seq::empty());
        let mut i: usize = 0;
        while i < state.sets.len()
            invariant
                i <= state.sets@.len(),
                sets == state@.sets,
                out@.map_values(|s: TrackSelection| s@) == active_selections(sets, i as nat),
            decreases state.sets@.len() - i,
        {
            let set = &state.sets[i];
            assert(sets[i as int] == set@);
            let ghost before = out@.map_values(|s: TrackSelection| s@);
            if set.active {
                if let Some(track) = set.selected() {
                    let selection = TrackSelection {
                        set_id: set.set_id,
                        track: track.clone(),
                        allocated_kbps: track.throughput_kbps,
                    };
                    out.push(selection);
                    assert(out@.map_values(|s: TrackSelection| s@) =~= before.push(selection@));
                }
            }
            i += 1;
        }
        out
    }

    /// The current selection of one set, if it is active and has one.
    pub fn get_selection_for_set(&self, session_id: u64, set_id: u64) -> (r: Option<TrackSelection>)
        ensures
            match r {
                Some(selection) => self@.contains_key(session_id)
                    && self@[session_id].selection_for_set(set_id) == Some(selection@),
                None => self@.contains_key(session_id)
                    ==> self@[session_id].selection_for_set(set_id) is None,
            },
    {
        let state = match self.state(session_id) {
            Some(state) => state,
            None => return None,
        };
        proof {
            lemma_find_set(state@.sets, set_id, state@.sets.len());
        }
        match state.position_of_set(set_id) {
            Some(i) => {
                let set = &state.sets[i];
                assert(state@.sets[i as int] == set@);
                match set.selected() {
                    Some(track) => if set.active {
                        Some(
                            TrackSelection {
                                set_id,
                                track: track.clone(),
                                allocated_kbps: track.throughput_kbps,
                            },
                        )
                    } else {
                        None
                    },
                    None => None,
                }
            },
            None => None,
        }
    }

    /// Whether the selected track of some set carries this subscription.
    pub fn is_track_selected(&self, session_id: u64, subscription_id: u64) -> (r: bool)
        ensures
            r == (self@.contains_key(session_id) && self@[session_id].subscription_selected(
                subscription_id,
            )),
    {
        let state = match self.state(session_id) {
            Some(state) => state,
            None => return false,
        };
        let ghost sets = state@.sets;
        let mut i: usize = 0;
        while i < state.sets.len()
            invariant
                i <= state.sets@.len(),
                sets == state@.sets,
                self@.contains_key(session_id),
                state@ == self@[session_id],
                forall|k: int|
                    0 <= k < i ==> !(#[trigger] sets[k]).selects_subscription(subscription_id),
            decreases state.sets@.len() - i,
        {
            assert(sets[i as int] == state.sets@[i as int]@);
            if let Some(track) = state.sets[i].selected() {
                if track.subscription_id == subscription_id {
                    assert(sets[i as int].selects_subscription(subscription_id));
                    return true;
                }
            }
            i += 1;
        }
        false
    }

    /// Whether some switching set of the subscriber has a track of this subscription.
    pub fn is_track_in_switching_set(&self, session_id: u64, subscription_id: u64) -> (r: bool)
        ensures
            r == (self@.contains_key(session_id) && self@[session_id].subscription_position(
                subscription_id,
            ) is Some),
    {
        match self.state(session_id) {
            Some(state) => state.position_of_subscription(subscription_id).is_some(),
            None => false,
        }
    }

    /// The id of the switching set that this subscription's track is in.
    pub fn get_track_set_id(&self, session_id: u64, subscription_id: u64) -> (r: Option<u64>)
        ensures
            r == if self@.contains_key(session_id) {
                match self@[session_id].subscription_position(subscription_id) {
                    Some(i) => Some(self@[session_id].sets[i].set_id),
                    None => None,
                }
            } else {
                None
            },
    {
        let state = match self.state(session_id) {
            Some(state) => state,
            None => return None,
        };
        match state.position_of_subscription(subscription_id) {
            Some(i) => {
                assert(state@.sets[i as int] == state.sets@[i as int]@);
                Some(state.sets[i].set_id)
            },
            None => None,
        }
    }

    /// Whether removing this subscription's track takes the selected track from its set.
    pub fn removes_selected(&self, session_id: u64, subscription_id: u64) -> (r: bool)
        ensures
            r == (self@.contains_key(session_id) && self@[session_id].removes_selected(
                subscription_id,
            )),
    {
        let state = match self.state(session_id) {
            Some(state) => state,
            None => return false,
        };
        match state.position_of_subscription(subscription_id) {
            Some(i) => {
                assert(state@.sets[i as int] == state.sets@[i as int]@);
                proof {
                    lemma_find_subscription(state@.sets, subscription_id, state@.sets.len());
                }
                match (state.sets[i].selected_track, state.sets[i].position_of(subscription_id)) {
                    (Some(selected), Some(pos)) => selected == pos,
                    _ => false,
                }
            },
            None => false,
        }
    }

    /// Whether the switching set that this subscription's track is in is active.
    pub fn is_set_active_for_track(&self, session_id: u64, subscription_id: u64) -> (r: bool)
        ensures
            r == (self@.contains_key(session_id) && match self@[session_id].subscription_position(
                subscription_id,
            ) {
                Some(i) => self@[session_id].sets[i].active,
                None => false,
            }),
    {
        let state = match self.state(session_id) {
            Some(state) => state,
            None => return false,
        };
        match state.position_of_subscription(subscription_id) {
            Some(i) => {
                assert(state@.sets[i as int] == state.sets@[i as int]@);
                state.sets[i].active
            },
            None => false,
        }
    }

    /// Whether the switching set with this id is active.
    pub fn is_set_active(&self, session_id: u64, set_id: u64) -> (r: bool)
        ensures
            r == (self@.contains_key(session_id) && match self@[session_id].set_position(set_id) {
                Some(i) => self@[session_id].sets[i].active,
                None => false,
            }),
    {
        let state = match self.state(session_id) {
            Some(state) => state,
            None => return false,
        };
        match state.position_of_set(set_id) {
            Some(i) => {
                assert(state@.sets[i as int] == state.sets@[i as int]@);
                state.sets[i].active
            },
            None => false,
        }
    }

    /// Figures on a subscriber.
    pub fn stats(&self, session_id: u64) -> (r: Option<DtsStats>)
        requires
            self@.contains_key(session_id) ==> track_count(
                self@[session_id].sets,
                self@[session_id].sets.len(),
            ) <= usize::MAX,
        ensures
            match r {
                Some(stats) => {
                    let state = self@[session_id];
                    &&& self@.contains_key(session_id)
                    &&& stats.bandwidth_kbps == state.bandwidth_kbps
                    &&& stats.num_sets == state.sets.len()
                    &&& stats.num_active_sets == active_count(state.sets, state.sets.len())
                    &&& stats.num_tracks == track_count(state.sets, state.sets.len())
                    &&& stats.selections@.map_values(|s: (u64, String, u64)| (s.0, s.1@, s.2))
                        == selected_names(state.sets, state.sets.len())
                },
                None => !self@.contains_key(session_id),
            },
    {
        let state = match self.state(session_id) {
            Some(state) => state,
            None => return None,
        };
        let ghost sets = state@.sets;
        let mut selections: Vec<(u64, String, u64)> = Vec::new();
        let mut num_active_sets: usize = 0;
        let mut num_tracks: usize = 0;
        let mut i: usize = 0;
        assert(selections@.map_values(|s: (u64, String, u64)| (s.0, s.1@, s.2)) =~= Seq::empty());
        while i < state.sets.len()
            invariant
                i <= state.sets@.len(),
                sets == state@.sets,
                sets.len() == state.sets@.len(),
                track_count(sets, sets.len()) <= usize::MAX,
                num_active_sets <= i,
                num_active_sets == active_count(sets, i as nat),
                num_tracks == track_count(sets, i as nat),
                selections@.map_values(|s: (u64, String, u64)| (s.0, s.1@, s.2)) == selected_names(
                    sets,
                    i as nat,
                ),
            decreases state.sets@.len() - i,
        {
            let set = &state.sets[i];
            assert(sets[i as int] == set@);
            proof {
                lemma_track_count_monotonic(sets, (i + 1) as nat, sets.len());
            }
            if set.active {
                num_active_sets += 1;
            }
            num_tracks += set.tracks.len();
            let ghost before = selections@.map_values(|s: (u64, String, u64)| (s.0, s.1@, s.2));
            if let Some(track) = set.selected() {
                selections.push((set.set_id, track.track_name.clone(), track.throughput_kbps));
                assert(selections@.map_values(|s: (u64, String, u64)| (s.0, s.1@, s.2))
                    =~= before.push((set.set_id, track.track_name@, track.throughput_kbps)));
            }
            i += 1;
        }
        Some(
            DtsStats {
                bandwidth_kbps: state.bandwidth_kbps,
                num_sets: state.sets.len(),
                num_active_sets,
                num_tracks,
                selections,
            },
        )
    }
}

impl Default for DtsTracker {
    fn default() -> (r: Self)
        ensures
            r@ == Map::<u64, SubscriberDtsView>::empty(),
            r.spec_config() == DtsTrackerConfig::standard(),
            r.wf(),
    {
        Self::new()
    }
}

/// Selection takes the track of the highest throughput that fits: no track of the set
/// lies strictly between the one selected and the allocation, and none is selected only
/// where none fits.
pub proof fn law_selects_highest_fitting(set: SwitchingSetView, kbps: int, now_ms: u64)
    requires
        set.sorted(),
    ensures
        match set.selected_for(kbps, now_ms).selected() {
            Some(t) => t.throughput_kbps <= kbps && set.tracks.contains(t) && forall|j: int|
                0 <= j < set.tracks.len() ==> (#[trigger] set.tracks[j]).throughput_kbps
                    <= t.throughput_kbps || set.tracks[j].throughput_kbps > kbps,
            None => forall|j: int|
                0 <= j < set.tracks.len() ==> (#[trigger] set.tracks[j]).throughput_kbps > kbps,
        },
{
    lemma_first_fit(set.tracks, kbps, set.tracks.len());
}

/// Between its two thresholds a set keeps the track it has.
pub proof fn law_keeps_track_between_thresholds(
    plan: SelectionPlan,
    set: SwitchingSetView,
    allocated: int,
)
    requires
        set.selected() matches Some(t) && allocated >= downswitch_threshold(
            plan.config,
            t.throughput_kbps,
        ) && match next_higher(set.tracks, t.throughput_kbps, set.tracks.len()) {
            Some(higher) => allocated < upswitch_threshold(plan.config, higher),
            None => true,
        },
    ensures
        plan.served(set, allocated) == set,
{
}

/// A selection pass changes nothing of a set but its selection and the time of it.
pub proof fn law_pass_keeps_sets(
    plan: SelectionPlan,
    sets: Seq<SwitchingSetView>,
    order: Seq<int>,
    k: nat,
)
    requires
        k <= order.len(),
        forall|j: int| 0 <= j < order.len() ==> 0 <= #[trigger] order[j] < sets.len(),
    ensures
        plan.run(sets, order, k).sets.len() == sets.len(),
        forall|i: int|
            0 <= i < sets.len() ==> {
                let after = #[trigger] plan.run(sets, order, k).sets[i];
                after == SwitchingSetView {
                    selected_track: after.selected_track,
                    last_update_ms: after.last_update_ms,
                    ..sets[i]
                }
            },
    decreases k,
{
    if k > 0 {
        law_pass_keeps_sets(plan, sets, order, (k - 1) as nat);
        let before = plan.run(sets, order, (k - 1) as nat).sets;
        let after = plan.run(sets, order, k).sets;
        let i = order[k - 1];
        assert(after =~= before.update(i, after[i]));
        assert forall|m: int| 0 <= m < sets.len() implies {
            let a = #[trigger] after[m];
            a == SwitchingSetView {
                selected_track: a.selected_track,
                last_update_ms: a.last_update_ms,
                ..sets[m]
            }
        } by {
            assert(before[m] == SwitchingSetView {
                selected_track: before[m].selected_track,
                last_update_ms: before[m].last_update_ms,
                ..sets[m]
            });
        }
    }
}

/// The throughput of the selections of the first `k` sets of `order`.
pub open spec fn selected_throughput(
    sets: Seq<SwitchingSetView>,
    order: Seq<int>,
    k: nat,
) -> int
    decreases k,
{
    if k == 0 {
        0
    } else {
        selected_throughput(sets, order, (k - 1) as nat) + match sets[order[k - 1]].selected() {
            Some(t) => t.throughput_kbps as int,
            None => 0,
        }
    }
}

proof fn lemma_selected_throughput_frame(
    a: Seq<SwitchingSetView>,
    b: Seq<SwitchingSetView>,
    order: Seq<int>,
    k: nat,
)
    requires
        k <= order.len(),
        forall|j: int| 0 <= j < k ==> a[#[trigger] order[j]] == b[order[j]],
    ensures
        selected_throughput(a, order, k) == selected_throughput(b, order, k),
    decreases k,
{
    if k > 0 {
        lemma_selected_throughput_frame(a, b, order, (k - 1) as nat);
        assert(a[order[k - 1]] == b[order[k - 1]]);
    }
}

/// Where no set has a selection yet, the tracks that a pass selects fit together within
/// the bandwidth, and what it leaves over is the rest of it.
pub proof fn law_first_selection_fits_bandwidth(
    plan: SelectionPlan,
    sets: Seq<SwitchingSetView>,
    order: Seq<int>,
    k: nat,
)
    requires
        plan.sum_fractions > 0,
        is_turn_order(sets, order, sets.len() as int),
        forall|i: int| 0 <= i < sets.len() ==> (#[trigger] sets[i]).selected() is None,
        k <= order.len(),
    ensures
        plan.run(sets, order, k).remaining_kbps >= 0,
        selected_throughput(plan.run(sets, order, k).sets, order, k) + plan.run(
            sets,
            order,
            k,
        ).remaining_kbps == plan.bandwidth_kbps,
        forall|j: int|
            k <= j < order.len() ==> plan.run(sets, order, k).sets[#[trigger] order[j]]
                == sets[order[j]],
    decreases k,
{
    if k > 0 {
        let p = (k - 1) as nat;
        law_first_selection_fits_bandwidth(plan, sets, order, p);
        law_pass_keeps_sets(plan, sets, order, p);
        let before = plan.run(sets, order, p);
        let after = plan.run(sets, order, k);
        let i = order[k - 1];
        let set = before.sets[i];
        assert(set == sets[order[p as int]]);
        assert(sets[i].selected() is None);
        let allocated = plan.allocation(set, before.remaining_kbps);
        lemma_first_fit(set.tracks, allocated, set.tracks.len());
        assert(after.sets[i] == set.selected_for(allocated, plan.now_ms));
        assert forall|j: int| 0 <= j < p implies before.sets[#[trigger] order[j]]
            == after.sets[order[j]] by {
            assert(turn_before(sets, order[j], order[p as int]));
        }
        lemma_selected_throughput_frame(before.sets, after.sets, order, p);
        assert forall|j: int| k <= j < order.len() implies after.sets[#[trigger] order[j]]
            == sets[order[j]] by {
            assert(turn_before(sets, order[p as int], order[j]));
            assert(before.sets[order[j]] == sets[order[j]]);
        }
    }
}


/// Registering a track leaves its set in place, active if it was or if the assignment
/// activates it.
pub proof fn law_registered_set_is_there(
    state: SubscriberDtsView,
    track: DtsTrackView,
    assignment: SwitchingSetAssignment,
    now_ms: u64,
)
    requires
        state.wf(),
    ensures
        ({
            let registered = state.registered(track, assignment, now_ms);
            match registered.set_position(assignment.set_id) {
                Some(i) => {
                    &&& 0 <= i < registered.sets.len()
                    &&& registered.sets[i].set_id == assignment.set_id
                    &&& registered.sets[i].active == (assignment.activate || match state.set_position(
                        assignment.set_id,
                    ) {
                        Some(j) => state.sets[j].active,
                        None => false,
                    })
                },
                None => false,
            }
        }),
{
    let registered = state.registered(track, assignment, now_ms);
    lemma_find_set(state.sets, assignment.set_id, state.sets.len());
    lemma_find_set(registered.sets, assignment.set_id, registered.sets.len());
    let at = match state.set_position(assignment.set_id) {
        Some(j) => j,
        None => state.sets.len() as int,
    };
    assert(registered.sets[at].set_id == assignment.set_id);
    let i = registered.set_position(assignment.set_id)->0;
    assert(i == at) by {
        if i < at {
            assert(registered.sets[i].set_id != registered.sets[at].set_id);
        } else if at < i {
            assert(registered.sets[at].set_id != registered.sets[i].set_id);
        }
    }
}

/// A set gives a track up once its allocation lies below the throughput by more than the margin, and
/// needs the headroom on top of the throughput to go up to a track; both are percentages of the
/// throughput, rounded down.
pub proof fn law_thresholds_are_percentages(config: DtsTrackerConfig, kbps: u64)
    ensures
        ({
            let margin = kbps - downswitch_threshold(config, kbps);
            let headroom = upswitch_threshold(config, kbps) - kbps;
            &&& config.downswitch_margin_pct <= 100 ==> margin * 100 <= kbps
                * config.downswitch_margin_pct < (margin + 1) * 100
            &&& headroom * 100 <= kbps * config.upswitch_headroom_pct < (headroom + 1) * 100
            &&& downswitch_threshold(config, kbps) <= kbps <= upswitch_threshold(config, kbps)
            &&& downswitch_threshold(config, kbps) >= 0
        }),
{
    assert(config.downswitch_margin_pct <= 100 ==> kbps * config.downswitch_margin_pct <= kbps * 100)
        by (nonlinear_arith);
    assert(kbps * config.upswitch_headroom_pct >= 0) by (nonlinear_arith);
    assert(kbps * config.downswitch_margin_pct >= 0) by (nonlinear_arith);
}

proof fn lemma_next_higher(tracks: Seq<DtsTrackView>, kbps: u64, n: nat)
    requires
        n <= tracks.len(),
    ensures
        match next_higher(tracks, kbps, n) {
            Some(higher) => higher > kbps && (exists|j: int|
                0 <= j < n && (#[trigger] tracks[j]).throughput_kbps == higher) && forall|j: int|
                0 <= j < n && (#[trigger] tracks[j]).throughput_kbps > kbps
                    ==> tracks[j].throughput_kbps >= higher,
            None => forall|j: int|
                0 <= j < n ==> (#[trigger] tracks[j]).throughput_kbps <= kbps,
        },
    decreases n,
{
    if n > 0 {
        lemma_next_higher(tracks, kbps, (n - 1) as nat);
        assert(tracks[n - 1].throughput_kbps == tracks[n - 1].throughput_kbps);
    }
}

proof fn lemma_upswitch_threshold_grows(config: DtsTrackerConfig, a: u64, b: u64)
    requires
        a <= b,
    ensures
        upswitch_threshold(config, a) <= upswitch_threshold(config, b),
{
    let pct = config.upswitch_headroom_pct;
    assert(a * pct <= b * pct) by (nonlinear_arith)
        requires
            a <= b,
    ;
}

/// A set without a selection, or whose allocation lies below the threshold of its track, selects
/// anew. So does one whose allocation reaches the threshold of a higher track, if enough time has
/// passed: it has a higher track then. Otherwise it keeps its track.
pub proof fn law_set_switches_at_its_thresholds(
    plan: SelectionPlan,
    set: SwitchingSetView,
    allocated: int,
    j: int,
)
    requires
        set.wf(),
        0 <= j < set.tracks.len(),
        0 <= allocated,
    ensures
        set.selected_track is None ==> plan.served(set, allocated) == set.selected_for(
            allocated,
            plan.now_ms,
        ),
        set.selected_track matches Some(s) ==> {
            let current = set.tracks[s].throughput_kbps;
            let after = plan.served(set, allocated);
            &&& allocated < downswitch_threshold(plan.config, current) ==> after
                == set.selected_for(allocated, plan.now_ms) && (after.selected() matches Some(t)
                ==> t.throughput_kbps < current)
            &&& plan.may_upswitch && set.tracks[j].throughput_kbps > current && allocated
                >= upswitch_threshold(plan.config, set.tracks[j].throughput_kbps) ==> {
                &&& after.selected() matches Some(t) && t.throughput_kbps >= set.tracks[j].throughput_kbps
                &&& after == set.selected_for(allocated, plan.now_ms)
            }
            &&& !plan.may_upswitch && allocated >= downswitch_threshold(plan.config, current)
                ==> after == set
        },
{
    lemma_first_fit(set.tracks, allocated, set.tracks.len());
    if set.selected_track is Some {
        let current = set.tracks[set.selected_track->0].throughput_kbps;
        law_thresholds_are_percentages(plan.config, current);
        lemma_next_higher(set.tracks, current, set.tracks.len());
        let target = set.tracks[j].throughput_kbps;
        if target > current {
            let higher = next_higher(set.tracks, current, set.tracks.len())->0;
            lemma_upswitch_threshold_grows(plan.config, higher, target);
            law_thresholds_are_percentages(plan.config, target);
            law_selects_highest_fitting(set, allocated, plan.now_ms);
        }
    }
}

/// A set is given its share of the bandwidth, rounded down, as long as so much is left, and what is
/// left otherwise. The selected track is taken from what is left, which never falls below zero.
pub proof fn law_sets_are_given_their_share(
    plan: SelectionPlan,
    set: SwitchingSetView,
    remaining: int,
    after: SwitchingSetView,
)
    requires
        plan.sum_fractions > 0,
        remaining >= 0,
    ensures
        ({
            let given = plan.allocation(set, remaining);
            &&& given <= remaining
            &&& given * plan.sum_fractions <= plan.bandwidth_kbps * set.fraction
            &&& given < remaining ==> plan.bandwidth_kbps * set.fraction < (given + 1)
                * plan.sum_fractions
        }),
        after.selected() is None ==> plan.left_over(remaining, after) == remaining,
        after.selected() matches Some(t) ==> plan.left_over(remaining, after) == if remaining
            >= t.throughput_kbps {
            remaining - t.throughput_kbps
        } else {
            0
        },
{
    let share = plan.bandwidth_kbps * set.fraction;
    let sum = plan.sum_fractions;
    let target = share / sum;
    vstd::arithmetic::div_mod::lemma_fundamental_div_mod(share, sum);
    vstd::arithmetic::div_mod::lemma_mod_bound(share, sum);
    let given = plan.allocation(set, remaining);
    assert(given * sum <= target * sum) by (nonlinear_arith)
        requires
            given <= target,
            sum > 0,
    ;
    assert((given + 1) * sum == given * sum + sum) by (nonlinear_arith);
    assert(sum * target == target * sum) by (nonlinear_arith);
}

/// A switch up has to wait for the least interval after the last switch.
pub proof fn law_switching_up_waits(state: SubscriberDtsView, config: DtsTrackerConfig, now_ms: u64)
    ensures
        state.may_upswitch(config, now_ms) <==> state.last_switch_ms is None
            || state.last_switch_ms->0 + config.min_switch_interval_ms <= now_ms,
        state.plan(config, now_ms).may_upswitch == state.may_upswitch(config, now_ms),
        state.plan(config, now_ms).bandwidth_kbps == state.bandwidth_kbps,
{
}

/// Every active set with tracks has one turn, and sets of a lower rank number have theirs first.
pub proof fn law_active_sets_have_their_turn(
    sets: Seq<SwitchingSetView>,
    order: Seq<int>,
    i: int,
    j: int,
    k: int,
)
    requires
        is_turn_order(sets, order, sets.len() as int),
        0 <= i < sets.len(),
    ensures
        order.contains(i) <==> sets[i].active && sets[i].tracks.len() > 0,
        0 <= j < k < order.len() ==> sets[order[j]].rank <= sets[order[k]].rank && order[j]
            != order[k],
{
    if order.contains(i) {
        let p = choose|p: int| 0 <= p < order.len() && order[p] == i;
        assert(takes_part(sets[order[p]]));
    }
    if sets[i].active && sets[i].tracks.len() > 0 {
        assert(takes_part(sets[i]));
    }
    if 0 <= j < k < order.len() {
        assert(turn_before(sets, order[j], order[k]));
    }
}

/// The fractions of active sets count, and no others.
pub proof fn law_active_fractions_count(sets: Seq<SwitchingSetView>, set: SwitchingSetView)
    ensures
        sum_of_fractions(seq![]) == 0,
        sum_of_fractions(sets.push(set)) == sum_of_fractions(sets) + if set.active {
            set.fraction as int
        } else {
            0
        },
{
    assert(sets.push(set).drop_last() =~= sets);
}

/// Without bandwidth nothing is selected and nothing changes. The time of the last switch is that of
/// a selection that switched a track, and stays otherwise.
pub proof fn law_selection_notes_switches(
    before: SubscriberDtsView,
    config: DtsTrackerConfig,
    now_ms: u64,
    after: SubscriberDtsView,
    change: SelectionChangeView,
)
    requires
        before.selects(config, now_ms, after, change),
    ensures
        before.bandwidth_kbps == 0 ==> after == before && change.newly_selected.len() == 0
            && change.deselected.len() == 0 && change.switched.len() == 0,
        change.switched.len() > 0 ==> after.last_switch_ms == Some(now_ms),
        change.switched.len() == 0 ==> after.last_switch_ms == before.last_switch_ms,
        after.bandwidth_kbps == before.bandwidth_kbps,
{
}

/// A change tells of a set once if its selection is another one: as newly selected if it had none,
/// as deselected if it has none any more, and else as switched from one track to another.
pub proof fn law_change_tells_what_changed(
    plan: SelectionPlan,
    change: SelectionChangeView,
    before: SwitchingSetView,
    after: SwitchingSetView,
    allocated: int,
)
    requires
        before.wf(),
        after.wf(),
        before.tracks == after.tracks,
    ensures
        ({
            let told = plan.noted(change, before, after, allocated);
            &&& before.selected_track == after.selected_track ==> told == change
            &&& before.selected_track is None && after.selected_track is Some ==> {
                let last = told.newly_selected.last();
                &&& told.newly_selected.len() == change.newly_selected.len() + 1
                &&& last.set_id == before.set_id
                &&& last.track == after.tracks[after.selected_track->0]
                &&& last.allocated_kbps == allocated
                &&& told.deselected == change.deselected
                &&& told.switched == change.switched
            }
            &&& before.selected_track is Some && after.selected_track is None ==> {
                &&& told.deselected == change.deselected.push(
                    (before.set_id, before.tracks[before.selected_track->0]),
                )
                &&& told.newly_selected == change.newly_selected
                &&& told.switched == change.switched
            }
            &&& before.selected_track is Some && after.selected_track is Some
                && before.tracks[before.selected_track->0].subscription_id
                != after.tracks[after.selected_track->0].subscription_id ==> {
                let last = told.switched.last();
                &&& told.switched.len() == change.switched.len() + 1
                &&& last.0.set_id == before.set_id
                &&& last.0.track == after.tracks[after.selected_track->0]
                &&& last.1 == before.tracks[before.selected_track->0]
                &&& told.newly_selected == change.newly_selected
                &&& told.deselected == change.deselected
            }
        }),
{
}

/// A track that is put into a set is there, with the others, and the highest throughput still comes
/// first.
pub proof fn law_added_track_is_in_the_set(
    set: SwitchingSetView,
    track: DtsTrackView,
    other: DtsTrackView,
)
    requires
        set.sorted(),
    ensures
        set.with_track(track).tracks.len() == set.tracks.len() + 1,
        set.with_track(track).tracks.contains(other) <==> set.tracks.contains(other) || other
            == track,
        set.with_track(track).sorted(),
        set.with_track(track).set_id == set.set_id,
        set.with_track(track).active == set.active,
{
    let p = set.insert_position(track.throughput_kbps);
    lemma_first_fit(set.tracks, track.throughput_kbps as int, set.tracks.len());
    let after = set.tracks.insert(p, track);
    assert(after[p] == track);
    if set.tracks.contains(other) {
        let i = choose|i: int| 0 <= i < set.tracks.len() && set.tracks[i] == other;
        if i < p {
            assert(after[i] == other);
        } else {
            assert(after[i + 1] == other);
        }
    }
    if after.contains(other) && other != track {
        let i = choose|i: int| 0 <= i < after.len() && after[i] == other;
        if i < p {
            assert(set.tracks[i] == other);
        } else {
            assert(set.tracks[i - 1] == other);
        }
    }
    assert forall|i: int, j: int| 0 <= i <= j < after.len() implies (
    #[trigger] after[i]).throughput_kbps >= (#[trigger] after[j]).throughput_kbps by {
        let a = if i < p {
            i
        } else {
            i - 1
        };
        let b = if j < p {
            j
        } else {
            j - 1
        };
        if i != p && j != p {
            assert(set.tracks[a].throughput_kbps >= set.tracks[b].throughput_kbps);
        } else if i == p && j != p {
            assert(set.tracks[p].throughput_kbps >= set.tracks[b].throughput_kbps);
        } else if i != p {
            assert(set.tracks[a].throughput_kbps > track.throughput_kbps);
        }
    }
}

/// A set whose track is taken out keeps its selection, unless it is that track.
pub proof fn law_selection_follows_its_track(set: SwitchingSetView, pos: int)
    requires
        set.wf(),
        0 <= pos < set.tracks.len(),
    ensures
        set.selected_track == Some(pos) ==> set.without_track_at(pos).selected() is None,
        set.selected_track != Some(pos) ==> set.without_track_at(pos).selected() == set.selected(),
        set.without_track_at(pos).tracks == set.tracks.take(pos) + set.tracks.skip(pos + 1),
{
    assert(set.tracks.remove(pos) =~= set.tracks.take(pos) + set.tracks.skip(pos + 1));
}

/// A track is registered in the set of its assignment, which has the fraction and the rank that the
/// assignment gives. The other sets stay as they are.
pub proof fn law_registered_track_is_in_its_set(
    state: SubscriberDtsView,
    track: DtsTrackView,
    assignment: SwitchingSetAssignment,
    now_ms: u64,
    other: int,
)
    requires
        state.wf(),
    ensures
        ({
            let after = state.registered(track, assignment, now_ms);
            &&& exists|i: int|
                0 <= i < after.sets.len() && (#[trigger] after.sets[i]).set_id == assignment.set_id
                    && after.sets[i].tracks.contains(track) && after.sets[i].fraction
                    == assignment.fraction && after.sets[i].rank == (match assignment.rank {
                    Some(rank) => rank,
                    None => 0,
                }) && (assignment.activate ==> after.sets[i].active)
            &&& after.sets.len() >= state.sets.len()
            &&& 0 <= other < state.sets.len() && state.sets[other].set_id != assignment.set_id
                ==> after.sets[other] == state.sets[other]
            &&& 0 <= other < state.sets.len() && state.sets[other].set_id == assignment.set_id
                ==> (state.sets[other].active ==> after.sets[other].active)
                && after.sets[other].tracks.len() == state.sets[other].tracks.len() + 1
            &&& after.bandwidth_kbps == state.bandwidth_kbps
            &&& after.last_switch_ms == state.last_switch_ms
        }),
{
    let after = state.registered(track, assignment, now_ms);
    lemma_find_set(state.sets, assignment.set_id, state.sets.len());
    let at = match state.set_position(assignment.set_id) {
        Some(i) => i,
        None => state.sets.len() as int,
    };
    let base = match state.set_position(assignment.set_id) {
        Some(i) => SwitchingSetView {
            fraction: assignment.fraction,
            rank: assignment.rank_or_default(),
            active: state.sets[i].active || assignment.activate,
            ..state.sets[i]
        },
        None => SwitchingSetView {
            set_id: assignment.set_id,
            fraction: assignment.fraction,
            rank: assignment.rank_or_default(),
            tracks: Seq::empty(),
            selected_track: None,
            active: assignment.activate,
            last_update_ms: now_ms,
        },
    };
    assert(base.sorted()) by {
        if at < state.sets.len() {
            assert(state.sets[at].sorted());
        }
    }
    law_added_track_is_in_the_set(base, track, track);
    assert(after.sets[at] == base.with_track(track));
    assert(after.sets[at].set_id == assignment.set_id);
    if 0 <= other < state.sets.len() && state.sets[other].set_id == assignment.set_id {
        assert(other == at) by {
            if other < at {
                assert(state.sets[other].set_id != state.sets[at].set_id);
            } else if at < other {
                assert(state.sets[at].set_id != state.sets[other].set_id);
            }
        }
    }
}

/// Activating a set makes that set active, and changes nothing else.
pub proof fn law_activation_is_of_one_set(state: SubscriberDtsView, set_id: u64, i: int)
    requires
        state.wf(),
        0 <= i < state.sets.len(),
    ensures
        ({
            let after = state.activated(set_id);
            &&& after.sets.len() == state.sets.len()
            &&& state.sets[i].set_id == set_id ==> after.sets[i].active
            &&& state.sets[i].set_id != set_id ==> after.sets[i] == state.sets[i]
            &&& after.sets[i].tracks == state.sets[i].tracks
            &&& after.sets[i].selected_track == state.sets[i].selected_track
            &&& after.bandwidth_kbps == state.bandwidth_kbps
        }),
{
    lemma_find_set(state.sets, set_id, state.sets.len());
    if state.sets[i].set_id == set_id {
        let at = state.set_position(set_id)->0;
        if i < at {
            assert(state.sets[i].set_id != state.sets[at].set_id);
        } else if at < i {
            assert(state.sets[at].set_id != state.sets[i].set_id);
        }
    }
}

proof fn lemma_active_selections(
    sets: Seq<SwitchingSetView>,
    n: nat,
    selection: TrackSelectionView,
)
    requires
        n <= sets.len(),
    ensures
        active_selections(sets, n).contains(selection) <==> exists|i: int|
            0 <= i < n && (#[trigger] sets[i]).active && sets[i].set_id == selection.set_id
                && sets[i].selected() == Some(selection.track) && selection.allocated_kbps
                == selection.track.throughput_kbps,
    decreases n,
{
    if n > 0 {
        lemma_active_selections(sets, (n - 1) as nat, selection);
        let before = active_selections(sets, (n - 1) as nat);
        let after = active_selections(sets, n);
        let set = sets[n - 1];
        if before.contains(selection) {
            let q = choose|q: int| 0 <= q < before.len() && before[q] == selection;
            assert(after[q] == selection);
        }
        if set.selected() is Some && set.active {
            assert(after[before.len() as int] == after.last());
        }
        if after.contains(selection) {
            let q = choose|q: int| 0 <= q < after.len() && after[q] == selection;
            if q < before.len() {
                assert(before[q] == selection);
            } else {
                assert(sets[n - 1].active);
            }
        }
    }
}

/// The selections of a subscriber are those of the active sets that have one: the track at the place
/// that is selected, with its throughput.
pub proof fn law_selections_are_of_active_sets(
    state: SubscriberDtsView,
    selection: TrackSelectionView,
)
    requires
        state.wf(),
    ensures
        active_selections(state.sets, state.sets.len()).contains(selection) <==> exists|i: int|
            0 <= i < state.sets.len() && (#[trigger] state.sets[i]).active && state.sets[i].set_id
                == selection.set_id && state.sets[i].selected_track is Some
                && state.sets[i].tracks[state.sets[i].selected_track->0] == selection.track
                && selection.allocated_kbps == selection.track.throughput_kbps,
{
    lemma_active_selections(state.sets, state.sets.len(), selection);
    if active_selections(state.sets, state.sets.len()).contains(selection) {
        let i = choose|i: int|
            0 <= i < state.sets.len() && (#[trigger] state.sets[i]).active && state.sets[i].set_id
                == selection.set_id && state.sets[i].selected() == Some(selection.track)
                && selection.allocated_kbps == selection.track.throughput_kbps;
        assert(state.sets[i].active);
    }
    if exists|i: int|
        0 <= i < state.sets.len() && (#[trigger] state.sets[i]).active && state.sets[i].set_id
            == selection.set_id && state.sets[i].selected_track is Some
            && state.sets[i].tracks[state.sets[i].selected_track->0] == selection.track
            && selection.allocated_kbps == selection.track.throughput_kbps {
        let i = choose|i: int|
            0 <= i < state.sets.len() && (#[trigger] state.sets[i]).active && state.sets[i].set_id
                == selection.set_id && state.sets[i].selected_track is Some
                && state.sets[i].tracks[state.sets[i].selected_track->0] == selection.track
                && selection.allocated_kbps == selection.track.throughput_kbps;
        assert(state.sets[i].wf());
    }
}

/// The selection for a set is that of the set with the id, if it is active.
pub proof fn law_selection_is_by_set_id(state: SubscriberDtsView, i: int)
    requires
        state.wf(),
        0 <= i < state.sets.len(),
    ensures
        ({
            let set = state.sets[i];
            match state.selection_for_set(set.set_id) {
                Some(selection) => set.active && set.selected_track is Some && selection.track
                    == set.tracks[set.selected_track->0] && selection.set_id == set.set_id
                    && selection.allocated_kbps == selection.track.throughput_kbps,
                None => !set.active || set.selected_track is None,
            }
        }),
{
    let set_id = state.sets[i].set_id;
    lemma_find_set(state.sets, set_id, state.sets.len());
    let at = state.set_position(set_id)->0;
    if i < at {
        assert(state.sets[i].set_id != state.sets[at].set_id);
    } else if at < i {
        assert(state.sets[at].set_id != state.sets[i].set_id);
    }
    assert(state.sets[i].wf());
}

/// A subscription is found in a set exactly if a track of some set carries it, and is selected
/// exactly if the selected track of some set carries it.
pub proof fn law_subscriptions_are_found(state: SubscriberDtsView, subscription_id: u64)
    requires
        state.wf(),
    ensures
        match state.subscription_position(subscription_id) {
            Some(i) => {
                let pos = state.track_position(i, subscription_id);
                &&& 0 <= i < state.sets.len()
                &&& 0 <= pos < state.sets[i].tracks.len()
                &&& state.sets[i].tracks[pos].subscription_id == subscription_id
                &&& state.removes_selected(subscription_id) <==> state.sets[i].selected_track
                    == Some(pos)
            },
            None => (forall|i: int, j: int|
                0 <= i < state.sets.len() && 0 <= j < state.sets[i].tracks.len() ==> (
                #[trigger] state.sets[i].tracks[j]).subscription_id != subscription_id)
                && !state.removes_selected(subscription_id),
        },
        state.subscription_selected(subscription_id) <==> exists|i: int|
            0 <= i < state.sets.len() && (#[trigger] state.sets[i]).selected_track is Some
                && state.sets[i].tracks[state.sets[i].selected_track->0].subscription_id
                == subscription_id,
{
    lemma_find_subscription(state.sets, subscription_id, state.sets.len());
    match state.subscription_position(subscription_id) {
        Some(i) => {
            lemma_first_with_id(
                state.sets[i].tracks,
                subscription_id,
                state.sets[i].tracks.len(),
            );
        },
        None => {
            assert forall|i: int, j: int|
                0 <= i < state.sets.len() && 0 <= j < state.sets[i].tracks.len() implies (
            #[trigger] state.sets[i].tracks[j]).subscription_id != subscription_id by {
                assert(!state.sets[i].has_subscription(subscription_id));
                lemma_first_with_id(
                    state.sets[i].tracks,
                    subscription_id,
                    state.sets[i].tracks.len(),
                );
            }
        },
    }
    if state.subscription_selected(subscription_id) {
        let i = choose|i: int|
            0 <= i < state.sets.len() && (#[trigger] state.sets[i]).selects_subscription(
                subscription_id,
            );
        assert(state.sets[i].wf());
    }
    if exists|i: int|
        0 <= i < state.sets.len() && (#[trigger] state.sets[i]).selected_track is Some
            && state.sets[i].tracks[state.sets[i].selected_track->0].subscription_id
            == subscription_id {
        let i = choose|i: int|
            0 <= i < state.sets.len() && (#[trigger] state.sets[i]).selected_track is Some
                && state.sets[i].tracks[state.sets[i].selected_track->0].subscription_id
                == subscription_id;
        assert(state.sets[i].wf());
        assert(state.sets[i].selects_subscription(subscription_id));
    }
}

/// A subscriber with one active set and no selection gets the track of the highest throughput that
/// the bandwidth allows, and none only if no track fits.
pub proof fn law_one_set_gets_all_the_bandwidth(
    before: SubscriberDtsView,
    config: DtsTrackerConfig,
    now_ms: u64,
    after: SubscriberDtsView,
    change: SelectionChangeView,
    j: int,
)
    requires
        before.wf(),
        before.sets.len() == 1,
        before.sets[0].active,
        before.sets[0].selected_track is None,
        before.sets[0].fraction > 0,
        before.bandwidth_kbps > 0,
        0 <= j < before.sets[0].tracks.len(),
        before.selects(config, now_ms, after, change),
    ensures
        after.sets.len() == 1,
        after.sets[0].tracks == before.sets[0].tracks,
        after.sets[0].selected_track matches Some(s) ==> 0 <= s < before.sets[0].tracks.len()
            && before.sets[0].tracks[s].throughput_kbps <= before.bandwidth_kbps
            && change.newly_selected.len() == 1,
        before.sets[0].tracks[j].throughput_kbps <= before.bandwidth_kbps
            ==> after.sets[0].selected_track is Some
            && before.sets[0].tracks[after.sets[0].selected_track->0].throughput_kbps
            >= before.sets[0].tracks[j].throughput_kbps,
{
    let sets = before.sets;
    let plan = before.plan(config, now_ms);
    assert(sets.drop_last() =~= Seq::<SwitchingSetView>::empty());
    assert(sum_of_fractions(sets) == sets[0].fraction) by {
        assert(sum_of_fractions(sets.drop_last()) == 0);
    }
    let order = choose|order: Seq<int>| #[trigger]
        is_turn_order(sets, order, sets.len() as int) && {
            let done = plan.run(sets, order, order.len());
            &&& change == done.change
            &&& after == SubscriberDtsView {
                sets: done.sets,
                last_switch_ms: if done.change.switched.len() > 0 {
                    Some(now_ms)
                } else {
                    before.last_switch_ms
                },
                ..before
            }
        };
    assert(takes_part(sets[0]));
    assert(order.contains(0));
    let p = choose|p: int| 0 <= p < order.len() && order[p] == 0;
    if order.len() > 1 {
        assert(order[0] == 0 && order[1] == 0);
        assert(turn_before(sets, order[0], order[1]));
    }
    assert(order.len() == 1);
    let start = plan.run(sets, order, 0);
    assert(plan.run(sets, order, 1) == plan.turn(start, order[0]));
    let bandwidth = before.bandwidth_kbps as int;
    let fraction = sets[0].fraction as int;
    assert(bandwidth * fraction / fraction == bandwidth) by {
        vstd::arithmetic::div_mod::lemma_div_by_multiple(bandwidth, fraction);
    }
    assert(plan.allocation(sets[0], bandwidth) == bandwidth);
    assert(sets[0].sorted());
    law_selects_highest_fitting(sets[0], bandwidth, now_ms);
    lemma_first_fit(sets[0].tracks, bandwidth, sets[0].tracks.len());
}

/// The active sets and the tracks of all sets are counted, each once.
pub proof fn law_sets_and_tracks_are_counted(sets: Seq<SwitchingSetView>, n: nat)
    requires
        n <= sets.len(),
    ensures
        active_count(sets, n) == sets.take(n as int).filter(|s: SwitchingSetView| s.active).len(),
        track_count(sets, n) == sets.take(n as int).fold_left(
            0nat,
            |sum: nat, s: SwitchingSetView| sum + s.tracks.len(),
        ),
    decreases n,
{
    reveal(Seq::filter);
    let first = sets.take(n as int);
    if n > 0 {
        law_sets_and_tracks_are_counted(sets, (n - 1) as nat);
        assert(first.drop_last() =~= sets.take(n - 1));
        assert(first.last() == sets[n - 1]);
    }
}

/// Of every set with a selected track its track is listed, with the set and the throughput, and of
/// no other set.
pub proof fn law_selected_tracks_are_listed(sets: Seq<SwitchingSetView>, n: nat)
    requires
        n <= sets.len(),
    ensures
        forall|i: int|
            0 <= i < n && (#[trigger] sets[i]).selected() is Some ==> exists|k: int|
                0 <= k < selected_names(sets, n).len() && names_selected(
                    #[trigger] selected_names(sets, n)[k],
                    sets[i],
                ),
        forall|k: int|
            0 <= k < selected_names(sets, n).len() ==> exists|i: int|
                0 <= i < n && names_selected(
                    #[trigger] selected_names(sets, n)[k],
                    #[trigger] sets[i],
                ),
        selected_names(sets, n).len() <= n,
    decreases n,
{
    if n > 0 {
        law_selected_tracks_are_listed(sets, (n - 1) as nat);
        let before = selected_names(sets, (n - 1) as nat);
        let after = selected_names(sets, n);
        assert forall|i: int| 0 <= i < n && (#[trigger] sets[i]).selected() is Some implies exists|
            k: int,
        |
            0 <= k < after.len() && names_selected(#[trigger] after[k], sets[i]) by {
            if i == n - 1 {
                assert(names_selected(after[before.len() as int], sets[i]));
            } else {
                let k = choose|k: int|
                    0 <= k < before.len() && names_selected(#[trigger] before[k], sets[i]);
                assert(after[k] == before[k]);
            }
        }
        assert forall|k: int| 0 <= k < after.len() implies exists|i: int|
            0 <= i < n && names_selected(#[trigger] after[k], #[trigger] sets[i]) by {
            if k < before.len() {
                assert(after[k] == before[k]);
                let i = choose|i: int|
                    0 <= i < n - 1 && names_selected(#[trigger] before[k], #[trigger] sets[i]);
                assert(names_selected(after[k], sets[i]));
            } else {
                assert(names_selected(after[k], sets[n - 1]));
            }
        }
    }
}

/// A set has a selected track, which is named with the set and its throughput.
pub open spec fn names_selected(named: (u64, Seq<char>, u64), set: SwitchingSetView) -> bool {
    set.selected_track matches Some(i) && 0 <= i < set.tracks.len() && named.0 == set.set_id
        && named.1 == set.tracks[i].track_name && named.2 == set.tracks[i].throughput_kbps
}

/// A track that is taken out of a set is gone, the others stay in their order, and the selected one
/// stays selected unless it is the one that is gone. Other sets are not touched.
pub proof fn law_removed_track_leaves_its_set(
    state: SubscriberDtsView,
    i: int,
    pos: int,
    other: int,
)
    requires
        0 <= i < state.sets.len(),
        0 <= pos < state.sets[i].tracks.len(),
        state.sets[i].selected_track matches Some(s) ==> 0 <= s < state.sets[i].tracks.len(),
        0 <= other < state.sets.len(),
        other != i,
    ensures
        ({
            let set = state.sets[i];
            let rest = state.without_track(i, pos);
            let now = rest.sets[i];
            &&& rest.sets.len() == state.sets.len()
            &&& rest.sets[other] == state.sets[other]
            &&& now.tracks == set.tracks.take(pos) + set.tracks.skip(pos + 1)
            &&& set.selected_track == Some(pos) ==> now.selected() is None
            &&& set.selected_track != Some(pos) ==> now.selected() == set.selected()
            &&& now.set_id == set.set_id && now.active == set.active
            &&& rest.bandwidth_kbps == state.bandwidth_kbps
        }),
{
    let set = state.sets[i];
    let now = state.without_track(i, pos).sets[i];
    assert(now.tracks =~= set.tracks.take(pos) + set.tracks.skip(pos + 1));
}

/// When a track is removed, the tracks are selected anew exactly if it was the selected one of its
/// set.
pub proof fn law_removal_of_the_selected_selects_anew(
    state: SubscriberDtsView,
    subscription_id: u64,
    config: DtsTrackerConfig,
    now_ms: u64,
    after: SubscriberDtsView,
    i: int,
)
    requires
        state.subscription_position(subscription_id) == Some(i),
        state.removal_selects(subscription_id, config, now_ms, after),
    ensures
        ({
            let pos = state.track_position(i, subscription_id);
            let rest = state.without_track(i, pos);
            &&& state.sets[i].selected_track != Some(pos) ==> after == rest
            &&& state.sets[i].selected_track == Some(pos) ==> exists|change: SelectionChangeView|
                #[trigger]
                rest.selects(config, now_ms, after, change)
        }),
{
}

/// Unless told otherwise, a set waits two seconds before it switches up again, wants 15 percent more
/// than it needs to switch up, bears 20 percent less before it switches down, and logs nothing.
pub proof fn law_standard_switching_is_cautious()
    ensures
        ({
            let config = DtsTrackerConfig::standard();
            &&& config.min_switch_interval_ms == 2 * 1000
            &&& config.upswitch_headroom_pct == 15
            &&& config.downswitch_margin_pct == 20
            &&& !config.enable_logging
        }),
{
}

} // verus!
