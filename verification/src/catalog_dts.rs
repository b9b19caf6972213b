//! Switching sets out of catalogs. Tracks of one alternative group are alternatives to each other.

use vstd::prelude::*;
use crate::dts_tracker::SwitchingSetAssignment;
use crate::text::text_eq;

verus! {

/// A track of a catalog, as far as switching sets need it.
#[derive(Debug)]
pub struct Track {
    pub name: String,
    pub alt_group: Option<u16>,
    /// In bit/s.
    pub bitrate: Option<u32>,
}

/// A track of a catalog, as far as switching sets need it.
#[verifier::ext_equal]
pub struct TrackView {
    pub name: Seq<char>,
    pub alt_group: Option<u16>,
    pub bitrate: Option<u32>,
}

impl View for Track {
    type V = TrackView;

    open spec fn view(&self) -> TrackView {
        TrackView { name: self.name@, alt_group: self.alt_group, bitrate: self.bitrate }
    }
}

/// The contents of a catalog.
pub open spec fn catalog_view(catalog: Seq<Track>) -> Seq<TrackView> {
    catalog.map_values(|track: Track| track@)
}

/// A track of a switching set.
#[derive(Debug)]
pub struct CatalogTrack {
    pub name: String,
    /// In kbit/s.
    pub throughput_kbps: u64,
    /// In bit/s.
    pub bitrate_bps: u32,
}

/// A track of a switching set.
#[verifier::ext_equal]
pub struct CatalogTrackView {
    pub name: Seq<char>,
    pub throughput_kbps: u64,
    pub bitrate_bps: u32,
}

impl View for CatalogTrack {
    type V = CatalogTrackView;

    open spec fn view(&self) -> CatalogTrackView {
        CatalogTrackView {
            name: self.name@,
            throughput_kbps: self.throughput_kbps,
            bitrate_bps: self.bitrate_bps,
        }
    }
}

/// The contents of a list of tracks.
pub open spec fn tracks_view(tracks: Seq<CatalogTrack>) -> Seq<CatalogTrackView> {
    tracks.map_values(|track: CatalogTrack| track@)
}

/// The tracks of an alternative group, the best first.
#[derive(Debug)]
pub struct CatalogSwitchingSet {
    pub alt_group: u16,
    pub tracks: Vec<CatalogTrack>,
}

/// The tracks of an alternative group, the best first.
#[verifier::ext_equal]
pub struct SwitchingSetView {
    pub alt_group: u16,
    pub tracks: Seq<CatalogTrackView>,
}

impl View for CatalogSwitchingSet {
    type V = SwitchingSetView;

    open spec fn view(&self) -> SwitchingSetView {
        SwitchingSetView { alt_group: self.alt_group, tracks: tracks_view(self.tracks@) }
    }
}

/// The contents of a list of switching sets.
pub open spec fn sets_view(sets: Seq<CatalogSwitchingSet>) -> Seq<SwitchingSetView> {
    sets.map_values(|set: CatalogSwitchingSet| set@)
}

/// A track of a group, if its bitrate is known.
pub open spec fn is_member(track: TrackView, group: u16) -> bool {
    track.alt_group == Some(group) && track.bitrate is Some
}

/// A track with its bitrate in kbit/s.
pub open spec fn member(track: TrackView) -> CatalogTrackView {
    CatalogTrackView {
        name: track.name,
        throughput_kbps: (track.bitrate->0 / 1000) as u64,
        bitrate_bps: track.bitrate->0,
    }
}

/// The tracks with one more, behind those that are as good.
pub open spec fn placed(tracks: Seq<CatalogTrackView>, track: CatalogTrackView) -> Seq<
    CatalogTrackView,
>
    decreases tracks.len(),
{
    if tracks.len() == 0 || tracks.last().bitrate_bps >= track.bitrate_bps {
        tracks.push(track)
    } else {
        placed(tracks.drop_last(), track).push(tracks.last())
    }
}

/// The tracks of a group among the first `n` of a catalog, the best first. Tracks that are as good
/// as each other stay in the order of the catalog.
pub open spec fn ranked(catalog: Seq<TrackView>, group: u16, n: int) -> Seq<CatalogTrackView>
    decreases n,
{
    if n <= 0 {
        seq![]
    } else if is_member(catalog[n - 1], group) {
        placed(ranked(catalog, group, n - 1), member(catalog[n - 1]))
    } else {
        ranked(catalog, group, n - 1)
    }
}

/// The tracks of a group, the best first.
pub open spec fn group_of(catalog: Seq<TrackView>, group: u16) -> Seq<CatalogTrackView> {
    ranked(catalog, group, catalog.len() as int)
}

/// The switching sets of the groups below `n`, by group. A group of one track is none.
pub open spec fn sets_below(catalog: Seq<TrackView>, n: int) -> Seq<SwitchingSetView>
    decreases n,
{
    if n <= 0 {
        seq![]
    } else if group_of(catalog, (n - 1) as u16).len() > 1 {
        sets_below(catalog, n - 1).push(
            SwitchingSetView {
                alt_group: (n - 1) as u16,
                tracks: group_of(catalog, (n - 1) as u16),
            },
        )
    } else {
        sets_below(catalog, n - 1)
    }
}

/// The switching sets of a catalog, by group.
pub open spec fn switching_sets(catalog: Seq<TrackView>) -> Seq<SwitchingSetView> {
    sets_below(catalog, 0x10000)
}

/// A group without members has no tracks.
proof fn lemma_no_member(catalog: Seq<TrackView>, group: u16, n: int)
    requires
        0 <= n <= catalog.len(),
        forall|i: int| 0 <= i < n ==> !is_member(#[trigger] catalog[i], group),
    ensures
        ranked(catalog, group, n) == Seq::<CatalogTrackView>::empty(),
    decreases n,
{
    if n > 0 {
        lemma_no_member(catalog, group, n - 1);
    }
}

/// One more track is one more in the ranking.
proof fn lemma_placed_len(tracks: Seq<CatalogTrackView>, track: CatalogTrackView)
    ensures
        placed(tracks, track).len() == tracks.len() + 1,
    decreases tracks.len(),
{
    if tracks.len() > 0 && tracks.last().bitrate_bps < track.bitrate_bps {
        lemma_placed_len(tracks.drop_last(), track);
    }
}

/// A group with a member has tracks.
proof fn lemma_some_member(catalog: Seq<TrackView>, group: u16, i: int, n: int)
    requires
        0 <= i < n <= catalog.len(),
        is_member(catalog[i], group),
    ensures
        ranked(catalog, group, n).len() > 0,
    decreases n,
{
    if is_member(catalog[n - 1], group) {
        lemma_placed_len(ranked(catalog, group, n - 1), member(catalog[n - 1]));
    } else {
        lemma_some_member(catalog, group, i, n - 1);
    }
}

/// Puts a track in its place.
fn place(tracks: &mut Vec<CatalogTrack>, track: CatalogTrack)
    ensures
        tracks_view(final(tracks)@) == placed(tracks_view(old(tracks)@), track@),
{
    let ghost all = tracks_view(tracks@);
    let mut at: usize = tracks.len();
    assert(all.take(at as int) =~= all);
    assert(placed(all, track@) + all.skip(at as int) =~= placed(all, track@));
    while at > 0 && tracks[at - 1].bitrate_bps < track.bitrate_bps
        invariant
            at <= tracks@.len(),
            all == tracks_view(tracks@),
            placed(all, track@) == placed(all.take(at as int), track@) + all.skip(at as int),
        decreases at,
    {
        proof {
            let head = all.take(at as int);
            assert(head.last() == tracks@[at - 1]@);
            assert(head.drop_last() =~= all.take(at - 1));
            assert(placed(head, track@) + all.skip(at as int) =~= placed(
                all.take(at - 1),
                track@,
            ) + all.skip(at - 1));
        }
        at -= 1;
    }
    proof {
        let head = all.take(at as int);
        if at > 0 {
            assert(head.last() == tracks@[at - 1]@);
        }
        assert(placed(head, track@) == head.push(track@));
    }
    tracks.insert(at, track);
    assert(tracks_view(tracks@) =~= all.take(at as int).push(track@) + all.skip(at as int));
}

/// The tracks of a group, the best first.
fn collect_group(catalog: &Vec<Track>, group: u16) -> (r: Vec<CatalogTrack>)
    ensures
        tracks_view(r@) == group_of(catalog_view(catalog@), group),
{
    let ghost all = catalog_view(catalog@);
    let mut out: Vec<CatalogTrack> = Vec::new();
    assert(tracks_view(out@) =~= seq![]);
    let mut i: usize = 0;
    while i < catalog.len()
        invariant
            i <= catalog@.len(),
            all == catalog_view(catalog@),
            tracks_view(out@) == ranked(all, group, i as int),
        decreases catalog@.len() - i,
    {
        assert(all[i as int] == catalog@[i as int]@);
        if let (Some(alt_group), Some(bitrate)) = (catalog[i].alt_group, catalog[i].bitrate) {
            if alt_group == group {
                place(
                    &mut out,
                    CatalogTrack {
                        name: catalog[i].name.clone(),
                        throughput_kbps: (bitrate / 1000) as u64,
                        bitrate_bps: bitrate,
                    },
                );
            }
        }
        i += 1;
    }
    out
}

/// The smallest group from `from` on that has a track with a bitrate.
fn next_group(catalog: &Vec<Track>, from: u16) -> (r: Option<u16>)
    ensures
        match r {
            Some(group) => from <= group && group_of(catalog_view(catalog@), group).len() > 0
                && forall|g: u16|
                from <= g < group ==> #[trigger] group_of(catalog_view(catalog@), g).len() == 0,
            None => forall|g: u16|
                from <= g ==> #[trigger] group_of(catalog_view(catalog@), g).len() == 0,
        },
{
    let ghost all = catalog_view(catalog@);
    let mut best: Option<u16> = None;
    let mut i: usize = 0;
    while i < catalog.len()
        invariant
            i <= catalog@.len(),
            all == catalog_view(catalog@),
            match best {
                Some(group) => from <= group && (exists|k: int|
                    0 <= k < i && #[trigger] is_member(all[k], group)) && forall|k: int, g: u16|
                    0 <= k < i && from <= g < group ==> !#[trigger] is_member(all[k], g),
                None => forall|k: int, g: u16|
                    0 <= k < i && from <= g ==> !#[trigger] is_member(all[k], g),
            },
        decreases catalog@.len() - i,
    {
        assert(all[i as int] == catalog@[i as int]@);
        if let (Some(group), Some(_)) = (catalog[i].alt_group, catalog[i].bitrate) {
            if group >= from {
                assert(is_member(all[i as int], group));
                match best {
                    Some(found) => {
                        if group < found {
                            best = Some(group);
                        }
                    },
                    None => {
                        best = Some(group);
                    },
                }
            }
        }
        i += 1;
    }
    proof {
        match best {
            Some(group) => {
                let k = choose|k: int| 0 <= k < all.len() && #[trigger] is_member(all[k], group);
                lemma_some_member(all, group, k, all.len() as int);
                assert forall|g: u16| from <= g < group implies #[trigger] group_of(all, g).len()
                    == 0 by {
                    lemma_no_member(all, g, all.len() as int);
                }
            },
            None => {
                assert forall|g: u16| from <= g implies #[trigger] group_of(all, g).len() == 0 by {
                    lemma_no_member(all, g, all.len() as int);
                }
            },
        }
    }
    best
}

/// Groups without tracks give no sets.
proof fn lemma_empty_groups(catalog: Seq<TrackView>, m: int, n: int)
    requires
        0 <= m <= n <= 0x10000,
        forall|g: u16| m <= g < n ==> #[trigger] group_of(catalog, g).len() == 0,
    ensures
        sets_below(catalog, n) == sets_below(catalog, m),
    decreases n,
{
    if m < n {
        assert(group_of(catalog, (n - 1) as u16).len() == 0);
        lemma_empty_groups(catalog, m, n - 1);
    }
}

/// The switching sets of a catalog. The groups that have more than one track with a bitrate are
/// the sets; the sets come by group, and the tracks of a set by bitrate, the best first.
pub fn extract_switching_sets(catalog: &Vec<Track>) -> (r: Vec<CatalogSwitchingSet>)
    ensures
        sets_view(r@) == switching_sets(catalog_view(catalog@)),
{
    let ghost all = catalog_view(catalog@);
    let mut out: Vec<CatalogSwitchingSet> = Vec::new();
    assert(sets_view(out@) =~= seq![]);
    let mut from: u16 = 0;
    let mut last = false;
    while !last
        invariant
            all == catalog_view(catalog@),
            sets_view(out@) == sets_below(
                all,
                if last {
                    0x10000
                } else {
                    from as int
                },
            ),
        decreases
                if last {
                    0
                } else {
                    0x10000 - from
                },
    {
        match next_group(catalog, from) {
            Some(group) => {
                proof {
                    lemma_empty_groups(all, from as int, group as int);
                }
                let tracks = collect_group(catalog, group);
                if tracks.len() > 1 {
                    let ghost before = sets_view(out@);
                    let set = CatalogSwitchingSet { alt_group: group, tracks };
                    out.push(set);
                    assert(sets_view(out@) =~= before.push(set@));
                }
                assert(sets_view(out@) == sets_below(all, group + 1));
                if group == 0xffff {
                    last = true;
                } else {
                    from = group + 1;
                }
            },
            None => {
                proof {
                    lemma_empty_groups(all, from as int, 0x10000);
                }
                last = true;
            },
        }
    }
    out
}

/// The assignment of a track.
#[derive(Debug)]
pub struct TrackAssignment {
    pub name: String,
    pub assignment: SwitchingSetAssignment,
}

/// The assignments of tracks to switching sets, by the names of the tracks.
#[derive(Debug)]
pub struct DtsParams {
    entries: Vec<TrackAssignment>,
}

/// The assignment of the track at place `i` of a set. The last track activates the set.
pub open spec fn assignment_at(set: SwitchingSetView, i: int) -> SwitchingSetAssignment {
    SwitchingSetAssignment {
        set_id: set.alt_group as u64,
        throughput_kbps: set.tracks[i].throughput_kbps,
        fraction: 10,
        activate: i == set.tracks.len() - 1,
        rank: Some((set.alt_group % 256) as u8),
    }
}

/// The assignments with those of the first `n` tracks of a set.
pub open spec fn with_set(
    params: Map<Seq<char>, SwitchingSetAssignment>,
    set: SwitchingSetView,
    n: int,
) -> Map<Seq<char>, SwitchingSetAssignment>
    decreases n,
{
    if n <= 0 {
        params
    } else {
        with_set(params, set, n - 1).insert(set.tracks[n - 1].name, assignment_at(set, n - 1))
    }
}

/// The assignments of the first `n` sets. Of tracks with one name the last counts.
pub open spec fn params_of(sets: Seq<SwitchingSetView>, n: int) -> Map<
    Seq<char>,
    SwitchingSetAssignment,
>
    decreases n,
{
    if n <= 0 {
        Map::empty()
    } else {
        with_set(params_of(sets, n - 1), sets[n - 1], sets[n - 1].tracks.len() as int)
    }
}

/// The entry at `i` is of a name.
closed spec fn is_entry(entries: Seq<TrackAssignment>, name: Seq<char>, i: int) -> bool {
    0 <= i < entries.len() && entries[i].name@ == name
}

/// The entries by their names.
closed spec fn entries_view(entries: Seq<TrackAssignment>) -> Map<
    Seq<char>,
    SwitchingSetAssignment,
> {
    Map::new(
        |name: Seq<char>| exists|i: int| is_entry(entries, name, i),
        |name: Seq<char>| entries[choose|i: int| is_entry(entries, name, i)].assignment,
    )
}

/// No name occurs twice.
closed spec fn distinct(entries: Seq<TrackAssignment>) -> bool {
    forall|i: int, j: int|
        0 <= i < j < entries.len() ==> (#[trigger] entries[i]).name@ != (#[trigger] entries[j]).name@
}

impl View for DtsParams {
    type V = Map<Seq<char>, SwitchingSetAssignment>;

    closed spec fn view(&self) -> Map<Seq<char>, SwitchingSetAssignment> {
        entries_view(self.entries@)
    }
}

proof fn lemma_entry(entries: Seq<TrackAssignment>, i: int)
    requires
        distinct(entries),
        0 <= i < entries.len(),
    ensures
        entries_view(entries).dom().contains(entries[i].name@),
        entries_view(entries)[entries[i].name@] == entries[i].assignment,
{
    assert(is_entry(entries, entries[i].name@, i));
}

proof fn lemma_len(entries: Seq<TrackAssignment>)
    requires
        distinct(entries),
    ensures
        entries_view(entries).dom().finite(),
        entries_view(entries).dom().len() == entries.len(),
    decreases entries.len(),
{
    if entries.len() == 0 {
        assert(entries_view(entries).dom() =~= Set::<Seq<char>>::empty());
    } else {
        let rest = entries.drop_last();
        let name = entries.last().name@;
        lemma_len(rest);
        assert(!entries_view(rest).dom().contains(name)) by {
            assert forall|i: int| !is_entry(rest, name, i) by {
                if 0 <= i < rest.len() {
                    assert(entries[i].name@ != entries[entries.len() - 1].name@);
                }
            }
        }
        assert(entries_view(entries).dom() =~= entries_view(rest).dom().insert(name)) by {
            assert forall|n: Seq<char>| entries_view(entries).dom().contains(n)
                == entries_view(rest).dom().insert(name).contains(n) by {
                if entries_view(entries).dom().contains(n) {
                    let i = choose|i: int| is_entry(entries, n, i);
                    if i < rest.len() {
                        assert(is_entry(rest, n, i));
                    }
                }
                if entries_view(rest).dom().contains(n) {
                    let i = choose|i: int| is_entry(rest, n, i);
                    assert(is_entry(entries, n, i));
                }
                if n == name {
                    assert(is_entry(entries, n, entries.len() - 1));
                }
            }
        }
    }
}

impl DtsParams {
    /// No name occurs twice.
    pub closed spec fn wf(&self) -> bool {
        distinct(self.entries@)
    }

    fn find(&self, name: &String) -> (r: Option<usize>)
        requires
            self.wf(),
        ensures
            match r {
                Some(i) => is_entry(self.entries@, name@, i as int) && self@.dom().contains(name@)
                    && self@[name@] == self.entries@[i as int].assignment,
                None => !self@.dom().contains(name@),
            },
    {
        let mut i: usize = 0;
        while i < self.entries.len()
            invariant
                i <= self.entries@.len(),
                self.wf(),
                forall|k: int| 0 <= k < i ==> !is_entry(self.entries@, name@, k),
            decreases self.entries@.len() - i,
        {
            if text_eq(&self.entries[i].name, name) {
                proof {
                    lemma_entry(self.entries@, i as int);
                }
                return Some(i);
            }
            i += 1;
        }
        None
    }

    /// The assignment of a track, if it has one.
    pub fn get(&self, name: &String) -> (r: Option<&SwitchingSetAssignment>)
        requires
            self.wf(),
        ensures
            match r {
                Some(assignment) => self@.dom().contains(name@) && *assignment == self@[name@],
                None => !self@.dom().contains(name@),
            },
    {
        match self.find(name) {
            Some(i) => Some(&self.entries[i].assignment),
            None => None,
        }
    }

    /// Whether a track has an assignment.
    pub fn contains_key(&self, name: &String) -> (r: bool)
        requires
            self.wf(),
        ensures
            r == self@.dom().contains(name@),
    {
        self.find(name).is_some()
    }

    /// How many tracks have an assignment.
    pub fn len(&self) -> (r: usize)
        requires
            self.wf(),
        ensures
            r == self@.dom().len(),
    {
        proof {
            lemma_len(self.entries@);
        }
        self.entries.len()
    }

    fn set(&mut self, name: String, assignment: SwitchingSetAssignment)
        requires
            old(self).wf(),
        ensures
            final(self).wf(),
            final(self)@ == old(self)@.insert(name@, assignment),
    {
        let ghost before = self.entries@;
        let ghost want = self@.insert(name@, assignment);
        let found = self.find(&name);
        let entry = TrackAssignment { name, assignment };
        match found {
            Some(i) => {
                self.entries.set(i, entry);
                proof {
                    assert forall|k: int| 0 <= k < before.len() implies (
                    #[trigger] self.entries@[k]).name@ == before[k].name@ by {}
                    assert(distinct(self.entries@));
                }
            },
            None => {
                self.entries.push(entry);
                proof {
                    assert forall|k: int| 0 <= k < before.len() implies (
                    #[trigger] self.entries@[k]).name@ != entry.name@ by {
                        assert(!is_entry(before, entry.name@, k));
                    }
                    assert(distinct(self.entries@));
                }
            },
        }
        proof {
            let after = self.entries@;
            let got = entries_view(after);
            assert forall|n: Seq<char>| #[trigger] got.dom().contains(n) implies want.dom().contains(n)
                && got[n] == want[n] by {
                let k = choose|k: int| is_entry(after, n, k);
                lemma_entry(after, k);
                if n != entry.name@ {
                    assert(after[k] == before[k]);
                    lemma_entry(before, k);
                } else {
                    let at = match found {
                        Some(i) => i as int,
                        None => before.len() as int,
                    };
                    lemma_entry(after, at);
                }
            }
            assert forall|n: Seq<char>| #[trigger] want.dom().contains(n) implies got.dom().contains(n) by {
                if n == entry.name@ {
                    let at = match found {
                        Some(i) => i as int,
                        None => before.len() as int,
                    };
                    lemma_entry(after, at);
                } else {
                    let k = choose|k: int| is_entry(before, n, k);
                    assert(is_entry(after, n, k));
                }
            }
            assert(got =~= want);
        }
    }
}

/// The assignments of the tracks of a catalog to switching sets.
pub fn generate_dts_params(catalog: &Vec<Track>) -> (r: DtsParams)
    ensures
        r.wf(),
        r@ == params_of(
            switching_sets(catalog_view(catalog@)),
            switching_sets(catalog_view(catalog@)).len() as int,
        ),
{
    let sets = extract_switching_sets(catalog);
    let ghost all = sets_view(sets@);
    let mut params = DtsParams { entries: Vec::new() };
    assert(params@ =~= Map::<Seq<char>, SwitchingSetAssignment>::empty());
    let mut i: usize = 0;
    while i < sets.len()
        invariant
            i <= sets@.len(),
            all == sets_view(sets@),
            params.wf(),
            params@ == params_of(all, i as int),
        decreases sets@.len() - i,
    {
        let set = &sets[i];
        assert(all[i as int] == set@);
        let count: usize = set.tracks.len();
        let mut k: usize = 0;
        while k < count
            invariant
                k <= count,
                count == set.tracks@.len(),
                i < sets@.len(),
                params.wf(),
                params@ == with_set(params_of(all, i as int), set@, k as int),
            decreases count - k,
        {
            let track = &set.tracks[k];
            assert(set@.tracks[k as int] == track@);
            let assignment = SwitchingSetAssignment::new(
                set.alt_group as u64,
                track.throughput_kbps,
            ).with_fraction(10).with_rank((set.alt_group % 256) as u8).with_activate(k == count - 1);
            params.set(track.name.clone(), assignment);
            k += 1;
        }
        i += 1;
    }
    params
}

/// Tracks of a set stand by bitrate, the best first.
pub open spec fn best_first(tracks: Seq<CatalogTrackView>) -> bool {
    forall|i: int, j: int|
        0 <= i < j < tracks.len() ==> (#[trigger] tracks[i]).bitrate_bps >= (
        #[trigger] tracks[j]).bitrate_bps
}

proof fn lemma_placed_sorted(tracks: Seq<CatalogTrackView>, track: CatalogTrackView)
    requires
        best_first(tracks),
    ensures
        best_first(placed(tracks, track)),
        placed(tracks, track).to_multiset() == tracks.to_multiset().insert(track),
        tracks.len() > 0 ==> placed(tracks, track).last().bitrate_bps
            >= tracks.last().bitrate_bps || placed(tracks, track).last() == track,
        tracks.len() > 0 && tracks.last().bitrate_bps < track.bitrate_bps ==> placed(
            tracks,
            track,
        ).last() == tracks.last(),
        forall|i: int|
            0 <= i < placed(tracks, track).len() ==> (#[trigger] placed(
                tracks,
                track,
            )[i]).bitrate_bps >= (if tracks.len() > 0
                && tracks.last().bitrate_bps < track.bitrate_bps {
                tracks.last().bitrate_bps
            } else {
                track.bitrate_bps
            }),
    decreases tracks.len(),
{
    broadcast use vstd::seq_lib::group_to_multiset_ensures;

    if tracks.len() == 0 || tracks.last().bitrate_bps >= track.bitrate_bps {
    } else {
        let rest = tracks.drop_last();
        lemma_placed_sorted(rest, track);
        assert(tracks =~= rest.push(tracks.last()));
        let inner = placed(rest, track);
        assert forall|i: int| 0 <= i < inner.len() implies (#[trigger] inner[i]).bitrate_bps
            >= tracks.last().bitrate_bps by {
            if rest.len() > 0 {
                assert(tracks[tracks.len() - 2].bitrate_bps
                    >= tracks[tracks.len() - 1].bitrate_bps);
                assert(rest.last() == tracks[tracks.len() - 2]);
            }
        }
        let after = placed(tracks, track);
        assert(after == inner.push(tracks.last()));
        assert(after.to_multiset() =~= tracks.to_multiset().insert(track));
    }
}

proof fn lemma_ranked_sorted(catalog: Seq<TrackView>, group: u16, n: int)
    ensures
        best_first(ranked(catalog, group, n)),
    decreases n,
{
    if n > 0 {
        lemma_ranked_sorted(catalog, group, n - 1);
        if is_member(catalog[n - 1], group) {
            lemma_placed_sorted(ranked(catalog, group, n - 1), member(catalog[n - 1]));
        }
    }
}

/// The tracks of a group among the first `n` of a catalog, in the order of the catalog.
pub open spec fn members(catalog: Seq<TrackView>, group: u16, n: int) -> Seq<CatalogTrackView>
    decreases n,
{
    if n <= 0 {
        seq![]
    } else if is_member(catalog[n - 1], group) {
        members(catalog, group, n - 1).push(member(catalog[n - 1]))
    } else {
        members(catalog, group, n - 1)
    }
}

/// A switching set holds the tracks of its group, each as often as the catalog does.
pub proof fn law_set_holds_its_group(catalog: Seq<TrackView>, group: u16, n: int)
    ensures
        ranked(catalog, group, n).to_multiset() == members(catalog, group, n).to_multiset(),
        best_first(ranked(catalog, group, n)),
    decreases n,
{
    broadcast use vstd::seq_lib::group_to_multiset_ensures;

    lemma_ranked_sorted(catalog, group, n);
    if n > 0 {
        law_set_holds_its_group(catalog, group, n - 1);
        if is_member(catalog[n - 1], group) {
            lemma_placed_sorted(ranked(catalog, group, n - 1), member(catalog[n - 1]));
        }
    }
}

proof fn lemma_sets_below(catalog: Seq<TrackView>, n: int)
    requires
        0 <= n <= 0x10000,
    ensures
        forall|i: int|
            0 <= i < sets_below(catalog, n).len() ==> {
                let set = #[trigger] sets_below(catalog, n)[i];
                set.alt_group < n && set.tracks == group_of(catalog, set.alt_group)
                    && set.tracks.len() > 1
            },
        forall|i: int, j: int|
            0 <= i < j < sets_below(catalog, n).len() ==> (#[trigger] sets_below(
                catalog,
                n,
            )[i]).alt_group < (#[trigger] sets_below(catalog, n)[j]).alt_group,
    decreases n,
{
    if n > 0 {
        lemma_sets_below(catalog, n - 1);
        let before = sets_below(catalog, n - 1);
        let after = sets_below(catalog, n);
        assert forall|i: int| 0 <= i < after.len() implies ({
            let set = #[trigger] after[i];
            set.alt_group < n && set.tracks == group_of(catalog, set.alt_group) && set.tracks.len()
                > 1
        }) by {
            if i < before.len() {
                assert(after[i] == before[i]);
            }
        }
        assert forall|i: int, j: int| 0 <= i < j < after.len() implies (
        #[trigger] after[i]).alt_group < (#[trigger] after[j]).alt_group by {
            assert(after[i] == before[i]);
            if j < before.len() {
                assert(after[j] == before[j]);
            }
        }
    }
}

/// The sets of a catalog come by group, each group once. Each has at least two tracks, which stand
/// by bitrate, the best first.
pub proof fn law_sets_are_in_order(catalog: Seq<TrackView>)
    ensures
        forall|i: int, j: int|
            0 <= i < j < switching_sets(catalog).len() ==> (#[trigger] switching_sets(
                catalog,
            )[i]).alt_group < (#[trigger] switching_sets(catalog)[j]).alt_group,
        forall|i: int|
            0 <= i < switching_sets(catalog).len() ==> (#[trigger] switching_sets(
                catalog,
            )[i]).tracks.len() > 1 && best_first(switching_sets(catalog)[i].tracks),
{
    lemma_sets_below(catalog, 0x10000);
    assert forall|i: int| 0 <= i < switching_sets(catalog).len() implies (#[trigger] switching_sets(
        catalog,
    )[i]).tracks.len() > 1 && best_first(switching_sets(catalog)[i].tracks) by {
        lemma_ranked_sorted(catalog, switching_sets(catalog)[i].alt_group, catalog.len() as int);
    }
}

/// Of the tracks of a set only the last, which takes the least, activates the set.
pub proof fn law_last_track_activates(set: SwitchingSetView, i: int)
    requires
        0 <= i < set.tracks.len(),
    ensures
        assignment_at(set, i).activate <==> i == set.tracks.len() - 1,
        assignment_at(set, i).set_id == set.alt_group,
{
}

/// A track belongs to the set of its group if its bitrate is known. Its throughput is the bitrate in
/// whole kilobits per second.
pub proof fn law_tracks_belong_to_their_group(track: TrackView, group: u16)
    ensures
        is_member(track, group) <==> track.alt_group == Some(group) && track.bitrate is Some,
        is_member(track, group) ==> member(track).name == track.name && member(track).bitrate_bps
            == track.bitrate->0 && member(track).throughput_kbps * 1000 <= track.bitrate->0
            < (member(track).throughput_kbps + 1) * 1000,
{
}

/// Every group with at least two tracks of known bitrate is a switching set, and no other is.
pub proof fn law_groups_of_two_are_sets(catalog: Seq<TrackView>, group: u16)
    ensures
        (exists|i: int|
            0 <= i < switching_sets(catalog).len() && (#[trigger] switching_sets(
                catalog,
            )[i]).alt_group == group) <==> members(catalog, group, catalog.len() as int).len() > 1,
        forall|i: int|
            0 <= i < switching_sets(catalog).len() && (#[trigger] switching_sets(
                catalog,
            )[i]).alt_group == group ==> switching_sets(catalog)[i].tracks.to_multiset() == members(
                catalog,
                group,
                catalog.len() as int,
            ).to_multiset(),
{
    broadcast use vstd::seq_lib::group_to_multiset_ensures;

    let sorted = ranked(catalog, group, catalog.len() as int);
    let listed = members(catalog, group, catalog.len() as int);
    let sets = switching_sets(catalog);
    lemma_sets_below(catalog, 0x10000);
    lemma_group_is_below(catalog, group, 0x10000);
    law_set_holds_its_group(catalog, group, catalog.len() as int);
    assert(sorted.to_multiset().len() == sorted.len());
    assert(listed.to_multiset().len() == listed.len());
    if listed.len() > 1 {
        let i = choose|i: int|
            0 <= i < sets_below(catalog, 0x10000).len() && (#[trigger] sets_below(
                catalog,
                0x10000,
            )[i]).alt_group == group;
        assert(sets[i].alt_group == group);
    }
    if exists|i: int| 0 <= i < sets.len() && (#[trigger] sets[i]).alt_group == group {
        let i = choose|i: int| 0 <= i < sets.len() && (#[trigger] sets[i]).alt_group == group;
        assert(sets_below(catalog, 0x10000)[i].alt_group == group);
    }
}

proof fn lemma_group_is_below(catalog: Seq<TrackView>, group: u16, n: int)
    requires
        0 <= n <= 0x10000,
    ensures
        (exists|i: int|
            0 <= i < sets_below(catalog, n).len() && (#[trigger] sets_below(
                catalog,
                n,
            )[i]).alt_group == group) <==> group < n && group_of(catalog, group).len() > 1,
    decreases n,
{
    if n > 0 {
        lemma_group_is_below(catalog, group, n - 1);
        let before = sets_below(catalog, n - 1);
        let after = sets_below(catalog, n);
        if exists|i: int| 0 <= i < before.len() && (#[trigger] before[i]).alt_group == group {
            let i = choose|i: int| 0 <= i < before.len() && (#[trigger] before[i]).alt_group == group;
            assert(after[i].alt_group == group);
        }
        if group == n - 1 && group_of(catalog, group).len() > 1 {
            assert(after[before.len() as int].alt_group == group);
        }
        if exists|i: int| 0 <= i < after.len() && (#[trigger] after[i]).alt_group == group {
            let i = choose|i: int| 0 <= i < after.len() && (#[trigger] after[i]).alt_group == group;
            if i < before.len() {
                assert(before[i].alt_group == group);
            }
        }
    }
}

proof fn lemma_with_set(
    params: Map<Seq<char>, SwitchingSetAssignment>,
    set: SwitchingSetView,
    n: int,
    name: Seq<char>,
)
    requires
        0 <= n <= set.tracks.len(),
    ensures
        with_set(params, set, n).contains_key(name) <==> params.contains_key(name) || exists|i: int|
            0 <= i < n && (#[trigger] set.tracks[i]).name == name,
        (forall|i: int| 0 <= i < n ==> (#[trigger] set.tracks[i]).name != name) ==> with_set(
            params,
            set,
            n,
        )[name] == params[name],
        forall|i: int|
            0 <= i < n && (#[trigger] set.tracks[i]).name == name && (forall|j: int|
                i < j < n ==> (#[trigger] set.tracks[j]).name != name) ==> with_set(
                params,
                set,
                n,
            )[name] == assignment_at(set, i),
    decreases n,
{
    if n > 0 {
        lemma_with_set(params, set, n - 1, name);
        let last = set.tracks[n - 1];
        assert(last.name == name || last.name != name);
    }
}

proof fn lemma_params_of(sets: Seq<SwitchingSetView>, n: int, name: Seq<char>)
    requires
        0 <= n <= sets.len(),
    ensures
        params_of(sets, n).contains_key(name) <==> exists|k: int, i: int|
            0 <= k < n && 0 <= i < sets[k].tracks.len() && (#[trigger] sets[k].tracks[i]).name
                == name,
    decreases n,
{
    if n > 0 {
        lemma_params_of(sets, n - 1, name);
        let set = sets[n - 1];
        lemma_with_set(params_of(sets, n - 1), set, set.tracks.len() as int, name);
        if params_of(sets, n).contains_key(name) {
            if exists|i: int| 0 <= i < set.tracks.len() && (#[trigger] set.tracks[i]).name == name {
                let i = choose|i: int|
                    0 <= i < set.tracks.len() && (#[trigger] set.tracks[i]).name == name;
                assert(sets[n - 1].tracks[i].name == name);
            }
        }
        if exists|k: int, i: int|
            0 <= k < n && 0 <= i < sets[k].tracks.len() && (#[trigger] sets[k].tracks[i]).name
                == name {
            let (k, i) = choose|k: int, i: int|
                0 <= k < n && 0 <= i < sets[k].tracks.len() && (#[trigger] sets[k].tracks[i]).name
                    == name;
            if k == n - 1 {
                assert(set.tracks[i].name == name);
            }
        }
    }
}

/// The tracks of the switching sets have an assignment, and no others.
pub proof fn law_tracks_of_sets_are_assigned(sets: Seq<SwitchingSetView>, name: Seq<char>)
    ensures
        params_of(sets, sets.len() as int).contains_key(name) <==> exists|k: int, i: int|
            0 <= k < sets.len() && 0 <= i < sets[k].tracks.len() && (
            #[trigger] sets[k].tracks[i]).name == name,
{
    lemma_params_of(sets, sets.len() as int, name);
}

proof fn lemma_params_stay(sets: Seq<SwitchingSetView>, m: int, n: int, name: Seq<char>)
    requires
        0 <= m <= n <= sets.len(),
        forall|k: int, i: int|
            m <= k < n && 0 <= i < sets[k].tracks.len() ==> (#[trigger] sets[k].tracks[i]).name
                != name,
    ensures
        params_of(sets, n)[name] == params_of(sets, m)[name],
    decreases n,
{
    if m < n {
        lemma_params_stay(sets, m, n - 1, name);
        let set = sets[n - 1];
        assert forall|i: int| 0 <= i < set.tracks.len() implies (#[trigger] set.tracks[i]).name
            != name by {
            assert(sets[n - 1].tracks[i].name != name);
        }
        lemma_with_set(params_of(sets, n - 1), set, set.tracks.len() as int, name);
    }
}

/// A track whose name is not used again is assigned to its own set, with its throughput. The track
/// of a set that takes the least activates it.
pub proof fn law_track_is_assigned_to_its_set(sets: Seq<SwitchingSetView>, k: int, i: int)
    requires
        0 <= k < sets.len(),
        0 <= i < sets[k].tracks.len(),
        forall|m: int, j: int|
            0 <= m < sets.len() && 0 <= j < sets[m].tracks.len() && (
            #[trigger] sets[m].tracks[j]).name == sets[k].tracks[i].name ==> m == k && j == i,
    ensures
        ({
            let assigned = params_of(sets, sets.len() as int)[sets[k].tracks[i].name];
            &&& assigned.set_id == sets[k].alt_group
            &&& assigned.throughput_kbps == sets[k].tracks[i].throughput_kbps
            &&& assigned.activate <==> i + 1 == sets[k].tracks.len()
            &&& assigned.fraction == 10
            &&& sets[k].alt_group < 256 ==> assigned.rank == Some(sets[k].alt_group as u8)
        }),
{
    let name = sets[k].tracks[i].name;
    let set = sets[k];
    lemma_params_stay(sets, k + 1, sets.len() as int, name);
    assert forall|j: int| i < j < set.tracks.len() implies (#[trigger] set.tracks[j]).name
        != name by {
        assert(sets[k].tracks[j].name != name);
    }
    lemma_with_set(params_of(sets, k), set, set.tracks.len() as int, name);
    assert(set.tracks[i].name == name);
    assert(params_of(sets, k + 1)[name] == assignment_at(set, i));
}

/// A track comes behind all that are at least as good and before all that are worse, so tracks
/// that are as good as each other stay in the order in which they came.
pub proof fn law_track_is_placed_behind_its_equals(
    tracks: Seq<CatalogTrackView>,
    track: CatalogTrackView,
)
    requires
        best_first(tracks),
    ensures
        exists|k: int|
            0 <= k <= tracks.len() && placed(tracks, track) == #[trigger] tracks.insert(k, track)
                && (forall|i: int|
                0 <= i < k ==> (#[trigger] tracks[i]).bitrate_bps >= track.bitrate_bps) && (
            forall|i: int|
                k <= i < tracks.len() ==> (#[trigger] tracks[i]).bitrate_bps
                    < track.bitrate_bps),
    decreases tracks.len(),
{
    if tracks.len() == 0 || tracks.last().bitrate_bps >= track.bitrate_bps {
        let n = tracks.len() as int;
        assert(tracks.insert(n, track) =~= tracks.push(track));
        assert forall|i: int| 0 <= i < n implies (#[trigger] tracks[i]).bitrate_bps
            >= track.bitrate_bps by {
            if i < n - 1 {
                assert(tracks[i].bitrate_bps >= tracks[n - 1].bitrate_bps);
            }
        }
    } else {
        let rest = tracks.drop_last();
        assert(best_first(rest));
        law_track_is_placed_behind_its_equals(rest, track);
        let k = choose|k: int|
            0 <= k <= rest.len() && placed(rest, track) == #[trigger] rest.insert(k, track) && (
            forall|i: int| 0 <= i < k ==> (#[trigger] rest[i]).bitrate_bps >= track.bitrate_bps)
                && (forall|i: int|
                k <= i < rest.len() ==> (#[trigger] rest[i]).bitrate_bps < track.bitrate_bps);
        assert(placed(tracks, track) =~= tracks.insert(k, track));
        assert forall|i: int| 0 <= i < k implies (#[trigger] tracks[i]).bitrate_bps
            >= track.bitrate_bps by {
            assert(rest[i] == tracks[i]);
        }
        assert forall|i: int| k <= i < tracks.len() implies (#[trigger] tracks[i]).bitrate_bps
            < track.bitrate_bps by {
            if i < rest.len() {
                assert(rest[i] == tracks[i]);
            }
        }
    }
}

} // verus!
