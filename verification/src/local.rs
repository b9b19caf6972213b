//! The tracks that are served here, by namespace.

use vstd::prelude::*;
use crate::namespace::{self, TrackNamespace};
use crate::text::text_eq;

verus! {

/// Where the objects of a track come from.
#[derive(Debug, Copy, Clone, Eq, PartialEq, Structural)]
pub enum TrackState {
    /// Nowhere yet.
    Pending,
    /// A subscription was sent upstream.
    Subscribing,
    /// The subscription upstream was accepted.
    Subscribed,
    /// A publisher sends them.
    Publishing,
    /// Nowhere any more.
    Closed,
}

/// Why a track cannot be served.
#[derive(Debug, Copy, Clone, Eq, PartialEq, Structural)]
pub enum ServeError {
    /// The track comes from elsewhere already.
    Uninterested,
    /// There is one already.
    Duplicate,
}

impl TrackState {
    /// The state with a number. Numbers without a state of their own are `Closed`.
    pub fn from_u8(v: u8) -> (r: Self)
        ensures
            r == (if v == 0 {
                TrackState::Pending
            } else if v == 1 {
                TrackState::Subscribing
            } else if v == 2 {
                TrackState::Subscribed
            } else if v == 3 {
                TrackState::Publishing
            } else {
                TrackState::Closed
            }),
    {
        match v {
            0 => TrackState::Pending,
            1 => TrackState::Subscribing,
            2 => TrackState::Subscribed,
            3 => TrackState::Publishing,
            _ => TrackState::Closed,
        }
    }
}

/// What is known of a track. The reader and the writer of the track are made together, the first
/// time that one of them is asked for, and the writer is given away once.
#[derive(Debug)]
pub struct TrackInfo {
    pub namespace: TrackNamespace,
    pub name: String,
    state: TrackState,
    created: bool,
    writer_here: bool,
    upstream_subscribe_sent: bool,
    upstream_request_id: Option<u64>,
}

/// What is known of a track.
#[verifier::ext_equal]
pub struct TrackInfoView {
    pub namespace: Seq<Seq<u8>>,
    pub name: Seq<char>,
    pub state: TrackState,
    /// The reader and the writer were made.
    pub created: bool,
    /// The writer has not been given away.
    pub writer_here: bool,
    pub upstream_subscribe_sent: bool,
    pub upstream_request_id: Option<u64>,
}

impl View for TrackInfo {
    type V = TrackInfoView;

    closed spec fn view(&self) -> TrackInfoView {
        TrackInfoView {
            namespace: self.namespace@,
            name: self.name@,
            state: self.state,
            created: self.created,
            writer_here: self.writer_here,
            upstream_subscribe_sent: self.upstream_subscribe_sent,
            upstream_request_id: self.upstream_request_id,
        }
    }
}

impl TrackInfoView {
    /// With the reader and the writer made.
    pub open spec fn ensured(self) -> TrackInfoView {
        if self.created {
            self
        } else {
            TrackInfoView { created: true, writer_here: true, ..self }
        }
    }

    /// With a state, and with the writer given away.
    pub open spec fn taken(self, state: TrackState) -> TrackInfoView {
        TrackInfoView { state, writer_here: false, ..self }
    }

    /// After a publisher arrived.
    pub open spec fn published(self) -> TrackInfoView {
        if self.state == TrackState::Subscribed || self.state == TrackState::Publishing {
            self.ensured()
        } else {
            self.ensured().taken(TrackState::Publishing)
        }
    }

    /// What a publisher that arrives is told.
    pub open spec fn publish_result(self) -> Result<(), ServeError> {
        if self.state == TrackState::Subscribed {
            Err(ServeError::Uninterested)
        } else if self.state == TrackState::Publishing || !self.ensured().writer_here {
            Err(ServeError::Duplicate)
        } else {
            Ok(())
        }
    }

    /// The track comes from somewhere already, or is about to.
    pub open spec fn claimed(self) -> bool {
        self.state == TrackState::Publishing || self.state == TrackState::Subscribing || self.state
            == TrackState::Subscribed
    }

    /// After the writer was asked for to subscribe upstream.
    pub open spec fn requested(self) -> TrackInfoView {
        if self.claimed() {
            self.ensured()
        } else {
            self.ensured().taken(TrackState::Subscribing)
        }
    }

    /// Whether the writer is given away to subscribe upstream.
    pub open spec fn request_result(self) -> Result<(), ServeError> {
        if self.claimed() || !self.ensured().writer_here {
            Err(ServeError::Duplicate)
        } else {
            Ok(())
        }
    }

    /// A subscription has to be sent upstream.
    pub open spec fn needs_upstream(self) -> bool {
        self.state != TrackState::Publishing && !self.upstream_subscribe_sent
    }

    /// After someone asked whether a subscription has to be sent upstream.
    pub open spec fn asked_upstream(self) -> TrackInfoView {
        if self.state == TrackState::Publishing {
            self
        } else {
            TrackInfoView { upstream_subscribe_sent: true, ..self }
        }
    }

    /// After a subscription was sent upstream.
    pub open spec fn sent(self, request_id: u64) -> TrackInfoView {
        TrackInfoView {
            upstream_request_id: Some(request_id),
            state: if self.state == TrackState::Pending {
                TrackState::Subscribing
            } else {
                self.state
            },
            ..self
        }
    }

    /// After the subscription upstream was accepted.
    pub open spec fn accepted(self) -> TrackInfoView {
        TrackInfoView {
            state: if self.state == TrackState::Subscribing {
                TrackState::Subscribed
            } else {
                self.state
            },
            ..self
        }
    }
}

impl TrackInfo {
    /// A track of which nothing is known.
    pub fn new(namespace: TrackNamespace, name: String) -> (r: Self)
        ensures
            r@ == (TrackInfoView {
                namespace: namespace@,
                name: name@,
                state: TrackState::Pending,
                created: false,
                writer_here: false,
                upstream_subscribe_sent: false,
                upstream_request_id: None,
            }),
    {
        TrackInfo {
            namespace,
            name,
            state: TrackState::Pending,
            created: false,
            writer_here: false,
            upstream_subscribe_sent: false,
            upstream_request_id: None,
        }
    }

    /// Notes that the reader and the writer are made. Tells whether they have to be made now.
    pub fn ensure_track_created(&mut self) -> (r: bool)
        ensures
            r == !old(self)@.created,
            final(self)@ == old(self)@.ensured(),
    {
        if self.created {
            return false;
        }
        self.created = true;
        self.writer_here = true;
        true
    }

    /// Whether a subscription has to be sent upstream. It is sent once, and not if a publisher
    /// sends the track.
    pub fn should_subscribe_upstream(&mut self) -> (r: bool)
        ensures
            r == old(self)@.needs_upstream(),
            final(self)@ == old(self)@.asked_upstream(),
    {
        if self.state == TrackState::Publishing {
            return false;
        }
        let first = !self.upstream_subscribe_sent;
        self.upstream_subscribe_sent = true;
        first
    }

    /// Notes that a subscription was sent upstream.
    pub fn mark_subscribe_sent(&mut self, request_id: u64)
        ensures
            final(self)@ == old(self)@.sent(request_id),
    {
        self.upstream_request_id = Some(request_id);
        if self.state == TrackState::Pending {
            self.state = TrackState::Subscribing;
        }
    }

    /// Notes that the subscription upstream was accepted.
    pub fn subscribe_ok_received(&mut self)
        ensures
            final(self)@ == old(self)@.accepted(),
    {
        if self.state == TrackState::Subscribing {
            self.state = TrackState::Subscribed;
        }
    }

    /// Notes that a publisher arrived. The publisher is given the writer if the result is `Ok`.
    pub fn publish_arrived(&mut self) -> (r: Result<(), ServeError>)
        ensures
            r == old(self)@.publish_result(),
            final(self)@ == old(self)@.published(),
    {
        self.ensure_track_created();
        if self.state == TrackState::Subscribed {
            return Err(ServeError::Uninterested);
        }
        if self.state == TrackState::Publishing {
            return Err(ServeError::Duplicate);
        }
        self.state = TrackState::Publishing;
        self.take_writer()
    }

    /// Where the objects of the track come from.
    pub fn state(&self) -> (r: TrackState)
        ensures
            r == self@.state,
    {
        self.state
    }

    /// Whether a publisher sends the track.
    pub fn is_publishing(&self) -> (r: bool)
        ensures
            r == (self@.state == TrackState::Publishing),
    {
        self.state == TrackState::Publishing
    }

    /// Asks for the writer to subscribe upstream. It is given away if the result is `Ok`.
    pub fn take_writer_for_upstream(&mut self) -> (r: Result<(), ServeError>)
        ensures
            r == old(self)@.request_result(),
            final(self)@ == old(self)@.requested(),
    {
        self.ensure_track_created();
        if self.state == TrackState::Publishing {
            return Err(ServeError::Duplicate);
        }
        if self.state == TrackState::Subscribing || self.state == TrackState::Subscribed {
            return Err(ServeError::Duplicate);
        }
        self.state = TrackState::Subscribing;
        self.take_writer()
    }

    fn take_writer(&mut self) -> (r: Result<(), ServeError>)
        ensures
            final(self)@ == (TrackInfoView { writer_here: false, ..old(self)@ }),
            r == (if old(self)@.writer_here {
                Ok::<(), ServeError>(())
            } else {
                Err(ServeError::Duplicate)
            }),
    {
        if self.writer_here {
            self.writer_here = false;
            Ok(())
        } else {
            Err(ServeError::Duplicate)
        }
    }
}

/// Once the writer was given away, it is never given away again, whatever happens to the track.
pub proof fn law_writer_is_given_away_once(track: TrackInfoView, request_id: u64)
    requires
        track.created,
        !track.writer_here,
    ensures
        track.publish_result() is Err,
        track.request_result() is Err,
        track.published().created && !track.published().writer_here,
        track.requested().created && !track.requested().writer_here,
        track.ensured() == track,
        track.sent(request_id).created && !track.sent(request_id).writer_here,
        track.accepted().created && !track.accepted().writer_here,
        track.asked_upstream().created && !track.asked_upstream().writer_here,
{
}

/// When the writer is given away, it is gone.
pub proof fn law_given_writer_is_gone(track: TrackInfoView)
    ensures
        track.publish_result() is Ok ==> track.published().created
            && !track.published().writer_here && track.published().state == TrackState::Publishing,
        track.request_result() is Ok ==> track.requested().created
            && !track.requested().writer_here && track.requested().state
            == TrackState::Subscribing,
{
}

/// A subscription is sent upstream at most once.
pub proof fn law_one_upstream_subscription(track: TrackInfoView)
    ensures
        !track.asked_upstream().needs_upstream(),
{
}

/// While a publisher sends a track, nobody else is given the writer and nothing is asked upstream.
pub proof fn law_publishing_excludes_upstream(track: TrackInfoView)
    requires
        track.state == TrackState::Publishing,
    ensures
        !track.needs_upstream(),
        track.publish_result() == Err::<(), ServeError>(ServeError::Duplicate),
        track.request_result() == Err::<(), ServeError>(ServeError::Duplicate),
        track.accepted().state == TrackState::Publishing,
        track.published().state == TrackState::Publishing,
        track.requested().state == TrackState::Publishing,
{
}

struct TrackSlot<K> {
    namespace: TrackNamespace,
    name: String,
    info: K,
}

struct LocalsEntry<T, K> {
    namespace: TrackNamespace,
    handle: T,
    tracks: Vec<TrackSlot<K>>,
}

/// The namespaces that are served here. With each goes a handle to its tracks as a whole, and what
/// is known of single tracks under it.
pub struct Locals<T, K> {
    entries: Vec<LocalsEntry<T, K>>,
}

/// What is known of a track.
#[verifier::ext_equal]
pub struct TrackSlotView<K> {
    pub namespace: Seq<Seq<u8>>,
    pub name: Seq<char>,
    pub info: K,
}

/// A namespace that is served here.
#[verifier::ext_equal]
pub struct LocalsEntryView<T, K> {
    pub namespace: Seq<Seq<u8>>,
    pub handle: T,
    pub tracks: Seq<TrackSlotView<K>>,
}

impl<K> View for TrackSlot<K> {
    type V = TrackSlotView<K>;

    closed spec fn view(&self) -> TrackSlotView<K> {
        TrackSlotView { namespace: self.namespace@, name: self.name@, info: self.info }
    }
}

impl<T, K> View for LocalsEntry<T, K> {
    type V = LocalsEntryView<T, K>;

    closed spec fn view(&self) -> LocalsEntryView<T, K> {
        LocalsEntryView {
            namespace: self.namespace@,
            handle: self.handle,
            tracks: self.tracks@.map_values(|slot: TrackSlot<K>| slot@),
        }
    }
}

impl<T, K> View for Locals<T, K> {
    type V = Seq<LocalsEntryView<T, K>>;

    closed spec fn view(&self) -> Seq<LocalsEntryView<T, K>> {
        self.entries@.map_values(|entry: LocalsEntry<T, K>| entry@)
    }
}

/// The entry at `i` is of a namespace.
pub open spec fn is_entry<T, K>(
    entries: Seq<LocalsEntryView<T, K>>,
    ns: Seq<Seq<u8>>,
    i: int,
) -> bool {
    0 <= i < entries.len() && entries[i].namespace == ns
}

/// A namespace is registered.
pub open spec fn registered<T, K>(
    entries: Seq<LocalsEntryView<T, K>>,
    ns: Seq<Seq<u8>>,
) -> bool {
    exists|i: int| is_entry(entries, ns, i)
}

/// The entry of a namespace.
pub open spec fn entry_of<T, K>(
    entries: Seq<LocalsEntryView<T, K>>,
    ns: Seq<Seq<u8>>,
) -> Option<int> {
    if registered(entries, ns) {
        Some(choose|i: int| is_entry(entries, ns, i))
    } else {
        None
    }
}

/// The entry of the longest of the first `n` prefixes of a namespace that are registered. The
/// empty prefix does not count.
pub open spec fn longest<T, K>(
    entries: Seq<LocalsEntryView<T, K>>,
    ns: Seq<Seq<u8>>,
    n: int,
) -> Option<int>
    decreases n,
{
    if n <= 0 {
        None
    } else {
        match entry_of(entries, ns.take(n)) {
            Some(i) => Some(i),
            None => longest(entries, ns, n - 1),
        }
    }
}

/// The entry of the longest prefix of a namespace that is registered.
pub open spec fn best_match<T, K>(
    entries: Seq<LocalsEntryView<T, K>>,
    ns: Seq<Seq<u8>>,
) -> Option<int> {
    longest(entries, ns, ns.len() as int)
}

/// The slot at `i` is of a track.
pub open spec fn is_slot<K>(
    tracks: Seq<TrackSlotView<K>>,
    ns: Seq<Seq<u8>>,
    name: Seq<char>,
    i: int,
) -> bool {
    0 <= i < tracks.len() && tracks[i].namespace == ns && tracks[i].name == name
}

/// The slot of a track.
pub open spec fn slot_of<K>(
    tracks: Seq<TrackSlotView<K>>,
    ns: Seq<Seq<u8>>,
    name: Seq<char>,
) -> Option<int> {
    if exists|i: int| is_slot(tracks, ns, name, i) {
        Some(choose|i: int| is_slot(tracks, ns, name, i))
    } else {
        None
    }
}

/// The tracks with a slot for a track.
pub open spec fn with_slot<K>(
    tracks: Seq<TrackSlotView<K>>,
    ns: Seq<Seq<u8>>,
    name: Seq<char>,
    fresh: K,
) -> Seq<TrackSlotView<K>> {
    match slot_of(tracks, ns, name) {
        Some(_) => tracks,
        None => tracks.push(TrackSlotView { namespace: ns, name, info: fresh }),
    }
}

/// What is known of a track once it has a slot.
pub open spec fn info_of<K>(
    tracks: Seq<TrackSlotView<K>>,
    ns: Seq<Seq<u8>>,
    name: Seq<char>,
    fresh: K,
) -> K {
    match slot_of(tracks, ns, name) {
        Some(i) => tracks[i].info,
        None => fresh,
    }
}

/// No namespace is registered twice.
pub open spec fn entries_distinct<T, K>(entries: Seq<LocalsEntryView<T, K>>) -> bool {
    forall|i: int, j: int|
        0 <= i < j < entries.len() ==> (#[trigger] entries[i]).namespace != (
        #[trigger] entries[j]).namespace
}

/// No track has two slots.
pub open spec fn slots_distinct<K>(tracks: Seq<TrackSlotView<K>>) -> bool {
    forall|i: int, j: int|
        0 <= i < j < tracks.len() ==> (#[trigger] tracks[i]).namespace != (
        #[trigger] tracks[j]).namespace || tracks[i].name != tracks[j].name
}

/// No namespace is registered twice, and no track has two slots under one namespace.
pub open spec fn locals_wf<T, K>(entries: Seq<LocalsEntryView<T, K>>) -> bool {
    &&& entries_distinct(entries)
    &&& forall|i: int| 0 <= i < entries.len() ==> slots_distinct((#[trigger] entries[i]).tracks)
}

/// An entry without tracks.
pub open spec fn new_entry<T, K>(ns: Seq<Seq<u8>>, handle: T) -> LocalsEntryView<T, K> {
    LocalsEntryView { namespace: ns, handle, tracks: seq![] }
}

/// The entries with a slot for a track under the entry at `i`.
pub open spec fn with_track<T, K>(
    entries: Seq<LocalsEntryView<T, K>>,
    i: int,
    ns: Seq<Seq<u8>>,
    name: Seq<char>,
    fresh: K,
) -> Seq<LocalsEntryView<T, K>> {
    entries.update(
        i,
        LocalsEntryView { tracks: with_slot(entries[i].tracks, ns, name, fresh), ..entries[i] },
    )
}

/// The namespaces among the first `n` entries that lie under a prefix.
pub open spec fn under_prefix<T, K>(
    entries: Seq<LocalsEntryView<T, K>>,
    prefix: Seq<Seq<u8>>,
    n: int,
) -> Seq<Seq<Seq<u8>>>
    decreases n,
{
    if n <= 0 {
        seq![]
    } else if namespace::is_under(entries[n - 1].namespace, prefix) {
        under_prefix(entries, prefix, n - 1).push(entries[n - 1].namespace)
    } else {
        under_prefix(entries, prefix, n - 1)
    }
}

/// The contents of a list of namespaces.
pub open spec fn namespaces_view(list: Seq<TrackNamespace>) -> Seq<Seq<Seq<u8>>> {
    list.map_values(|ns: TrackNamespace| ns@)
}

proof fn lemma_entry_of<T, K>(entries: Seq<LocalsEntryView<T, K>>, ns: Seq<Seq<u8>>, i: int)
    requires
        entries_distinct(entries),
        is_entry(entries, ns, i),
    ensures
        entry_of(entries, ns) == Some(i),
{
    let j = choose|j: int| is_entry(entries, ns, j);
    if j != i {
        if j < i {
            assert(entries[j].namespace != entries[i].namespace);
        } else {
            assert(entries[i].namespace != entries[j].namespace);
        }
    }
}

proof fn lemma_slot_of<K>(tracks: Seq<TrackSlotView<K>>, ns: Seq<Seq<u8>>, name: Seq<char>, i: int)
    requires
        slots_distinct(tracks),
        is_slot(tracks, ns, name, i),
    ensures
        slot_of(tracks, ns, name) == Some(i),
{
    let j = choose|j: int| is_slot(tracks, ns, name, j);
    if j != i {
        if j < i {
            assert(tracks[j].namespace != tracks[i].namespace || tracks[j].name != tracks[i].name);
        } else {
            assert(tracks[i].namespace != tracks[j].namespace || tracks[i].name != tracks[j].name);
        }
    }
}

proof fn lemma_with_slot<K>(
    tracks: Seq<TrackSlotView<K>>,
    ns: Seq<Seq<u8>>,
    name: Seq<char>,
    fresh: K,
)
    requires
        slots_distinct(tracks),
    ensures
        slots_distinct(with_slot(tracks, ns, name, fresh)),
        slot_of(with_slot(tracks, ns, name, fresh), ns, name) is Some,
        with_slot(tracks, ns, name, fresh)[slot_of(
            with_slot(tracks, ns, name, fresh),
            ns,
            name,
        )->0].info == info_of(tracks, ns, name, fresh),
{
    let after = with_slot(tracks, ns, name, fresh);
    match slot_of(tracks, ns, name) {
        Some(_) => {},
        None => {
            assert forall|i: int, j: int| 0 <= i < j < after.len() implies (
            #[trigger] after[i]).namespace != (#[trigger] after[j]).namespace || after[i].name
                != after[j].name by {
                if j == tracks.len() {
                    assert(!is_slot(tracks, ns, name, i));
                }
            }
            assert(is_slot(after, ns, name, tracks.len() as int));
            lemma_slot_of(after, ns, name, tracks.len() as int);
        },
    }
}

proof fn lemma_longest<T, K>(entries: Seq<LocalsEntryView<T, K>>, ns: Seq<Seq<u8>>, n: int)
    requires
        n <= ns.len(),
    ensures
        match longest(entries, ns, n) {
            Some(i) => 0 <= i < entries.len() && 0 < entries[i].namespace.len() <= n
                && entries[i].namespace == ns.take(entries[i].namespace.len() as int)
                && forall|m: int|
                entries[i].namespace.len() < m <= n ==> !#[trigger] registered(
                    entries,
                    ns.take(m),
                ),
            None => forall|m: int| 0 < m <= n ==> !#[trigger] registered(entries, ns.take(m)),
        },
    decreases n,
{
    if n > 0 {
        lemma_longest(entries, ns, n - 1);
    }
}

impl<T, K> Locals<T, K> {
    /// No namespace is registered twice, and no track has two slots under one namespace.
    pub open spec fn wf(&self) -> bool {
        locals_wf(self@)
    }

    /// No namespaces.
    pub fn new() -> (r: Self)
        ensures
            r.wf(),
            r@ == Seq::<LocalsEntryView<T, K>>::empty(),
    {
        let r = Locals { entries: Vec::new() };
        assert(r@ =~= Seq::<LocalsEntryView<T, K>>::empty());
        r
    }

    /// The entry of the prefix of `n` fields of a namespace.
    fn find_prefix(&self, ns: &TrackNamespace, n: usize) -> (r: Option<usize>)
        requires
            self.wf(),
            n <= ns@.len(),
        ensures
            match r {
                Some(i) => i < self@.len() && entry_of(self@, ns@.take(n as int)) == Some(
                    i as int,
                ),
                None => entry_of(self@, ns@.take(n as int)) is None,
            },
    {
        let ghost prefix = ns@.take(n as int);
        let mut i: usize = 0;
        while i < self.entries.len()
            invariant
                i <= self.entries@.len(),
                self@.len() == self.entries@.len(),
                self.wf(),
                n <= ns@.len(),
                prefix == ns@.take(n as int),
                forall|k: int| 0 <= k < i ==> !is_entry(self@, prefix, k),
            decreases self.entries@.len() - i,
        {
            assert(self@[i as int] == self.entries@[i as int]@);
            let candidate = &self.entries[i].namespace;
            if candidate.len() == n && ns.has_prefix(candidate) {
                proof {
                    assert(candidate@ =~= prefix);
                    lemma_entry_of(self@, prefix, i as int);
                }
                return Some(i);
            }
            assert(is_entry(self@, prefix, i as int) ==> namespace::is_under(ns@, prefix));
            i += 1;
        }
        None
    }

    /// The entry of the longest prefix of a namespace that is registered.
    fn find_best_match_entry(&self, ns: &TrackNamespace) -> (r: Option<usize>)
        requires
            self.wf(),
        ensures
            match r {
                Some(i) => i < self@.len() && best_match(self@, ns@) == Some(i as int),
                None => best_match(self@, ns@) is None,
            },
    {
        let mut n: usize = ns.len();
        while n > 0
            invariant
                n <= ns@.len(),
                self.wf(),
                best_match(self@, ns@) == longest(self@, ns@, n as int),
            decreases n,
        {
            if let Some(i) = self.find_prefix(ns, n) {
                return Some(i);
            }
            n -= 1;
        }
        None
    }

    /// The entry of a namespace.
    fn find(&self, ns: &TrackNamespace) -> (r: Option<usize>)
        requires
            self.wf(),
        ensures
            match r {
                Some(i) => i < self@.len() && entry_of(self@, ns@) == Some(i as int),
                None => entry_of(self@, ns@) is None,
            },
    {
        assert(ns@.take(ns@.len() as int) =~= ns@);
        self.find_prefix(ns, ns.len())
    }

    fn push_entry(&mut self, ns: TrackNamespace, handle: T)
        requires
            old(self).wf(),
            !registered(old(self)@, ns@),
        ensures
            final(self).wf(),
            final(self)@ == old(self)@.push(new_entry(ns@, handle)),
    {
        let ghost before = self@;
        let entry = LocalsEntry { namespace: ns, handle, tracks: Vec::new() };
        self.entries.push(entry);
        proof {
            assert(entry@ =~= new_entry::<T, K>(ns@, handle));
            assert(self@ =~= before.push(new_entry(ns@, handle)));
            assert forall|i: int| 0 <= i < before.len() implies (
            #[trigger] self@[i]).namespace != ns@ by {
                assert(!is_entry(before, ns@, i));
            }
        }
    }

    /// Registers a namespace.
    pub fn register(&mut self, ns: TrackNamespace, handle: T) -> (r: Result<(), ServeError>)
        requires
            old(self).wf(),
        ensures
            final(self).wf(),
            match r {
                Ok(_) => !registered(old(self)@, ns@) && final(self)@ == old(self)@.push(
                    new_entry(ns@, handle),
                ),
                Err(e) => registered(old(self)@, ns@) && e == ServeError::Duplicate
                    && final(self)@ == old(self)@,
            },
    {
        if self.find(&ns).is_some() {
            return Err(ServeError::Duplicate);
        }
        self.push_entry(ns, handle);
        Ok(())
    }

    /// Forgets a namespace and its tracks.
    pub fn unregister(&mut self, ns: &TrackNamespace)
        requires
            old(self).wf(),
        ensures
            final(self).wf(),
            final(self)@ == (match entry_of(old(self)@, ns@) {
                Some(i) => old(self)@.remove(i),
                None => old(self)@,
            }),
    {
        if let Some(i) = self.find(ns) {
            let ghost before = self@;
            let _ = self.entries.remove(i);
            proof {
                assert(self@ =~= before.remove(i as int));
            }
        }
    }

    /// The handle of the longest prefix of a namespace that is registered.
    pub fn retrieve(&self, ns: &TrackNamespace) -> (r: Option<&T>)
        requires
            self.wf(),
        ensures
            match r {
                Some(handle) => best_match(self@, ns@) is Some && *handle == self@[best_match(
                    self@,
                    ns@,
                )->0].handle,
                None => best_match(self@, ns@) is None,
            },
    {
        match self.find_best_match_entry(ns) {
            Some(i) => Some(&self.entries[i].handle),
            None => None,
        }
    }

    /// The slot of a track under the entry at `at`.
    fn find_slot(&self, at: usize, ns: &TrackNamespace, name: &String) -> (r: Option<usize>)
        requires
            self.wf(),
            at < self@.len(),
        ensures
            match r {
                Some(i) => i < self@[at as int].tracks.len() && slot_of(
                    self@[at as int].tracks,
                    ns@,
                    name@,
                ) == Some(i as int),
                None => slot_of(self@[at as int].tracks, ns@, name@) is None,
            },
    {
        let ghost slots = self@[at as int].tracks;
        let tracks = &self.entries[at].tracks;
        let mut i: usize = 0;
        while i < tracks.len()
            invariant
                i <= tracks@.len(),
                slots == self@[at as int].tracks,
                slots == tracks@.map_values(|slot: TrackSlot<K>| slot@),
                slots_distinct(slots),
                forall|k: int| 0 <= k < i ==> !is_slot(slots, ns@, name@, k),
            decreases tracks@.len() - i,
        {
            assert(slots[i as int] == tracks@[i as int]@);
            if tracks[i].namespace.same_as(ns) && text_eq(&tracks[i].name, name) {
                proof {
                    lemma_slot_of(slots, ns@, name@, i as int);
                }
                return Some(i);
            }
            i += 1;
        }
        None
    }

    /// Makes sure that a track has a slot under the entry at `at`.
    fn ensure_slot(&mut self, at: usize, ns: &TrackNamespace, name: &String, fresh: K) -> (r: usize)
        requires
            old(self).wf(),
            at < old(self)@.len(),
        ensures
            final(self).wf(),
            final(self)@ == with_track(old(self)@, at as int, ns@, name@, fresh),
            r < final(self)@[at as int].tracks.len(),
            final(self)@[at as int].tracks[r as int].info == info_of(
                old(self)@[at as int].tracks,
                ns@,
                name@,
                fresh,
            ),
    {
        let ghost before = self@;
        let ghost slots = self@[at as int].tracks;
        proof {
            lemma_with_slot(slots, ns@, name@, fresh);
        }
        match self.find_slot(at, ns, name) {
            Some(i) => {
                assert(self@ =~= with_track(before, at as int, ns@, name@, fresh));
                i
            },
            None => {
                let i: usize = self.entries[at].tracks.len();
                let slot = TrackSlot { namespace: ns.clone(), name: name.clone(), info: fresh };
                let ghost entry = self.entries@[at as int];
                self.entries[at].tracks.push(slot);
                proof {
                    let pushed = self.entries@[at as int];
                    assert(pushed@.tracks =~= slots.push(slot@));
                    assert(slot@ =~= (TrackSlotView { namespace: ns@, name: name@, info: fresh }));
                    assert(self@[at as int] == pushed@);
                    assert forall|k: int| 0 <= k < before.len() && k != at implies self@[k]
                        == before[k] by {}
                    assert(self@ =~= with_track(before, at as int, ns@, name@, fresh));
                    assert forall|k: int| 0 <= k < self@.len() implies slots_distinct(
                        (#[trigger] self@[k]).tracks,
                    ) by {
                        if k != at {
                            assert(slots_distinct(before[k].tracks));
                        }
                    }
                    assert forall|a: int, b: int| 0 <= a < b < self@.len() implies (
                    #[trigger] self@[a]).namespace != (#[trigger] self@[b]).namespace by {
                        assert(before[a].namespace != before[b].namespace);
                    }
                }
                i
            },
        }
    }

    /// What is known of a track under the longest prefix of its namespace that is registered. If
    /// nothing is, `fresh` is from now on. `None` if no prefix is registered.
    pub fn get_or_create_track_info(&mut self, ns: &TrackNamespace, name: &String, fresh: K) -> (r:
        Option<&K>)
        requires
            old(self).wf(),
        ensures
            final(self).wf(),
            match r {
                Some(info) => best_match(old(self)@, ns@) is Some && final(self)@ == with_track(
                    old(self)@,
                    best_match(old(self)@, ns@)->0,
                    ns@,
                    name@,
                    fresh,
                ) && *info == info_of(
                    old(self)@[best_match(old(self)@, ns@)->0].tracks,
                    ns@,
                    name@,
                    fresh,
                ),
                None => best_match(old(self)@, ns@) is None && final(self)@ == old(self)@,
            },
    {
        match self.find_best_match_entry(ns) {
            Some(at) => {
                let i: usize = self.ensure_slot(at, ns, name, fresh);
                Some(&self.entries[at].tracks[i].info)
            },
            None => None,
        }
    }

    /// What is known of a track under the longest prefix of its namespace that is registered. If
    /// nothing is, `fresh` is from now on. If no prefix is registered, the namespace is, with
    /// `handle`: a publisher can arrive that did not announce its namespace.
    pub fn get_or_create_track_info_auto_register(
        &mut self,
        ns: &TrackNamespace,
        name: &String,
        fresh: K,
        handle: T,
    ) -> (r: &K)
        requires
            old(self).wf(),
        ensures
            final(self).wf(),
            match best_match(old(self)@, ns@) {
                Some(at) => final(self)@ == with_track(old(self)@, at, ns@, name@, fresh) && *r
                    == info_of(old(self)@[at].tracks, ns@, name@, fresh),
                None => match entry_of(old(self)@, ns@) {
                    Some(at) => final(self)@ == with_track(old(self)@, at, ns@, name@, fresh)
                        && *r == info_of(old(self)@[at].tracks, ns@, name@, fresh),
                    None => final(self)@ == with_track(
                        old(self)@.push(new_entry(ns@, handle)),
                        old(self)@.len() as int,
                        ns@,
                        name@,
                        fresh,
                    ) && *r == fresh,
                },
            },
    {
        let at: usize = match self.find_best_match_entry(ns) {
            Some(at) => at,
            None => match self.find(ns) {
                Some(at) => at,
                None => {
                    self.push_entry(ns.clone(), handle);
                    assert(self@.len() == self.entries@.len());
                    self.entries.len() - 1
                },
            },
        };
        let i: usize = self.ensure_slot(at, ns, name, fresh);
        &self.entries[at].tracks[i].info
    }

    /// What is known of a track under the longest prefix of its namespace that is registered.
    pub fn get_track_info(&self, ns: &TrackNamespace, name: &String) -> (r: Option<&K>)
        requires
            self.wf(),
        ensures
            match r {
                Some(info) => known(self@, ns@, name@) == Some(*info),
                None => known(self@, ns@, name@) is None,
            },
    {
        match self.find_best_match_entry(ns) {
            Some(at) => match self.find_slot(at, ns, name) {
                Some(i) => Some(&self.entries[at].tracks[i].info),
                None => None,
            },
            None => None,
        }
    }

    /// The handle that a new track of a namespace is put in. The namespace itself has to be
    /// registered.
    pub fn insert_track(&self, ns: &TrackNamespace) -> (r: Option<&T>)
        requires
            self.wf(),
        ensures
            match r {
                Some(handle) => entry_of(self@, ns@) is Some && *handle == self@[entry_of(
                    self@,
                    ns@,
                )->0].handle,
                None => entry_of(self@, ns@) is None,
            },
    {
        match self.find(ns) {
            Some(i) => Some(&self.entries[i].handle),
            None => None,
        }
    }

    /// Gives away the writer of a track to subscribe upstream. The result is the handle that the
    /// track is asked of and put in. `None` if the namespace of the track is not registered, or if
    /// the writer cannot be given away.
    pub fn subscribe_upstream(&self, track: &mut TrackInfo) -> (r: Option<&T>)
        requires
            self.wf(),
        ensures
            match r {
                Some(handle) => entry_of(self@, old(track)@.namespace) is Some && *handle
                    == self@[entry_of(self@, old(track)@.namespace)->0].handle
                    && old(track)@.request_result() is Ok,
                None => entry_of(self@, old(track)@.namespace) is None || old(
                    track,
                )@.request_result() is Err,
            },
            final(track)@ == (if entry_of(self@, old(track)@.namespace) is Some {
                old(track)@.requested()
            } else {
                old(track)@
            }),
    {
        match self.find(&track.namespace) {
            Some(i) => match track.take_writer_for_upstream() {
                Ok(_) => Some(&self.entries[i].handle),
                Err(_) => None,
            },
            None => None,
        }
    }

    /// The registered namespaces that lie under a prefix.
    pub fn matching_namespaces(&self, prefix: &TrackNamespace) -> (r: Vec<TrackNamespace>)
        ensures
            namespaces_view(r@) == under_prefix(self@, prefix@, self@.len() as int),
    {
        let mut out: Vec<TrackNamespace> = Vec::new();
        let mut i: usize = 0;
        assert(namespaces_view(out@) =~= seq![]);
        while i < self.entries.len()
            invariant
                i <= self.entries@.len(),
                self@.len() == self.entries@.len(),
                namespaces_view(out@) == under_prefix(self@, prefix@, i as int),
            decreases self.entries@.len() - i,
        {
            assert(self@[i as int] == self.entries@[i as int]@);
            if self.entries[i].namespace.has_prefix(prefix) {
                let ghost before = namespaces_view(out@);
                let ns = self.entries[i].namespace.clone();
                out.push(ns);
                assert(namespaces_view(out@) =~= before.push(ns@));
            }
            i += 1;
        }
        out
    }
}

/// What is known of a track under the longest prefix of its namespace that is registered.
pub open spec fn known<T, K>(
    entries: Seq<LocalsEntryView<T, K>>,
    ns: Seq<Seq<u8>>,
    name: Seq<char>,
) -> Option<K> {
    match best_match(entries, ns) {
        Some(at) => match slot_of(entries[at].tracks, ns, name) {
            Some(i) => Some(entries[at].tracks[i].info),
            None => None,
        },
        None => None,
    }
}

/// The entry that a namespace is served from is that of a prefix of it, and no longer prefix is
/// registered.
pub proof fn law_longest_prefix_serves<T, K>(entries: Seq<LocalsEntryView<T, K>>, ns: Seq<Seq<u8>>)
    ensures
        match best_match(entries, ns) {
            Some(i) => 0 <= i < entries.len() && entries[i].namespace.len() > 0
                && namespace::is_under(ns, entries[i].namespace) && forall|m: int|
                entries[i].namespace.len() < m <= ns.len() ==> !#[trigger] registered(
                    entries,
                    ns.take(m),
                ),
            None => forall|m: int|
                0 < m <= ns.len() ==> !#[trigger] registered(entries, ns.take(m)),
        },
{
    lemma_longest(entries, ns, ns.len() as int);
}

/// A namespace that has just been registered is served from its own entry.
pub proof fn law_registered_namespace_is_served<T, K>(
    entries: Seq<LocalsEntryView<T, K>>,
    ns: Seq<Seq<u8>>,
    handle: T,
)
    requires
        locals_wf(entries),
        !registered(entries, ns),
        ns.len() > 0,
    ensures
        best_match(entries.push(new_entry(ns, handle)), ns) == Some(entries.len() as int),
{
    let after = entries.push(new_entry(ns, handle));
    assert(ns.take(ns.len() as int) =~= ns);
    assert(is_entry(after, ns, entries.len() as int));
    assert(entries_distinct(after)) by {
        assert forall|i: int, j: int| 0 <= i < j < after.len() implies (
        #[trigger] after[i]).namespace != (#[trigger] after[j]).namespace by {
            if j == entries.len() {
                assert(!is_entry(entries, ns, i));
            }
        }
    }
    lemma_entry_of(after, ns, entries.len() as int);
}

/// Forgetting a namespace undoes its registration.
pub proof fn law_unregister_undoes_register<T, K>(
    entries: Seq<LocalsEntryView<T, K>>,
    ns: Seq<Seq<u8>>,
    handle: T,
)
    requires
        locals_wf(entries),
        !registered(entries, ns),
    ensures
        entry_of(entries.push(new_entry(ns, handle)), ns) == Some(entries.len() as int),
        entries.push(new_entry(ns, handle)).remove(entries.len() as int) == entries,
{
    let after = entries.push(new_entry(ns, handle));
    assert(is_entry(after, ns, entries.len() as int));
    assert(entries_distinct(after)) by {
        assert forall|i: int, j: int| 0 <= i < j < after.len() implies (
        #[trigger] after[i]).namespace != (#[trigger] after[j]).namespace by {
            if j == entries.len() {
                assert(!is_entry(entries, ns, i));
            }
        }
    }
    lemma_entry_of(after, ns, entries.len() as int);
    assert(after.remove(entries.len() as int) =~= entries);
}

/// What was made known of a track is known afterwards, and asking again changes nothing.
pub proof fn law_created_info_is_found<T, K>(
    entries: Seq<LocalsEntryView<T, K>>,
    ns: Seq<Seq<u8>>,
    name: Seq<char>,
    fresh: K,
    other: K,
)
    requires
        locals_wf(entries),
        best_match(entries, ns) is Some,
    ensures
        ({
            let at = best_match(entries, ns)->0;
            let after = with_track(entries, at, ns, name, fresh);
            &&& best_match(after, ns) == Some(at)
            &&& known(after, ns, name) == Some(info_of(entries[at].tracks, ns, name, fresh))
            &&& with_track(after, at, ns, name, other) == after
        }),
{
    let at = best_match(entries, ns)->0;
    lemma_longest(entries, ns, ns.len() as int);
    let after = with_track(entries, at, ns, name, fresh);
    lemma_with_slot(entries[at].tracks, ns, name, fresh);
    assert(after[at].tracks == with_slot(entries[at].tracks, ns, name, fresh));
    lemma_same_namespaces(entries, after, ns, ns.len() as int);
    assert(with_track(after, at, ns, name, other) =~= after);
}

proof fn lemma_same_namespaces<T, K>(
    a: Seq<LocalsEntryView<T, K>>,
    b: Seq<LocalsEntryView<T, K>>,
    ns: Seq<Seq<u8>>,
    n: int,
)
    requires
        entries_distinct(a),
        a.len() == b.len(),
        forall|i: int| 0 <= i < a.len() ==> (#[trigger] a[i]).namespace == b[i].namespace,
        n <= ns.len(),
    ensures
        longest(a, ns, n) == longest(b, ns, n),
    decreases n,
{
    if n > 0 {
        lemma_same_namespaces(a, b, ns, n - 1);
        let prefix = ns.take(n);
        assert(entries_distinct(b)) by {
            assert forall|i: int, j: int| 0 <= i < j < b.len() implies (
            #[trigger] b[i]).namespace != (#[trigger] b[j]).namespace by {
                assert(a[i].namespace != a[j].namespace);
            }
        }
        if registered(a, prefix) {
            let i = choose|i: int| is_entry(a, prefix, i);
            assert(is_entry(b, prefix, i));
            lemma_entry_of(a, prefix, i);
            lemma_entry_of(b, prefix, i);
        }
        if registered(b, prefix) {
            let i = choose|i: int| is_entry(b, prefix, i);
            assert(is_entry(a, prefix, i));
        }
    }
}

/// A publisher is taken on while the track does not come from upstream, no other publisher sends
/// it and its writer is still to be had. It is told which of these fails.
pub proof fn law_publisher_is_taken_on(track: TrackInfoView)
    ensures
        track.publish_result() is Ok <==> (track.state == TrackState::Pending || track.state
            == TrackState::Subscribing || track.state == TrackState::Closed) && (!track.created
            || track.writer_here),
        track.publish_result() == Err::<(), ServeError>(ServeError::Uninterested) <==> track.state
            == TrackState::Subscribed,
        track.publish_result() is Err && track.state != TrackState::Subscribed ==> track.publish_result()
            == Err::<(), ServeError>(ServeError::Duplicate),
        track.publish_result() is Err ==> track.published().state == track.state || (track.created
            && !track.writer_here),
{
}

/// The writer is given away to subscribe upstream while nothing sends the track and nothing is
/// about to.
pub proof fn law_upstream_gets_an_idle_track(track: TrackInfoView)
    ensures
        track.request_result() is Ok <==> (track.state == TrackState::Pending || track.state
            == TrackState::Closed) && (!track.created || track.writer_here),
        track.request_result() is Err ==> track.request_result() == Err::<(), ServeError>(
            ServeError::Duplicate,
        ),
{
}

/// Whatever happens to a track, it stays the track that it is, and it stays made once it is made.
pub proof fn law_track_stays_itself(track: TrackInfoView, request_id: u64)
    ensures
        forall|after: TrackInfoView|
            #![trigger after.created]
            after == track.ensured() || after == track.published() || after == track.requested()
                || after == track.asked_upstream() || after == track.sent(request_id) || after
                == track.accepted() ==> after.namespace == track.namespace && after.name
                == track.name && (track.created ==> after.created) && (
            track.upstream_subscribe_sent ==> after.upstream_subscribe_sent) && (after
                == track.sent(request_id) || after.upstream_request_id
                == track.upstream_request_id),
        track.ensured().created,
        !track.created ==> track.ensured().writer_here,
        track.ensured().state == track.state,
{
}

/// A subscription is owed upstream while none was asked for and no publisher sends the track. Once
/// it is sent it is known by its request. A pending track waits for the answer from then on, and
/// comes from upstream once the answer is there.
pub proof fn law_upstream_subscription_takes_its_course(track: TrackInfoView, request_id: u64)
    ensures
        track.needs_upstream() <==> !track.upstream_subscribe_sent && track.state
            != TrackState::Publishing,
        track.needs_upstream() ==> track.asked_upstream().upstream_subscribe_sent,
        track.asked_upstream().state == track.state,
        track.sent(request_id).upstream_request_id == Some(request_id),
        track.state == TrackState::Pending ==> track.sent(request_id).state
            == TrackState::Subscribing && track.sent(request_id).accepted().state
            == TrackState::Subscribed,
        track.state != TrackState::Pending ==> track.sent(request_id).state == track.state,
        track.state != TrackState::Subscribing ==> track.accepted().state == track.state,
{
}

/// The entry of a namespace is registered under it, and is the only one.
pub proof fn law_entry_is_of_its_namespace<T, K>(
    entries: Seq<LocalsEntryView<T, K>>,
    ns: Seq<Seq<u8>>,
)
    requires
        locals_wf(entries),
    ensures
        match entry_of(entries, ns) {
            Some(at) => 0 <= at < entries.len() && forall|i: int|
                0 <= i < entries.len() ==> ((#[trigger] entries[i]).namespace == ns <==> i == at),
            None => forall|i: int|
                0 <= i < entries.len() ==> (#[trigger] entries[i]).namespace != ns,
        },
        registered(entries, ns) <==> exists|i: int|
            0 <= i < entries.len() && (#[trigger] entries[i]).namespace == ns,
{
    assert forall|i: int| 0 <= i < entries.len() && (#[trigger] entries[i]).namespace
        == ns implies is_entry(entries, ns, i) && entry_of(entries, ns) == Some(i) by {
        lemma_entry_of(entries, ns, i);
    }
    if registered(entries, ns) {
        let at = entry_of(entries, ns)->0;
        assert(is_entry(entries, ns, at));
    }
}

/// What is known of a track stands in the slot with its namespace and name, under the entry that
/// serves its namespace.
pub proof fn law_known_tracks_have_a_slot<T, K>(
    entries: Seq<LocalsEntryView<T, K>>,
    ns: Seq<Seq<u8>>,
    name: Seq<char>,
)
    requires
        locals_wf(entries),
    ensures
        match known(entries, ns, name) {
            Some(info) => best_match(entries, ns) matches Some(at) && exists|i: int|
                0 <= i < entries[at].tracks.len() && (#[trigger] entries[at].tracks[i]).namespace
                    == ns && entries[at].tracks[i].name == name && entries[at].tracks[i].info
                    == info,
            None => best_match(entries, ns) matches Some(at) ==> forall|i: int|
                0 <= i < entries[at].tracks.len() ==> (#[trigger] entries[at].tracks[i]).namespace
                    != ns || entries[at].tracks[i].name != name,
        },
{
    match best_match(entries, ns) {
        Some(at) => {
            let tracks = entries[at].tracks;
            match slot_of(tracks, ns, name) {
                Some(i) => {
                    assert(is_slot(tracks, ns, name, i));
                    assert(entries[at].tracks[i].namespace == ns);
                },
                None => {
                    assert forall|i: int| 0 <= i < tracks.len() implies (
                    #[trigger] tracks[i]).namespace != ns || tracks[i].name != name by {
                        assert(!is_slot(tracks, ns, name, i));
                    }
                },
            }
        },
        None => {},
    }
}

/// A slot for a track changes nothing for the tracks that are there, and a track that has none yet
/// starts with what it is given.
pub proof fn law_new_slot_leaves_the_others<T, K>(
    entries: Seq<LocalsEntryView<T, K>>,
    at: int,
    ns: Seq<Seq<u8>>,
    name: Seq<char>,
    fresh: K,
)
    requires
        locals_wf(entries),
        0 <= at < entries.len(),
    ensures
        ({
            let after = with_track(entries, at, ns, name, fresh);
            let had = exists|i: int|
                0 <= i < entries[at].tracks.len() && (#[trigger] entries[at].tracks[i]).namespace
                    == ns && entries[at].tracks[i].name == name;
            &&& after.len() == entries.len()
            &&& forall|i: int| 0 <= i < entries.len() && i != at ==> #[trigger] after[i] == entries[i]
            &&& after[at].namespace == entries[at].namespace
            &&& after[at].handle == entries[at].handle
            &&& entries[at].tracks.is_prefix_of(after[at].tracks)
            &&& had ==> after[at].tracks == entries[at].tracks
            &&& !had ==> after[at].tracks.len() == entries[at].tracks.len() + 1
                && after[at].tracks.last().namespace == ns && after[at].tracks.last().name == name
                && after[at].tracks.last().info == fresh && info_of(
                entries[at].tracks,
                ns,
                name,
                fresh,
            ) == fresh
        }),
{
    let tracks = entries[at].tracks;
    let after = with_track(entries, at, ns, name, fresh);
    if slot_of(tracks, ns, name) is None {
        assert forall|i: int| 0 <= i < tracks.len() implies (#[trigger] tracks[i]).namespace != ns
            || tracks[i].name != name by {
            assert(!is_slot(tracks, ns, name, i));
        }
        assert(after[at].tracks =~= tracks.push(TrackSlotView { namespace: ns, name, info: fresh }));
    } else {
        let i = slot_of(tracks, ns, name)->0;
        assert(is_slot(tracks, ns, name, i));
        assert(entries[at].tracks[i].namespace == ns);
    }
}

/// A peer that asks for a prefix is told of every namespace here that begins with it, and of no
/// other.
pub proof fn law_namespaces_under_a_prefix_are_listed<T, K>(
    entries: Seq<LocalsEntryView<T, K>>,
    prefix: Seq<Seq<u8>>,
    ns: Seq<Seq<u8>>,
    n: int,
)
    requires
        0 <= n <= entries.len(),
    ensures
        under_prefix(entries, prefix, n).contains(ns) <==> prefix.is_prefix_of(ns) && exists|i: int|
            0 <= i < n && (#[trigger] entries[i]).namespace == ns,
        under_prefix(entries, prefix, n).len() <= n,
    decreases n,
{
    if n > 0 {
        law_namespaces_under_a_prefix_are_listed(entries, prefix, ns, n - 1);
        let before = under_prefix(entries, prefix, n - 1);
        let after = under_prefix(entries, prefix, n);
        let last = entries[n - 1].namespace;
        if prefix.is_prefix_of(last) {
            assert(after == before.push(last));
            if after.contains(ns) {
                let i = after.index_of(ns);
                if i < before.len() {
                    assert(before[i] == ns);
                }
            }
            if before.contains(ns) {
                let i = before.index_of(ns);
                assert(after[i] == ns);
            }
            if last == ns {
                assert(after[before.len() as int] == ns);
            }
        }
    }
}

/// The entry that serves a namespace has a prefix of it, and no longer prefix is registered.
pub proof fn law_serving_entry_has_the_longest_prefix<T, K>(
    entries: Seq<LocalsEntryView<T, K>>,
    ns: Seq<Seq<u8>>,
    i: int,
)
    requires
        0 <= i < entries.len(),
        entries[i].namespace.len() > 0,
        entries[i].namespace.is_prefix_of(ns),
    ensures
        best_match(entries, ns) matches Some(at) && 0 <= at < entries.len()
            && entries[at].namespace.is_prefix_of(ns) && entries[at].namespace.len()
            >= entries[i].namespace.len(),
{
    let own = entries[i].namespace;
    lemma_longest(entries, ns, ns.len() as int);
    assert(ns.take(own.len() as int) =~= own);
    assert(is_entry(entries, own, i));
    assert(registered(entries, ns.take(own.len() as int)));
    match best_match(entries, ns) {
        Some(at) => {
            assert(entries[at].namespace.is_prefix_of(ns));
        },
        None => {},
    }
}

} // verus!
