//! The filter on tracks, applied when a subscription is made: an allowlist or a denylist with
//! limits.

use rustc_hash::{FxBuildHasher, FxHashSet};
use std::hash::BuildHasher;
use std::sync::Arc;
use vstd::prelude::*;
use crate::bytes;
use crate::filter::fx::{fx_set_contains, fx_set_insert, fx_set_items, fx_set_len, fx_set_new};
use crate::filter::object;
use crate::filter::stats::{self, FilterStats, FilterStatsSnapshot};
use crate::namespace::TrackNamespace;
use crate::text::text_eq;

verus! {

/// What `rustc_hash::FxHasher` makes of a list of byte strings and a text after it, where it makes
/// `mark` of the list of one empty byte string and the empty text.
pub uninterp spec fn fx_hash(mark: u64, fields: Seq<Seq<u8>>, name: Seq<char>) -> u64;

/// `rustc_hash::FxBuildHasher::hash_one` on a list of byte strings and a text, and on the list of
/// one empty byte string and the empty text. The list goes to the hasher before the text, each
/// length before what it counts, and an end after the text. The width of the machine's words, and
/// how the machine multiplies, decide what the hasher does; the second hash is another one for each
/// of these ways (and would be without the lengths or the end), so that it, the list and the text
/// decide the first.
#[verifier::external_body]
fn fx_hash_of(fields: &Vec<Vec<u8>>, name: &str) -> (r: (u64, u64))
    ensures
        r.0 == fx_hash(r.1, bytes::tuple_view(fields@), name@),
{
    let mark = FxBuildHasher.hash_one((vec![Vec::<u8>::new()], ""));
    (FxBuildHasher.hash_one((fields, name)), mark)
}

/// The hash of a track, and the one of the track with a single empty field and an empty name.
fn hash_track(namespace: &TrackNamespace, name: &str) -> (r: (u64, u64))
    ensures
        r.0 == fx_hash(r.1, namespace@, name@),
{
    fx_hash_of(&namespace.to_tuple(), name)
}

/// A track with its hash, which is computed once.
#[derive(Clone, Debug)]
pub struct TrackIdentifier {
    pub namespace: Arc<TrackNamespace>,
    pub name: String,
    hash: u64,
}

/// What a track identifier stands for.
#[verifier::ext_equal]
pub struct TrackIdentifierView {
    pub namespace: Seq<Seq<u8>>,
    pub name: Seq<char>,
    /// The hash that was computed when the identifier was made.
    pub hash: u64,
}

impl View for TrackIdentifier {
    type V = TrackIdentifierView;

    closed spec fn view(&self) -> TrackIdentifierView {
        TrackIdentifierView {
            namespace: (*self.namespace)@,
            name: self.name@,
            hash: self.hash,
        }
    }
}

/// The identifier of a track where `mark` stands for the track with a single empty field and an
/// empty name.
pub open spec fn identifies(
    mark: u64,
    namespace: Seq<Seq<u8>>,
    name: Seq<char>,
) -> TrackIdentifierView {
    TrackIdentifierView { namespace, name, hash: fx_hash(mark, namespace, name) }
}

impl TrackIdentifier {
    /// The identifier of a track.
    pub fn new(namespace: &TrackNamespace, name: &str) -> (r: Self)
        ensures
            exists|mark: u64| r@ == #[trigger] identifies(mark, namespace@, name@),
    {
        let (hash, mark) = hash_track(namespace, name);
        assert(hash == fx_hash(mark, namespace@, name@));
        let r = TrackIdentifier {
            namespace: Arc::new(namespace.clone()),
            name: name.to_owned(),
            hash,
        };
        assert(r@ == identifies(mark, namespace@, name@));
        r
    }

    /// The identifier of a track whose namespace is shared with others.
    pub fn with_shared_namespace(namespace: Arc<TrackNamespace>, name: String) -> (r: Self)
        ensures
            exists|mark: u64| r@ == #[trigger] identifies(mark, (*namespace)@, name@),
    {
        let (hash, mark) = hash_track(&namespace, name.as_str());
        assert(hash == fx_hash(mark, (*namespace)@, name@));
        let r = TrackIdentifier { namespace, name, hash };
        assert(r@ == identifies(mark, (*namespace)@, name@));
        r
    }

    /// The hash of the track.
    pub fn hash(&self) -> (r: u64)
        ensures
            r == self@.hash,
    {
        self.hash
    }
}

impl PartialEq for TrackIdentifier {
    fn eq(&self, other: &Self) -> (r: bool) {
        self.hash == other.hash && self.name == other.name && self.namespace.same_as(
            &other.namespace,
        )
    }
}

impl vstd::std_specs::cmp::PartialEqSpecImpl for TrackIdentifier {
    open spec fn obeys_eq_spec() -> bool {
        true
    }

    open spec fn eq_spec(&self, other: &Self) -> bool {
        self@ == other@
    }
}

/// Limits on the selection of tracks. Zero means no limit.
#[derive(Clone, Copy, Debug, PartialEq, Eq, Structural)]
pub struct TrackLimits {
    /// How many tracks may be selected.
    pub max_selected: u64,
    /// How many tracks may be deselected.
    pub max_deselected: u64,
    /// How long a track may be selected, in milliseconds.
    pub max_time_selected_ms: u64,
}

impl TrackLimits {
    /// No limits.
    pub fn unlimited() -> (r: Self)
        ensures
            r == (TrackLimits { max_selected: 0, max_deselected: 0, max_time_selected_ms: 0 }),
    {
        TrackLimits { max_selected: 0, max_deselected: 0, max_time_selected_ms: 0 }
    }

    /// A limit on the number of selected tracks alone.
    pub fn max_tracks(max: u64) -> (r: Self)
        ensures
            r == (TrackLimits { max_selected: max, max_deselected: 0, max_time_selected_ms: 0 }),
    {
        TrackLimits { max_selected: max, max_deselected: 0, max_time_selected_ms: 0 }
    }
}

impl Default for TrackLimits {
    fn default() -> (r: Self)
        ensures
            r == (TrackLimits { max_selected: 0, max_deselected: 0, max_time_selected_ms: 0 }),
    {
        Self::unlimited()
    }
}

/// The bits of a word turned to the left by `n` places.
pub open spec fn rotated(word: u64, n: u64) -> u64 {
    (word << n) | (word >> ((64 - n) as u64))
}

/// `bit` is one of the three bits that stand for `hash` among `num_bits` bits.
pub open spec fn is_bit_of(hash: u64, num_bits: int, bit: int) -> bool {
    ||| bit == hash as int % num_bits
    ||| bit == rotated(hash, 21) as int % num_bits
    ||| bit == rotated(hash, 42) as int % num_bits
}

/// A Bloom filter of hashes: no hash that was inserted is ever missed.
struct BloomFilter {
    bits: Vec<u64>,
    num_bits: usize,
}

/// How many bits a Bloom filter for `items` hashes has.
pub open spec fn bloom_bits_for(items: nat) -> nat {
    if items * 10 < 64 {
        64
    } else {
        items * 10
    }
}

impl BloomFilter {
    spec fn wf(&self) -> bool {
        &&& 64 <= self.num_bits
        &&& self.num_bits + 63 <= usize::MAX
        &&& self.bits@.len() == (self.num_bits + 63) / 64
    }

    spec fn has(&self, bit: int) -> bool {
        object::bit_is_set(self.bits@[bit / 64], (bit % 64) as u64)
    }

    /// All bits of the hash are set.
    spec fn holds(&self, hash: u64) -> bool {
        forall|bit: int|
            0 <= bit < self.num_bits && is_bit_of(hash, self.num_bits as int, bit)
                ==> #[trigger] self.has(bit)
    }

    /// A filter of so many bits, none of them set.
    fn new(num_bits: usize) -> (r: Self)
        requires
            64 <= num_bits,
            num_bits + 63 <= usize::MAX,
        ensures
            r.wf(),
            r.num_bits == num_bits,
            forall|bit: int| 0 <= bit < num_bits ==> !#[trigger] r.has(bit),
    {
        let num_words: usize = (num_bits + 63) / 64;
        let mut bits: Vec<u64> = Vec::new();
        while bits.len() < num_words
            invariant
                bits@.len() <= num_words,
                forall|i: int| 0 <= i < bits@.len() ==> #[trigger] bits@[i] == 0,
            decreases num_words - bits@.len(),
        {
            bits.push(0);
        }
        let r = BloomFilter { bits, num_bits };
        assert forall|bit: int| 0 <= bit < num_bits implies !#[trigger] r.has(bit) by {
            let b = (bit % 64) as u64;
            assert((0u64 >> b) & 1 == 0) by (bit_vector);
        }
        r
    }

    /// A filter for so many hashes.
    fn for_capacity(expected_items: usize) -> (r: Self)
        requires
            expected_items * 10 + 63 <= usize::MAX,
        ensures
            r.wf(),
            r.num_bits == bloom_bits_for(expected_items as nat),
            forall|bit: int| 0 <= bit < r.num_bits ==> !#[trigger] r.has(bit),
    {
        let wanted: usize = expected_items * 10;
        Self::new(
            if wanted < 64 {
                64
            } else {
                wanted
            },
        )
    }

    /// Sets the bits of a hash.
    fn insert(&mut self, hash: u64)
        requires
            old(self).wf(),
        ensures
            final(self).wf(),
            final(self).num_bits == old(self).num_bits,
            forall|bit: int|
                0 <= bit < old(self).num_bits ==> (#[trigger] final(self).has(bit) <==> old(
                    self,
                ).has(bit) || is_bit_of(hash, old(self).num_bits as int, bit)),
    {
        let n: u64 = self.num_bits as u64;
        self.set_bit(hash % n);
        self.set_bit(((hash << 21u64) | (hash >> 43u64)) % n);
        self.set_bit(((hash << 42u64) | (hash >> 22u64)) % n);
    }

    /// Whether all bits of a hash are set.
    fn may_contain(&self, hash: u64) -> (r: bool)
        requires
            self.wf(),
        ensures
            r == self.holds(hash),
    {
        let n: u64 = self.num_bits as u64;
        let first: u64 = hash % n;
        let second: u64 = ((hash << 21u64) | (hash >> 43u64)) % n;
        let third: u64 = ((hash << 42u64) | (hash >> 22u64)) % n;
        assert(is_bit_of(hash, n as int, first as int));
        assert(is_bit_of(hash, n as int, second as int));
        assert(is_bit_of(hash, n as int, third as int));
        self.get_bit(first) && self.get_bit(second) && self.get_bit(third)
    }

    fn set_bit(&mut self, bit: u64)
        requires
            old(self).wf(),
            bit < old(self).num_bits,
        ensures
            final(self).wf(),
            final(self).num_bits == old(self).num_bits,
            forall|b: int|
                0 <= b < old(self).num_bits ==> (#[trigger] final(self).has(b) <==> old(
                    self,
                ).has(b) || b == bit),
    {
        let ghost before = *self;
        let at: usize = (bit / 64) as usize;
        let place: u64 = bit % 64;
        let word: u64 = self.bits[at];
        self.bits[at] = word | (1u64 << place);
        assert forall|b: int| 0 <= b < before.num_bits implies (#[trigger] self.has(b)
            <==> before.has(b) || b == bit) by {
            let p = (b % 64) as u64;
            if b / 64 == at {
                assert(((word | (1u64 << place)) >> p) & 1 == 1 <==> (word >> p) & 1 == 1 || p
                    == place) by (bit_vector)
                    requires
                        p < 64,
                        place < 64,
                ;
            }
        }
    }

    fn get_bit(&self, bit: u64) -> (r: bool)
        requires
            self.wf(),
            bit < self.num_bits,
        ensures
            r == self.has(bit as int),
    {
        let at: usize = (bit / 64) as usize;
        let place: u64 = bit % 64;
        (self.bits[at] >> place) & 1 == 1
    }
}

/// How a track filter reads its list.
#[derive(Clone, Copy, Debug, PartialEq, Eq, Structural)]
pub enum TrackFilterMode {
    /// Only the tracks of the list are accepted.
    Allowlist,
    /// All tracks but those of the list are accepted.
    Denylist,
}

/// The filter on tracks. The hashes of the listed tracks, behind a Bloom filter, rule out most
/// tracks that are not listed; the others are compared with the listed ones.
pub struct TrackFilter {
    mode: TrackFilterMode,
    bloom: BloomFilter,
    tracks: FxHashSet<u64>,
    track_ids: Vec<TrackIdentifier>,
    /// How many different tracks are listed.
    distinct: usize,
    /// What the hasher makes of the empty byte string.
    mark: u64,
    /// Whether all hashes were made with that mark, so that they can rule tracks out.
    uniform: bool,
    limits: TrackLimits,
    selected_count: u64,
    deselected_count: u64,
    enabled: bool,
    pub stats: FilterStats,
}

/// The state of a track filter.
#[verifier::ext_equal]
pub struct TrackFilterView {
    pub mode: TrackFilterMode,
    /// The hashes of the listed tracks.
    pub hashes: Set<u64>,
    /// The listed tracks in the order in which they were added.
    pub ids: Seq<TrackIdentifierView>,
    /// The size of the Bloom filter in front of the hashes.
    pub bloom_bits: nat,
    pub limits: TrackLimits,
    pub selected_count: u64,
    pub deselected_count: u64,
    pub enabled: bool,
    pub stats: FilterStats,
}

impl TrackFilterView {
    /// The filter with an empty list.
    pub open spec fn empty(mode: TrackFilterMode, stats_enabled: bool) -> TrackFilterView {
        TrackFilterView {
            mode,
            hashes: Set::empty(),
            ids: Seq::empty(),
            bloom_bits: 1000,
            limits: TrackLimits { max_selected: 0, max_deselected: 0, max_time_selected_ms: 0 },
            selected_count: 0,
            deselected_count: 0,
            enabled: true,
            stats: FilterStats::zero(stats_enabled),
        }
    }

    /// As many tracks as allowed are selected.
    pub open spec fn is_full(self) -> bool {
        0 < self.limits.max_selected && self.limits.max_selected <= self.selected_count
    }

    /// The listed tracks.
    pub open spec fn listed(self) -> Set<(Seq<Seq<u8>>, Seq<char>)> {
        self.ids.map_values(
            |track: TrackIdentifierView| (track.namespace, track.name),
        ).to_set()
    }

    /// The track is on the list.
    pub open spec fn lists(self, namespace: Seq<Seq<u8>>, name: Seq<char>) -> bool {
        self.listed().contains((namespace, name))
    }

    /// The track is accepted.
    pub open spec fn accepts(self, namespace: Seq<Seq<u8>>, name: Seq<char>) -> bool {
        ||| !self.enabled
        ||| !self.is_full() && match self.mode {
            TrackFilterMode::Allowlist => self.lists(namespace, name),
            TrackFilterMode::Denylist => !self.lists(namespace, name),
        }
    }

    /// The filter once a decision was counted.
    pub open spec fn decided(self, accepted: bool) -> TrackFilterView {
        if accepted {
            TrackFilterView {
                selected_count: stats::wrapping_sum(self.selected_count, 1),
                stats: self.stats.counted(true),
                ..self
            }
        } else {
            TrackFilterView {
                deselected_count: stats::wrapping_sum(self.deselected_count, 1),
                stats: self.stats.counted(false),
                ..self
            }
        }
    }

    /// The filter with a track added to its list. The track is hashed where `mark` stands for the
    /// one with a single empty field and an empty name.
    pub open spec fn with_track(self, track: TrackIdentifierView, mark: u64) -> TrackFilterView {
        TrackFilterView {
            hashes: self.hashes.insert(fx_hash(mark, track.namespace, track.name)),
            ids: self.ids.push(track),
            bloom_bits: if self.hashes.len() >= self.bloom_bits / 10 {
                bloom_bits_for(self.hashes.len() * 2)
            } else {
                self.bloom_bits
            },
            ..self
        }
    }

    /// The Bloom filter can still be made twice as large as the list.
    pub open spec fn has_room(self) -> bool {
        self.hashes.len() * 20 + 63 <= usize::MAX
    }
}

/// The bytes that the listed tracks take: a record and a name each.
pub open spec fn ids_bytes(ids: Seq<TrackIdentifierView>) -> nat
    decreases ids.len(),
{
    if ids.len() == 0 {
        0
    } else {
        vstd::layout::size_of::<TrackIdentifier>() + vstd::utf8::encode_utf8(ids[0].name).len()
            + ids_bytes(ids.drop_first())
    }
}

/// The bytes that a filter takes: itself, its Bloom filter, its hashes and its tracks.
pub open spec fn memory_estimate(filter: TrackFilterView) -> nat {
    vstd::layout::size_of::<TrackFilter>() + (filter.bloom_bits + 63) / 64 * 8
        + filter.hashes.len() * 8 + ids_bytes(filter.ids)
}

impl View for TrackFilter {
    type V = TrackFilterView;

    closed spec fn view(&self) -> TrackFilterView {
        TrackFilterView {
            mode: self.mode,
            hashes: self.tracks@,
            ids: self.track_ids@.map_values(|track: TrackIdentifier| track@),
            bloom_bits: self.bloom.num_bits as nat,
            limits: self.limits,
            selected_count: self.selected_count,
            deselected_count: self.deselected_count,
            enabled: self.enabled,
            stats: self.stats,
        }
    }
}

impl TrackFilter {
    /// The hashes of all listed tracks are there, and the Bloom filter misses none.
    pub closed spec fn wf(&self) -> bool {
        &&& self.bloom.wf()
        &&& self.tracks@.finite()
        &&& forall|hash: u64| #[trigger] self.tracks@.contains(hash) ==> self.bloom.holds(hash)
        &&& self.uniform ==> forall|namespace: Seq<Seq<u8>>, name: Seq<char>|
            self@.lists(namespace, name) ==> self.tracks@.contains(
                #[trigger] fx_hash(self.mark, namespace, name),
            )
        &&& self.distinct == self@.listed().len()
    }

    /// An empty allowlist.
    pub fn allowlist() -> (r: Self)
        ensures
            r.wf(),
            r@ == TrackFilterView::empty(TrackFilterMode::Allowlist, false),
    {
        Self::new(TrackFilterMode::Allowlist)
    }

    /// An empty denylist.
    pub fn denylist() -> (r: Self)
        ensures
            r.wf(),
            r@ == TrackFilterView::empty(TrackFilterMode::Denylist, false),
    {
        Self::new(TrackFilterMode::Denylist)
    }

    /// A filter with an empty list.
    pub fn new(mode: TrackFilterMode) -> (r: Self)
        ensures
            r.wf(),
            r@ == TrackFilterView::empty(mode, false),
    {
        let r = TrackFilter {
            mode,
            bloom: BloomFilter::for_capacity(100),
            tracks: fx_set_new(),
            track_ids: Vec::new(),
            distinct: 0,
            mark: fx_hash_of(&Vec::new(), "").1,
            uniform: true,
            limits: TrackLimits::unlimited(),
            selected_count: 0,
            deselected_count: 0,
            enabled: true,
            stats: FilterStats::new(),
        };
        assert(r@ =~= TrackFilterView::empty(mode, false));
        assert(r@.listed() =~= Set::empty());
        r
    }

    /// A filter with an empty list that counts its decisions.
    pub fn with_stats(mode: TrackFilterMode) -> (r: Self)
        ensures
            r.wf(),
            r@ == TrackFilterView::empty(mode, true),
    {
        let mut filter = Self::new(mode);
        filter.stats = FilterStats::enabled();
        filter
    }

    /// Sets the limits.
    pub fn set_limits(&mut self, limits: TrackLimits)
        requires
            old(self).wf(),
        ensures
            final(self).wf(),
            final(self)@ == (TrackFilterView { limits, ..old(self)@ }),
    {
        self.limits = limits;
    }

    /// Turns the filter on.
    pub fn enable(&mut self)
        requires
            old(self).wf(),
        ensures
            final(self).wf(),
            final(self)@ == (TrackFilterView { enabled: true, ..old(self)@ }),
    {
        self.enabled = true;
    }

    /// Turns the filter off: it then accepts every track.
    pub fn disable(&mut self)
        requires
            old(self).wf(),
        ensures
            final(self).wf(),
            final(self)@ == (TrackFilterView { enabled: false, ..old(self)@ }),
    {
        self.enabled = false;
    }

    /// Whether the filter is on.
    pub fn is_enabled(&self) -> (r: bool)
        ensures
            r == self@.enabled,
    {
        self.enabled
    }

    /// Adds a track to the list.
    pub fn add_track(&mut self, track: TrackIdentifier)
        requires
            old(self).wf(),
            old(self)@.has_room(),
        ensures
            final(self).wf(),
            exists|mark: u64| final(self)@ == #[trigger] old(self)@.with_track(track@, mark),
    {
        let ghost before = *self;
        let (hash, mark) = hash_track(&track.namespace, track.name.as_str());
        let known = self.is_in_set(&track.namespace, track.name.as_str());
        let count: usize = fx_set_len(&self.tracks);
        if count >= self.bloom.num_bits / 10 {
            self.rebuild_bloom(count * 2);
        }
        let ghost rebuilt = self.bloom;
        self.bloom.insert(hash);
        fx_set_insert(&mut self.tracks, hash);
        if mark != self.mark {
            self.uniform = false;
        }
        let ghost added = (track@.namespace, track@.name);
        self.track_ids.push(track);
        assert(self@.ids =~= before@.ids.push(track@));
        proof {
            lemma_listed_push(before@, track@, self@);
        }
        assert(self.track_ids.len() <= usize::MAX);
        if !known {
            self.distinct = self.distinct + 1;
        }
        proof {
            assert forall|h: u64| #[trigger] self.tracks@.contains(h) implies self.bloom.holds(
                h,
            ) by {
                if h != hash {
                    assert(rebuilt.holds(h));
                }
                assert forall|bit: int|
                    0 <= bit < self.bloom.num_bits && is_bit_of(
                        h,
                        self.bloom.num_bits as int,
                        bit,
                    ) implies #[trigger] self.bloom.has(bit) by {
                    if h != hash {
                        assert(rebuilt.has(bit));
                    }
                }
            }
            if self.uniform {
                assert forall|namespace: Seq<Seq<u8>>, name: Seq<char>|
                    self@.lists(namespace, name) implies self.tracks@.contains(
                    #[trigger] fx_hash(self.mark, namespace, name),
                ) by {
                    if (namespace, name) != added {
                        assert(before@.lists(namespace, name));
                    }
                }
            }
            assert(self@ =~= before@.with_track(track@, mark));
        }
    }

    /// Adds a track to the list by its namespace and name.
    pub fn add(&mut self, namespace: &TrackNamespace, name: &str)
        requires
            old(self).wf(),
            old(self)@.has_room(),
        ensures
            final(self).wf(),
            exists|made: u64, mark: u64|
                final(self)@ == #[trigger] old(self)@.with_track(
                    identifies(made, namespace@, name@),
                    mark,
                ),
    {
        let track = TrackIdentifier::new(namespace, name);
        self.add_track(track);
    }

    /// Makes the Bloom filter anew, for so many hashes.
    fn rebuild_bloom(&mut self, new_capacity: usize)
        requires
            new_capacity * 10 + 63 <= usize::MAX,
            old(self).wf(),
        ensures
            final(self).wf(),
            final(self)@ == (TrackFilterView {
                bloom_bits: bloom_bits_for(new_capacity as nat),
                ..old(self)@
            }),
            final(self).track_ids == old(self).track_ids,
            final(self).tracks == old(self).tracks,
            final(self).mark == old(self).mark,
            final(self).uniform == old(self).uniform,
            final(self).distinct == old(self).distinct,
    {
        let mut bloom = BloomFilter::for_capacity(new_capacity);
        let hashes: Vec<u64> = fx_set_items(&self.tracks);
        let mut i: usize = 0;
        while i < hashes.len()
            invariant
                i <= hashes@.len(),
                bloom.wf(),
                bloom.num_bits == bloom_bits_for(new_capacity as nat),
                forall|k: int| 0 <= k < i ==> bloom.holds(#[trigger] hashes@[k]),
            decreases hashes@.len() - i,
        {
            let ghost before = bloom;
            bloom.insert(hashes[i]);
            proof {
                assert forall|k: int| 0 <= k < i + 1 implies bloom.holds(
                    #[trigger] hashes@[k],
                ) by {
                    assert(k < i ==> before.holds(hashes@[k]));
                    assert forall|bit: int|
                        0 <= bit < bloom.num_bits && is_bit_of(
                            hashes@[k],
                            bloom.num_bits as int,
                            bit,
                        ) implies #[trigger] bloom.has(bit) by {
                        assert(k < i ==> before.has(bit));
                    }
                }
            }
            i += 1;
        }
        self.bloom = bloom;
        proof {
            assert forall|hash: u64| #[trigger]
                self.tracks@.contains(hash) implies self.bloom.holds(hash) by {
                assert(hashes@.to_set().contains(hash));
                let k = choose|k: int| 0 <= k < hashes@.len() && hashes@[k] == hash;
                assert(self.bloom.holds(hashes@[k]));
            }
        }
    }

    /// Whether a track is on the list.
    fn is_in_set(&self, namespace: &TrackNamespace, name: &str) -> (r: bool)
        requires
            self.wf(),
        ensures
            r == self@.lists(namespace@, name@),
    {
        let (hash, mark) = hash_track(namespace, name);
        if self.uniform && mark == self.mark && !(self.bloom.may_contain(hash) && fx_set_contains(
            &self.tracks,
            hash,
        )) {
            return false;
        }
        let ghost keys = self@.ids.map_values(
            |track: TrackIdentifierView| (track.namespace, track.name),
        );
        let wanted: String = name.to_owned();
        let mut i: usize = 0;
        while i < self.track_ids.len()
            invariant
                i <= self.track_ids@.len(),
                wanted@ == name@,
                keys == self@.ids.map_values(
                    |track: TrackIdentifierView| (track.namespace, track.name),
                ),
                forall|k: int| 0 <= k < i ==> #[trigger] keys[k] != (namespace@, name@),
            decreases self.track_ids@.len() - i,
        {
            let track = &self.track_ids[i];
            assert(keys[i as int] == (track@.namespace, track@.name));
            if text_eq(&track.name, &wanted) && track.namespace.same_as(namespace) {
                assert(keys.contains((namespace@, name@)));
                return true;
            }
            i += 1;
        }
        false
    }

    /// Whether a track is accepted.
    pub fn should_accept(&self, namespace: &TrackNamespace, name: &str) -> (r: bool)
        requires
            self.wf(),
        ensures
            r == self@.accepts(namespace@, name@),
    {
        if !self.is_enabled() {
            return true;
        }
        if self.limits.max_selected > 0 && self.selected_count >= self.limits.max_selected {
            return false;
        }
        let in_set = self.is_in_set(namespace, name);
        match self.mode {
            TrackFilterMode::Allowlist => in_set,
            TrackFilterMode::Denylist => !in_set,
        }
    }

    /// Decides on a track and counts the decision.
    pub fn filter(&mut self, namespace: &TrackNamespace, name: &str) -> (r: bool)
        requires
            old(self).wf(),
        ensures
            final(self).wf(),
            r == old(self)@.accepts(namespace@, name@),
            final(self)@ == old(self)@.decided(r),
    {
        let result = self.should_accept(namespace, name);
        if result {
            self.selected_count = self.selected_count.wrapping_add(1);
        } else {
            self.deselected_count = self.deselected_count.wrapping_add(1);
        }
        self.stats.record(result);
        result
    }

    /// The counters as they are.
    pub fn stats_snapshot(&self) -> (r: FilterStatsSnapshot)
        ensures
            r == self@.stats.now(),
    {
        self.stats.snapshot()
    }

    /// Sets the counters to zero.
    pub fn reset_stats(&mut self)
        requires
            old(self).wf(),
        ensures
            final(self).wf(),
            final(self)@ == (TrackFilterView {
                stats: FilterStats::zero(old(self)@.stats.enabled),
                ..old(self)@
            }),
    {
        self.stats.reset();
    }

    /// How many tracks were selected.
    pub fn selected_count(&self) -> (r: u64)
        ensures
            r == self@.selected_count,
    {
        self.selected_count
    }

    /// How many tracks were deselected.
    pub fn deselected_count(&self) -> (r: u64)
        ensures
            r == self@.deselected_count,
    {
        self.deselected_count
    }

    /// An estimate of the memory in use, in bytes.
    pub fn memory_usage(&self) -> (r: usize)
        requires
            self.wf(),
            memory_estimate(self@) <= usize::MAX,
        ensures
            r == memory_estimate(self@),
    {
        let count: usize = fx_set_len(&self.tracks);
        let mut total: usize = self.bloom.bits.len() * 8 + count * 8;
        total += std::mem::size_of::<TrackFilter>();
        assert(self@.ids.skip(0) =~= self@.ids);
        let mut i: usize = 0;
        while i < self.track_ids.len()
            invariant
                i <= self.track_ids@.len(),
                self.wf(),
                memory_estimate(self@) <= usize::MAX,
                total + ids_bytes(self@.ids.skip(i as int)) == memory_estimate(self@),
            decreases self.track_ids@.len() - i,
        {
            proof {
                let rest = self@.ids.skip(i as int);
                assert(rest.drop_first() =~= self@.ids.skip(i + 1));
                assert(rest[0] == self.track_ids@[i as int]@);
            }
            total += std::mem::size_of::<TrackIdentifier>();
            total += self.track_ids[i].name.as_str().len();
            i += 1;
        }
        total
    }

    /// How many different tracks are listed.
    pub fn track_count(&self) -> (r: usize)
        requires
            self.wf(),
        ensures
            r == self@.listed().len(),
    {
        self.distinct
    }
}

/// One more track is one more listed one, unless it is listed already.
proof fn lemma_listed_push(
    before: TrackFilterView,
    track: TrackIdentifierView,
    after: TrackFilterView,
)
    requires
        after.ids == before.ids.push(track),
    ensures
        after.listed() == before.listed().insert((track.namespace, track.name)),
        after.listed().len() <= after.ids.len(),
        before.listed().finite(),
{
    let key = |t: TrackIdentifierView| (t.namespace, t.name);
    let old_keys = before.ids.map_values(key);
    let new_keys = after.ids.map_values(key);
    assert(new_keys =~= old_keys.push((track.namespace, track.name)));
    vstd::seq_lib::seq_to_set_is_finite(old_keys);
    new_keys.lemma_cardinality_of_set();
    assert forall|k: (Seq<Seq<u8>>, Seq<char>)| new_keys.to_set().contains(
        k,
    ) == old_keys.to_set().insert((track.namespace, track.name)).contains(k) by {
        if old_keys.contains(k) {
            let i = choose|i: int| 0 <= i < old_keys.len() && old_keys[i] == k;
            assert(new_keys[i] == k);
        }
        if k == (track.namespace, track.name) {
            assert(new_keys[old_keys.len() as int] == k);
        }
        if new_keys.contains(k) {
            let i = choose|i: int| 0 <= i < new_keys.len() && new_keys[i] == k;
            if i < old_keys.len() {
                assert(old_keys[i] == k);
            }
        }
    }
    assert(after.listed() =~= before.listed().insert((track.namespace, track.name)));
}

impl Default for TrackFilter {
    fn default() -> (r: Self)
        ensures
            r.wf(),
            r@ == TrackFilterView::empty(TrackFilterMode::Allowlist, false),
    {
        Self::allowlist()
    }
}

/// A track that was added to an allowlist is accepted as long as the limits allow.
pub proof fn law_allowlist_accepts_added(
    filter: TrackFilterView,
    track: TrackIdentifierView,
    mark: u64,
)
    requires
        filter.mode == TrackFilterMode::Allowlist,
        !filter.is_full(),
    ensures
        filter.with_track(track, mark).accepts(track.namespace, track.name),
{
    lemma_listed_push(filter, track, filter.with_track(track, mark));
}

/// A track that was added to a denylist is accepted only while the filter is off.
pub proof fn law_denylist_rejects_added(
    filter: TrackFilterView,
    track: TrackIdentifierView,
    mark: u64,
)
    requires
        filter.mode == TrackFilterMode::Denylist,
    ensures
        filter.with_track(track, mark).accepts(track.namespace, track.name) <==> !filter.enabled,
{
    lemma_listed_push(filter, track, filter.with_track(track, mark));
}

/// Adding a track to the list changes nothing for the other tracks, whatever their hashes are.
pub proof fn law_other_tracks_are_decided_as_before(
    filter: TrackFilterView,
    track: TrackIdentifierView,
    mark: u64,
    namespace: Seq<Seq<u8>>,
    name: Seq<char>,
)
    requires
        (namespace, name) != (track.namespace, track.name),
    ensures
        filter.with_track(track, mark).accepts(namespace, name) == filter.accepts(namespace, name),
{
    lemma_listed_push(filter, track, filter.with_track(track, mark));
}

/// No more tracks are selected than the limit allows.
pub proof fn law_selection_stays_within_limit(
    filter: TrackFilterView,
    namespace: Seq<Seq<u8>>,
    name: Seq<char>,
)
    requires
        filter.enabled,
        0 < filter.limits.max_selected,
        filter.selected_count <= filter.limits.max_selected,
    ensures
        filter.decided(filter.accepts(namespace, name)).selected_count
            <= filter.limits.max_selected,
{
}

/// An empty allowlist that is on accepts nothing, an empty denylist everything.
pub proof fn law_empty_lists(namespace: Seq<Seq<u8>>, name: Seq<char>, stats_enabled: bool)
    ensures
        !TrackFilterView::empty(TrackFilterMode::Allowlist, stats_enabled).accepts(
            namespace,
            name,
        ),
        TrackFilterView::empty(TrackFilterMode::Denylist, stats_enabled).accepts(namespace, name),
{
}

/// While a filter is off it accepts everything. While it is on and as many tracks are selected as
/// allowed, it accepts nothing. Else an allowlist accepts the tracks that were added to it, and a
/// denylist all others.
pub proof fn law_listed_tracks_decide(
    filter: TrackFilterView,
    namespace: Seq<Seq<u8>>,
    name: Seq<char>,
)
    ensures
        ({
            let listed = exists|i: int|
                0 <= i < filter.ids.len() && (#[trigger] filter.ids[i]).namespace == namespace
                    && filter.ids[i].name == name;
            let full = filter.limits.max_selected != 0 && filter.selected_count
                >= filter.limits.max_selected;
            &&& !filter.enabled ==> filter.accepts(namespace, name)
            &&& filter.enabled && full ==> !filter.accepts(namespace, name)
            &&& filter.enabled && !full && filter.mode == TrackFilterMode::Allowlist
                ==> filter.accepts(namespace, name) == listed
            &&& filter.enabled && !full && filter.mode == TrackFilterMode::Denylist
                ==> filter.accepts(namespace, name) == !listed
        }),
{
    let names = filter.ids.map_values(|track: TrackIdentifierView| (track.namespace, track.name));
    if filter.lists(namespace, name) {
        let i = names.index_of((namespace, name));
        assert(filter.ids[i].namespace == namespace);
    }
    if exists|i: int|
        0 <= i < filter.ids.len() && (#[trigger] filter.ids[i]).namespace == namespace
            && filter.ids[i].name == name {
        let i = choose|i: int|
            0 <= i < filter.ids.len() && (#[trigger] filter.ids[i]).namespace == namespace
                && filter.ids[i].name == name;
        assert(names[i] == (namespace, name));
        assert(names.contains((namespace, name)));
    }
}

/// Every decision is counted once, on its side, and changes nothing else about the filter.
pub proof fn law_track_decisions_are_counted(filter: TrackFilterView, accepted: bool)
    ensures
        ({
            let after = filter.decided(accepted);
            &&& accepted && filter.selected_count < u64::MAX ==> after.selected_count
                == filter.selected_count + 1
            &&& !accepted && filter.deselected_count < u64::MAX ==> after.deselected_count
                == filter.deselected_count + 1
            &&& accepted ==> after.deselected_count == filter.deselected_count
            &&& !accepted ==> after.selected_count == filter.selected_count
            &&& after.mode == filter.mode && after.ids == filter.ids && after.hashes
                == filter.hashes && after.limits == filter.limits && after.enabled
                == filter.enabled
        }),
{
}

/// A Bloom filter has at least ten bits for each hash that it is made for, and at least one word. It
/// is made for twice the hashes once it is full.
pub proof fn law_bloom_filter_grows_with_the_list(
    filter: TrackFilterView,
    track: TrackIdentifierView,
    mark: u64,
    items: nat,
)
    ensures
        bloom_bits_for(items) >= 64 && bloom_bits_for(items) >= items * 10,
        items * 10 >= 64 ==> bloom_bits_for(items) == items * 10,
        ({
            let after = filter.with_track(track, mark);
            &&& after.ids == filter.ids.push(track)
            &&& after.hashes.contains(fx_hash(mark, track.namespace, track.name))
            &&& filter.hashes.len() < filter.bloom_bits / 10 ==> after.bloom_bits
                == filter.bloom_bits
            &&& filter.hashes.len() >= filter.bloom_bits / 10 ==> after.bloom_bits
                >= filter.hashes.len() * 20 && after.bloom_bits >= 64
            &&& after.mode == filter.mode && after.limits == filter.limits && after.enabled
                == filter.enabled && after.selected_count == filter.selected_count
                && after.deselected_count == filter.deselected_count && after.stats == filter.stats
        }),
{
}

/// Turning a word moves every bit by as many places, and those that leave on the left come in on
/// the right.
pub proof fn law_turned_bits_come_around(word: u64, n: u64, i: u64)
    requires
        0 < n < 64,
        i < 64,
    ensures
        i + n < 64 ==> (rotated(word, n) >> ((i + n) as u64)) & 1 == (word >> i) & 1,
        i + n >= 64 ==> (rotated(word, n) >> ((i + n - 64) as u64)) & 1 == (word >> i) & 1,
{
    let turned = rotated(word, n);
    let back = (64 - n) as u64;
    if i + n < 64 {
        let to = (i + n) as u64;
        assert((turned >> to) & 1 == (word >> i) & 1) by (bit_vector)
            requires
                turned == (word << n) | (word >> back),
                back == 64 - n,
                to == i + n,
                0 < n < 64,
                i + n < 64,
        ;
    } else {
        let to = (i + n - 64) as u64;
        assert((turned >> to) & 1 == (word >> i) & 1) by (bit_vector)
            requires
                turned == (word << n) | (word >> back),
                back == 64 - n,
                to == i + n - 64,
                0 < n < 64,
                i < 64,
                i + n >= 64,
        ;
    }
}

/// Every listed track takes a record and its name, every hash eight bytes, and the Bloom filter
/// whole words.
pub proof fn law_listed_tracks_take_memory(filter: TrackFilterView, track: TrackIdentifierView)
    ensures
        ids_bytes(filter.ids.push(track)) == ids_bytes(filter.ids) + vstd::layout::size_of::<
            TrackIdentifier,
        >() + vstd::utf8::encode_utf8(track.name).len(),
        memory_estimate(TrackFilterView { ids: filter.ids.push(track), ..filter })
            == memory_estimate(filter) + vstd::layout::size_of::<TrackIdentifier>()
            + vstd::utf8::encode_utf8(track.name).len(),
        memory_estimate(TrackFilterView { bloom_bits: filter.bloom_bits + 64, ..filter })
            == memory_estimate(filter) + 8,
    decreases filter.ids.len(),
{
    let all = filter.ids.push(track);
    if filter.ids.len() == 0 {
        assert(all.drop_first() =~= Seq::<TrackIdentifierView>::empty());
        assert(ids_bytes(Seq::empty()) == 0);
    } else {
        let rest = TrackFilterView { ids: filter.ids.drop_first(), ..filter };
        law_listed_tracks_take_memory(rest, track);
        assert(all.drop_first() =~= filter.ids.drop_first().push(track));
        assert(all[0] == filter.ids[0]);
    }
}

} // verus!
