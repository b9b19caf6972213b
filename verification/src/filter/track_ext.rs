//! The filter on track extensions: it lets a track pass if the values of its extensions lie in
//! the ranges that are allowed for them.

use rustc_hash::FxHashMap;
use vstd::prelude::*;
use crate::filter::fx::{
    fx_map_get, fx_map_insert, fx_map_keys, fx_map_len, fx_map_new, fx_map_remove,
};
use crate::filter::range::{self, RangeSet};
use crate::filter::stats::{FilterStats, FilterStatsSnapshot};

verus! {

/// The type of an extension.
pub type ExtensionType = u64;

/// The value of an extension.
pub type ExtensionValue = u64;

/// The values that are allowed for one extension type.
#[derive(Clone, Debug)]
pub struct ExtensionMatcher {
    pub extension_type: ExtensionType,
    pub allowed_ranges: RangeSet,
}

impl ExtensionMatcher {
    pub open spec fn wf(&self) -> bool {
        self.allowed_ranges.wf()
    }

    /// A matcher that allows nothing yet.
    pub fn new(extension_type: ExtensionType) -> (r: Self)
        ensures
            r.wf(),
            r.extension_type == extension_type,
            r.allowed_ranges@ == Seq::<(u64, u64)>::empty(),
    {
        ExtensionMatcher { extension_type, allowed_ranges: RangeSet::new() }
    }

    /// A matcher that allows one value.
    pub fn exact(extension_type: ExtensionType, value: ExtensionValue) -> (r: Self)
        ensures
            r.wf(),
            r.extension_type == extension_type,
            r.allowed_ranges@ == seq![(value, value)],
    {
        ExtensionMatcher { extension_type, allowed_ranges: RangeSet::single(value, value) }
    }

    /// A matcher that allows the values from `start` to `end`.
    pub fn range(
        extension_type: ExtensionType,
        start: ExtensionValue,
        end: ExtensionValue,
    ) -> (r: Self)
        requires
            start <= end,
        ensures
            r.wf(),
            r.extension_type == extension_type,
            r.allowed_ranges@ == seq![(start, end)],
    {
        ExtensionMatcher { extension_type, allowed_ranges: RangeSet::single(start, end) }
    }

    /// Allows the values from `start` to `end` too.
    pub fn allow_range(&mut self, start: ExtensionValue, end: ExtensionValue)
        requires
            old(self).wf(),
            start <= end,
        ensures
            final(self).wf(),
            final(self).extension_type == old(self).extension_type,
            widened(old(self).allowed_ranges@, start, end, final(self).allowed_ranges@),
    {
        let ghost before = self.allowed_ranges;
        self.allowed_ranges.insert(start, end);
        proof {
            assert forall|value: u64| #[trigger]
                range::covered(self.allowed_ranges@, value) <==> range::covered(before@, value)
                    || start <= value <= end by {
                assert(self.allowed_ranges.has(value) <==> before.has(value) || start <= value
                    <= end);
            }
        }
    }

    /// Whether a value is allowed.
    pub fn matches(&self, value: ExtensionValue) -> (r: bool)
        requires
            self.wf(),
        ensures
            r == range::covered(self.allowed_ranges@, value),
    {
        self.allowed_ranges.contains(value)
    }
}

/// `after` are the ranges of `before` and those from `start` to `end`.
pub open spec fn widened(
    before: Seq<(u64, u64)>,
    start: u64,
    end: u64,
    after: Seq<(u64, u64)>,
) -> bool {
    &&& range::canonical(after)
    &&& forall|value: u64| #[trigger]
        range::covered(after, value) <==> range::covered(before, value) || start <= value <= end
}

/// The filter on track extensions.
pub struct TrackExtensionFilter {
    matchers: FxHashMap<ExtensionType, ExtensionMatcher>,
    enabled: bool,
    pub stats: FilterStats,
}

/// The state of a filter on track extensions.
#[verifier::ext_equal]
pub struct TrackExtensionFilterView {
    /// The allowed ranges of each extension type that is looked at.
    pub matchers: Map<u64, Seq<(u64, u64)>>,
    pub enabled: bool,
    pub stats: FilterStats,
}

impl TrackExtensionFilterView {
    /// The filter that looks at no extension.
    pub open spec fn empty(stats_enabled: bool) -> TrackExtensionFilterView {
        TrackExtensionFilterView {
            matchers: Map::empty(),
            enabled: true,
            stats: FilterStats::zero(stats_enabled),
        }
    }

    /// One extension is allowed: its type is not looked at, or its value lies in a range.
    pub open spec fn allows(self, extension: (u64, u64)) -> bool {
        self.matchers.contains_key(extension.0) ==> range::covered(
            self.matchers[extension.0],
            extension.1,
        )
    }

    /// All extensions are allowed, or the filter is off.
    pub open spec fn passes(self, extensions: Seq<(u64, u64)>) -> bool {
        !self.enabled || forall|i: int|
            0 <= i < extensions.len() ==> self.allows(#[trigger] extensions[i])
    }

    /// The filter with the allowed ranges of one type put in place.
    pub open spec fn with_matcher(
        self,
        extension_type: u64,
        ranges: Seq<(u64, u64)>,
    ) -> TrackExtensionFilterView {
        TrackExtensionFilterView { matchers: self.matchers.insert(extension_type, ranges), ..self }
    }
}

/// The bytes that the matchers of these types take.
pub open spec fn matcher_bytes(matchers: Map<u64, Seq<(u64, u64)>>, keys: Seq<u64>) -> nat
    decreases keys.len(),
{
    if keys.len() == 0 {
        0
    } else {
        vstd::layout::size_of::<ExtensionMatcher>() + matchers[keys.last()].len() * 16
            + matcher_bytes(matchers, keys.drop_last())
    }
}

/// `keys` lists every member of `set` once.
pub open spec fn lists_all(keys: Seq<u64>, set: Set<u64>) -> bool {
    keys.no_duplicates() && keys.to_set() == set
}

/// The memory estimate over a listing of the extension types.
pub open spec fn memory_estimate(filter: TrackExtensionFilterView, keys: Seq<u64>) -> nat {
    vstd::layout::size_of::<TrackExtensionFilter>() + matcher_bytes(filter.matchers, keys)
}

impl View for TrackExtensionFilter {
    type V = TrackExtensionFilterView;

    closed spec fn view(&self) -> TrackExtensionFilterView {
        TrackExtensionFilterView {
            matchers: self.matchers@.map_values(|m: ExtensionMatcher| m.allowed_ranges@),
            enabled: self.enabled,
            stats: self.stats,
        }
    }
}

impl TrackExtensionFilter {
    pub closed spec fn wf(&self) -> bool {
        &&& self.matchers@.dom().finite()
        &&& forall|key: u64| #[trigger]
            self.matchers@.contains_key(key) ==> self.matchers@[key].wf()
    }

    /// A filter that looks at no extension.
    pub fn new() -> (r: Self)
        ensures
            r.wf(),
            r@ == TrackExtensionFilterView::empty(false),
    {
        let r = TrackExtensionFilter {
            matchers: fx_map_new(),
            enabled: true,
            stats: FilterStats::new(),
        };
        assert(r@ =~= TrackExtensionFilterView::empty(false));
        r
    }

    /// A filter that looks at no extension and counts its decisions.
    pub fn with_stats() -> (r: Self)
        ensures
            r.wf(),
            r@ == TrackExtensionFilterView::empty(true),
    {
        let r = TrackExtensionFilter {
            matchers: fx_map_new(),
            enabled: true,
            stats: FilterStats::enabled(),
        };
        assert(r@ =~= TrackExtensionFilterView::empty(true));
        r
    }

    /// Turns the filter on.
    pub fn enable(&mut self)
        requires
            old(self).wf(),
        ensures
            final(self).wf(),
            final(self)@ == (TrackExtensionFilterView { enabled: true, ..old(self)@ }),
    {
        self.enabled = true;
    }

    /// Turns the filter off: everything passes.
    pub fn disable(&mut self)
        requires
            old(self).wf(),
        ensures
            final(self).wf(),
            final(self)@ == (TrackExtensionFilterView { enabled: false, ..old(self)@ }),
    {
        self.enabled = false;
    }

    /// Whether the filter is on.
    pub fn is_enabled(&self) -> (r: bool)
        ensures
            r == self@.enabled,
    {
        self.enabled
    }

    /// Puts a matcher in place of the one for its extension type.
    pub fn add_matcher(&mut self, matcher: ExtensionMatcher)
        requires
            old(self).wf(),
            matcher.wf(),
        ensures
            final(self).wf(),
            final(self)@ == old(self)@.with_matcher(
                matcher.extension_type,
                matcher.allowed_ranges@,
            ),
    {
        let ghost before = self@;
        let key: u64 = matcher.extension_type;
        let ghost ranges = matcher.allowed_ranges@;
        fx_map_insert(&mut self.matchers, key, matcher);
        assert(self@ =~= before.with_matcher(key, ranges));
    }

    /// Allows one value of an extension type, and no other.
    pub fn filter_exact(&mut self, extension_type: ExtensionType, value: ExtensionValue)
        requires
            old(self).wf(),
        ensures
            final(self).wf(),
            final(self)@ == old(self)@.with_matcher(extension_type, seq![(value, value)]),
    {
        self.add_matcher(ExtensionMatcher::exact(extension_type, value));
    }

    /// Allows the values from `start` to `end` of an extension type, beside those that are
    /// allowed already.
    pub fn filter_range(
        &mut self,
        extension_type: ExtensionType,
        start: ExtensionValue,
        end: ExtensionValue,
    )
        requires
            old(self).wf(),
            start <= end,
        ensures
            final(self).wf(),
            final(self)@.matchers.contains_key(extension_type),
            final(self)@ == old(self)@.with_matcher(
                extension_type,
                final(self)@.matchers[extension_type],
            ),
            widened(
                if old(self)@.matchers.contains_key(extension_type) {
                    old(self)@.matchers[extension_type]
                } else {
                    Seq::empty()
                },
                start,
                end,
                final(self)@.matchers[extension_type],
            ),
    {
        let ghost before = self@;
        match fx_map_remove(&mut self.matchers, extension_type) {
            Some(mut matcher) => {
                matcher.allow_range(start, end);
                let ghost ranges = matcher.allowed_ranges@;
                fx_map_insert(&mut self.matchers, extension_type, matcher);
                assert(self@ =~= before.with_matcher(extension_type, ranges));
            },
            None => {
                let matcher = ExtensionMatcher::range(extension_type, start, end);
                let ghost ranges = matcher.allowed_ranges@;
                fx_map_insert(&mut self.matchers, extension_type, matcher);
                proof {
                    assert(self@ =~= before.with_matcher(extension_type, ranges));
                    assert forall|value: u64| #[trigger]
                        range::covered(ranges, value) <==> range::covered(Seq::empty(), value)
                            || start <= value <= end by {
                        if start <= value <= end {
                            assert(ranges[0].0 <= value && value <= ranges[0].1);
                        }
                    }
                }
            },
        }
    }

    /// Whether all extensions are allowed. Types that are not looked at are.
    pub fn matches(&self, extensions: &[(ExtensionType, ExtensionValue)]) -> (r: bool)
        requires
            self.wf(),
        ensures
            r == self@.passes(extensions@),
    {
        if !self.is_enabled() {
            return true;
        }
        let n: usize = extensions.len();
        let mut i: usize = 0;
        while i < n
            invariant
                n == extensions@.len(),
                i <= n,
                self.wf(),
                self@.enabled,
                forall|k: int| 0 <= k < i ==> self@.allows(#[trigger] extensions@[k]),
            decreases n - i,
        {
            let extension: (u64, u64) = extensions[i];
            if let Some(matcher) = fx_map_get(&self.matchers, extension.0) {
                if !matcher.matches(extension.1) {
                    assert(!self@.allows(extensions@[i as int]));
                    return false;
                }
            }
            i += 1;
        }
        true
    }

    /// Decides on a track and counts the decision.
    pub fn filter(&mut self, extensions: &[(ExtensionType, ExtensionValue)]) -> (r: bool)
        requires
            old(self).wf(),
        ensures
            final(self).wf(),
            r == old(self)@.passes(extensions@),
            final(self)@ == (TrackExtensionFilterView {
                stats: old(self)@.stats.counted(r),
                ..old(self)@
            }),
    {
        let result = self.matches(extensions);
        self.stats.record(result);
        result
    }

    /// The counters as they are.
    pub fn stats_snapshot(&self) -> (r: FilterStatsSnapshot)
        ensures
            r == self@.stats.now(),
    {
        self.stats.snapshot()
    }

    /// Sets the counters to zero.
    pub fn reset_stats(&mut self)
        requires
            old(self).wf(),
        ensures
            final(self).wf(),
            final(self)@ == (TrackExtensionFilterView {
                stats: FilterStats::zero(old(self)@.stats.enabled),
                ..old(self)@
            }),
    {
        self.stats.reset();
    }

    /// The number of extension types that are looked at.
    pub fn matcher_count(&self) -> (r: usize)
        ensures
            r == self@.matchers.dom().len(),
    {
        assert(self@.matchers.dom() =~= self.matchers@.dom());
        fx_map_len(&self.matchers)
    }

    /// An estimate of the memory in use, in bytes.
    pub fn memory_usage(&self) -> (r: usize)
        requires
            self.wf(),
            forall|keys: Seq<u64>| #[trigger]
                lists_all(keys, self@.matchers.dom()) ==> memory_estimate(self@, keys)
                    <= usize::MAX,
        ensures
            exists|keys: Seq<u64>| #[trigger]
                lists_all(keys, self@.matchers.dom()) && r == memory_estimate(self@, keys),
    {
        let keys: Vec<u64> = fx_map_keys(&self.matchers);
        assert(self@.matchers.dom() =~= self.matchers@.dom());
        assert(lists_all(keys@, self@.matchers.dom()));
        let mut total: usize = std::mem::size_of::<TrackExtensionFilter>();
        let mut i: usize = 0;
        while i < keys.len()
            invariant
                i <= keys@.len(),
                self.wf(),
                lists_all(keys@, self@.matchers.dom()),
                memory_estimate(self@, keys@) <= usize::MAX,
                total == memory_estimate(self@, keys@.take(i as int)),
            decreases keys@.len() - i,
        {
            let ghost sofar = keys@.take(i + 1);
            proof {
                assert(keys@.to_set().contains(keys@[i as int]));
                assert(sofar.drop_last() =~= keys@.take(i as int));
                lemma_matcher_bytes_grow(self@.matchers, keys@, i + 1);
            }
            if let Some(matcher) = fx_map_get(&self.matchers, keys[i]) {
                total += std::mem::size_of::<ExtensionMatcher>();
                total += matcher.allowed_ranges.len() * 16;
            }
            i += 1;
        }
        assert(keys@.take(i as int) =~= keys@);
        total
    }
}

/// The matchers of some of the types take no more than those of all.
proof fn lemma_matcher_bytes_grow(
    matchers: Map<u64, Seq<(u64, u64)>>,
    keys: Seq<u64>,
    n: int,
)
    requires
        0 <= n <= keys.len(),
    ensures
        matcher_bytes(matchers, keys.take(n)) <= matcher_bytes(matchers, keys),
    decreases keys.len() - n,
{
    if n < keys.len() {
        lemma_matcher_bytes_grow(matchers, keys, n + 1);
        assert(keys.take(n + 1).drop_last() =~= keys.take(n));
    } else {
        assert(keys.take(n) =~= keys);
    }
}

impl Default for TrackExtensionFilter {
    fn default() -> (r: Self)
        ensures
            r.wf(),
            r@ == TrackExtensionFilterView::empty(false),
    {
        Self::new()
    }
}

/// A filter that is off, or that looks at no extension, lets everything pass.
pub proof fn law_no_matchers_pass_all(
    filter: TrackExtensionFilterView,
    extensions: Seq<(u64, u64)>,
)
    requires
        !filter.enabled || filter.matchers == Map::<u64, Seq<(u64, u64)>>::empty(),
    ensures
        filter.passes(extensions),
{
}

/// An extension whose type is not looked at makes no difference.
pub proof fn law_unknown_extension_is_ignored(
    filter: TrackExtensionFilterView,
    extensions: Seq<(u64, u64)>,
    extension: (u64, u64),
)
    requires
        !filter.matchers.contains_key(extension.0),
    ensures
        filter.passes(extensions.push(extension)) <==> filter.passes(extensions),
{
    let more = extensions.push(extension);
    if filter.enabled && filter.passes(more) {
        assert forall|i: int| 0 <= i < extensions.len() implies filter.allows(
            #[trigger] extensions[i],
        ) by {
            assert(filter.allows(more[i]));
        }
    }
}

/// A track passes a filter that is on exactly if each of its extensions that is looked at has a
/// value in one of the ranges for its type.
pub proof fn law_looked_at_values_lie_in_range(
    filter: TrackExtensionFilterView,
    extensions: Seq<(u64, u64)>,
)
    requires
        filter.enabled,
    ensures
        filter.passes(extensions) <==> forall|i: int|
            0 <= i < extensions.len() && filter.matchers.contains_key((#[trigger] extensions[i]).0)
                ==> exists|k: int|
                0 <= k < filter.matchers[extensions[i].0].len() && (
                #[trigger] filter.matchers[extensions[i].0][k]).0 <= extensions[i].1
                    && extensions[i].1 <= filter.matchers[extensions[i].0][k].1,
{
    assert forall|i: int|
        0 <= i < extensions.len() && filter.matchers.contains_key(
            (#[trigger] extensions[i]).0,
        ) implies filter.allows(extensions[i]) == exists|k: int|
        0 <= k < filter.matchers[extensions[i].0].len() && (
        #[trigger] filter.matchers[extensions[i].0][k]).0 <= extensions[i].1 && extensions[i].1
            <= filter.matchers[extensions[i].0][k].1 by {}
}

/// Ranges that are set for a type replace those that it had, and leave the other types alone.
pub proof fn law_set_ranges_replace(
    filter: TrackExtensionFilterView,
    extension_type: u64,
    ranges: Seq<(u64, u64)>,
    other: u64,
    value: u64,
)
    ensures
        filter.with_matcher(extension_type, ranges).allows((extension_type, value)) <==> exists|
            k: int,
        |
            0 <= k < ranges.len() && (#[trigger] ranges[k]).0 <= value && value <= ranges[k].1,
        other != extension_type ==> (filter.with_matcher(extension_type, ranges).allows(
            (other, value),
        ) <==> filter.allows((other, value))),
        filter.with_matcher(extension_type, ranges).enabled == filter.enabled,
{
}

/// Widening keeps what was allowed and allows the new range, and nothing else.
pub proof fn law_widening_adds_the_range(
    before: Seq<(u64, u64)>,
    start: u64,
    end: u64,
    after: Seq<(u64, u64)>,
    value: u64,
)
    requires
        widened(before, start, end, after),
    ensures
        range::covered(after, value) <==> start <= value <= end || exists|k: int|
            0 <= k < before.len() && (#[trigger] before[k]).0 <= value && value <= before[k].1,
{
    assert(range::covered(after, value) <==> range::covered(before, value) || start <= value
        <= end);
}

/// Every type that is looked at takes a matcher, and 16 bytes for each of its ranges.
pub proof fn law_matchers_take_memory(filter: TrackExtensionFilterView, keys: Seq<u64>, key: u64)
    ensures
        memory_estimate(filter, keys.push(key)) == memory_estimate(filter, keys)
            + vstd::layout::size_of::<ExtensionMatcher>() + 16 * filter.matchers[key].len(),
        memory_estimate(filter, Seq::empty()) == vstd::layout::size_of::<TrackExtensionFilter>(),
{
    assert(keys.push(key).drop_last() =~= keys);
    assert(matcher_bytes(filter.matchers, Seq::empty()) == 0);
}

} // verus!
