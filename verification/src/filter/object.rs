//! The filter on single objects.

use vstd::prelude::*;
use crate::filter::range::{self, RangeSet};
use crate::filter::stats::{FilterStats, FilterStatsSnapshot};

verus! {

/// A set of priorities: one bit for each.
#[derive(Clone, Copy, Debug, PartialEq, Eq)]
pub struct PriorityBitmap {
    bits: [u64; 4],
}

/// The bit of a priority within its word.
pub open spec fn bit_is_set(word: u64, bit: u64) -> bool {
    (word >> bit) & 1 == 1
}

/// The number of priorities below `n` that `has` holds of.
pub open spec fn count_below(has: spec_fn(u8) -> bool, n: nat) -> nat
    decreases n,
{
    if n == 0 {
        0
    } else {
        count_below(has, (n - 1) as nat) + if has((n - 1) as u8) {
            1nat
        } else {
            0
        }
    }
}

impl PriorityBitmap {
    /// The priority is in the set.
    pub closed spec fn has(&self, priority: u8) -> bool {
        bit_is_set(self.bits@[priority as int / 64], (priority % 64) as u64)
    }

    /// The empty set.
    pub fn new() -> (r: Self)
        ensures
            forall|p: u8| !#[trigger] r.has(p),
    {
        let r = PriorityBitmap { bits: [0, 0, 0, 0] };
        assert forall|p: u8| !#[trigger] r.has(p) by {
            let bit = (p % 64) as u64;
            assert((0u64 >> bit) & 1 == 0) by (bit_vector);
        }
        r
    }

    /// The set of all priorities.
    pub fn all() -> (r: Self)
        ensures
            forall|p: u8| #[trigger] r.has(p),
    {
        let r = PriorityBitmap {
            bits: [
                0xffff_ffff_ffff_ffff,
                0xffff_ffff_ffff_ffff,
                0xffff_ffff_ffff_ffff,
                0xffff_ffff_ffff_ffff,
            ],
        };
        assert forall|p: u8| #[trigger] r.has(p) by {
            let bit = (p % 64) as u64;
            assert((0xffff_ffff_ffff_ffffu64 >> bit) & 1 == 1) by (bit_vector)
                requires
                    bit < 64,
            ;
        }
        r
    }

    /// The set of the priorities from `start` to `end`.
    pub fn from_range(start: u8, end: u8) -> (r: Self)
        ensures
            forall|p: u8| #[trigger] r.has(p) <==> start <= p <= end,
    {
        let mut bitmap = Self::new();
        bitmap.set_range(start, end);
        bitmap
    }

    /// Adds a priority.
    pub fn set(&mut self, priority: u8)
        ensures
            forall|p: u8| #[trigger] final(self).has(p) <==> old(self).has(p) || p == priority,
    {
        let ghost before = *self;
        let idx: usize = (priority / 64) as usize;
        let bit: u64 = (priority % 64) as u64;
        let word: u64 = self.bits[idx];
        self.bits[idx] = word | (1u64 << bit);
        assert forall|p: u8| #[trigger] self.has(p) <==> before.has(p) || p == priority by {
            let b = (p % 64) as u64;
            if p as int / 64 == idx {
                assert(((word | (1u64 << bit)) >> b) & 1 == 1 <==> (word >> b) & 1 == 1 || b == bit)
                    by (bit_vector)
                    requires
                        b < 64,
                        bit < 64,
                ;
            }
        }
    }

    /// Adds the priorities from `start` to `end`; none if `end` lies before `start`.
    pub fn set_range(&mut self, start: u8, end: u8)
        ensures
            forall|p: u8| #[trigger]
                final(self).has(p) <==> old(self).has(p) || start <= p <= end,
    {
        if start > end {
            return;
        }
        let ghost before = *self;
        let mut p: u8 = start;
        while p < end
            invariant
                start <= p <= end,
                forall|q: u8| #[trigger] self.has(q) <==> before.has(q) || start <= q < p,
            decreases end - p,
        {
            self.set(p);
            p += 1;
        }
        self.set(p);
    }

    /// Takes a priority out.
    pub fn clear(&mut self, priority: u8)
        ensures
            forall|p: u8| #[trigger] final(self).has(p) <==> old(self).has(p) && p != priority,
    {
        let ghost before = *self;
        let idx: usize = (priority / 64) as usize;
        let bit: u64 = (priority % 64) as u64;
        let word: u64 = self.bits[idx];
        self.bits[idx] = word & !(1u64 << bit);
        assert forall|p: u8| #[trigger] self.has(p) <==> before.has(p) && p != priority by {
            let b = (p % 64) as u64;
            if p as int / 64 == idx {
                assert(((word & !(1u64 << bit)) >> b) & 1 == 1 <==> (word >> b) & 1 == 1 && b
                    != bit) by (bit_vector)
                    requires
                        b < 64,
                        bit < 64,
                ;
            }
        }
    }

    /// Whether a priority is in the set.
    pub fn contains(&self, priority: u8) -> (r: bool)
        ensures
            r == self.has(priority),
    {
        let idx: usize = (priority / 64) as usize;
        let bit: u64 = (priority % 64) as u64;
        (self.bits[idx] >> bit) & 1 == 1
    }

    /// The number of priorities in the set.
    pub fn count(&self) -> (r: u32)
        ensures
            r == count_below(|p: u8| self.has(p), 256),
    {
        let ghost has = |p: u8| self.has(p);
        let mut total: u32 = 0;
        let mut p: u16 = 0;
        while p < 256
            invariant
                p <= 256,
                total <= p,
                has == (|p: u8| self.has(p)),
                total == count_below(has, p as nat),
            decreases 256 - p,
        {
            if self.contains(p as u8) {
                total += 1;
            }
            p += 1;
        }
        total
    }

    /// Whether the set is empty.
    pub fn is_empty(&self) -> (r: bool)
        ensures
            r == forall|p: u8| !#[trigger] self.has(p),
    {
        let mut p: u16 = 0;
        while p < 256
            invariant
                p <= 256,
                forall|q: u8| q < p ==> !#[trigger] self.has(q),
            decreases 256 - p,
        {
            if self.contains(p as u8) {
                return false;
            }
            p += 1;
        }
        true
    }
}

impl Default for PriorityBitmap {
    fn default() -> (r: Self)
        ensures
            forall|p: u8| !#[trigger] r.has(p),
    {
        Self::new()
    }
}

/// A filter on group ids.
#[derive(Debug)]
pub enum GroupFilter {
    /// The groups of a set.
    Sparse(RangeSet),
    /// The groups between two bounds.
    Dense { min: u64, max: u64 },
}

/// The ranges cover at least 90 percent of their span, and more than half of it.
pub open spec fn nearly_solid(ranges: Seq<(u64, u64)>) -> bool {
    range::dense(ranges) && match range::span_of(ranges) {
        Some(span) => range::total_length(ranges) * 100 / (span + 1) >= 90,
        None => false,
    }
}

impl GroupFilter {
    pub open spec fn wf(&self) -> bool {
        match self {
            GroupFilter::Sparse(ranges) => ranges.wf(),
            GroupFilter::Dense { .. } => true,
        }
    }

    /// The group passes.
    pub open spec fn has(&self, group_id: u64) -> bool {
        match self {
            GroupFilter::Sparse(ranges) => ranges.has(group_id),
            GroupFilter::Dense { min, max } => *min <= group_id <= *max,
        }
    }

    /// A filter on the groups of a set.
    pub fn sparse(ranges: RangeSet) -> (r: Self)
        ensures
            r == GroupFilter::Sparse(ranges),
    {
        GroupFilter::Sparse(ranges)
    }

    /// A filter on the groups from `min` to `max`.
    pub fn dense(min: u64, max: u64) -> (r: Self)
        ensures
            r == (GroupFilter::Dense { min, max }),
    {
        GroupFilter::Dense { min, max }
    }

    /// A filter on the groups of these ranges. Where they are one range, or nearly solid,
    /// it is held as their bounds, and gaps between the bounds pass too.
    pub fn from_ranges(ranges: RangeSet) -> (r: Self)
        requires
            ranges.wf(),
        ensures
            r.wf(),
            if ranges@.len() == 1 || nearly_solid(ranges@) {
                r == (GroupFilter::Dense { min: ranges@[0].0, max: ranges@.last().1 })
            } else {
                r == GroupFilter::Sparse(ranges)
            },
    {
        let list = ranges.iter();
        if list.len() == 1 {
            return GroupFilter::Dense { min: list[0].0, max: list[0].1 };
        }
        proof {
            range::lemma_total_length_bound(ranges@);
        }
        if ranges.is_dense() {
            if let Some(span) = ranges.span() {
                if ranges.wide_coverage() * 100 / (span as u128 + 1) >= 90 {
                    return GroupFilter::Dense { min: list[0].0, max: list[list.len() - 1].1 };
                }
            }
        }
        GroupFilter::Sparse(ranges)
    }

    /// Whether a group passes.
    pub fn contains(&self, group_id: u64) -> (r: bool)
        requires
            self.wf(),
        ensures
            r == self.has(group_id),
    {
        match self {
            GroupFilter::Sparse(ranges) => ranges.contains(group_id),
            GroupFilter::Dense { min, max } => group_id >= *min && group_id <= *max,
        }
    }
}

impl Default for GroupFilter {
    fn default() -> (r: Self)
        ensures
            r.wf(),
            forall|group_id: u64| !#[trigger] r.has(group_id),
    {
        GroupFilter::Sparse(RangeSet::new())
    }
}

/// A filter on positions: from a start to an end, each a group and perhaps an object.
#[derive(Clone, Copy, Debug, PartialEq, Eq, Structural)]
pub struct LocationFilter {
    pub start_group: u64,
    pub start_object: Option<u64>,
    pub end_group: Option<u64>,
    pub end_object: Option<u64>,
}

impl LocationFilter {
    /// The position is not before the start.
    pub open spec fn from_start(self, group_id: u64, object_id: u64) -> bool {
        group_id > self.start_group || (group_id == self.start_group && (self.start_object matches
            Some(start) ==> object_id >= start))
    }

    /// The position is not after the end.
    pub open spec fn to_end(self, group_id: u64, object_id: u64) -> bool {
        self.end_group matches Some(end_group) ==> group_id < end_group || (group_id == end_group
            && (self.end_object matches Some(end) ==> object_id <= end))
    }

    /// The position passes.
    pub open spec fn has(self, group_id: u64, object_id: u64) -> bool {
        self.from_start(group_id, object_id) && self.to_end(group_id, object_id)
    }

    pub fn new(
        start_group: u64,
        start_object: Option<u64>,
        end_group: Option<u64>,
        end_object: Option<u64>,
    ) -> (r: Self)
        ensures
            r == (LocationFilter { start_group, start_object, end_group, end_object }),
    {
        LocationFilter { start_group, start_object, end_group, end_object }
    }

    /// Everything from a group on.
    pub fn from_group(group: u64) -> (r: Self)
        ensures
            r == (LocationFilter {
                start_group: group,
                start_object: None,
                end_group: None,
                end_object: None,
            }),
    {
        LocationFilter { start_group: group, start_object: None, end_group: None, end_object: None }
    }

    /// Everything from one group to another.
    pub fn group_range(start: u64, end: u64) -> (r: Self)
        ensures
            r == (LocationFilter {
                start_group: start,
                start_object: None,
                end_group: Some(end),
                end_object: None,
            }),
    {
        LocationFilter {
            start_group: start,
            start_object: None,
            end_group: Some(end),
            end_object: None,
        }
    }

    /// Whether a position passes.
    pub fn matches(&self, group_id: u64, object_id: u64) -> (r: bool)
        ensures
            r == self.has(group_id, object_id),
    {
        let after_start = group_id > self.start_group || (group_id == self.start_group
            && match self.start_object {
            Some(start) => object_id >= start,
            None => true,
        });
        if !after_start {
            return false;
        }
        match self.end_group {
            None => true,
            Some(end_group) => group_id < end_group || (group_id == end_group
                && match self.end_object {
                Some(end) => object_id <= end,
                None => true,
            }),
        }
    }
}

impl Default for LocationFilter {
    fn default() -> (r: Self)
        ensures
            r == (LocationFilter {
                start_group: 0,
                start_object: None,
                end_group: None,
                end_object: None,
            }),
    {
        LocationFilter { start_group: 0, start_object: None, end_group: None, end_object: None }
    }
}

/// What an object filter is made from.
#[derive(Clone, Debug)]
pub struct ObjectFilterParams {
    pub location: Option<LocationFilter>,
    pub groups: Option<Vec<(u64, u64)>>,
    pub subgroups: Option<Vec<(u64, u64)>>,
    pub objects: Option<Vec<(u64, u64)>>,
    pub priorities: Option<Vec<(u8, u8)>>,
    /// Extension type, and the range of its values that pass.
    pub extensions: Option<Vec<(u64, u64, u64)>>,
}

impl Default for ObjectFilterParams {
    fn default() -> (r: Self)
        ensures
            r.location is None,
            r.groups is None,
            r.subgroups is None,
            r.objects is None,
            r.priorities is None,
            r.extensions is None,
    {
        ObjectFilterParams {
            location: None,
            groups: None,
            subgroups: None,
            objects: None,
            priorities: None,
            extensions: None,
        }
    }
}

/// What a filter looks at of an object.
#[derive(Clone, Debug)]
pub struct ObjectInfo {
    pub group_id: u64,
    pub subgroup_id: Option<u64>,
    pub object_id: u64,
    pub publisher_priority: u8,
    /// Type and value of each extension.
    pub extensions: Option<Vec<(u64, u64)>>,
}

/// The contents of an [`ObjectInfo`].
#[verifier::ext_equal]
pub struct ObjectInfoView {
    pub group_id: u64,
    pub subgroup_id: Option<u64>,
    pub object_id: u64,
    pub publisher_priority: u8,
    /// Empty where the object has none.
    pub extensions: Seq<(u64, u64)>,
}

impl View for ObjectInfo {
    type V = ObjectInfoView;

    open spec fn view(&self) -> ObjectInfoView {
        ObjectInfoView {
            group_id: self.group_id,
            subgroup_id: self.subgroup_id,
            object_id: self.object_id,
            publisher_priority: self.publisher_priority,
            extensions: match self.extensions {
                Some(extensions) => extensions@,
                None => Seq::empty(),
            },
        }
    }
}

impl ObjectInfo {
    /// An object with priority 0 and no extensions.
    pub fn new(group_id: u64, object_id: u64) -> (r: Self)
        ensures
            r@ == (ObjectInfoView {
                group_id,
                subgroup_id: None,
                object_id,
                publisher_priority: 0,
                extensions: Seq::empty(),
            }),
            r.extensions is None,
    {
        ObjectInfo {
            group_id,
            subgroup_id: None,
            object_id,
            publisher_priority: 0,
            extensions: None,
        }
    }

    pub fn with_subgroup(self, subgroup_id: u64) -> (r: Self)
        ensures
            r == (ObjectInfo { subgroup_id: Some(subgroup_id), ..self }),
    {
        ObjectInfo { subgroup_id: Some(subgroup_id), ..self }
    }

    pub fn with_priority(self, priority: u8) -> (r: Self)
        ensures
            r == (ObjectInfo { publisher_priority: priority, ..self }),
    {
        ObjectInfo { publisher_priority: priority, ..self }
    }
}


/// The contents of a [`GroupFilter`].
#[verifier::ext_equal]
pub enum GroupFilterView {
    Sparse(Seq<(u64, u64)>),
    Dense { min: u64, max: u64 },
}

impl View for GroupFilter {
    type V = GroupFilterView;

    open spec fn view(&self) -> GroupFilterView {
        match self {
            GroupFilter::Sparse(ranges) => GroupFilterView::Sparse(ranges@),
            GroupFilter::Dense { min, max } => GroupFilterView::Dense { min: *min, max: *max },
        }
    }
}

impl GroupFilterView {
    /// The group passes.
    pub open spec fn has(self, group_id: u64) -> bool {
        match self {
            GroupFilterView::Sparse(ranges) => range::covered(ranges, group_id),
            GroupFilterView::Dense { min, max } => min <= group_id <= max,
        }
    }

    pub open spec fn wf(self) -> bool {
        match self {
            GroupFilterView::Sparse(ranges) => range::canonical(ranges),
            GroupFilterView::Dense { .. } => true,
        }
    }

    /// The filter that these ranges make.
    pub open spec fn of_ranges(ranges: Seq<(u64, u64)>) -> GroupFilterView {
        if ranges.len() == 1 || nearly_solid(ranges) {
            GroupFilterView::Dense { min: ranges[0].0, max: ranges.last().1 }
        } else {
            GroupFilterView::Sparse(ranges)
        }
    }
}

/// The bytes that extension filters take.
pub open spec fn extension_bytes(filters: Seq<(u64, Seq<(u64, u64)>)>) -> nat
    decreases filters.len(),
{
    if filters.len() == 0 {
        0
    } else {
        8 + filters[0].1.len() * 16 + extension_bytes(filters.drop_first())
    }
}

/// The bytes that an optional set of ranges takes.
pub open spec fn ranges_bytes(ranges: Option<Seq<(u64, u64)>>) -> nat {
    match ranges {
        Some(ranges) => ranges.len() * 16,
        None => 0,
    }
}

/// The bytes that a filter takes: itself and its ranges.
pub open spec fn memory_estimate(filter: ObjectFilterView) -> nat {
    vstd::layout::size_of::<ObjectFilter>() + match filter.group {
        Some(GroupFilterView::Sparse(ranges)) => ranges.len() * 16,
        Some(GroupFilterView::Dense { .. }) => 16nat,
        None => 0,
    } + ranges_bytes(filter.subgroup) + ranges_bytes(filter.object) + match filter.extensions {
        Some(extensions) => extension_bytes(extensions),
        None => 0,
    }
}

/// `ranges` is the canonical form of a list of ranges: it has the same members.
pub open spec fn canonical_form(list: Seq<(u64, u64)>, ranges: Seq<(u64, u64)>) -> bool {
    &&& range::canonical(ranges)
    &&& forall|value: u64| #[trigger]
        range::covered(ranges, value) <==> range::covered(list, value)
}

/// The ranges of every extension filter are canonical.
pub open spec fn all_canonical(filters: Seq<(u64, Seq<(u64, u64)>)>) -> bool {
    forall|i: int| 0 <= i < filters.len() ==> range::canonical((#[trigger] filters[i]).1)
}

/// The contents of an [`ObjectFilter`].
#[verifier::ext_equal]
pub struct ObjectFilterView {
    pub enabled: bool,
    pub location: Option<LocationFilter>,
    pub priority: Option<PriorityBitmap>,
    pub group: Option<GroupFilterView>,
    pub subgroup: Option<Seq<(u64, u64)>>,
    pub object: Option<Seq<(u64, u64)>>,
    /// Extension type, and the ranges of its values that pass.
    pub extensions: Option<Seq<(u64, Seq<(u64, u64)>)>>,
    pub stats: FilterStats,
}

impl ObjectFilterView {
    /// A filter that lets everything pass.
    pub open spec fn open_to_all(stats_enabled: bool) -> ObjectFilterView {
        ObjectFilterView {
            enabled: true,
            location: None,
            priority: None,
            group: None,
            subgroup: None,
            object: None,
            extensions: None,
            stats: FilterStats::zero(stats_enabled),
        }
    }

    pub open spec fn wf(self) -> bool {
        &&& (self.group matches Some(group) ==> group.wf())
        &&& (self.subgroup matches Some(ranges) ==> range::canonical(ranges))
        &&& (self.object matches Some(ranges) ==> range::canonical(ranges))
        &&& (self.extensions matches Some(extensions) ==> all_canonical(extensions))
    }

    /// The extensions of an object pass: none that is filtered has a value out of range.
    pub open spec fn extensions_pass(self, extensions: Seq<(u64, u64)>) -> bool {
        self.extensions matches Some(filters) ==> forall|i: int, j: int|
            0 <= i < filters.len() && 0 <= j < extensions.len() && (#[trigger] filters[i]).0 == (
            #[trigger] extensions[j]).0 ==> range::covered(filters[i].1, extensions[j].1)
    }

    /// An object passes. A filter on subgroups applies to objects that have one.
    pub open spec fn passes(self, obj: ObjectInfoView) -> bool {
        !self.enabled || {
            &&& (self.location matches Some(location) ==> location.has(obj.group_id, obj.object_id))
            &&& (self.priority matches Some(priority) ==> priority.has(obj.publisher_priority))
            &&& (self.group matches Some(group) ==> group.has(obj.group_id))
            &&& (self.subgroup matches Some(ranges) ==> (obj.subgroup_id matches Some(subgroup_id)
                ==> range::covered(ranges, subgroup_id)))
            &&& (self.object matches Some(ranges) ==> range::covered(ranges, obj.object_id))
            &&& self.extensions_pass(obj.extensions)
        }
    }

    /// Some filter is set.
    pub open spec fn has_filters(self) -> bool {
        self.location is Some || self.priority is Some || self.group is Some || self.subgroup
            is Some || self.object is Some || self.extensions is Some
    }
}

/// The contents of a list of extension filters.
pub open spec fn extension_filters_view(filters: Seq<(u64, RangeSet)>) -> Seq<
    (u64, Seq<(u64, u64)>),
> {
    filters.map_values(|f: (u64, RangeSet)| (f.0, f.1@))
}

/// Position of the first of the first `n` filters on this extension type.
pub open spec fn find_extension(
    filters: Seq<(u64, Seq<(u64, u64)>)>,
    ext_type: u64,
    n: nat,
) -> Option<int>
    decreases n,
{
    if n == 0 {
        None
    } else {
        match find_extension(filters, ext_type, (n - 1) as nat) {
            Some(i) => Some(i),
            None => if filters[n - 1].0 == ext_type {
                Some(n - 1)
            } else {
                None
            },
        }
    }
}

proof fn lemma_find_extension_extends(
    filters: Seq<(u64, Seq<(u64, u64)>)>,
    ext_type: u64,
    m: nat,
    n: nat,
)
    requires
        m <= n <= filters.len(),
        find_extension(filters, ext_type, m) is Some,
    ensures
        find_extension(filters, ext_type, n) == find_extension(filters, ext_type, m),
    decreases n,
{
    if m < n {
        lemma_find_extension_extends(filters, ext_type, m, (n - 1) as nat);
    }
}

/// `after` is the filters once values in `ranges` pass for this extension type too.
pub open spec fn extension_added(
    filters: Option<Seq<(u64, Seq<(u64, u64)>)>>,
    ext_type: u64,
    ranges: Seq<(u64, u64)>,
    after: Option<Seq<(u64, Seq<(u64, u64)>)>>,
) -> bool {
    match filters {
        None => after == Some(seq![(ext_type, ranges)]),
        Some(filters) => match find_extension(filters, ext_type, filters.len()) {
            None => after == Some(filters.push((ext_type, ranges))),
            Some(i) => after matches Some(after) && after == filters.update(i, after[i])
                && after[i].0 == ext_type && range::canonical(after[i].1) && forall|value: u64|
             #[trigger]
                range::covered(after[i].1, value) <==> range::covered(filters[i].1, value)
                    || range::covered(ranges, value),
        },
    }
}

/// A filter on objects by position, priority, ids and extensions.
#[derive(Debug)]
pub struct ObjectFilter {
    enabled: bool,
    location: Option<LocationFilter>,
    priority: Option<PriorityBitmap>,
    group: Option<GroupFilter>,
    subgroup: Option<RangeSet>,
    object: Option<RangeSet>,
    extensions: Option<Vec<(u64, RangeSet)>>,
    pub stats: FilterStats,
}

impl View for ObjectFilter {
    type V = ObjectFilterView;

    closed spec fn view(&self) -> ObjectFilterView {
        ObjectFilterView {
            enabled: self.enabled,
            location: self.location,
            priority: self.priority,
            group: match self.group {
                Some(group) => Some(group@),
                None => None,
            },
            subgroup: match self.subgroup {
                Some(ranges) => Some(ranges@),
                None => None,
            },
            object: match self.object {
                Some(ranges) => Some(ranges@),
                None => None,
            },
            extensions: match self.extensions {
                Some(extensions) => Some(extension_filters_view(extensions@)),
                None => None,
            },
            stats: self.stats,
        }
    }
}

/// The parameters' ranges have their starts before their ends.
pub open spec fn params_in_order(params: ObjectFilterParams) -> bool {
    &&& (params.groups matches Some(list) ==> range::ordered_bounds(list@))
    &&& (params.subgroups matches Some(list) ==> range::ordered_bounds(list@))
    &&& (params.objects matches Some(list) ==> range::ordered_bounds(list@))
    &&& (params.extensions matches Some(list) ==> forall|i: int|
        0 <= i < list@.len() ==> (#[trigger] list@[i]).1 <= list@[i].2)
}

/// The priority lies in one of these ranges.
pub open spec fn in_priorities(list: Seq<(u8, u8)>, priority: u8) -> bool {
    exists|i: int|
        0 <= i < list.len() && (#[trigger] list[i]).0 <= priority && priority <= list[i].1
}

/// The bitmap of the priorities in these ranges.
pub open spec fn is_bitmap_of(list: Seq<(u8, u8)>, bitmap: PriorityBitmap) -> bool {
    forall|p: u8| #[trigger] bitmap.has(p) <==> in_priorities(list, p)
}

/// One filter per listed extension range.
pub open spec fn listed_extensions(list: Seq<(u64, u64, u64)>) -> Seq<(u64, Seq<(u64, u64)>)> {
    list.map_values(|e: (u64, u64, u64)| (e.0, seq![(e.1, e.2)]))
}

/// The filter selects by position, priority and ids as these parameters say.
pub open spec fn selects_by(params: ObjectFilterParams, filter: ObjectFilterView) -> bool {
    &&& filter.location == params.location
    &&& match params.groups {
        Some(list) => exists|ranges: Seq<(u64, u64)>| #[trigger]
            canonical_form(list@, ranges) && filter.group == Some(
                GroupFilterView::of_ranges(ranges),
            ),
        None => filter.group is None,
    }
    &&& match params.subgroups {
        Some(list) => filter.subgroup matches Some(ranges) && canonical_form(list@, ranges),
        None => filter.subgroup is None,
    }
    &&& match params.objects {
        Some(list) => filter.object matches Some(ranges) && canonical_form(list@, ranges),
        None => filter.object is None,
    }
    &&& match params.priorities {
        Some(list) => filter.priority matches Some(bitmap) && is_bitmap_of(list@, bitmap),
        None => filter.priority is None,
    }
}

/// The filter was made from these parameters.
pub open spec fn made_from(params: ObjectFilterParams, filter: ObjectFilterView) -> bool {
    &&& filter.enabled
    &&& filter.stats == FilterStats::zero(false)
    &&& selects_by(params, filter)
    &&& filter.extensions == match params.extensions {
        Some(list) => if list@.len() > 0 {
            Some(listed_extensions(list@))
        } else {
            None
        },
        None => None,
    }
}

/// One of the first `n` listed ranges of the extension type holds the value.
pub open spec fn listed_value(
    list: Seq<(u64, u64, u64)>,
    n: int,
    ext_type: u64,
    value: u64,
) -> bool {
    exists|i: int|
        0 <= i < n && (#[trigger] list[i]).0 == ext_type && list[i].1 <= value && value
            <= list[i].2
}

/// One of the filters is on the extension type.
pub open spec fn filters_type(filters: Seq<(u64, Seq<(u64, u64)>)>, ext_type: u64) -> bool {
    exists|k: int| 0 <= k < filters.len() && (#[trigger] filters[k]).0 == ext_type
}

/// One of the first `n` listed ranges is of the extension type.
pub open spec fn lists_type(list: Seq<(u64, u64, u64)>, n: int, ext_type: u64) -> bool {
    exists|i: int| 0 <= i < n && (#[trigger] list[i]).0 == ext_type
}

/// `filters` hold one filter for each of the types that the first `n` listed ranges are of,
/// which lets the values of all its ranges pass.
pub open spec fn merged_extensions(
    list: Seq<(u64, u64, u64)>,
    n: int,
    filters: Seq<(u64, Seq<(u64, u64)>)>,
) -> bool {
    &&& forall|i: int, j: int|
        0 <= i < j < filters.len() ==> (#[trigger] filters[i]).0 != (#[trigger] filters[j]).0
    &&& forall|i: int| 0 <= i < n ==> filters_type(filters, (#[trigger] list[i]).0)
    &&& forall|k: int|
        0 <= k < filters.len() ==> range::canonical((#[trigger] filters[k]).1) && lists_type(
            list,
            n,
            filters[k].0,
        )
    &&& forall|k: int, value: u64|
        0 <= k < filters.len() ==> (#[trigger] range::covered((#[trigger] filters[k]).1, value)
            <==> listed_value(list, n, filters[k].0, value))
}

/// The filter was made from these parameters and counts what it decides. Ranges of one
/// extension type are taken together.
pub open spec fn made_with_stats(params: ObjectFilterParams, filter: ObjectFilterView) -> bool {
    &&& filter.enabled
    &&& filter.stats == FilterStats::zero(true)
    &&& selects_by(params, filter)
    &&& match params.extensions {
        Some(list) => if list@.len() > 0 {
            filter.extensions matches Some(filters) && merged_extensions(
                list@,
                list@.len() as int,
                filters,
            )
        } else {
            filter.extensions is None
        },
        None => filter.extensions is None,
    }
}

/// The bitmap of the priorities in these ranges.
fn bitmap_of(list: &Vec<(u8, u8)>) -> (r: PriorityBitmap)
    ensures
        is_bitmap_of(list@, r),
{
    let mut bitmap = PriorityBitmap::new();
    let mut i: usize = 0;
    while i < list.len()
        invariant
            i <= list@.len(),
            forall|p: u8| #[trigger]
                bitmap.has(p) <==> exists|k: int|
                    0 <= k < i && (#[trigger] list@[k]).0 <= p && p <= list@[k].1,
        decreases list@.len() - i,
    {
        let ghost before = bitmap;
        bitmap.set_range(list[i].0, list[i].1);
        assert forall|p: u8| #[trigger]
            bitmap.has(p) <==> exists|k: int|
                0 <= k < i + 1 && (#[trigger] list@[k]).0 <= p && p <= list@[k].1 by {
            assert(before.has(p) <==> exists|k: int|
                0 <= k < i && (#[trigger] list@[k]).0 <= p && p <= list@[k].1);
            if before.has(p) {
                let k = choose|k: int|
                    0 <= k < i && (#[trigger] list@[k]).0 <= p && p <= list@[k].1;
                assert(list@[k].0 <= p);
            }
            if list@[i as int].0 <= p <= list@[i as int].1 {
                assert(bitmap.has(p));
            }
        }
        i += 1;
    }
    bitmap
}

impl ObjectFilter {
    pub open spec fn wf(&self) -> bool {
        self@.wf()
    }

    /// A filter that lets everything pass.
    pub fn new() -> (r: Self)
        ensures
            r.wf(),
            r@ == ObjectFilterView::open_to_all(false),
    {
        ObjectFilter {
            enabled: true,
            location: None,
            priority: None,
            group: None,
            subgroup: None,
            object: None,
            extensions: None,
            stats: FilterStats::new(),
        }
    }

    /// A filter that lets everything pass and counts it.
    pub fn with_stats() -> (r: Self)
        ensures
            r.wf(),
            r@ == ObjectFilterView::open_to_all(true),
    {
        ObjectFilter {
            enabled: true,
            location: None,
            priority: None,
            group: None,
            subgroup: None,
            object: None,
            extensions: None,
            stats: FilterStats::enabled(),
        }
    }

    /// The filter that these parameters describe.
    pub fn from_params(params: ObjectFilterParams) -> (r: Self)
        requires
            params_in_order(params),
        ensures
            r.wf(),
            made_from(params, r@),
    {
        let mut filter = Self::new();
        filter.apply_ranges(&params);
        if let Some(extensions) = &params.extensions {
            let filters = Self::single_extensions(extensions);
            assert(listed_extensions(extensions@).len() == extensions@.len());
            assert(extension_filters_view(filters@).len() == filters@.len());
            if filters.len() > 0 {
                filter.extensions = Some(filters);
            }
        }
        filter
    }

    /// Sets what these parameters say on position, priority and ids.
    fn apply_ranges(&mut self, params: &ObjectFilterParams)
        requires
            old(self).wf(),
            !old(self)@.has_filters(),
            params_in_order(*params),
        ensures
            final(self).wf(),
            selects_by(*params, final(self)@),
            final(self)@.extensions is None,
            final(self)@.enabled == old(self)@.enabled,
            final(self)@.stats == old(self)@.stats,
    {
        if let Some(location) = params.location {
            self.location = Some(location);
        }
        if let Some(groups) = &params.groups {
            let ranges = RangeSet::from_ranges(groups);
            proof {
                lemma_canonical_form(groups@, ranges);
            }
            let ghost form = ranges@;
            let group = GroupFilter::from_ranges(ranges);
            assert(group@ == GroupFilterView::of_ranges(form));
            assert(canonical_form(groups@, form));
            self.group = Some(group);
        }
        if let Some(subgroups) = &params.subgroups {
            let ranges = RangeSet::from_ranges(subgroups);
            proof {
                lemma_canonical_form(subgroups@, ranges);
            }
            self.subgroup = Some(ranges);
        }
        if let Some(objects) = &params.objects {
            let ranges = RangeSet::from_ranges(objects);
            proof {
                lemma_canonical_form(objects@, ranges);
            }
            self.object = Some(ranges);
        }
        if let Some(priorities) = &params.priorities {
            self.priority = Some(bitmap_of(priorities));
        }
    }

    /// Sets what these parameters say on a filter that lets everything pass.
    pub(crate) fn apply_params(&mut self, params: &ObjectFilterParams)
        requires
            old(self)@ == ObjectFilterView::open_to_all(true),
            params_in_order(*params),
        ensures
            final(self).wf(),
            made_with_stats(*params, final(self)@),
    {
        self.apply_ranges(params);
        let ghost ranged = self@;
        if let Some(list) = &params.extensions {
            let mut i: usize = 0;
            while i < list.len()
                invariant
                    i <= list@.len(),
                    self.wf(),
                    forall|k: int| 0 <= k < list@.len() ==> (#[trigger] list@[k]).1 <= list@[k].2,
                    self@ == (ObjectFilterView { extensions: self@.extensions, ..ranged }),
                    i == 0 ==> self@.extensions is None,
                    i > 0 ==> self@.extensions is Some && merged_extensions(
                        list@,
                        i as int,
                        self@.extensions->0,
                    ),
                decreases list@.len() - i,
            {
                let ghost before = self@.extensions;
                let e: (u64, u64, u64) = list[i];
                assert(list@[i as int].1 <= list@[i as int].2);
                self.add_extension(e.0, RangeSet::single(e.1, e.2));
                proof {
                    lemma_extension_merged(list@, i as int, before, self@.extensions);
                }
                i += 1;
            }
        }
    }

    /// The counters as they are.
    pub fn stats_snapshot(&self) -> (r: FilterStatsSnapshot)
        ensures
            r == self@.stats.now(),
    {
        self.stats.snapshot()
    }

    /// Sets the counters to zero.
    pub fn reset_stats(&mut self)
        ensures
            final(self)@ == (ObjectFilterView {
                stats: FilterStats::zero(old(self)@.stats.enabled),
                ..old(self)@
            }),
    {
        self.stats.reset();
    }

    fn single_extensions(list: &Vec<(u64, u64, u64)>) -> (r: Vec<(u64, RangeSet)>)
        requires
            forall|i: int| 0 <= i < list@.len() ==> (#[trigger] list@[i]).1 <= list@[i].2,
        ensures
            extension_filters_view(r@) == listed_extensions(list@),
            forall|i: int| 0 <= i < r@.len() ==> range::canonical((#[trigger] r@[i]).1@),
    {
        let mut filters: Vec<(u64, RangeSet)> = Vec::new();
        let mut i: usize = 0;
        while i < list.len()
            invariant
                i <= list@.len(),
                filters@.len() == i,
                forall|k: int| 0 <= k < list@.len() ==> (#[trigger] list@[k]).1 <= list@[k].2,
                forall|k: int|
                    0 <= k < i ==> (#[trigger] filters@[k]).0 == list@[k].0 && filters@[k].1@
                        == seq![(list@[k].1, list@[k].2)] && range::canonical(filters@[k].1@),
            decreases list@.len() - i,
        {
            let e = list[i];
            assert(list@[i as int].1 <= list@[i as int].2);
            filters.push((e.0, RangeSet::single(e.1, e.2)));
            i += 1;
        }
        assert(extension_filters_view(filters@) =~= listed_extensions(list@));
        filters
    }

    /// Turns the filter on.
    pub fn enable(&mut self)
        ensures
            final(self)@ == (ObjectFilterView { enabled: true, ..old(self)@ }),
    {
        self.enabled = true;
    }

    /// Turns the filter off: everything passes.
    pub fn disable(&mut self)
        ensures
            final(self)@ == (ObjectFilterView { enabled: false, ..old(self)@ }),
    {
        self.enabled = false;
    }

    /// Whether the filter is on.
    pub fn is_enabled(&self) -> (r: bool)
        ensures
            r == self@.enabled,
    {
        self.enabled
    }

    /// Sets the filter on positions.
    pub fn set_location(&mut self, location: LocationFilter)
        ensures
            final(self)@ == (ObjectFilterView { location: Some(location), ..old(self)@ }),
    {
        self.location = Some(location);
    }

    /// Sets the filter on priorities.
    pub fn set_priority(&mut self, bitmap: PriorityBitmap)
        ensures
            final(self)@ == (ObjectFilterView { priority: Some(bitmap), ..old(self)@ }),
    {
        self.priority = Some(bitmap);
    }

    /// Sets the filter on groups.
    pub fn set_group(&mut self, filter: GroupFilter)
        ensures
            final(self)@ == (ObjectFilterView { group: Some(filter@), ..old(self)@ }),
    {
        self.group = Some(filter);
    }

    /// Sets the filter on subgroups.
    pub fn set_subgroup(&mut self, ranges: RangeSet)
        ensures
            final(self)@ == (ObjectFilterView { subgroup: Some(ranges@), ..old(self)@ }),
    {
        self.subgroup = Some(ranges);
    }

    /// Sets the filter on object ids.
    pub fn set_object(&mut self, ranges: RangeSet)
        ensures
            final(self)@ == (ObjectFilterView { object: Some(ranges@), ..old(self)@ }),
    {
        self.object = Some(ranges);
    }

    /// Adds a filter on an extension. Where there is one on the same type, the values of
    /// both pass.
    pub fn add_extension(&mut self, ext_type: u64, ranges: RangeSet)
        requires
            old(self).wf(),
            ranges.wf(),
        ensures
            final(self).wf(),
            final(self)@ == (ObjectFilterView {
                extensions: final(self)@.extensions,
                ..old(self)@
            }),
            extension_added(
                old(self)@.extensions,
                ext_type,
                ranges@,
                final(self)@.extensions,
            ),
    {
        let ghost start = self@;
        let mut filters: Vec<(u64, RangeSet)> = match self.extensions.take() {
            Some(filters) => filters,
            None => {
                let ghost added = (ext_type, ranges@);
                let mut filters: Vec<(u64, RangeSet)> = Vec::new();
                filters.push((ext_type, ranges));
                assert(extension_filters_view(filters@) =~= seq![added]);
                self.extensions = Some(filters);
                return;
            },
        };
        let ghost view = extension_filters_view(filters@);
        let mut i: usize = 0;
        while i < filters.len()
            invariant
                i <= filters@.len(),
                view == extension_filters_view(filters@),
                find_extension(view, ext_type, i as nat) is None,
                start.extensions == Some(view),
                start.wf(),
                ranges.wf(),
                self@ == (ObjectFilterView { extensions: None, ..start }),
                start == old(self)@,
            decreases filters@.len() - i,
        {
            assert(view[i as int] == (filters@[i as int].0, filters@[i as int].1@));
            if filters[i].0 == ext_type {
                proof {
                    lemma_find_extension_extends(view, ext_type, (i + 1) as nat, view.len());
                    assert(all_canonical(view));
                    assert(range::canonical(view[i as int].1));
                }
                let list = ranges.iter();
                let mut k: usize = 0;
                while k < list.len()
                    invariant
                        k <= list@.len(),
                        i < filters@.len(),
                        list@ == ranges@,
                        ranges.wf(),
                        filters@.len() == view.len(),
                        filters@[i as int].0 == ext_type,
                        filters@[i as int].1.wf(),
                        forall|m: int|
                            0 <= m < filters@.len() && m != i ==> (#[trigger] filters@[m]).0
                                == view[m].0 && filters@[m].1@ == view[m].1,
                        forall|value: u64| #[trigger]
                            filters@[i as int].1.has(value) <==> range::covered(
                                view[i as int].1,
                                value,
                            ) || exists|m: int|
                                0 <= m < k && (#[trigger] list@[m]).0 <= value && value
                                    <= list@[m].1,
                    decreases list@.len() - k,
                {
                    let ghost before = filters@[i as int].1;
                    assert(list@[k as int].0 <= list@[k as int].1);
                    filters[i].1.insert(list[k].0, list[k].1);
                    assert forall|value: u64| #[trigger]
                        filters@[i as int].1.has(value) <==> range::covered(
                            view[i as int].1,
                            value,
                        ) || exists|m: int|
                            0 <= m < k + 1 && (#[trigger] list@[m]).0 <= value && value
                                <= list@[m].1 by {
                        assert(before.has(value) <==> range::covered(view[i as int].1, value)
                            || exists|m: int|
                            0 <= m < k && (#[trigger] list@[m]).0 <= value && value <= list@[m].1);
                        if list@[k as int].0 <= value <= list@[k as int].1 {
                            assert(filters@[i as int].1.has(value));
                        }
                    }
                    k += 1;
                }
                let ghost after = extension_filters_view(filters@);
                self.extensions = Some(filters);
                assert(after =~= view.update(i as int, after[i as int]));
                assert(extension_added(start.extensions, ext_type, ranges@, Some(after))) by {
                    assert(after[i as int] == (ext_type, filters@[i as int].1@));
                    assert forall|value: u64| #[trigger]
                        range::covered(after[i as int].1, value) <==> range::covered(
                            view[i as int].1,
                            value,
                        ) || range::covered(ranges@, value) by {
                        assert(filters@[i as int].1.has(value) <==> range::covered(
                            view[i as int].1,
                            value,
                        ) || exists|m: int|
                            0 <= m < list@.len() && (#[trigger] list@[m]).0 <= value && value
                                <= list@[m].1);
                    }
                }
                assert(self@.wf()) by {
                    assert forall|m: int| 0 <= m < after.len() implies range::canonical(
                        (#[trigger] after[m]).1,
                    ) by {
                        assert(range::canonical(view[m].1));
                    }
                }
                return;
            }
            i += 1;
        }
        let ghost added = (ext_type, ranges@);
        filters.push((ext_type, ranges));
        assert(extension_filters_view(filters@) =~= view.push(added));
        self.extensions = Some(filters);
        assert(self@.wf()) by {
            let after = self@.extensions->0;
            assert forall|m: int| 0 <= m < after.len() implies range::canonical(
                (#[trigger] after[m]).1,
            ) by {
                if m < view.len() {
                    assert(range::canonical(view[m].1));
                }
            }
        }
    }

    fn extensions_match(filters: &Vec<(u64, RangeSet)>, extensions: &Vec<(u64, u64)>) -> (r: bool)
        requires
            forall|i: int| 0 <= i < filters@.len() ==> (#[trigger] filters@[i]).1.wf(),
        ensures
            r == forall|i: int, j: int|
                0 <= i < filters@.len() && 0 <= j < extensions@.len() && (
                #[trigger] filters@[i]).0 == (#[trigger] extensions@[j]).0
                    ==> filters@[i].1.has(extensions@[j].1),
    {
        let mut i: usize = 0;
        while i < filters.len()
            invariant
                i <= filters@.len(),
                forall|m: int| 0 <= m < filters@.len() ==> (#[trigger] filters@[m]).1.wf(),
                forall|m: int, j: int|
                    0 <= m < i && 0 <= j < extensions@.len() && (#[trigger] filters@[m]).0 == (
                    #[trigger] extensions@[j]).0 ==> filters@[m].1.has(extensions@[j].1),
            decreases filters@.len() - i,
        {
            let mut j: usize = 0;
            while j < extensions.len()
                invariant
                    i < filters@.len(),
                    j <= extensions@.len(),
                    forall|m: int| 0 <= m < filters@.len() ==> (#[trigger] filters@[m]).1.wf(),
                    forall|k: int|
                        0 <= k < j && filters@[i as int].0 == (#[trigger] extensions@[k]).0
                            ==> filters@[i as int].1.has(extensions@[k].1),
                decreases extensions@.len() - j,
            {
                if filters[i].0 == extensions[j].0 && !filters[i].1.contains(extensions[j].1) {
                    assert(filters@[i as int].0 == extensions@[j as int].0);
                    return false;
                }
                j += 1;
            }
            i += 1;
        }
        true
    }

    /// Whether an object passes.
    pub fn matches(&self, obj: &ObjectInfo) -> (r: bool)
        requires
            self.wf(),
        ensures
            r == self@.passes(obj@),
    {
        if !self.enabled {
            return true;
        }
        if let Some(location) = &self.location {
            if !location.matches(obj.group_id, obj.object_id) {
                return false;
            }
        }
        if let Some(priority) = &self.priority {
            if !priority.contains(obj.publisher_priority) {
                return false;
            }
        }
        if let Some(group) = &self.group {
            assert(group.has(obj.group_id) == group@.has(obj.group_id));
            if !group.contains(obj.group_id) {
                return false;
            }
        }
        if let Some(subgroup) = &self.subgroup {
            if let Some(subgroup_id) = obj.subgroup_id {
                if !subgroup.contains(subgroup_id) {
                    return false;
                }
            }
        }
        if let Some(object) = &self.object {
            if !object.contains(obj.object_id) {
                return false;
            }
        }
        if let Some(filters) = &self.extensions {
            if let Some(extensions) = &obj.extensions {
                let ghost view = extension_filters_view(filters@);
                assert(self@.extensions == Some(view));
                assert forall|i: int| 0 <= i < filters@.len() implies (
                #[trigger] filters@[i]).1.wf() by {
                    assert(range::canonical(view[i].1));
                }
                let r = Self::extensions_match(filters, extensions);
                proof {
                    if r {
                        assert forall|i: int, j: int| 0 <= i < view.len() && 0 <= j
                            < extensions@.len() && (#[trigger] view[i]).0 == (
                        #[trigger] extensions@[j]).0 implies range::covered(
                            view[i].1,
                            extensions@[j].1,
                        ) by {
                            assert(filters@[i].0 == extensions@[j].0);
                            assert(filters@[i].1.has(extensions@[j].1));
                        }
                    } else {
                        let (i, j) = choose|i: int, j: int|
                            0 <= i < filters@.len() && 0 <= j < extensions@.len() && (
                            #[trigger] filters@[i]).0 == (#[trigger] extensions@[j]).0
                                && !filters@[i].1.has(extensions@[j].1);
                        assert(view[i].0 == extensions@[j].0);
                        assert(!range::covered(view[i].1, extensions@[j].1));
                    }
                }
                return r;
            }
        }
        true
    }

    /// Whether an object passes, with the result counted.
    pub fn filter(&mut self, obj: &ObjectInfo) -> (r: bool)
        requires
            old(self).wf(),
        ensures
            final(self).wf(),
            r == old(self)@.passes(obj@),
            final(self)@ == (ObjectFilterView { stats: old(self)@.stats.counted(r), ..old(self)@ }),
    {
        let result = self.matches(obj);
        self.stats.record(result);
        result
    }

    /// An estimate of the memory in use, in bytes.
    pub fn memory_usage(&self) -> (r: usize)
        requires
            memory_estimate(self@) <= usize::MAX,
        ensures
            r == memory_estimate(self@),
    {
        let mut size: usize = std::mem::size_of::<ObjectFilter>();
        if let Some(extensions) = &self.extensions {
            let ghost all = extension_filters_view(extensions@);
            assert(all.skip(0) =~= all);
            let ghost base = size as int;
            let mut i: usize = 0;
            while i < extensions.len()
                invariant
                    i <= extensions@.len(),
                    all == extension_filters_view(extensions@),
                    base + extension_bytes(all) <= usize::MAX,
                    size + extension_bytes(all.skip(i as int)) == base + extension_bytes(all),
                decreases extensions@.len() - i,
            {
                assert(all.skip(i as int).drop_first() =~= all.skip(i + 1));
                assert(all[i as int].1 == extensions@[i as int].1@);
                size += 8;
                size += extensions[i].1.len() * 16;
                i += 1;
            }
            assert(all.skip(i as int).len() == 0);
        }
        if let Some(group) = &self.group {
            let more: usize = match group {
                GroupFilter::Sparse(ranges) => ranges.len() * 16,
                GroupFilter::Dense { .. } => 16,
            };
            size += more;
        }
        if let Some(subgroup) = &self.subgroup {
            size += subgroup.len() * 16;
        }
        if let Some(object) = &self.object {
            size += object.len() * 16;
        }
        size
    }

    /// Whether some filter is set.
    pub fn has_filters(&self) -> (r: bool)
        ensures
            r == self@.has_filters(),
    {
        self.location.is_some() || self.priority.is_some() || self.group.is_some()
            || self.subgroup.is_some() || self.object.is_some() || self.extensions.is_some()
    }
}

/// One more listed range keeps the filters merged.
proof fn lemma_extension_merged(
    list: Seq<(u64, u64, u64)>,
    n: int,
    before: Option<Seq<(u64, Seq<(u64, u64)>)>>,
    after: Option<Seq<(u64, Seq<(u64, u64)>)>>,
)
    requires
        0 <= n < list.len(),
        list[n].1 <= list[n].2,
        n == 0 ==> before is None,
        n > 0 ==> before is Some && merged_extensions(list, n, before->0),
        extension_added(before, list[n].0, seq![(list[n].1, list[n].2)], after),
    ensures
        after is Some,
        merged_extensions(list, n + 1, after->0),
{
    let ext_type = list[n].0;
    let one = seq![(list[n].1, list[n].2)];
    let new = after->0;
    assert forall|value: u64| #[trigger]
        range::covered(one, value) <==> list[n].1 <= value <= list[n].2 by {
        if list[n].1 <= value <= list[n].2 {
            assert(one[0].0 <= value && value <= one[0].1);
        }
    }
    let old = if before is Some {
        before->0
    } else {
        Seq::empty()
    };
    lemma_find_extension_any(old, ext_type, old.len());
    let found = find_extension(old, ext_type, old.len());
    let at = match found {
        Some(i) => i,
        None => old.len() as int,
    };
    assert(new.len() == if found is Some {
        old.len()
    } else {
        old.len() + 1
    });
    assert(new[at].0 == ext_type);
    assert forall|k: int| 0 <= k < new.len() && k != at implies #[trigger] new[k] == old[k] by {}
    assert(range::canonical(new[at].1));
    assert forall|i: int, j: int| 0 <= i < j < new.len() implies (#[trigger] new[i]).0 != (
    #[trigger] new[j]).0 by {
        if found is Some {
            assert(old[i].0 != old[j].0);
        }
    }
    assert forall|i: int| 0 <= i < n + 1 implies filters_type(new, (#[trigger] list[i]).0) by {
        if i < n {
            assert(filters_type(old, list[i].0));
            let k = choose|k: int| 0 <= k < old.len() && (#[trigger] old[k]).0 == list[i].0;
            assert(new[k].0 == list[i].0);
        } else {
            assert(new[at].0 == list[i].0);
        }
    }
    assert forall|k: int| 0 <= k < new.len() implies range::canonical((#[trigger] new[k]).1)
        && lists_type(list, n + 1, new[k].0) by {
        if k == at {
            assert(list[n].0 == new[k].0);
        } else {
            assert(range::canonical(old[k].1));
            assert(lists_type(list, n, old[k].0));
            let i = choose|i: int| 0 <= i < n && (#[trigger] list[i]).0 == old[k].0;
            assert(list[i].0 == new[k].0);
        }
    }
    assert forall|k: int, value: u64| 0 <= k < new.len() implies (#[trigger] range::covered(
        (#[trigger] new[k]).1,
        value,
    ) <==> listed_value(list, n + 1, new[k].0, value)) by {
        if k < old.len() {
            assert(range::covered(old[k].1, value) <==> listed_value(
                list,
                n,
                old[k].0,
                value,
            ));
        }
        if listed_value(list, n, new[k].0, value) {
            let i = choose|i: int|
                0 <= i < n && (#[trigger] list[i]).0 == new[k].0 && list[i].1 <= value && value
                    <= list[i].2;
            assert(list[i].0 == new[k].0);
            assert(listed_value(list, n + 1, new[k].0, value));
            if k == at && found is None {
                assert(filters_type(old, list[i].0));
            }
        }
        if k == at && list[n].1 <= value <= list[n].2 {
            assert(list[n].0 == new[k].0);
            assert(listed_value(list, n + 1, new[k].0, value));
        }
        if k == at {
            assert(range::covered(one, value) <==> list[n].1 <= value <= list[n].2);
        }
    }
}

/// The place that is found holds the type, and no place before it does.
proof fn lemma_find_extension_any(filters: Seq<(u64, Seq<(u64, u64)>)>, ext_type: u64, n: nat)
    requires
        n <= filters.len(),
    ensures
        match find_extension(filters, ext_type, n) {
            Some(i) => 0 <= i < n && filters[i].0 == ext_type,
            None => forall|i: int| 0 <= i < n ==> (#[trigger] filters[i]).0 != ext_type,
        },
    decreases n,
{
    if n > 0 {
        lemma_find_extension_any(filters, ext_type, (n - 1) as nat);
    }
}

proof fn lemma_canonical_form(list: Seq<(u64, u64)>, set: RangeSet)
    requires
        set.wf(),
        forall|value: u64| #[trigger] set.has(value) <==> range::covered(list, value),
    ensures
        canonical_form(list, set@),
{
    assert forall|value: u64| #[trigger]
        range::covered(set@, value) <==> range::covered(list, value) by {
        assert(set.has(value) <==> range::covered(list, value));
    }
}

impl Default for ObjectFilter {
    fn default() -> (r: Self)
        ensures
            r.wf(),
            r@ == ObjectFilterView::open_to_all(false),
    {
        Self::new()
    }
}

/// A filter with nothing set lets every object pass, and so does one that is off.
pub proof fn law_nothing_set_passes_all(filter: ObjectFilterView, obj: ObjectInfoView)
    requires
        !filter.enabled || !filter.has_filters(),
    ensures
        filter.passes(obj),
{
}

/// A filter on groups lets every group of its ranges pass. Where it is held as a set, or
/// was one range, it lets no other pass.
pub proof fn law_group_filter_keeps_groups(ranges: Seq<(u64, u64)>, group_id: u64)
    requires
        range::canonical(ranges),
    ensures
        range::covered(ranges, group_id) ==> GroupFilterView::of_ranges(ranges).has(group_id),
        GroupFilterView::of_ranges(ranges) is Sparse || ranges.len() == 1 ==> (
        GroupFilterView::of_ranges(ranges).has(group_id) ==> range::covered(ranges, group_id)),
{
    if range::covered(ranges, group_id) {
        let k = choose|k: int|
            0 <= k < ranges.len() && (#[trigger] ranges[k]).0 <= group_id && group_id
                <= ranges[k].1;
        let last = ranges.len() - 1;
        if k > 0 {
            assert(ranges[0].1 + 1 < ranges[k].0);
            assert(ranges[0].0 <= ranges[0].1);
        }
        if k < last {
            assert(ranges[k].1 + 1 < ranges[last].0);
            assert(ranges[last].0 <= ranges[last].1);
        }
    }
    if ranges.len() == 1 && ranges[0].0 <= group_id <= ranges[0].1 {
        assert(range::covered(ranges, group_id));
    }
}

/// The position `a` is not after the position `b`: positions are ordered by group, then by object.
pub open spec fn no_later(a: (u64, u64), b: (u64, u64)) -> bool {
    a.0 < b.0 || (a.0 == b.0 && a.1 <= b.1)
}

/// A position passes if it lies between the start and the end, in the order of groups and then of
/// objects. Without a start object the start group counts from its first object, without an end
/// object the end group counts to its last, and without an end group nothing ends. In particular all
/// objects of the groups between the two ends pass.
pub proof fn law_locations_are_in_order(filter: LocationFilter, group_id: u64, object_id: u64)
    ensures
        filter.has(group_id, object_id) <==> {
            &&& no_later(
                (
                    filter.start_group,
                    match filter.start_object {
                        Some(object) => object,
                        None => 0,
                    },
                ),
                (group_id, object_id),
            )
            &&& match filter.end_group {
                Some(end_group) => no_later(
                    (group_id, object_id),
                    (
                        end_group,
                        match filter.end_object {
                            Some(object) => object,
                            None => u64::MAX,
                        },
                    ),
                ),
                None => true,
            }
        },
        filter.start_group < group_id && (filter.end_group is None || group_id
            < filter.end_group->0) ==> filter.has(group_id, object_id),
        filter.has(group_id, object_id) ==> filter.start_group <= group_id,
        filter.has(group_id, object_id) && filter.end_group is Some ==> group_id
            <= filter.end_group->0,
{
}

/// The filter with one of its parts alone.
pub open spec fn only(filter: ObjectFilterView, part: int) -> ObjectFilterView {
    ObjectFilterView {
        enabled: true,
        location: if part == 0 {
            filter.location
        } else {
            None
        },
        priority: if part == 1 {
            filter.priority
        } else {
            None
        },
        group: if part == 2 {
            filter.group
        } else {
            None
        },
        subgroup: if part == 3 {
            filter.subgroup
        } else {
            None
        },
        object: if part == 4 {
            filter.object
        } else {
            None
        },
        extensions: if part == 5 {
            filter.extensions
        } else {
            None
        },
        stats: filter.stats,
    }
}

/// An object passes a filter that is on exactly if it passes each of its parts alone.
pub proof fn law_object_passes_all_parts(filter: ObjectFilterView, obj: ObjectInfoView)
    requires
        filter.enabled,
    ensures
        filter.passes(obj) <==> only(filter, 0).passes(obj) && only(filter, 1).passes(obj) && only(
            filter,
            2,
        ).passes(obj) && only(filter, 3).passes(obj) && only(filter, 4).passes(obj) && only(
            filter,
            5,
        ).passes(obj),
{
}

/// What a single part of a filter looks at: the position, the priority, the group, the subgroup of
/// an object that has one, the number of the object, or its extensions. An extension of a type that
/// is filtered has to lie in the ranges of every filter on the type; other types do not count.
pub proof fn law_each_part_looks_at_its_own(
    filter: ObjectFilterView,
    obj: ObjectInfoView,
    subgroup_id: u64,
)
    requires
        filter.location is Some,
        filter.priority is Some,
        filter.group is Some,
        filter.subgroup is Some,
        filter.object is Some,
        filter.extensions is Some,
    ensures
        only(filter, 0).passes(obj) <==> filter.location->0.has(obj.group_id, obj.object_id),
        only(filter, 1).passes(obj) <==> filter.priority->0.has(obj.publisher_priority),
        only(filter, 2).passes(obj) <==> match filter.group->0 {
            GroupFilterView::Dense { min, max } => min <= obj.group_id <= max,
            GroupFilterView::Sparse(ranges) => exists|i: int|
                0 <= i < ranges.len() && (#[trigger] ranges[i]).0 <= obj.group_id && obj.group_id
                    <= ranges[i].1,
        },
        obj.subgroup_id is None ==> only(filter, 3).passes(obj),
        obj.subgroup_id == Some(subgroup_id) ==> (only(filter, 3).passes(obj) <==> exists|i: int|
            0 <= i < filter.subgroup->0.len() && (#[trigger] filter.subgroup->0[i]).0 <= subgroup_id
                && subgroup_id <= filter.subgroup->0[i].1),
        only(filter, 4).passes(obj) <==> exists|i: int|
            0 <= i < filter.object->0.len() && (#[trigger] filter.object->0[i]).0 <= obj.object_id
                && obj.object_id <= filter.object->0[i].1,
        only(filter, 5).passes(obj) <==> forall|i: int, j: int|
            0 <= i < filter.extensions->0.len() && 0 <= j < obj.extensions.len() && (
            #[trigger] filter.extensions->0[i]).0 == (#[trigger] obj.extensions[j]).0
                ==> exists|k: int|
                0 <= k < filter.extensions->0[i].1.len() && (
                #[trigger] filter.extensions->0[i].1[k]).0 <= obj.extensions[j].1
                    && obj.extensions[j].1 <= filter.extensions->0[i].1[k].1,
{
    assert forall|i: int, j: int|
        0 <= i < filter.extensions->0.len() && 0 <= j < obj.extensions.len() implies range::covered(
        (#[trigger] filter.extensions->0[i]).1,
        (#[trigger] obj.extensions[j]).1,
    ) == exists|k: int|
        0 <= k < filter.extensions->0[i].1.len() && (#[trigger] filter.extensions->0[i].1[k]).0
            <= obj.extensions[j].1 && obj.extensions[j].1 <= filter.extensions->0[i].1[k].1 by {}
}

/// A filter is set if one of its parts is.
pub proof fn law_set_parts_are_seen(filter: ObjectFilterView)
    ensures
        !filter.has_filters() <==> filter.location is None && filter.priority is None
            && filter.group is None && filter.subgroup is None && filter.object is None
            && filter.extensions is None,
        !ObjectFilterView::open_to_all(true).has_filters(),
        !ObjectFilterView::open_to_all(false).has_filters(),
        ObjectFilterView::open_to_all(true).enabled,
{
}

/// Whatever a filter that was made from parameters lets pass lies in the ranges that the parameters
/// list: the number of the object, its subgroup if it has one, its priority and its position. What
/// lies in the listed groups is not stopped by its group.
pub proof fn law_parameters_select(
    params: ObjectFilterParams,
    filter: ObjectFilterView,
    obj: ObjectInfoView,
)
    requires
        selects_by(params, filter),
        filter.enabled,
    ensures
        filter.passes(obj) && params.objects is Some ==> exists|i: int|
            0 <= i < params.objects->0@.len() && (#[trigger] params.objects->0@[i]).0
                <= obj.object_id && obj.object_id <= params.objects->0@[i].1,
        filter.passes(obj) && params.subgroups is Some && obj.subgroup_id is Some ==> exists|
            i: int,
        |
            0 <= i < params.subgroups->0@.len() && (#[trigger] params.subgroups->0@[i]).0
                <= obj.subgroup_id->0 && obj.subgroup_id->0 <= params.subgroups->0@[i].1,
        filter.passes(obj) && params.priorities is Some ==> exists|i: int|
            0 <= i < params.priorities->0@.len() && (#[trigger] params.priorities->0@[i]).0
                <= obj.publisher_priority && obj.publisher_priority <= params.priorities->0@[i].1,
        filter.passes(obj) && params.location is Some ==> params.location->0.has(
            obj.group_id,
            obj.object_id,
        ),
        params.groups is Some && range::covered(params.groups->0@, obj.group_id) ==> only(
            filter,
            2,
        ).passes(obj),
        params.groups is None ==> only(filter, 2).passes(obj),
        params.objects is Some && range::covered(params.objects->0@, obj.object_id) ==> only(
            filter,
            4,
        ).passes(obj),
        params.priorities is Some && in_priorities(params.priorities->0@, obj.publisher_priority)
            ==> only(filter, 1).passes(obj),
{
    if params.objects is Some {
        assert(range::covered(filter.object->0, obj.object_id) <==> range::covered(
            params.objects->0@,
            obj.object_id,
        ));
    }
    if params.subgroups is Some && obj.subgroup_id is Some {
        assert(range::covered(filter.subgroup->0, obj.subgroup_id->0) <==> range::covered(
            params.subgroups->0@,
            obj.subgroup_id->0,
        ));
    }
    if params.priorities is Some {
        assert(filter.priority->0.has(obj.publisher_priority) <==> in_priorities(
            params.priorities->0@,
            obj.publisher_priority,
        ));
    }
    if params.groups is Some {
        let ranges = choose|ranges: Seq<(u64, u64)>| #[trigger]
            canonical_form(params.groups->0@, ranges) && filter.group == Some(
                GroupFilterView::of_ranges(ranges),
            );
        assert(range::covered(ranges, obj.group_id) <==> range::covered(
            params.groups->0@,
            obj.group_id,
        ));
        law_group_filter_keeps_groups(ranges, obj.group_id);
    }
}

/// A filter that counts takes the ranges of one extension type together: an extension of a listed
/// type passes exactly if one of the ranges of that type holds its value.
pub proof fn law_ranges_of_a_type_are_taken_together(
    params: ObjectFilterParams,
    filter: ObjectFilterView,
    ext_type: u64,
    value: u64,
)
    requires
        made_with_stats(params, filter),
        params.extensions is Some,
    ensures
        filter.extensions_pass(seq![(ext_type, value)]) <==> {
            let list = params.extensions->0@;
            let listed = exists|i: int|
                0 <= i < list.len() && (#[trigger] list[i]).0 == ext_type;
            listed ==> exists|i: int|
                0 <= i < list.len() && (#[trigger] list[i]).0 == ext_type && list[i].1 <= value
                    && value <= list[i].2
        },
{
    let list = params.extensions->0@;
    let extensions = seq![(ext_type, value)];
    let n = list.len() as int;
    if list.len() > 0 {
        let filters = filter.extensions->0;
        let listed = exists|i: int| 0 <= i < list.len() && (#[trigger] list[i]).0 == ext_type;
        if filter.extensions_pass(extensions) && listed {
            let i = choose|i: int| 0 <= i < list.len() && (#[trigger] list[i]).0 == ext_type;
            assert(filters_type(filters, list[i].0));
            let k = choose|k: int| 0 <= k < filters.len() && (#[trigger] filters[k]).0 == ext_type;
            assert(filters[k].0 == extensions[0].0);
            assert(range::covered(filters[k].1, value));
            assert(listed_value(list, n, ext_type, value));
        }
        if listed ==> listed_value(list, n, ext_type, value) {
            assert forall|k: int, j: int|
                0 <= k < filters.len() && 0 <= j < extensions.len() && (#[trigger] filters[k]).0
                    == (#[trigger] extensions[j]).0 implies range::covered(
                filters[k].1,
                extensions[j].1,
            ) by {
                assert(lists_type(list, n, filters[k].0));
                assert(listed_value(list, n, filters[k].0, value));
            }
        }
    }
}

proof fn lemma_find_extension(filters: Seq<(u64, Seq<(u64, u64)>)>, ext_type: u64, n: nat)
    requires
        n <= filters.len(),
    ensures
        match find_extension(filters, ext_type, n) {
            Some(i) => 0 <= i < n && filters[i].0 == ext_type,
            None => forall|j: int| 0 <= j < n ==> (#[trigger] filters[j]).0 != ext_type,
        },
    decreases n,
{
    if n > 0 {
        lemma_find_extension(filters, ext_type, (n - 1) as nat);
    }
}

/// Where at most one filter is on a type, adding ranges for the type lets their values pass in
/// addition to what passed, or restricts the type to them if it was not filtered. Other types are
/// not touched.
pub proof fn law_added_ranges_pass(
    before: ObjectFilterView,
    ext_type: u64,
    ranges: Seq<(u64, u64)>,
    after: ObjectFilterView,
    other: u64,
    value: u64,
)
    requires
        extension_added(before.extensions, ext_type, ranges, after.extensions),
        before.extensions matches Some(filters) ==> forall|i: int, j: int|
            0 <= i < j < filters.len() ==> (#[trigger] filters[i]).0 != (#[trigger] filters[j]).0,
    ensures
        ({
            let filtered = before.extensions is Some && exists|i: int|
                0 <= i < before.extensions->0.len() && (#[trigger] before.extensions->0[i]).0
                    == ext_type;
            let listed = exists|i: int|
                0 <= i < ranges.len() && (#[trigger] ranges[i]).0 <= value && value <= ranges[i].1;
            &&& filtered ==> (after.extensions_pass(seq![(ext_type, value)]) <==>
                before.extensions_pass(seq![(ext_type, value)]) || listed)
            &&& !filtered ==> (after.extensions_pass(seq![(ext_type, value)]) <==> listed)
            &&& other != ext_type ==> (after.extensions_pass(seq![(other, value)]) <==>
                before.extensions_pass(seq![(other, value)]))
        }),
{
    let old_filters = match before.extensions {
        Some(filters) => filters,
        None => Seq::empty(),
    };
    let new_filters = after.extensions->0;
    lemma_find_extension(old_filters, ext_type, old_filters.len());
    let at = match find_extension(old_filters, ext_type, old_filters.len()) {
        Some(i) => i,
        None => old_filters.len() as int,
    };
    let own = seq![(ext_type, value)];
    let foreign = seq![(other, value)];
    assert(new_filters[at].0 == ext_type);
    assert forall|i: int| 0 <= i < new_filters.len() && i != at implies (
    #[trigger] new_filters[i]) == old_filters[i] && new_filters[i].0 != ext_type by {
        if at < old_filters.len() {
            if i < at {
                assert(old_filters[i].0 != old_filters[at].0);
            } else {
                assert(old_filters[at].0 != old_filters[i].0);
            }
        }
    }
    assert(own[0] == (ext_type, value));
    assert(foreign[0] == (other, value));
    assert(after.extensions_pass(own) <==> range::covered(new_filters[at].1, value));
    if at < old_filters.len() {
        assert(old_filters[at].0 == ext_type);
        assert(before.extensions_pass(own) <==> range::covered(old_filters[at].1, value)) by {
            if range::covered(old_filters[at].1, value) {
                assert forall|i: int, j: int|
                    0 <= i < old_filters.len() && 0 <= j < own.len() && (
                    #[trigger] old_filters[i]).0 == (#[trigger] own[j]).0 implies range::covered(
                    old_filters[i].1,
                    own[j].1,
                ) by {
                    if i < at {
                        assert(old_filters[i].0 != old_filters[at].0);
                    } else if at < i {
                        assert(old_filters[at].0 != old_filters[i].0);
                    }
                }
            }
        }
        assert(range::covered(new_filters[at].1, value) <==> range::covered(
            old_filters[at].1,
            value,
        ) || range::covered(ranges, value));
    } else {
        assert(new_filters[at].1 == ranges);
    }
    if other != ext_type {
        if before.extensions_pass(foreign) {
            assert forall|i: int, j: int|
                0 <= i < new_filters.len() && 0 <= j < foreign.len() && (
                #[trigger] new_filters[i]).0 == (#[trigger] foreign[j]).0 implies range::covered(
                new_filters[i].1,
                foreign[j].1,
            ) by {
                assert(i != at);
                assert(old_filters[i].0 == foreign[j].0);
            }
        }
        if after.extensions_pass(foreign) && before.extensions is Some {
            assert forall|i: int, j: int|
                0 <= i < old_filters.len() && 0 <= j < foreign.len() && (
                #[trigger] old_filters[i]).0 == (#[trigger] foreign[j]).0 implies range::covered(
                old_filters[i].1,
                foreign[j].1,
            ) by {
                assert(i != at);
                assert(new_filters[i].0 == foreign[j].0);
            }
        }
    }
}

/// Ranges are held by their ends if there is one, or if they cover at least nine tenths of the
/// numbers from the first to the last.
pub proof fn law_solid_ranges_are_held_by_their_ends(ranges: Seq<(u64, u64)>)
    requires
        range::canonical(ranges),
        ranges.len() > 0,
    ensures
        ({
            let numbers = ranges.last().1 - ranges[0].0 + 1;
            let solid = range::total_length(ranges) * 10 >= numbers * 9;
            &&& GroupFilterView::of_ranges(ranges) is Dense <==> ranges.len() == 1 || solid
            &&& GroupFilterView::of_ranges(ranges) matches GroupFilterView::Dense { min, max }
                ==> min == ranges[0].0 && max == ranges.last().1
            &&& GroupFilterView::of_ranges(ranges) matches GroupFilterView::Sparse(held) ==> held
                == ranges
        }),
{
    let last = ranges.len() - 1;
    if last > 0 {
        assert(ranges[0].1 + 1 < ranges[last].0);
    }
    assert(ranges[0].0 <= ranges[0].1);
    assert(ranges[last].0 <= ranges[last].1);
    let total = range::total_length(ranges);
    let numbers = ranges.last().1 - ranges[0].0 + 1;
    assert(total * 100 / numbers >= 90 <==> total * 10 >= numbers * 9) by (nonlinear_arith)
        requires
            numbers > 0,
    ;
}

proof fn lemma_count_below(held: spec_fn(u8) -> bool, n: nat)
    requires
        n <= 256,
    ensures
        count_below(held, n) <= n,
        count_below(held, n) == 0 <==> forall|p: u8| p < n ==> !#[trigger] held(p),
        count_below(held, n) == n <==> forall|p: u8| p < n ==> #[trigger] held(p),
    decreases n,
{
    if n > 0 {
        lemma_count_below(held, (n - 1) as nat);
        let last = (n - 1) as u8;
        assert(held(last) || !held(last));
    }
}

proof fn lemma_count_one_more(held: spec_fn(u8) -> bool, more: spec_fn(u8) -> bool, p: u8, n: nat)
    requires
        n <= 256,
        !held(p),
        forall|q: u8| #[trigger] more(q) <==> held(q) || q == p,
    ensures
        count_below(more, n) == count_below(held, n) + if p < n {
            1nat
        } else {
            0
        },
    decreases n,
{
    if n > 0 {
        lemma_count_one_more(held, more, p, (n - 1) as nat);
        let last = (n - 1) as u8;
        assert(more(last) <==> held(last) || last == p);
    }
}

/// An empty set of priorities counts none, a full one counts all, and one more priority counts one
/// more.
pub proof fn law_priorities_are_counted(held: spec_fn(u8) -> bool, more: spec_fn(u8) -> bool, p: u8)
    requires
        !held(p),
        forall|q: u8| #[trigger] more(q) <==> held(q) || q == p,
    ensures
        count_below(held, 256) == 0 <==> forall|q: u8| !#[trigger] held(q),
        count_below(held, 256) == 256 <==> forall|q: u8| #[trigger] held(q),
        count_below(more, 256) == count_below(held, 256) + 1,
{
    lemma_count_below(held, 256);
    lemma_count_one_more(held, more, p, 256);
}

/// Every range of a filter takes 16 bytes, and every extension type 8 more. A filter without ranges
/// takes what it is itself.
pub proof fn law_ranges_take_memory(
    filter: ObjectFilterView,
    ranges: Seq<(u64, u64)>,
    extensions: Seq<(u64, Seq<(u64, u64)>)>,
    added: (u64, Seq<(u64, u64)>),
)
    ensures
        extension_bytes(extensions.push(added)) == extension_bytes(extensions) + 8 + 16
            * added.1.len(),
        extension_bytes(Seq::empty()) == 0,
        memory_estimate(ObjectFilterView { subgroup: Some(ranges), ..filter }) == memory_estimate(
            ObjectFilterView { subgroup: None, ..filter },
        ) + 16 * ranges.len(),
        memory_estimate(ObjectFilterView { object: Some(ranges), ..filter }) == memory_estimate(
            ObjectFilterView { object: None, ..filter },
        ) + 16 * ranges.len(),
        memory_estimate(
            ObjectFilterView { group: Some(GroupFilterView::Sparse(ranges)), ..filter },
        ) == memory_estimate(ObjectFilterView { group: None, ..filter }) + 16 * ranges.len(),
        memory_estimate(ObjectFilterView { extensions: Some(extensions), ..filter })
            == memory_estimate(ObjectFilterView { extensions: None, ..filter }) + extension_bytes(
            extensions,
        ),
        filter.group is None && filter.subgroup is None && filter.object is None
            && filter.extensions is None ==> memory_estimate(filter) == vstd::layout::size_of::<
            ObjectFilter,
        >(),
    decreases extensions.len(),
{
    let all = extensions.push(added);
    assert(extension_bytes(Seq::empty()) == 0);
    if extensions.len() == 0 {
        assert(all.drop_first() =~= Seq::<(u64, Seq<(u64, u64)>)>::empty());
    } else {
        law_ranges_take_memory(filter, ranges, extensions.drop_first(), added);
        assert(all.drop_first() =~= extensions.drop_first().push(added));
        assert(all[0] == extensions[0]);
    }
}

/// Without ranges no group passes.
pub proof fn law_no_ranges_hold_no_group(group_id: u64)
    ensures
        !GroupFilterView::of_ranges(Seq::empty()).has(group_id),
        !nearly_solid(Seq::empty()),
{
}

} // verus!
