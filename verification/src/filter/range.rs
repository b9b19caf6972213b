//! Sets of numbers kept as ranges, stored inline while there are few.

use smallvec::SmallVec;
use vstd::prelude::*;

verus! {

/// A vector of ranges that stores up to four of them inline.
#[verifier::external_body]
#[derive(Debug)]
pub struct SmallRanges {
    inner: SmallVec<[(u64, u64); 4]>,
}

/// The ranges that a small vector holds, in order.
pub uninterp spec fn held(v: SmallRanges) -> Seq<(u64, u64)>;

/// `smallvec::SmallVec::new` makes a vector without elements.
#[verifier::external_body]
fn small_new() -> (r: SmallRanges)
    ensures
        held(r) == Seq::<(u64, u64)>::empty(),
{
    SmallRanges { inner: SmallVec::new() }
}

/// `smallvec::SmallVec::len` gives the number of elements.
#[verifier::external_body]
fn small_len(v: &SmallRanges) -> (r: usize)
    ensures
        r == held(*v).len(),
{
    v.inner.len()
}

/// `smallvec::SmallVec::index` gives the element at `i`.
#[verifier::external_body]
fn small_get(v: &SmallRanges, i: usize) -> (r: (u64, u64))
    requires
        i < held(*v).len(),
    ensures
        r == held(*v)[i as int],
{
    v.inner[i]
}

/// `smallvec::SmallVec::index_mut` gives the place of the element at `i`, where `range` is
/// put.
#[verifier::external_body]
fn small_set(v: &mut SmallRanges, i: usize, range: (u64, u64))
    requires
        i < held(*old(v)).len(),
    ensures
        held(*final(v)) == held(*old(v)).update(i as int, range),
{
    v.inner[i] = range;
}

/// `smallvec::SmallVec::insert` puts `range` at `i` and moves the elements from there on
/// one place back.
#[verifier::external_body]
fn small_insert(v: &mut SmallRanges, i: usize, range: (u64, u64))
    requires
        i <= held(*old(v)).len(),
    ensures
        held(*final(v)) == held(*old(v)).insert(i as int, range),
{
    v.inner.insert(i, range)
}

/// `smallvec::SmallVec::remove` takes the element at `i` out and moves those behind it one
/// place forward.
#[verifier::external_body]
fn small_remove(v: &mut SmallRanges, i: usize) -> (r: (u64, u64))
    requires
        i < held(*old(v)).len(),
    ensures
        r == held(*old(v))[i as int],
        held(*final(v)) == held(*old(v)).remove(i as int),
{
    v.inner.remove(i)
}

/// `value` lies in one of the ranges.
pub open spec fn covered(ranges: Seq<(u64, u64)>, value: u64) -> bool {
    exists|i: int|
        0 <= i < ranges.len() && (#[trigger] ranges[i]).0 <= value && value <= ranges[i].1
}

/// The ranges are sorted and neither overlap nor touch.
pub open spec fn canonical(ranges: Seq<(u64, u64)>) -> bool {
    &&& forall|i: int| 0 <= i < ranges.len() ==> (#[trigger] ranges[i]).0 <= ranges[i].1
    &&& forall|i: int, j: int|
        0 <= i < j < ranges.len() ==> (#[trigger] ranges[i]).1 + 1 < (#[trigger] ranges[j]).0
}

/// How many numbers the ranges cover.
pub open spec fn total_length(ranges: Seq<(u64, u64)>) -> int
    decreases ranges.len(),
{
    if ranges.len() == 0 {
        0
    } else {
        total_length(ranges.drop_last()) + (ranges.last().1 - ranges.last().0 + 1)
    }
}

/// A set of numbers, kept as sorted ranges that neither overlap nor touch.
#[derive(Debug)]
pub struct RangeSet {
    ranges: SmallRanges,
}

impl View for RangeSet {
    type V = Seq<(u64, u64)>;

    closed spec fn view(&self) -> Seq<(u64, u64)> {
        held(self.ranges)
    }
}

/// All ranges of a list have their start before their end.
pub open spec fn ordered_bounds(ranges: Seq<(u64, u64)>) -> bool {
    forall|i: int| 0 <= i < ranges.len() ==> (#[trigger] ranges[i]).0 <= ranges[i].1
}

impl RangeSet {
    /// The number is in the set.
    pub open spec fn has(&self, value: u64) -> bool {
        covered(self@, value)
    }

    pub open spec fn wf(&self) -> bool {
        canonical(self@)
    }

    /// The empty set.
    pub fn new() -> (r: Self)
        ensures
            r.wf(),
            r@ == Seq::<(u64, u64)>::empty(),
    {
        RangeSet { ranges: small_new() }
    }

    /// The set of the numbers from `start` to `end`.
    pub fn single(start: u64, end: u64) -> (r: Self)
        requires
            start <= end,
        ensures
            r.wf(),
            r@ == seq![(start, end)],
    {
        let mut set = Self::new();
        set.insert(start, end);
        proof {
            assert forall|value: u64| #[trigger]
                covered(set@, value) <==> start <= value <= end by {
                assert(set.has(value) <==> start <= value <= end);
            }
            lemma_single(set@, start, end);
        }
        set
    }

    /// The set of the numbers in these ranges.
    pub fn from_ranges(ranges: &Vec<(u64, u64)>) -> (r: Self)
        requires
            ordered_bounds(ranges@),
        ensures
            r.wf(),
            forall|value: u64| #[trigger] r.has(value) <==> covered(ranges@, value),
    {
        let mut set = Self::new();
        let mut i: usize = 0;
        while i < ranges.len()
            invariant
                i <= ranges@.len(),
                ordered_bounds(ranges@),
                set.wf(),
                forall|value: u64| #[trigger]
                    set.has(value) <==> covered(ranges@.subrange(0, i as int), value),
            decreases ranges@.len() - i,
        {
            let ghost before = set@;
            set.insert(ranges[i].0, ranges[i].1);
            let ghost some = ranges@.subrange(0, i as int);
            let ghost more = ranges@.subrange(0, i + 1);
            assert forall|value: u64| #[trigger] set.has(value) <==> covered(more, value) by {
                assert(more =~= some.push(ranges@[i as int]));
                if covered(some, value) {
                    let k = choose|k: int|
                        0 <= k < some.len() && (#[trigger] some[k]).0 <= value && value
                            <= some[k].1;
                    assert(more[k] == some[k]);
                }
                if ranges@[i as int].0 <= value <= ranges@[i as int].1 {
                    assert(more[i as int] == ranges@[i as int]);
                }
                if covered(more, value) {
                    let k = choose|k: int|
                        0 <= k < more.len() && (#[trigger] more[k]).0 <= value && value
                            <= more[k].1;
                    if k < i {
                        assert(some[k] == more[k]);
                    }
                }
            }
            i += 1;
        }
        assert(ranges@.subrange(0, i as int) =~= ranges@);
        set
    }

    /// The number of ranges that start before `start`.
    fn lower_bound(&self, start: u64) -> (r: usize)
        requires
            self.wf(),
        ensures
            r <= self@.len(),
            forall|k: int| 0 <= k < r ==> (#[trigger] self@[k]).0 < start,
            forall|k: int| r <= k < self@.len() ==> (#[trigger] self@[k]).0 >= start,
    {
        let mut lo: usize = 0;
        let mut hi: usize = small_len(&self.ranges);
        while lo < hi
            invariant
                lo <= hi <= self@.len(),
                self.wf(),
                forall|k: int| 0 <= k < lo ==> (#[trigger] self@[k]).0 < start,
                forall|k: int| hi <= k < self@.len() ==> (#[trigger] self@[k]).0 >= start,
            decreases hi - lo,
        {
            let mid: usize = lo + (hi - lo) / 2;
            let s: u64 = small_get(&self.ranges, mid).0;
            assert(self@[mid as int].0 == s);
            if s < start {
                lo = mid + 1;
            } else {
                hi = mid;
            }
        }
        lo
    }

    /// Adds the numbers from `start` to `end`, merging the ranges that they overlap or touch.
    pub fn insert(&mut self, start: u64, end: u64)
        requires
            old(self).wf(),
            start <= end,
        ensures
            final(self).wf(),
            forall|value: u64| #[trigger]
                final(self).has(value) <==> old(self).has(value) || start <= value <= end,
    {
        let ghost before = self@;
        let pos: usize = self.lower_bound(start);
        if pos > 0 {
            let prev: (u64, u64) = small_get(&self.ranges, pos - 1);
            if prev.1 >= start.saturating_sub(1) {
                let merged: u64 = if prev.1 < end {
                    end
                } else {
                    prev.1
                };
                small_set(&mut self.ranges, pos - 1, (prev.0, merged));
                self.merge_forward(pos - 1, Ghost(before), start, end);
                return;
            }
        }
        if pos < small_len(&self.ranges) {
            let next: (u64, u64) = small_get(&self.ranges, pos);
            if end >= next.0.saturating_sub(1) {
                let merged: u64 = if next.1 < end {
                    end
                } else {
                    next.1
                };
                small_set(&mut self.ranges, pos, (start, merged));
                self.merge_forward(pos, Ghost(before), start, end);
                return;
            }
        }
        small_insert(&mut self.ranges, pos, (start, end));
        proof {
            lemma_insert_apart(before, self@, pos as int, start, end);
        }
    }

    /// Merges the range at `idx` with those behind it that it overlaps or touches.
    fn merge_forward(
        &mut self,
        idx: usize,
        Ghost(before): Ghost<Seq<(u64, u64)>>,
        start: u64,
        end: u64,
    )
        requires
            idx < old(self)@.len(),
            canonical(before),
            merging(before, old(self)@, idx as int, idx + 1, start, end),
            old(self)@.len() == before.len(),
        ensures
            final(self).wf(),
            forall|value: u64| #[trigger]
                final(self).has(value) <==> covered(before, value) || start <= value <= end,
    {
        let ghost mut next: int = idx + 1;
        let len: usize = small_len(&self.ranges);
        while idx + 1 < small_len(&self.ranges) && small_get(&self.ranges, idx).1 >= small_get(
            &self.ranges,
            idx + 1,
        ).0.saturating_sub(1)
            invariant
                idx < self@.len() <= len,
                canonical(before),
                idx < next,
                merging(before, self@, idx as int, next, start, end),
            decreases self@.len(),
        {
            let current: (u64, u64) = small_get(&self.ranges, idx);
            let following: (u64, u64) = small_get(&self.ranges, idx + 1);
            let merged: u64 = if current.1 < following.1 {
                following.1
            } else {
                current.1
            };
            let ghost was = self@;
            small_set(&mut self.ranges, idx, (current.0, merged));
            small_remove(&mut self.ranges, idx + 1);
            proof {
                lemma_merge_step(before, was, self@, idx as int, next, start, end);
                next = next + 1;
            }
        }
        proof {
            lemma_merge_done(before, self@, idx as int, next, start, end);
        }
    }
}

/// Part of the way through a merge: `now` is `before` with the ranges from `idx` up to
/// `next` joined into one together with the numbers from `start` to `end`.
spec fn merging(
    before: Seq<(u64, u64)>,
    now: Seq<(u64, u64)>,
    idx: int,
    next: int,
    start: u64,
    end: u64,
) -> bool {
    &&& 0 <= idx < now.len()
    &&& idx < next <= before.len()
    &&& now.len() == before.len() - (next - idx - 1)
    &&& forall|k: int| 0 <= k < idx ==> #[trigger] now[k] == before[k]
    &&& forall|k: int|
        idx < k < now.len() ==> #[trigger] now[k] == before[k + (next - idx - 1)]
    &&& now[idx].0 == if start < before[idx].0 {
        start
    } else {
        before[idx].0
    }
    &&& now[idx].1 == if end > before[next - 1].1 {
        end
    } else {
        before[next - 1].1
    }
    &&& idx > 0 ==> before[idx - 1].1 + 1 < now[idx].0
    &&& now[idx].0 <= start
    &&& end <= now[idx].1
    &&& now[idx].0 <= now[idx].1
    &&& forall|value: u64| #[trigger]
        joined(before, idx, next, start, end, value) <==> now[idx].0 <= value <= now[idx].1
}

/// The number lies between `start` and `end` or in one of the ranges from `idx` up to `next`.
spec fn joined(
    before: Seq<(u64, u64)>,
    idx: int,
    next: int,
    start: u64,
    end: u64,
    value: u64,
) -> bool {
    start <= value <= end || exists|k: int|
        idx <= k < next && (#[trigger] before[k]).0 <= value && value <= before[k].1
}

proof fn lemma_merge_step(
    before: Seq<(u64, u64)>,
    was: Seq<(u64, u64)>,
    now: Seq<(u64, u64)>,
    idx: int,
    next: int,
    start: u64,
    end: u64,
)
    requires
        canonical(before),
        merging(before, was, idx, next, start, end),
        idx + 1 < was.len(),
        was[idx].1 + 1 >= was[idx + 1].0,
        now == was.update(
            idx,
            (
                was[idx].0,
                if was[idx].1 < was[idx + 1].1 {
                    was[idx + 1].1
                } else {
                    was[idx].1
                },
            ),
        ).remove(idx + 1),
    ensures
        merging(before, now, idx, next + 1, start, end),
{
    assert(was[idx + 1] == before[next]);
    assert(before[next - 1].1 + 1 < before[next].0);
    assert forall|value: u64| #[trigger]
        joined(before, idx, next + 1, start, end, value) <==> now[idx].0 <= value <= now[idx].1 by {
        let inner = joined(before, idx, next, start, end, value);
        assert(inner <==> was[idx].0 <= value <= was[idx].1);
        if exists|k: int|
            idx <= k < next + 1 && (#[trigger] before[k]).0 <= value && value <= before[k].1 {
            let k = choose|k: int|
                idx <= k < next + 1 && (#[trigger] before[k]).0 <= value && value <= before[k].1;
            if k < next {
                assert(inner);
            } else {
                assert(before[idx].0 <= before[next].0) by {
                    assert(before[idx].1 + 1 < before[next].0);
                }
            }
        }
        if inner && !(start <= value <= end) {
            let k = choose|k: int|
                idx <= k < next && (#[trigger] before[k]).0 <= value && value <= before[k].1;
            assert(before[k].0 <= value);
        }
        if now[idx].0 <= value <= now[idx].1 && !inner {
            assert(before[next].0 <= value && value <= before[next].1);
        }
    }
}

proof fn lemma_merge_done(
    before: Seq<(u64, u64)>,
    now: Seq<(u64, u64)>,
    idx: int,
    next: int,
    start: u64,
    end: u64,
)
    requires
        canonical(before),
        merging(before, now, idx, next, start, end),
        idx + 1 < now.len() ==> now[idx].1 + 1 < now[idx + 1].0,
    ensures
        canonical(now),
        forall|value: u64| #[trigger]
            covered(now, value) <==> covered(before, value) || start <= value <= end,
{
    let gap = next - idx - 1;
    assert forall|i: int| 0 <= i < now.len() implies (#[trigger] now[i]).0 <= now[i].1 by {
        if i < idx {
            assert(now[i] == before[i]);
        } else if i > idx {
            assert(now[i] == before[i + gap]);
        }
    }
    assert forall|i: int, j: int| 0 <= i < j < now.len() implies (#[trigger] now[i]).1 + 1 < (
    #[trigger] now[j]).0 by {
        if j < idx {
            assert(before[i].1 + 1 < before[j].0);
        } else if j == idx {
            if i < idx - 1 {
                assert(before[i].1 + 1 < before[idx - 1].0);
                assert(before[idx - 1].0 <= before[idx - 1].1);
            }
        } else if i < idx {
            assert(before[i].1 + 1 < before[j + gap].0);
        } else if i == idx {
            if j > idx + 1 {
                assert(now[idx + 1] == before[next]);
                assert(before[next].1 + 1 < before[j + gap].0);
                assert(before[next].0 <= before[next].1);
            }
        } else {
            assert(before[i + gap].1 + 1 < before[j + gap].0);
        }
    }
    assert forall|value: u64| #[trigger]
        covered(now, value) <==> covered(before, value) || start <= value <= end by {
        if covered(now, value) {
            let k = choose|k: int|
                0 <= k < now.len() && (#[trigger] now[k]).0 <= value && value <= now[k].1;
            if k < idx {
                assert(before[k] == now[k]);
            } else if k > idx {
                assert(before[k + gap] == now[k]);
            } else {
                assert(joined(before, idx, next, start, end, value));
            }
        }
        if covered(before, value) {
            let k = choose|k: int|
                0 <= k < before.len() && (#[trigger] before[k]).0 <= value && value <= before[k].1;
            if k < idx {
                assert(now[k] == before[k]);
            } else if k < next {
                assert(joined(before, idx, next, start, end, value));
            } else {
                assert(now[k - gap] == before[k]);
            }
        }
        if start <= value <= end {
            assert(now[idx].0 <= value <= now[idx].1);
        }
    }
}

proof fn lemma_insert_apart(
    before: Seq<(u64, u64)>,
    now: Seq<(u64, u64)>,
    pos: int,
    start: u64,
    end: u64,
)
    requires
        canonical(before),
        start <= end,
        0 <= pos <= before.len(),
        now == before.insert(pos, (start, end)),
        pos > 0 ==> before[pos - 1].1 + 1 < start,
        pos < before.len() ==> end + 1 < before[pos].0,
    ensures
        canonical(now),
        forall|value: u64| #[trigger]
            covered(now, value) <==> covered(before, value) || start <= value <= end,
{
    assert forall|i: int| 0 <= i < now.len() implies (#[trigger] now[i]).0 <= now[i].1 by {
        if i < pos {
            assert(now[i] == before[i]);
        } else if i > pos {
            assert(now[i] == before[i - 1]);
        }
    }
    assert forall|i: int, j: int| 0 <= i < j < now.len() implies (#[trigger] now[i]).1 + 1 < (
    #[trigger] now[j]).0 by {
        let oi = if i < pos { i } else { i - 1 };
        let oj = if j < pos { j } else { j - 1 };
        if i != pos {
            assert(now[i] == before[oi]);
        }
        if j != pos {
            assert(now[j] == before[oj]);
        }
        if i != pos && j != pos {
            assert(before[oi].1 + 1 < before[oj].0);
        } else if j == pos && i < pos - 1 {
            assert(before[i].1 + 1 < before[pos - 1].0);
            assert(before[pos - 1].0 <= before[pos - 1].1);
        } else if i == pos && oj > pos {
            assert(before[pos].1 + 1 < before[oj].0);
            assert(before[pos].0 <= before[pos].1);
        }
    }
    assert forall|value: u64| #[trigger]
        covered(now, value) <==> covered(before, value) || start <= value <= end by {
        if covered(before, value) {
            let k = choose|k: int|
                0 <= k < before.len() && (#[trigger] before[k]).0 <= value && value <= before[k].1;
            if k < pos {
                assert(now[k] == before[k]);
            } else {
                assert(now[k + 1] == before[k]);
            }
        }
        if start <= value <= end {
            assert(now[pos] == (start, end));
        }
        if covered(now, value) {
            let k = choose|k: int|
                0 <= k < now.len() && (#[trigger] now[k]).0 <= value && value <= now[k].1;
            if k < pos {
                assert(before[k] == now[k]);
            } else if k > pos {
                assert(before[k - 1] == now[k]);
            }
        }
    }
}

/// Canonical ranges that cover one stretch are that stretch.
proof fn lemma_single(ranges: Seq<(u64, u64)>, start: u64, end: u64)
    requires
        canonical(ranges),
        start <= end,
        forall|value: u64| #[trigger] covered(ranges, value) <==> start <= value <= end,
    ensures
        ranges == seq![(start, end)],
{
    assert(covered(ranges, start));
    let k = choose|k: int|
        0 <= k < ranges.len() && (#[trigger] ranges[k]).0 <= start && start <= ranges[k].1;
    let hit = ranges[k];
    assert(covered(ranges, hit.0));
    assert(covered(ranges, hit.1));
    assert(hit.0 == start);
    if hit.1 < end {
        let above = (hit.1 + 1) as u64;
        assert(covered(ranges, above));
        let m = choose|m: int|
            0 <= m < ranges.len() && (#[trigger] ranges[m]).0 <= above && above <= ranges[m].1;
        if m > k {
            assert(ranges[k].1 + 1 < ranges[m].0);
        } else if m < k {
            assert(ranges[m].1 + 1 < ranges[k].0);
        }
        assert(false);
    }
    assert(hit.1 == end);
    if ranges.len() > 1 {
        let m: int = if k == 0 {
            1
        } else {
            0
        };
        let other = ranges[m];
        assert(other.0 <= other.1);
        assert(covered(ranges, other.0));
        if m > k {
            assert(ranges[k].1 + 1 < ranges[m].0);
        } else {
            assert(ranges[m].1 + 1 < ranges[k].0);
        }
        assert(false);
    }
    assert(ranges =~= seq![(start, end)]);
}


/// The largest number of the set less the smallest.
pub open spec fn span_of(ranges: Seq<(u64, u64)>) -> Option<u64> {
    if ranges.len() == 0 {
        None
    } else {
        Some((ranges.last().1 - ranges[0].0) as u64)
    }
}

/// More than half of the span is covered, or there is no span to cover.
pub open spec fn dense(ranges: Seq<(u64, u64)>) -> bool {
    match span_of(ranges) {
        Some(span) => span > 0 ==> total_length(ranges) * 2 > span,
        None => true,
    }
}

/// Canonical ranges cover no more than their span, so their length fits 65 bits.
pub proof fn lemma_total_length_bound(ranges: Seq<(u64, u64)>)
    requires
        canonical(ranges),
    ensures
        0 <= total_length(ranges) <= 0x1_0000_0000_0000_0000,
        ranges.len() > 0 ==> total_length(ranges) <= ranges.last().1 - ranges[0].0 + 1,
        ranges.len() > 0 ==> ranges[0].0 <= ranges.last().1,
    decreases ranges.len(),
{
    if ranges.len() > 0 {
        let rest = ranges.drop_last();
        lemma_total_length_bound(rest);
        if rest.len() > 0 {
            assert(rest.last() == ranges[ranges.len() - 2]);
            assert(ranges[ranges.len() - 2].1 + 1 < ranges[ranges.len() - 1].0);
        }
    }
}

impl RangeSet {
    /// Whether a number is in the set.
    pub fn contains(&self, value: u64) -> (r: bool)
        requires
            self.wf(),
        ensures
            r == self.has(value),
    {
        let mut lo: usize = 0;
        let mut hi: usize = small_len(&self.ranges);
        while lo < hi
            invariant
                lo <= hi <= self@.len(),
                self.wf(),
                forall|k: int| 0 <= k < lo ==> (#[trigger] self@[k]).1 < value,
                forall|k: int| hi <= k < self@.len() ==> (#[trigger] self@[k]).0 > value,
            decreases hi - lo,
        {
            let mid: usize = lo + (hi - lo) / 2;
            let range: (u64, u64) = small_get(&self.ranges, mid);
            assert(self@[mid as int] == range);
            if value < range.0 {
                assert forall|k: int| mid <= k < self@.len() implies (#[trigger] self@[k]).0
                    > value by {
                    if k > mid {
                        assert(self@[mid as int].1 + 1 < self@[k].0);
                        assert(self@[mid as int].0 <= self@[mid as int].1);
                    }
                }
                hi = mid;
            } else if value > range.1 {
                assert forall|k: int| 0 <= k < mid + 1 implies (#[trigger] self@[k]).1 < value by {
                    if k < mid {
                        assert(self@[k].1 + 1 < self@[mid as int].0);
                        assert(self@[mid as int].0 <= self@[mid as int].1);
                    }
                }
                lo = mid + 1;
            } else {
                return true;
            }
        }
        false
    }

    /// Whether the set has no numbers.
    pub fn is_empty(&self) -> (r: bool)
        ensures
            r == (self@.len() == 0),
    {
        small_len(&self.ranges) == 0
    }

    /// The number of ranges.
    pub fn len(&self) -> (r: usize)
        ensures
            r == self@.len(),
    {
        small_len(&self.ranges)
    }

    /// The ranges in order.
    pub fn iter(&self) -> (r: Vec<(u64, u64)>)
        ensures
            r@ == self@,
    {
        let mut out: Vec<(u64, u64)> = Vec::new();
        let mut i: usize = 0;
        while i < small_len(&self.ranges)
            invariant
                i <= self@.len(),
                out@ == self@.subrange(0, i as int),
            decreases self@.len() - i,
        {
            out.push(small_get(&self.ranges, i));
            i += 1;
            assert(self@.subrange(0, i as int) =~= self@.subrange(0, i - 1).push(self@[i - 1]));
        }
        assert(self@.subrange(0, i as int) =~= self@);
        out
    }

    /// How many numbers are in the set, in a type that holds every answer.
    pub fn wide_coverage(&self) -> (r: u128)
        requires
            self.wf(),
        ensures
            r == total_length(self@),
    {
        let mut total: u128 = 0;
        let mut i: usize = 0;
        while i < small_len(&self.ranges)
            invariant
                i <= self@.len(),
                self.wf(),
                total == total_length(self@.subrange(0, i as int)),
            decreases self@.len() - i,
        {
            let range: (u64, u64) = small_get(&self.ranges, i);
            let ghost some = self@.subrange(0, i as int);
            let ghost more = self@.subrange(0, i + 1);
            proof {
                assert(self@[i as int] == range);
                assert(more.drop_last() =~= some);
                assert(canonical(more));
                lemma_total_length_bound(more);
            }
            total = total + (range.1 - range.0) as u128 + 1;
            i += 1;
        }
        assert(self@.subrange(0, i as int) =~= self@);
        total
    }

    /// How many numbers are in the set.
    pub fn coverage(&self) -> (r: u64)
        requires
            self.wf(),
            total_length(self@) <= u64::MAX,
        ensures
            r == total_length(self@),
    {
        self.wide_coverage() as u64
    }

    /// The largest number less the smallest.
    pub fn span(&self) -> (r: Option<u64>)
        requires
            self.wf(),
        ensures
            r == span_of(self@),
    {
        let n: usize = small_len(&self.ranges);
        if n == 0 {
            return None;
        }
        proof {
            lemma_total_length_bound(self@);
        }
        Some(small_get(&self.ranges, n - 1).1 - small_get(&self.ranges, 0).0)
    }

    /// Whether more than half of the span is covered.
    pub fn is_dense(&self) -> (r: bool)
        requires
            self.wf(),
        ensures
            r == dense(self@),
    {
        proof {
            lemma_total_length_bound(self@);
        }
        match self.span() {
            Some(span) => span == 0 || self.wide_coverage() * 2 > span as u128,
            None => true,
        }
    }
}

impl Clone for RangeSet {
    fn clone(&self) -> (r: Self)
        ensures
            r@ == self@,
    {
        let mut out = RangeSet { ranges: small_new() };
        let mut i: usize = 0;
        while i < small_len(&self.ranges)
            invariant
                i <= self@.len(),
                out@ == self@.subrange(0, i as int),
            decreases self@.len() - i,
        {
            small_insert(&mut out.ranges, i, small_get(&self.ranges, i));
            i += 1;
            assert(self@.subrange(0, i as int) =~= self@.subrange(0, i - 1).insert(
                i - 1,
                self@[i - 1],
            ));
        }
        assert(self@.subrange(0, i as int) =~= self@);
        out
    }
}

impl Default for RangeSet {
    fn default() -> (r: Self)
        ensures
            r.wf(),
            r@ == Seq::<(u64, u64)>::empty(),
    {
        Self::new()
    }
}

/// A set of numbers has one representation: well-formed sets with the same members have
/// the same ranges.
pub proof fn law_same_members_same_ranges(a: Seq<(u64, u64)>, b: Seq<(u64, u64)>)
    requires
        canonical(a),
        canonical(b),
        forall|value: u64| #[trigger] covered(a, value) <==> covered(b, value),
    ensures
        a == b,
    decreases a.len(),
{
    if a.len() == 0 {
        if b.len() > 0 {
            assert(b[0].0 <= b[0].1);
            assert(covered(b, b[0].0));
            assert(covered(a, b[0].0));
        }
        assert(a =~= b);
    } else {
        assert(a[0].0 <= a[0].1);
        assert(covered(a, a[0].0));
        assert(covered(b, a[0].0));
        lemma_first_range(a, b);
        lemma_first_range(b, a);
        let ra = a.subrange(1, a.len() as int);
        let rb = b.subrange(1, b.len() as int);
        assert forall|value: u64| #[trigger] covered(ra, value) <==> covered(rb, value) by {
            lemma_rest(a, value);
            lemma_rest(b, value);
            assert(covered(a, value) <==> covered(b, value));
        }
        law_same_members_same_ranges(ra, rb);
        assert(a =~= seq![a[0]] + ra);
        assert(b =~= seq![b[0]] + rb);
    }
}

/// The numbers of all ranges but the first lie above the first.
proof fn lemma_rest(a: Seq<(u64, u64)>, value: u64)
    requires
        canonical(a),
        a.len() > 0,
    ensures
        covered(a.subrange(1, a.len() as int), value) <==> covered(a, value) && value > a[0].1,
{
    let rest = a.subrange(1, a.len() as int);
    if covered(rest, value) {
        let k = choose|k: int|
            0 <= k < rest.len() && (#[trigger] rest[k]).0 <= value && value <= rest[k].1;
        assert(a[k + 1] == rest[k]);
        assert(a[0].1 + 1 < a[k + 1].0);
    }
    if covered(a, value) && value > a[0].1 {
        let k = choose|k: int|
            0 <= k < a.len() && (#[trigger] a[k]).0 <= value && value <= a[k].1;
        assert(rest[k - 1] == a[k]);
    }
}

/// The first range reaches no further than that of a set with the same members.
proof fn lemma_first_range(a: Seq<(u64, u64)>, b: Seq<(u64, u64)>)
    requires
        canonical(a),
        canonical(b),
        a.len() > 0,
        b.len() > 0,
        forall|value: u64| #[trigger] covered(a, value) <==> covered(b, value),
    ensures
        b[0].0 <= a[0].0,
        a[0].0 == b[0].0 ==> a[0].1 <= b[0].1,
{
    assert(a[0].0 <= a[0].1);
    assert(covered(a, a[0].0));
    let k = choose|k: int|
        0 <= k < b.len() && (#[trigger] b[k]).0 <= a[0].0 && a[0].0 <= b[k].1;
    if k > 0 {
        assert(b[0].1 + 1 < b[k].0);
        assert(b[0].0 <= b[0].1);
    }
    if a[0].0 == b[0].0 && a[0].1 > b[0].1 {
        let above = (b[0].1 + 1) as u64;
        assert(b[0].0 <= b[0].1);
        assert(covered(a, above));
        let m = choose|m: int|
            0 <= m < b.len() && (#[trigger] b[m]).0 <= above && above <= b[m].1;
        if m > 0 {
            assert(b[0].1 + 1 < b[m].0);
        }
    }
}

/// A range holds the numbers from its start to its end, both included. Ranges hold together what
/// each of them holds.
pub proof fn law_ranges_hold_their_numbers(
    a: Seq<(u64, u64)>,
    b: Seq<(u64, u64)>,
    start: u64,
    end: u64,
    value: u64,
)
    ensures
        covered(seq![(start, end)], value) <==> start <= value <= end,
        covered(a + b, value) <==> covered(a, value) || covered(b, value),
        !covered(seq![], value),
{
    let one = seq![(start, end)];
    assert(one[0] == (start, end));
    let both = a + b;
    if covered(a, value) {
        let i = choose|i: int|
            0 <= i < a.len() && (#[trigger] a[i]).0 <= value && value <= a[i].1;
        assert(both[i] == a[i]);
    }
    if covered(b, value) {
        let i = choose|i: int|
            0 <= i < b.len() && (#[trigger] b[i]).0 <= value && value <= b[i].1;
        assert(both[a.len() + i] == b[i]);
    }
    if covered(both, value) {
        let i = choose|i: int|
            0 <= i < both.len() && (#[trigger] both[i]).0 <= value && value <= both[i].1;
        if i < a.len() {
            assert(both[i] == a[i]);
        } else {
            assert(both[i] == b[i - a.len()]);
        }
    }
}

/// The length of ranges is the sum of their lengths, and a range from `start` to `end` has
/// `end - start + 1` numbers.
pub proof fn law_lengths_add_up(a: Seq<(u64, u64)>, b: Seq<(u64, u64)>, start: u64, end: u64)
    ensures
        total_length(seq![]) == 0,
        total_length(seq![(start, end)]) == end - start + 1,
        total_length(a + b) == total_length(a) + total_length(b),
    decreases b.len(),
{
    let one = seq![(start, end)];
    assert(one.drop_last() =~= Seq::<(u64, u64)>::empty());
    if b.len() == 0 {
        assert(a + b =~= a);
    } else {
        law_lengths_add_up(a, b.drop_last(), start, end);
        assert((a + b).drop_last() =~= a + b.drop_last());
        assert((a + b).last() == b.last());
    }
}

/// The numbers of a set lie between its ends, which are its first and its last number.
pub proof fn law_span_reaches_from_first_to_last(ranges: Seq<(u64, u64)>, value: u64)
    requires
        canonical(ranges),
        ranges.len() > 0,
    ensures
        covered(ranges, ranges[0].0),
        covered(ranges, ranges.last().1),
        covered(ranges, value) ==> ranges[0].0 <= value <= ranges.last().1,
        span_of(ranges) == Some((ranges.last().1 - ranges[0].0) as u64),
        ranges[0].0 <= ranges.last().1,
        dense(ranges) <==> ranges[0].0 == ranges.last().1 || total_length(ranges) * 2
            > ranges.last().1 - ranges[0].0,
        span_of(seq![]) is None,
{
    let last = ranges.len() - 1;
    assert(ranges[0].0 <= ranges[0].1);
    assert(ranges[last].0 <= ranges[last].1);
    if last > 0 {
        assert(ranges[0].1 + 1 < ranges[last].0);
    }
    if covered(ranges, value) {
        let k = choose|k: int|
            0 <= k < ranges.len() && (#[trigger] ranges[k]).0 <= value && value <= ranges[k].1;
        if k > 0 {
            assert(ranges[0].1 + 1 < ranges[k].0);
        }
        if k < last {
            assert(ranges[k].1 + 1 < ranges[last].0);
        }
    }
}

/// Between two ranges of a set, and next to each of them, lie numbers that the set does not hold.
pub proof fn law_ranges_of_a_set_do_not_touch(ranges: Seq<(u64, u64)>, i: int)
    requires
        canonical(ranges),
        0 <= i < ranges.len(),
    ensures
        ranges[i].0 > 0 ==> !covered(ranges, (ranges[i].0 - 1) as u64),
        ranges[i].1 < u64::MAX ==> !covered(ranges, (ranges[i].1 + 1) as u64),
        i > 0 ==> ranges[i - 1].1 < ranges[i].0 - 1,
{
    assert(ranges[i].0 <= ranges[i].1);
    if ranges[i].0 > 0 && covered(ranges, (ranges[i].0 - 1) as u64) {
        let value = (ranges[i].0 - 1) as u64;
        let k = choose|k: int|
            0 <= k < ranges.len() && (#[trigger] ranges[k]).0 <= value && value <= ranges[k].1;
        if k < i {
            assert(ranges[k].1 + 1 < ranges[i].0);
        } else if i < k {
            assert(ranges[i].1 + 1 < ranges[k].0);
        }
    }
    if ranges[i].1 < u64::MAX && covered(ranges, (ranges[i].1 + 1) as u64) {
        let value = (ranges[i].1 + 1) as u64;
        let k = choose|k: int|
            0 <= k < ranges.len() && (#[trigger] ranges[k]).0 <= value && value <= ranges[k].1;
        if k < i {
            assert(ranges[k].1 + 1 < ranges[i].0);
        } else if i < k {
            assert(ranges[i].1 + 1 < ranges[k].0);
        }
    }
    if i > 0 {
        assert(ranges[i - 1].1 + 1 < ranges[i].0);
    }
}

} // verus!
