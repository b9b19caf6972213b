//! Counts of what a filter stage let pass and held back.

use vstd::prelude::*;

verus! {

/// Counters of one filter stage. They count only while collection is on, and wrap around
/// like the machine integers they are.
#[derive(Clone, Copy, Debug, PartialEq, Eq, Structural)]
pub struct FilterStats {
    pub passed: u64,
    pub filtered: u64,
    /// Processing time in nanoseconds.
    pub total_ns: u64,
    pub timing_samples: u64,
    pub peak_memory_bytes: u64,
    pub enabled: bool,
}

/// The counters at one point in time.
#[derive(Clone, Copy, Debug, PartialEq, Eq, Structural)]
pub struct FilterStatsSnapshot {
    pub passed: u64,
    pub filtered: u64,
    pub total_ns: u64,
    pub timing_samples: u64,
    pub peak_memory_bytes: u64,
}

/// The sum of two counters, wrapped around at the end of the range.
pub open spec fn wrapping_sum(a: u64, b: u64) -> u64 {
    if a + b > u64::MAX {
        (a + b - 0x1_0000_0000_0000_0000) as u64
    } else {
        (a + b) as u64
    }
}

impl FilterStats {
    /// All counters at zero.
    pub open spec fn zero(enabled: bool) -> FilterStats {
        FilterStats {
            passed: 0,
            filtered: 0,
            total_ns: 0,
            timing_samples: 0,
            peak_memory_bytes: 0,
            enabled,
        }
    }

    /// The counters once one more item was counted.
    pub open spec fn counted(self, passed: bool) -> FilterStats {
        if !self.enabled {
            self
        } else if passed {
            FilterStats { passed: wrapping_sum(self.passed, 1), ..self }
        } else {
            FilterStats { filtered: wrapping_sum(self.filtered, 1), ..self }
        }
    }

    /// The counters once a stretch of processing time was added.
    pub open spec fn timed(self, ns: u64) -> FilterStats {
        if !self.enabled {
            self
        } else {
            FilterStats {
                total_ns: wrapping_sum(self.total_ns, ns),
                timing_samples: wrapping_sum(self.timing_samples, 1),
                ..self
            }
        }
    }

    /// The counters at one point in time.
    pub open spec fn now(self) -> FilterStatsSnapshot {
        FilterStatsSnapshot {
            passed: self.passed,
            filtered: self.filtered,
            total_ns: self.total_ns,
            timing_samples: self.timing_samples,
            peak_memory_bytes: self.peak_memory_bytes,
        }
    }

    /// Counters with collection off.
    pub fn new() -> (r: Self)
        ensures
            r == FilterStats::zero(false),
    {
        FilterStats {
            passed: 0,
            filtered: 0,
            total_ns: 0,
            timing_samples: 0,
            peak_memory_bytes: 0,
            enabled: false,
        }
    }

    /// Counters with collection on.
    pub fn enabled() -> (r: Self)
        ensures
            r == FilterStats::zero(true),
    {
        FilterStats {
            passed: 0,
            filtered: 0,
            total_ns: 0,
            timing_samples: 0,
            peak_memory_bytes: 0,
            enabled: true,
        }
    }

    /// Turns collection on.
    pub fn enable(&mut self)
        ensures
            *final(self) == (FilterStats { enabled: true, ..*old(self) }),
    {
        self.enabled = true;
    }

    /// Turns collection off.
    pub fn disable(&mut self)
        ensures
            *final(self) == (FilterStats { enabled: false, ..*old(self) }),
    {
        self.enabled = false;
    }

    /// Whether collection is on.
    pub fn is_enabled(&self) -> (r: bool)
        ensures
            r == self.enabled,
    {
        self.enabled
    }

    /// Counts an item that passed.
    pub fn record_passed(&mut self)
        ensures
            *final(self) == old(self).counted(true),
    {
        if self.enabled {
            self.passed = self.passed.wrapping_add(1);
        }
    }

    /// Counts an item that was held back.
    pub fn record_filtered(&mut self)
        ensures
            *final(self) == old(self).counted(false),
    {
        if self.enabled {
            self.filtered = self.filtered.wrapping_add(1);
        }
    }

    /// Counts an item by its result.
    pub fn record(&mut self, passed: bool)
        ensures
            *final(self) == old(self).counted(passed),
    {
        if passed {
            self.record_passed();
        } else {
            self.record_filtered();
        }
    }

    /// Adds the processing time between two points of a nanosecond clock.
    pub fn record_timing(&mut self, start_ns: u64, now_ns: u64)
        ensures
            *final(self) == old(self).timed(
                if now_ns > start_ns {
                    (now_ns - start_ns) as u64
                } else {
                    0
                },
            ),
    {
        self.record_timing_ns(now_ns.saturating_sub(start_ns));
    }

    /// Adds a stretch of processing time.
    pub fn record_timing_ns(&mut self, ns: u64)
        ensures
            *final(self) == old(self).timed(ns),
    {
        if self.enabled {
            self.total_ns = self.total_ns.wrapping_add(ns);
            self.timing_samples = self.timing_samples.wrapping_add(1);
        }
    }

    /// Takes in a memory estimate. The largest one is kept.
    pub fn update_memory(&mut self, bytes: u64)
        ensures
            *final(self) == (FilterStats {
                peak_memory_bytes: if old(self).enabled && bytes > old(self).peak_memory_bytes {
                    bytes
                } else {
                    old(self).peak_memory_bytes
                },
                ..*old(self)
            }),
    {
        if self.enabled && bytes > self.peak_memory_bytes {
            self.peak_memory_bytes = bytes;
        }
    }

    /// The counters as they are.
    pub fn snapshot(&self) -> (r: FilterStatsSnapshot)
        ensures
            r == self.now(),
    {
        FilterStatsSnapshot {
            passed: self.passed,
            filtered: self.filtered,
            total_ns: self.total_ns,
            timing_samples: self.timing_samples,
            peak_memory_bytes: self.peak_memory_bytes,
        }
    }

    /// Sets all counters to zero. Collection stays on or off.
    pub fn reset(&mut self)
        ensures
            *final(self) == FilterStats::zero(old(self).enabled),
    {
        self.passed = 0;
        self.filtered = 0;
        self.total_ns = 0;
        self.timing_samples = 0;
        self.peak_memory_bytes = 0;
    }
}

impl Default for FilterStats {
    fn default() -> (r: Self)
        ensures
            r == FilterStats::zero(false),
    {
        Self::new()
    }
}

impl Default for FilterStatsSnapshot {
    fn default() -> (r: Self)
        ensures
            r == FilterStats::zero(false).now(),
    {
        FilterStatsSnapshot {
            passed: 0,
            filtered: 0,
            total_ns: 0,
            timing_samples: 0,
            peak_memory_bytes: 0,
        }
    }
}

impl FilterStatsSnapshot {
    /// The number of items.
    pub fn total(&self) -> (r: u64)
        requires
            self.passed + self.filtered <= u64::MAX,
        ensures
            r == self.passed + self.filtered,
    {
        self.passed + self.filtered
    }

    /// The counters of two snapshots can be added up.
    pub open spec fn adds_up(self, other: FilterStatsSnapshot) -> bool {
        &&& self.passed + other.passed <= u64::MAX
        &&& self.filtered + other.filtered <= u64::MAX
        &&& self.total_ns + other.total_ns <= u64::MAX
        &&& self.timing_samples + other.timing_samples <= u64::MAX
    }

    /// Both snapshots taken together.
    pub open spec fn merged(self, other: FilterStatsSnapshot) -> FilterStatsSnapshot {
        FilterStatsSnapshot {
            passed: (self.passed + other.passed) as u64,
            filtered: (self.filtered + other.filtered) as u64,
            total_ns: (self.total_ns + other.total_ns) as u64,
            timing_samples: (self.timing_samples + other.timing_samples) as u64,
            peak_memory_bytes: if self.peak_memory_bytes < other.peak_memory_bytes {
                other.peak_memory_bytes
            } else {
                self.peak_memory_bytes
            },
        }
    }

    /// Adds another snapshot to this one.
    pub fn merge(&mut self, other: &FilterStatsSnapshot)
        requires
            old(self).adds_up(*other),
        ensures
            *final(self) == old(self).merged(*other),
    {
        self.passed = self.passed + other.passed;
        self.filtered = self.filtered + other.filtered;
        self.total_ns = self.total_ns + other.total_ns;
        self.timing_samples = self.timing_samples + other.timing_samples;
        if self.peak_memory_bytes < other.peak_memory_bytes {
            self.peak_memory_bytes = other.peak_memory_bytes;
        }
    }
}

/// While collection is off nothing changes.
pub proof fn law_disabled_stats_do_not_count(stats: FilterStats, passed: bool, ns: u64)
    requires
        !stats.enabled,
    ensures
        stats.counted(passed) == stats,
        stats.timed(ns) == stats,
{
}

/// It does not matter in which order two snapshots are merged.
pub proof fn law_merge_is_commutative(a: FilterStatsSnapshot, b: FilterStatsSnapshot)
    ensures
        a.merged(b) == b.merged(a),
        a.adds_up(b) == b.adds_up(a),
{
}

/// A decision is counted once, as passed or as filtered, by counters that are on. A stretch of time
/// is added to the total, and counts as one sample.
pub proof fn law_decision_counts_once(stats: FilterStats, passed: bool, ns: u64)
    requires
        stats.enabled,
        stats.passed < u64::MAX,
        stats.filtered < u64::MAX,
        stats.total_ns + ns <= u64::MAX,
        stats.timing_samples < u64::MAX,
    ensures
        stats.counted(passed).passed == stats.passed + if passed {
            1int
        } else {
            0
        },
        stats.counted(passed).filtered == stats.filtered + if passed {
            0int
        } else {
            1
        },
        stats.counted(passed).total_ns == stats.total_ns,
        stats.counted(passed).enabled,
        stats.timed(ns).total_ns == stats.total_ns + ns,
        stats.timed(ns).timing_samples == stats.timing_samples + 1,
        stats.timed(ns).passed == stats.passed,
        stats.timed(ns).filtered == stats.filtered,
{
}

/// Counters go around: after the largest number comes zero.
pub proof fn law_counters_go_around(a: u64, b: u64)
    ensures
        (a + b - wrapping_sum(a, b)) % 0x1_0000_0000_0000_0000 == 0,
        wrapping_sum(u64::MAX, 1) == 0,
        a + b <= u64::MAX ==> wrapping_sum(a, b) == a + b,
{
}

/// Two snapshots together have the sums of their counters and the higher of their peaks.
pub proof fn law_merged_counters_add_up(a: FilterStatsSnapshot, b: FilterStatsSnapshot)
    requires
        a.adds_up(b),
    ensures
        a.merged(b).passed == a.passed + b.passed,
        a.merged(b).filtered == a.filtered + b.filtered,
        a.merged(b).total_ns == a.total_ns + b.total_ns,
        a.merged(b).timing_samples == a.timing_samples + b.timing_samples,
        a.merged(b).peak_memory_bytes >= a.peak_memory_bytes,
        a.merged(b).peak_memory_bytes >= b.peak_memory_bytes,
        a.merged(b).peak_memory_bytes == a.peak_memory_bytes || a.merged(b).peak_memory_bytes
            == b.peak_memory_bytes,
{
}

/// A snapshot holds the counters as they are.
pub proof fn law_snapshot_holds_the_counters(stats: FilterStats)
    ensures
        stats.now().passed == stats.passed,
        stats.now().filtered == stats.filtered,
        stats.now().total_ns == stats.total_ns,
        stats.now().timing_samples == stats.timing_samples,
        stats.now().peak_memory_bytes == stats.peak_memory_bytes,
        FilterStats::zero(true).now().passed == 0,
        FilterStats::zero(true).now().filtered == 0,
        FilterStats::zero(true).enabled,
        !FilterStats::zero(false).enabled,
{
}

} // verus!
