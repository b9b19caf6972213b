//! The settings of the filter pipeline.

use vstd::prelude::*;
use crate::filter::topn::TopNConfig;

verus! {

/// The filter settings as they are given on the command line.
#[derive(Clone, Copy, Debug, PartialEq, Eq, Structural)]
pub struct FilterArgs {
    pub track_ext_filt: bool,
    pub track_filt: bool,
    pub object_filt: bool,
    pub filter_stats: bool,
    /// In seconds.
    pub filter_stats_interval: u64,
    pub topn_enabled: bool,
    pub topn_count: usize,
    pub topn_metric_type: u64,
    pub topn_decay_ms: u64,
    pub topn_recompute_ms: u64,
}

impl Default for FilterArgs {
    fn default() -> (r: Self)
        ensures
            r == (FilterArgs {
                track_ext_filt: true,
                track_filt: true,
                object_filt: true,
                filter_stats: false,
                filter_stats_interval: 60,
                topn_enabled: false,
                topn_count: 3,
                topn_metric_type: 0x100,
                topn_decay_ms: 2000,
                topn_recompute_ms: 500,
            }),
    {
        FilterArgs {
            track_ext_filt: true,
            track_filt: true,
            object_filt: true,
            filter_stats: false,
            filter_stats_interval: 60,
            topn_enabled: false,
            topn_count: 3,
            topn_metric_type: 0x100,
            topn_decay_ms: 2000,
            topn_recompute_ms: 500,
        }
    }
}

impl FilterArgs {
    /// The top-N settings that the arguments stand for.
    pub open spec fn topn(self) -> TopNConfig {
        TopNConfig {
            n: self.topn_count,
            metric_extension_type: self.topn_metric_type,
            decay_after_ms: self.topn_decay_ms,
            recompute_interval_ms: self.topn_recompute_ms,
            higher_is_better: true,
        }
    }

    /// The pipeline settings that the arguments stand for.
    pub fn to_config(&self) -> (r: FilterConfig)
        ensures
            r == (FilterConfig {
                track_ext_enabled: self.track_ext_filt,
                track_enabled: self.track_filt,
                object_enabled: self.object_filt,
                stats_enabled: self.filter_stats,
                stats_interval_secs: self.filter_stats_interval,
                topn_enabled: self.topn_enabled,
                topn_config: self.topn(),
            }),
    {
        FilterConfig {
            track_ext_enabled: self.track_ext_filt,
            track_enabled: self.track_filt,
            object_enabled: self.object_filt,
            stats_enabled: self.filter_stats,
            stats_interval_secs: self.filter_stats_interval,
            topn_enabled: self.topn_enabled,
            topn_config: self.to_topn_config(),
        }
    }

    /// The top-N settings that the arguments stand for.
    pub fn to_topn_config(&self) -> (r: TopNConfig)
        ensures
            r == self.topn(),
    {
        TopNConfig {
            n: self.topn_count,
            metric_extension_type: self.topn_metric_type,
            decay_after_ms: self.topn_decay_ms,
            recompute_interval_ms: self.topn_recompute_ms,
            higher_is_better: true,
        }
    }
}

/// The settings of the filter pipeline.
#[derive(Clone, Copy, Debug, PartialEq, Eq, Structural)]
pub struct FilterConfig {
    pub track_ext_enabled: bool,
    pub track_enabled: bool,
    pub object_enabled: bool,
    pub stats_enabled: bool,
    pub stats_interval_secs: u64,
    pub topn_enabled: bool,
    pub topn_config: TopNConfig,
}

impl FilterConfig {
    /// These stages on, the others off.
    pub open spec fn stages(track_ext: bool, track: bool, object: bool) -> FilterConfig {
        FilterConfig {
            track_ext_enabled: track_ext,
            track_enabled: track,
            object_enabled: object,
            stats_enabled: false,
            stats_interval_secs: 60,
            topn_enabled: false,
            topn_config: TopNConfig::usual(3),
        }
    }

    /// All filters on.
    pub fn all_enabled() -> (r: Self)
        ensures
            r == (FilterConfig { topn_enabled: true, ..FilterConfig::stages(true, true, true) }),
            r.track_ext_enabled && r.track_enabled && r.object_enabled && r.topn_enabled,
    {
        FilterConfig { topn_enabled: true, ..Self::default() }
    }

    /// All filters off.
    pub fn all_disabled() -> (r: Self)
        ensures
            r == FilterConfig::stages(false, false, false),
    {
        FilterConfig {
            track_ext_enabled: false,
            track_enabled: false,
            object_enabled: false,
            ..Self::default()
        }
    }

    /// The object filter on, the others off.
    pub fn object_only() -> (r: Self)
        ensures
            r == FilterConfig::stages(false, false, true),
    {
        FilterConfig { track_ext_enabled: false, track_enabled: false, ..Self::default() }
    }

    /// Whether some filter is on.
    pub fn any_enabled(&self) -> (r: bool)
        ensures
            r == (self.track_ext_enabled || self.track_enabled || self.object_enabled
                || self.topn_enabled),
    {
        self.track_ext_enabled || self.track_enabled || self.object_enabled || self.topn_enabled
    }

    /// The settings with statistics on.
    pub fn with_stats(self) -> (r: Self)
        ensures
            r == (FilterConfig { stats_enabled: true, ..self }),
    {
        FilterConfig { stats_enabled: true, ..self }
    }

    /// The settings with another interval between reports.
    pub fn with_stats_interval(self, secs: u64) -> (r: Self)
        ensures
            r == (FilterConfig { stats_interval_secs: secs, ..self }),
    {
        FilterConfig { stats_interval_secs: secs, ..self }
    }

    /// The settings with the top-N filter on, for so many tracks.
    pub fn with_topn(self, n: usize) -> (r: Self)
        ensures
            r == (FilterConfig {
                topn_enabled: true,
                topn_config: TopNConfig { n, ..self.topn_config },
                ..self
            }),
    {
        FilterConfig {
            topn_enabled: true,
            topn_config: TopNConfig { n, ..self.topn_config },
            ..self
        }
    }

    /// The settings with the top-N filter on, with settings of its own.
    pub fn with_topn_config(self, config: TopNConfig) -> (r: Self)
        ensures
            r == (FilterConfig { topn_enabled: true, topn_config: config, ..self }),
    {
        FilterConfig { topn_enabled: true, topn_config: config, ..self }
    }
}

impl Default for FilterConfig {
    /// All filters on but the top-N one.
    fn default() -> (r: Self)
        ensures
            r == FilterConfig::stages(true, true, true),
    {
        FilterConfig {
            track_ext_enabled: true,
            track_enabled: true,
            object_enabled: true,
            stats_enabled: false,
            stats_interval_secs: 60,
            topn_enabled: false,
            topn_config: TopNConfig::top(3),
        }
    }
}

/// The settings of the ranking are those that the arguments give, and more is better.
pub proof fn law_ranking_is_set_by_the_arguments(args: FilterArgs)
    ensures
        args.topn().n == args.topn_count,
        args.topn().metric_extension_type == args.topn_metric_type,
        args.topn().decay_after_ms == args.topn_decay_ms,
        args.topn().recompute_interval_ms == args.topn_recompute_ms,
        args.topn().higher_is_better,
{
}

/// Each stage is on as it is asked for, and nothing else is.
pub proof fn law_stages_are_on_as_asked_for(track_ext: bool, track: bool, object: bool)
    ensures
        ({
            let config = FilterConfig::stages(track_ext, track, object);
            &&& config.track_ext_enabled == track_ext
            &&& config.track_enabled == track
            &&& config.object_enabled == object
            &&& !config.stats_enabled && !config.topn_enabled
        }),
{
}

} // verus!
