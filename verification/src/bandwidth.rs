//! Bandwidth estimates for track selection.
//!
//! Two sources are combined: what the QUIC congestion controller reports, and the
//! throughput measured from the bytes that were sent. Times are milliseconds of the
//! caller's clock. The smoothing of the measured throughput is done by the caller, who is
//! handed each sample that falls due and reports the smoothed value back.

use std::collections::HashMap;
use vstd::prelude::*;

verus! {

broadcast use vstd::std_specs::hash::group_hash_axioms;

/// Where a bandwidth estimate comes from.
#[derive(Clone, Copy, Debug, PartialEq, Eq, Structural)]
pub enum BandwidthSource {
    /// The QUIC congestion controller.
    QuicCongestion,
    /// Measured throughput.
    ThroughputMeasurement,
    /// Both of them, or a value that was set.
    Combined,
    /// The initial value.
    Default,
}

/// A bandwidth estimate for one subscriber.
#[derive(Clone, Copy, Debug, PartialEq, Eq, Structural)]
pub struct BandwidthEstimate {
    pub bandwidth_kbps: u64,
    pub source: BandwidthSource,
    pub last_update_ms: u64,
}

/// Configuration of a [`BandwidthEstimator`].
#[derive(Clone, Copy, Debug, PartialEq, Eq, Structural)]
pub struct BandwidthEstimatorConfig {
    /// How long a throughput sample is kept.
    pub measurement_window_ms: u64,
    /// Least time between two throughput samples.
    pub sample_interval_ms: u64,
    /// The estimate where nothing was measured.
    pub default_bandwidth_kbps: u64,
    /// Least time between two updates of an estimate.
    pub min_update_interval_ms: u64,
}

impl BandwidthEstimatorConfig {
    pub open spec fn standard() -> BandwidthEstimatorConfig {
        BandwidthEstimatorConfig {
            measurement_window_ms: 5000,
            sample_interval_ms: 100,
            default_bandwidth_kbps: 0,
            min_update_interval_ms: 100,
        }
    }
}

impl Default for BandwidthEstimatorConfig {
    fn default() -> (r: Self)
        ensures
            r == BandwidthEstimatorConfig::standard(),
    {
        BandwidthEstimatorConfig {
            measurement_window_ms: 5000,
            sample_interval_ms: 100,
            default_bandwidth_kbps: 0,
            min_update_interval_ms: 100,
        }
    }
}

/// Bytes sent over a stretch of time, to be turned into a throughput.
#[derive(Clone, Copy, Debug, PartialEq, Eq, Structural)]
pub struct ThroughputSample {
    pub bytes: u64,
    pub elapsed_ms: u64,
}

/// Throughput measurement of one subscriber.
struct ThroughputState {
    /// When each recent sample was taken, and its bytes.
    samples: Vec<(u64, u64)>,
    current_bytes: u64,
    last_sample_ms: u64,
    /// The smoothed throughput, once it was reported.
    smoothed_kbps: Option<u64>,
}

/// The contents of a subscriber's throughput measurement.
#[verifier::ext_equal]
pub struct ThroughputView {
    pub samples: Seq<(u64, u64)>,
    pub current_bytes: u64,
    pub last_sample_ms: u64,
    pub smoothed_kbps: Option<u64>,
}

/// The samples among the first `n` that lie within the window before `now_ms`.
pub open spec fn recent_samples(
    samples: Seq<(u64, u64)>,
    now_ms: u64,
    window_ms: u64,
    n: nat,
) -> Seq<(u64, u64)>
    decreases n,
{
    if n == 0 {
        Seq::empty()
    } else {
        let before = recent_samples(samples, now_ms, window_ms, (n - 1) as nat);
        if samples[n - 1].0 + window_ms > now_ms {
            before.push(samples[n - 1])
        } else {
            before
        }
    }
}

pub open spec fn saturating_sum(a: u64, b: u64) -> u64 {
    if a + b > u64::MAX {
        u64::MAX
    } else {
        (a + b) as u64
    }
}

impl ThroughputView {
    pub open spec fn fresh(now_ms: u64) -> ThroughputView {
        ThroughputView {
            samples: Seq::empty(),
            current_bytes: 0,
            last_sample_ms: now_ms,
            smoothed_kbps: None,
        }
    }

    /// A sample falls due: some time, and at least the sample interval, has passed.
    pub open spec fn sample_due(self, config: BandwidthEstimatorConfig, now_ms: u64) -> bool {
        now_ms > self.last_sample_ms && now_ms - self.last_sample_ms >= config.sample_interval_ms
    }

    /// The measurement once `bytes` more were sent.
    pub open spec fn recorded(
        self,
        bytes: u64,
        config: BandwidthEstimatorConfig,
        now_ms: u64,
    ) -> ThroughputView {
        let total = saturating_sum(self.current_bytes, bytes);
        if self.sample_due(config, now_ms) {
            let samples = self.samples.push((now_ms, total));
            ThroughputView {
                samples: recent_samples(
                    samples,
                    now_ms,
                    config.measurement_window_ms,
                    samples.len(),
                ),
                current_bytes: 0,
                last_sample_ms: now_ms,
                smoothed_kbps: self.smoothed_kbps,
            }
        } else {
            ThroughputView { current_bytes: total, ..self }
        }
    }
}

impl View for ThroughputState {
    type V = ThroughputView;

    closed spec fn view(&self) -> ThroughputView {
        ThroughputView {
            samples: self.samples@,
            current_bytes: self.current_bytes,
            last_sample_ms: self.last_sample_ms,
            smoothed_kbps: self.smoothed_kbps,
        }
    }
}

impl ThroughputState {
    fn new(now_ms: u64) -> (r: Self)
        ensures
            r@ == ThroughputView::fresh(now_ms),
    {
        ThroughputState {
            samples: Vec::new(),
            current_bytes: 0,
            last_sample_ms: now_ms,
            smoothed_kbps: None,
        }
    }

    /// Counts bytes that were sent. Hands out the sample if one falls due.
    fn record_bytes(
        &mut self,
        bytes: u64,
        config: &BandwidthEstimatorConfig,
        now_ms: u64,
    ) -> (r: Option<ThroughputSample>)
        ensures
            final(self)@ == old(self)@.recorded(bytes, *config, now_ms),
            r == if old(self)@.sample_due(*config, now_ms) {
                Some(
                    ThroughputSample {
                        bytes: saturating_sum(old(self)@.current_bytes, bytes),
                        elapsed_ms: (now_ms - old(self)@.last_sample_ms) as u64,
                    },
                )
            } else {
                None
            },
    {
        let ghost start = self@;
        self.current_bytes = self.current_bytes.saturating_add(bytes);
        if now_ms > self.last_sample_ms && now_ms - self.last_sample_ms
            >= config.sample_interval_ms {
            let sample = ThroughputSample {
                bytes: self.current_bytes,
                elapsed_ms: now_ms - self.last_sample_ms,
            };
            self.samples.push((now_ms, self.current_bytes));
            self.current_bytes = 0;
            self.last_sample_ms = now_ms;
            let ghost samples = self.samples@;
            let mut kept: Vec<(u64, u64)> = Vec::new();
            let mut i: usize = 0;
            while i < self.samples.len()
                invariant
                    i <= self.samples@.len(),
                    self.samples@ == samples,
                    self.current_bytes == 0,
                    self.last_sample_ms == now_ms,
                    self.smoothed_kbps == start.smoothed_kbps,
                    kept@ == recent_samples(
                        samples,
                        now_ms,
                        config.measurement_window_ms,
                        i as nat,
                    ),
                decreases self.samples@.len() - i,
            {
                let s = self.samples[i];
                if s.0 > now_ms || now_ms - s.0 < config.measurement_window_ms {
                    kept.push(s);
                }
                i += 1;
            }
            self.samples = kept;
            Some(sample)
        } else {
            None
        }
    }
}

/// What is known of one subscriber's bandwidth.
struct SubscriberBandwidthState {
    quic_estimate_kbps: Option<u64>,
    throughput: ThroughputState,
    estimate: BandwidthEstimate,
}

/// The contents of one subscriber's state.
#[verifier::ext_equal]
pub struct SubscriberBandwidthView {
    pub quic_estimate_kbps: Option<u64>,
    pub throughput: ThroughputView,
    pub estimate: BandwidthEstimate,
}

/// The estimate that both sources make together: the lower one of two.
pub open spec fn combined(quic: Option<u64>, throughput: Option<u64>) -> Option<
    (u64, BandwidthSource),
> {
    match (quic, throughput) {
        (Some(q), Some(t)) => Some(
            (if q < t { q } else { t }, BandwidthSource::Combined),
        ),
        (Some(q), None) => Some((q, BandwidthSource::QuicCongestion)),
        (None, Some(t)) => Some((t, BandwidthSource::ThroughputMeasurement)),
        (None, None) => None,
    }
}

impl SubscriberBandwidthView {
    pub open spec fn fresh(default_kbps: u64, now_ms: u64) -> SubscriberBandwidthView {
        SubscriberBandwidthView {
            quic_estimate_kbps: None,
            throughput: ThroughputView::fresh(now_ms),
            estimate: BandwidthEstimate {
                bandwidth_kbps: default_kbps,
                source: BandwidthSource::Default,
                last_update_ms: now_ms,
            },
        }
    }

    /// The time since the last update of the estimate, or 0 if the clock went back.
    pub open spec fn estimate_age(self, now_ms: u64) -> int {
        if now_ms > self.estimate.last_update_ms {
            now_ms - self.estimate.last_update_ms
        } else {
            0
        }
    }

    /// The state with its estimate brought up to date, unless that was done too recently
    /// or no source has reported.
    pub open spec fn refreshed(
        self,
        config: BandwidthEstimatorConfig,
        now_ms: u64,
    ) -> SubscriberBandwidthView {
        if self.estimate_age(now_ms) < config.min_update_interval_ms {
            self
        } else {
            match combined(self.quic_estimate_kbps, self.throughput.smoothed_kbps) {
                Some((bandwidth_kbps, source)) => SubscriberBandwidthView {
                    estimate: BandwidthEstimate { bandwidth_kbps, source, last_update_ms: now_ms },
                    ..self
                },
                None => self,
            }
        }
    }

    /// The state once the QUIC estimate is `kbps`.
    pub open spec fn with_quic(
        self,
        kbps: u64,
        config: BandwidthEstimatorConfig,
        now_ms: u64,
    ) -> SubscriberBandwidthView {
        SubscriberBandwidthView { quic_estimate_kbps: Some(kbps), ..self }.refreshed(
            config,
            now_ms,
        )
    }

    /// The state once the smoothed throughput is `kbps`.
    pub open spec fn with_throughput(
        self,
        kbps: u64,
        config: BandwidthEstimatorConfig,
        now_ms: u64,
    ) -> SubscriberBandwidthView {
        SubscriberBandwidthView {
            throughput: ThroughputView { smoothed_kbps: Some(kbps), ..self.throughput },
            ..self
        }.refreshed(config, now_ms)
    }
}

impl View for SubscriberBandwidthState {
    type V = SubscriberBandwidthView;

    closed spec fn view(&self) -> SubscriberBandwidthView {
        SubscriberBandwidthView {
            quic_estimate_kbps: self.quic_estimate_kbps,
            throughput: self.throughput@,
            estimate: self.estimate,
        }
    }
}

impl SubscriberBandwidthState {
    fn new(default_kbps: u64, now_ms: u64) -> (r: Self)
        ensures
            r@ == SubscriberBandwidthView::fresh(default_kbps, now_ms),
    {
        SubscriberBandwidthState {
            quic_estimate_kbps: None,
            throughput: ThroughputState::new(now_ms),
            estimate: BandwidthEstimate {
                bandwidth_kbps: default_kbps,
                source: BandwidthSource::Default,
                last_update_ms: now_ms,
            },
        }
    }

    fn refresh(&mut self, config: &BandwidthEstimatorConfig, now_ms: u64)
        ensures
            final(self)@ == old(self)@.refreshed(*config, now_ms),
    {
        let age: u64 = if now_ms > self.estimate.last_update_ms {
            now_ms - self.estimate.last_update_ms
        } else {
            0
        };
        if age < config.min_update_interval_ms {
            return;
        }
        let (bandwidth_kbps, source) = match (
            self.quic_estimate_kbps,
            self.throughput.smoothed_kbps,
        ) {
            (Some(q), Some(t)) => (if q < t { q } else { t }, BandwidthSource::Combined),
            (Some(q), None) => (q, BandwidthSource::QuicCongestion),
            (None, Some(t)) => (t, BandwidthSource::ThroughputMeasurement),
            (None, None) => {
                return;
            },
        };
        self.estimate = BandwidthEstimate { bandwidth_kbps, source, last_update_ms: now_ms };
    }
}

/// What the congestion controller's figures say the bandwidth is, in kbps: the pacing
/// rate where there is one, else the congestion window per round trip.
pub open spec fn quic_kbps(pacing_rate_bps: Option<u64>, cwnd_bytes: u64, rtt_ms: u64) -> Option<
    int,
> {
    match pacing_rate_bps {
        Some(pacing) => Some(pacing as int / 1000),
        None => if rtt_ms > 0 {
            Some((cwnd_bytes * 8 * 1000) / (rtt_ms * 1000))
        } else {
            None
        },
    }
}

/// The window and the round-trip time are small enough to compute with, or are not used.
pub open spec fn quic_figures_in_range(
    pacing_rate_bps: Option<u64>,
    cwnd_bytes: u64,
    rtt_ms: u64,
) -> bool {
    pacing_rate_bps is Some || rtt_ms == 0 || (cwnd_bytes * 8 * 1000 <= u64::MAX && rtt_ms * 1000
        <= u64::MAX)
}

fn compute_quic_kbps(pacing_rate_bps: Option<u64>, cwnd_bytes: u64, rtt_ms: u64) -> (r: Option<u64>)
    requires
        quic_figures_in_range(pacing_rate_bps, cwnd_bytes, rtt_ms),
    ensures
        match r {
            Some(kbps) => quic_kbps(pacing_rate_bps, cwnd_bytes, rtt_ms) == Some(kbps as int),
            None => quic_kbps(pacing_rate_bps, cwnd_bytes, rtt_ms) is None,
        },
{
    match pacing_rate_bps {
        Some(pacing) => Some(pacing / 1000),
        None => if rtt_ms > 0 {
            Some((cwnd_bytes * 8 * 1000) / (rtt_ms * 1000))
        } else {
            None
        },
    }
}

/// Bandwidth estimates of all subscribers.
pub struct BandwidthEstimator {
    subscribers: HashMap<u64, SubscriberBandwidthState>,
    config: BandwidthEstimatorConfig,
}

impl View for BandwidthEstimator {
    type V = Map<u64, SubscriberBandwidthView>;

    closed spec fn view(&self) -> Map<u64, SubscriberBandwidthView> {
        self.subscribers@.map_values(|s: SubscriberBandwidthState| s@)
    }
}

impl BandwidthEstimator {
    /// The configuration in use.
    pub closed spec fn spec_config(&self) -> BandwidthEstimatorConfig {
        self.config
    }

    /// An estimator with the standard configuration.
    pub fn new() -> (r: Self)
        ensures
            r@ == Map::<u64, SubscriberBandwidthView>::empty(),
            r.spec_config() == BandwidthEstimatorConfig::standard(),
    {
        Self::with_config(BandwidthEstimatorConfig::default())
    }

    pub fn with_config(config: BandwidthEstimatorConfig) -> (r: Self)
        ensures
            r@ == Map::<u64, SubscriberBandwidthView>::empty(),
            r.spec_config() == config,
    {
        let r = BandwidthEstimator { subscribers: HashMap::new(), config };
        assert(r@ =~= Map::<u64, SubscriberBandwidthView>::empty());
        r
    }

    fn take_state(&mut self, session_id: u64) -> (r: Option<SubscriberBandwidthState>)
        ensures
            final(self).config == old(self).config,
            match r {
                Some(state) => {
                    &&& old(self)@.contains_key(session_id)
                    &&& state@ == old(self)@[session_id]
                    &&& final(self)@ == old(self)@.remove(session_id)
                },
                None => !old(self)@.contains_key(session_id) && *final(self) == *old(self),
            },
    {
        let ghost before = self@;
        if !self.subscribers.contains_key(&session_id) {
            return None;
        }
        let r = self.subscribers.remove(&session_id);
        assert(self@ =~= before.remove(session_id));
        r
    }

    fn put_state(&mut self, session_id: u64, state: SubscriberBandwidthState)
        ensures
            final(self).config == old(self).config,
            final(self)@ == old(self)@.insert(session_id, state@),
    {
        let ghost before = self@;
        self.subscribers.insert(session_id, state);
        assert(self@ =~= before.insert(session_id, state@));
    }

    /// Registers a subscriber with the default bandwidth, unless it is there.
    pub fn register_subscriber(&mut self, session_id: u64, now_ms: u64)
        ensures
            final(self).spec_config() == old(self).spec_config(),
            final(self)@ == if old(self)@.contains_key(session_id) {
                old(self)@
            } else {
                old(self)@.insert(
                    session_id,
                    SubscriberBandwidthView::fresh(
                        old(self).spec_config().default_bandwidth_kbps,
                        now_ms,
                    ),
                )
            },
    {
        if !self.subscribers.contains_key(&session_id) {
            let state = SubscriberBandwidthState::new(self.config.default_bandwidth_kbps, now_ms);
            self.put_state(session_id, state);
        }
    }

    /// Removes a subscriber.
    pub fn remove_subscriber(&mut self, session_id: u64)
        ensures
            final(self).spec_config() == old(self).spec_config(),
            final(self)@ == old(self)@.remove(session_id),
    {
        let ghost before = self@;
        self.take_state(session_id);
        assert(self@ =~= before.remove(session_id));
    }

    /// Takes in figures of the QUIC congestion controller: the pacing rate in bits per
    /// second, the congestion window in bytes and the round-trip time in milliseconds.
    pub fn update_quic_estimate(
        &mut self,
        session_id: u64,
        pacing_rate_bps: Option<u64>,
        cwnd_bytes: u64,
        rtt_ms: u64,
        now_ms: u64,
    )
        requires
            quic_figures_in_range(pacing_rate_bps, cwnd_bytes, rtt_ms),
        ensures
            final(self).spec_config() == old(self).spec_config(),
            final(self)@ == match quic_kbps(pacing_rate_bps, cwnd_bytes, rtt_ms) {
                Some(kbps) => if old(self)@.contains_key(session_id) {
                    old(self)@.insert(
                        session_id,
                        old(self)@[session_id].with_quic(
                            kbps as u64,
                            old(self).spec_config(),
                            now_ms,
                        ),
                    )
                } else {
                    old(self)@
                },
                None => old(self)@,
            },
    {
        let ghost before = self@;
        let kbps: u64 = match compute_quic_kbps(pacing_rate_bps, cwnd_bytes, rtt_ms) {
            Some(kbps) => kbps,
            None => return,
        };
        let mut state = match self.take_state(session_id) {
            Some(state) => state,
            None => return,
        };
        state.quic_estimate_kbps = Some(kbps);
        state.refresh(&self.config, now_ms);
        self.put_state(session_id, state);
        assert(self@ =~= before.insert(session_id, state@));
    }

    /// Counts bytes sent to a subscriber. Where a throughput sample falls due it is handed
    /// out, and the caller reports the smoothed throughput with
    /// [`BandwidthEstimator::report_throughput`]; else the estimate is brought up to date.
    pub fn record_bytes_sent(
        &mut self,
        session_id: u64,
        bytes: u64,
        now_ms: u64,
    ) -> (r: Option<ThroughputSample>)
        ensures
            final(self).spec_config() == old(self).spec_config(),
            if old(self)@.contains_key(session_id) {
                let config = old(self).spec_config();
                let state = old(self)@[session_id];
                let counted = SubscriberBandwidthView {
                    throughput: state.throughput.recorded(bytes, config, now_ms),
                    ..state
                };
                if state.throughput.sample_due(config, now_ms) {
                    &&& r == Some(
                        ThroughputSample {
                            bytes: saturating_sum(state.throughput.current_bytes, bytes),
                            elapsed_ms: (now_ms - state.throughput.last_sample_ms) as u64,
                        },
                    )
                    &&& final(self)@ == old(self)@.insert(session_id, counted)
                } else {
                    &&& r is None
                    &&& final(self)@ == old(self)@.insert(
                        session_id,
                        counted.refreshed(config, now_ms),
                    )
                }
            } else {
                r is None && final(self)@ == old(self)@
            },
    {
        let ghost before = self@;
        let mut state = match self.take_state(session_id) {
            Some(state) => state,
            None => return None,
        };
        let sample = state.throughput.record_bytes(bytes, &self.config, now_ms);
        if sample.is_none() {
            state.refresh(&self.config, now_ms);
        }
        self.put_state(session_id, state);
        assert(self@ =~= before.insert(session_id, state@));
        sample
    }

    /// Takes in the smoothed throughput of a subscriber.
    pub fn report_throughput(&mut self, session_id: u64, kbps: u64, now_ms: u64)
        ensures
            final(self).spec_config() == old(self).spec_config(),
            final(self)@ == if old(self)@.contains_key(session_id) {
                old(self)@.insert(
                    session_id,
                    old(self)@[session_id].with_throughput(
                        kbps,
                        old(self).spec_config(),
                        now_ms,
                    ),
                )
            } else {
                old(self)@
            },
    {
        let ghost before = self@;
        let mut state = match self.take_state(session_id) {
            Some(state) => state,
            None => return,
        };
        state.throughput.smoothed_kbps = Some(kbps);
        state.refresh(&self.config, now_ms);
        self.put_state(session_id, state);
        assert(self@ =~= before.insert(session_id, state@));
    }

    /// The current estimate of a subscriber.
    pub fn get_estimate(&self, session_id: u64) -> (r: Option<BandwidthEstimate>)
        ensures
            r == if self@.contains_key(session_id) {
                Some(self@[session_id].estimate)
            } else {
                None
            },
    {
        match self.subscribers.get(&session_id) {
            Some(state) => Some(state.estimate),
            None => None,
        }
    }

    /// The bandwidth in kbps of a subscriber as [`BandwidthEstimator::get_bandwidth_kbps`]
    /// gives it.
    pub open spec fn bandwidth_of(&self, session_id: u64) -> u64 {
        if self@.contains_key(session_id) {
            self@[session_id].estimate.bandwidth_kbps
        } else {
            self.spec_config().default_bandwidth_kbps
        }
    }

    /// The bandwidth in kbps of a subscriber, the default one if it is not known.
    pub fn get_bandwidth_kbps(&self, session_id: u64) -> (r: u64)
        ensures
            r == self.bandwidth_of(session_id),
    {
        match self.get_estimate(session_id) {
            Some(estimate) => estimate.bandwidth_kbps,
            None => self.config.default_bandwidth_kbps,
        }
    }

    /// Sets the estimate of a subscriber, who is registered if not there.
    pub fn set_bandwidth(&mut self, session_id: u64, bandwidth_kbps: u64, now_ms: u64)
        ensures
            final(self).spec_config() == old(self).spec_config(),
            ({
                let state = if old(self)@.contains_key(session_id) {
                    old(self)@[session_id]
                } else {
                    SubscriberBandwidthView::fresh(bandwidth_kbps, now_ms)
                };
                final(self)@ == old(self)@.insert(
                    session_id,
                    SubscriberBandwidthView {
                        estimate: BandwidthEstimate {
                            bandwidth_kbps,
                            source: BandwidthSource::Combined,
                            last_update_ms: now_ms,
                        },
                        ..state
                    },
                )
            }),
    {
        let ghost before = self@;
        let mut state = match self.take_state(session_id) {
            Some(state) => state,
            None => SubscriberBandwidthState::new(bandwidth_kbps, now_ms),
        };
        state.estimate = BandwidthEstimate {
            bandwidth_kbps,
            source: BandwidthSource::Combined,
            last_update_ms: now_ms,
        };
        self.put_state(session_id, state);
        assert(self@ =~= before.insert(session_id, state@));
    }
}

impl Default for BandwidthEstimator {
    fn default() -> (r: Self)
        ensures
            r@ == Map::<u64, SubscriberBandwidthView>::empty(),
            r.spec_config() == BandwidthEstimatorConfig::standard(),
    {
        Self::new()
    }
}

/// Figures of the QUIC congestion controller on one connection.
#[derive(Clone, Copy, Debug, PartialEq, Eq, Structural)]
pub struct QuicBandwidthStats {
    pub pacing_rate_bps: Option<u64>,
    pub cwnd_bytes: u64,
    pub rtt_ms: u64,
}

impl QuicBandwidthStats {
    /// The figures with a round-trip time in microseconds, of which whole milliseconds count.
    pub fn from_path_stats(cwnd: u64, rtt_us: u64, pacing_rate: Option<u64>) -> (r: Self)
        ensures
            r == (QuicBandwidthStats {
                pacing_rate_bps: pacing_rate,
                cwnd_bytes: cwnd,
                rtt_ms: rtt_us / 1000,
            }),
    {
        QuicBandwidthStats {
            pacing_rate_bps: pacing_rate,
            cwnd_bytes: cwnd,
            rtt_ms: rtt_us / 1000,
        }
    }

    /// The bandwidth that these figures amount to in kbps, 0 where they say nothing.
    pub fn estimated_bandwidth_kbps(&self) -> (r: u64)
        requires
            quic_figures_in_range(self.pacing_rate_bps, self.cwnd_bytes, self.rtt_ms),
        ensures
            r == match quic_kbps(self.pacing_rate_bps, self.cwnd_bytes, self.rtt_ms) {
                Some(kbps) => kbps,
                None => 0,
            },
    {
        match compute_quic_kbps(self.pacing_rate_bps, self.cwnd_bytes, self.rtt_ms) {
            Some(kbps) => kbps,
            None => 0,
        }
    }
}

/// The combined estimate is conservative: it is no higher than either source.
pub proof fn law_combined_is_conservative(quic: Option<u64>, throughput: Option<u64>)
    ensures
        combined(quic, throughput) matches Some((kbps, source)) ==> (quic matches Some(q) ==> kbps
            <= q) && (throughput matches Some(t) ==> kbps <= t),
        combined(quic, throughput) is None <==> quic is None && throughput is None,
{
}

/// Once the update interval has passed since the estimate was made, a report decides it together
/// with the other report that is held, whatever the estimate was: one report alone is the estimate,
/// and the lower one of two is. Before that, a report is kept and the estimate stays.
pub proof fn law_estimate_follows_reports(
    state: SubscriberBandwidthView,
    kbps: u64,
    config: BandwidthEstimatorConfig,
    now_ms: u64,
)
    ensures
        ({
            let last = state.estimate.last_update_ms;
            let due = last + config.min_update_interval_ms <= now_ms
                || config.min_update_interval_ms == 0;
            let measured = state.throughput.smoothed_kbps;
            let after = state.with_quic(kbps, config, now_ms);
            &&& after.quic_estimate_kbps == Some(kbps)
            &&& after.throughput == state.throughput
            &&& !due ==> after.estimate == state.estimate
            &&& due ==> after.estimate.last_update_ms == now_ms
            &&& due && measured is None ==> after.estimate.bandwidth_kbps == kbps
                && after.estimate.source == BandwidthSource::QuicCongestion
            &&& due && measured is Some ==> {
                &&& after.estimate.bandwidth_kbps <= kbps
                &&& after.estimate.bandwidth_kbps <= measured->0
                &&& after.estimate.bandwidth_kbps == kbps || after.estimate.bandwidth_kbps
                    == measured->0
                &&& after.estimate.source == BandwidthSource::Combined
            }
        }),
        ({
            let last = state.estimate.last_update_ms;
            let due = last + config.min_update_interval_ms <= now_ms
                || config.min_update_interval_ms == 0;
            let reported = state.quic_estimate_kbps;
            let after = state.with_throughput(kbps, config, now_ms);
            &&& after.quic_estimate_kbps == reported
            &&& after.throughput.smoothed_kbps == Some(kbps)
            &&& after.throughput.samples == state.throughput.samples
            &&& after.throughput.current_bytes == state.throughput.current_bytes
            &&& after.throughput.last_sample_ms == state.throughput.last_sample_ms
            &&& !due ==> after.estimate == state.estimate
            &&& due ==> after.estimate.last_update_ms == now_ms
            &&& due && reported is None ==> after.estimate.bandwidth_kbps == kbps
                && after.estimate.source == BandwidthSource::ThroughputMeasurement
            &&& due && reported is Some ==> {
                &&& after.estimate.bandwidth_kbps <= kbps
                &&& after.estimate.bandwidth_kbps <= reported->0
                &&& after.estimate.bandwidth_kbps == kbps || after.estimate.bandwidth_kbps
                    == reported->0
                &&& after.estimate.source == BandwidthSource::Combined
            }
        }),
{
}

/// What an estimate was before does not count once it is brought up to date, and an estimate stays
/// as it is while no source has reported.
pub proof fn law_old_estimate_does_not_count(
    state: SubscriberBandwidthView,
    other: BandwidthEstimate,
    config: BandwidthEstimatorConfig,
    now_ms: u64,
)
    requires
        state.estimate.last_update_ms + config.min_update_interval_ms <= now_ms,
        other.last_update_ms + config.min_update_interval_ms <= now_ms,
    ensures
        state.quic_estimate_kbps is Some || state.throughput.smoothed_kbps is Some
            ==> state.refreshed(config, now_ms) == (SubscriberBandwidthView {
            estimate: other,
            ..state
        }).refreshed(config, now_ms),
        state.quic_estimate_kbps is None && state.throughput.smoothed_kbps is None
            ==> state.refreshed(config, now_ms) == state,
{
}

/// Without a pacing rate, the bandwidth is what sends the window once per round trip, in whole
/// kilobits per second; with one, it is the rate.
pub proof fn law_quic_bandwidth_is_the_window_per_round_trip(
    pacing_rate_bps: Option<u64>,
    cwnd_bytes: u64,
    rtt_ms: u64,
)
    ensures
        match (pacing_rate_bps, quic_kbps(pacing_rate_bps, cwnd_bytes, rtt_ms)) {
            (Some(rate), Some(kbps)) => kbps * 1000 <= rate < (kbps + 1) * 1000,
            (None, Some(kbps)) => rtt_ms > 0 && kbps * rtt_ms <= cwnd_bytes * 8 && cwnd_bytes * 8
                < (kbps + 1) * rtt_ms,
            (None, None) => rtt_ms == 0,
            (Some(_), None) => false,
        },
{
    if pacing_rate_bps is None && rtt_ms > 0 {
        let bits = cwnd_bytes * 8 * 1000;
        let time = rtt_ms * 1000;
        let kbps = bits / time;
        vstd::arithmetic::div_mod::lemma_fundamental_div_mod(bits, time);
        vstd::arithmetic::div_mod::lemma_mod_bound(bits, time);
        assert(time * kbps == (kbps * rtt_ms) * 1000) by (nonlinear_arith)
            requires
                time == rtt_ms * 1000,
        ;
        assert((kbps + 1) * rtt_ms == kbps * rtt_ms + rtt_ms) by (nonlinear_arith);
    }
}

proof fn lemma_recent_samples(
    samples: Seq<(u64, u64)>,
    now_ms: u64,
    window_ms: u64,
    n: nat,
    sample: (u64, u64),
)
    requires
        n <= samples.len(),
    ensures
        recent_samples(samples, now_ms, window_ms, n).contains(sample) <==> samples.take(
            n as int,
        ).contains(sample) && sample.0 + window_ms > now_ms,
    decreases n,
{
    if n > 0 {
        lemma_recent_samples(samples, now_ms, window_ms, (n - 1) as nat, sample);
        let before = recent_samples(samples, now_ms, window_ms, (n - 1) as nat);
        let head = samples.take(n as int);
        let last = samples[n - 1];
        assert(head =~= samples.take(n - 1).push(last));
        assert(head.contains(sample) <==> samples.take(n - 1).contains(sample) || sample == last)
            by {
            if samples.take(n - 1).contains(sample) {
                let shorter = samples.take(n - 1);
                let i = choose|i: int| 0 <= i < shorter.len() && shorter[i] == sample;
                assert(head[i] == sample);
            }
            assert(head[n - 1] == last);
        }
        assert(before.push(last).contains(sample) <==> before.contains(sample) || sample == last)
            by {
            if before.contains(sample) {
                let i = choose|i: int| 0 <= i < before.len() && before[i] == sample;
                assert(before.push(last)[i] == sample);
            }
            assert(before.push(last)[before.len() as int] == last);
        }
    }
}

/// Bytes that are sent are counted until a sample falls due, which takes all of them in. A sample
/// falls due once some time, and at least the interval, has passed since the last one. From then on
/// the samples of the window before it are kept, and no others.
pub proof fn law_sent_bytes_are_counted(
    state: ThroughputView,
    bytes: u64,
    config: BandwidthEstimatorConfig,
    now_ms: u64,
    sample: (u64, u64),
)
    requires
        state.current_bytes + bytes <= u64::MAX,
    ensures
        ({
            let after = state.recorded(bytes, config, now_ms);
            let total = state.current_bytes + bytes;
            let due = state.last_sample_ms < now_ms && state.last_sample_ms
                + config.sample_interval_ms <= now_ms;
            &&& state.sample_due(config, now_ms) == due
            &&& after.smoothed_kbps == state.smoothed_kbps
            &&& !due ==> after.current_bytes == total && after.samples == state.samples
                && after.last_sample_ms == state.last_sample_ms
            &&& due ==> after.current_bytes == 0 && after.last_sample_ms == now_ms
            &&& due ==> (after.samples.contains(sample) <==> sample.0
                + config.measurement_window_ms > now_ms && (state.samples.contains(sample)
                || sample == (now_ms, total as u64)))
        }),
{
    let made = state.samples.push((now_ms, saturating_sum(state.current_bytes, bytes)));
    lemma_recent_samples(made, now_ms, config.measurement_window_ms, made.len(), sample);
    assert(made.take(made.len() as int) =~= made);
    if state.samples.contains(sample) {
        let i = choose|i: int| 0 <= i < state.samples.len() && state.samples[i] == sample;
        assert(made[i] == sample);
    }
    assert(made[state.samples.len() as int] == made.last());
}

/// A subscriber starts from the given bandwidth, with no report and nothing counted.
pub proof fn law_new_subscriber_has_no_reports(default_kbps: u64, now_ms: u64)
    ensures
        ({
            let state = SubscriberBandwidthView::fresh(default_kbps, now_ms);
            &&& state.quic_estimate_kbps is None
            &&& state.throughput.smoothed_kbps is None
            &&& state.throughput.current_bytes == 0
            &&& state.throughput.samples.len() == 0
            &&& state.throughput.last_sample_ms == now_ms
            &&& state.estimate.bandwidth_kbps == default_kbps
            &&& state.estimate.source == BandwidthSource::Default
            &&& state.estimate.last_update_ms == now_ms
        }),
{
}

/// A session that is known has its estimate, another one the default of the configuration.
pub proof fn law_unknown_session_has_the_default(estimator: BandwidthEstimator, session_id: u64)
    ensures
        !estimator@.contains_key(session_id) ==> estimator.bandwidth_of(session_id)
            == estimator.spec_config().default_bandwidth_kbps,
        estimator@.contains_key(session_id) ==> estimator.bandwidth_of(session_id)
            == estimator@[session_id].estimate.bandwidth_kbps,
{
}

/// Unless told otherwise, nothing is known of a bandwidth at first, samples are taken and estimates
/// made ten times a second, and throughput is measured over five seconds.
pub proof fn law_standard_estimates_are_made_ten_times_a_second()
    ensures
        ({
            let config = BandwidthEstimatorConfig::standard();
            &&& config.default_bandwidth_kbps == 0
            &&& config.sample_interval_ms * 10 == 1000
            &&& config.min_update_interval_ms == config.sample_interval_ms
            &&& config.measurement_window_ms == 5 * 1000
        }),
{
}

/// Sums are exact as long as they fit, and stay at the largest number beyond.
pub proof fn law_sums_stay_at_the_largest_number(a: u64, b: u64)
    ensures
        a + b <= u64::MAX ==> saturating_sum(a, b) == a + b,
        a + b > u64::MAX ==> saturating_sum(a, b) == u64::MAX,
{
}

} // verus!
