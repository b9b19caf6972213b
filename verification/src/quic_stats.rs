//! What the statistics of a connection say of its bandwidth.

use vstd::prelude::*;
use std::collections::HashMap;

verus! {

broadcast use vstd::std_specs::hash::group_hash_axioms;

/// No estimate is larger, in kbit/s.
pub const MAX_ESTIMATE_KBPS: u64 = 10_000_000;

/// Without congestion, no more is taken to be available, in kbit/s.
pub const MAX_TRUSTED_KBPS: u64 = 20_000;

/// A session that sends more than this, in kbit/s, can tell congestion.
pub const ACTIVE_SEND_KBPS: u64 = 500;

/// A longer round trip, in microseconds, is congestion.
pub const CONGESTED_RTT_US: u64 = 50_000;

/// A session recovers from congestion for so long, in microseconds.
pub const RECOVERY_US: u64 = 2_000_000;

/// The rate of sending is measured over more than this, in microseconds.
pub const MEASURE_INTERVAL_US: u64 = 100_000;

/// The statistics of the path of a session.
#[derive(Clone, Copy, Debug)]
pub struct QuicPathStats {
    pub session_id: u64,
    /// Round-trip time in microseconds.
    pub rtt_us: u64,
    /// Congestion window in bytes.
    pub cwnd: u64,
    pub congestion_events: u64,
    pub lost_packets: u64,
    /// Bytes sent so far.
    pub udp_tx_bytes: u64,
}

/// The smaller of two numbers.
pub open spec fn smaller(a: int, b: int) -> int {
    if a <= b {
        a
    } else {
        b
    }
}

/// The bandwidth, in kbit/s, that a congestion window of `cwnd` bytes allows for round trips of
/// `rtt_us` microseconds.
pub open spec fn window_kbps(cwnd: u64, rtt_us: u64) -> int {
    if rtt_us == 0 {
        0
    } else {
        smaller((cwnd * 8000) / (rtt_us as int), MAX_ESTIMATE_KBPS as int)
    }
}

impl QuicPathStats {
    /// The bandwidth, in kbit/s, that the congestion window allows.
    pub fn estimated_bandwidth_kbps(&self) -> (r: u64)
        requires
            self.cwnd * 8000 <= u64::MAX,
        ensures
            r == window_kbps(self.cwnd, self.rtt_us),
    {
        if self.rtt_us == 0 {
            return 0;
        }
        let kbps: u64 = (self.cwnd * 8000) / self.rtt_us;
        if kbps <= MAX_ESTIMATE_KBPS {
            kbps
        } else {
            MAX_ESTIMATE_KBPS
        }
    }
}

/// What is known of what a session sends.
#[derive(Debug, Clone, Copy)]
pub struct SessionSendState {
    pub last_sent_bytes: u64,
    pub last_update_us: u64,
    /// The rate of sending that was measured last, in kbit/s.
    pub send_rate_kbps: Option<u64>,
    /// When there was congestion last.
    pub last_congestion_us: Option<u64>,
    /// What was available when there was congestion last, in kbit/s.
    pub congestion_bandwidth_kbps: Option<u64>,
}

/// How much was sent in which time.
#[derive(Debug, Clone, Copy, PartialEq, Eq, Structural)]
pub struct SendDelta {
    pub bytes: u64,
    pub elapsed_us: u64,
}

/// The averages of a session at the time of an estimate, in kbit/s: what it sends, and what was
/// available so far.
#[derive(Debug, Clone, Copy, PartialEq, Eq, Structural)]
pub struct Averages {
    pub send_kbps: u64,
    pub available_kbps: Option<u64>,
}

impl SessionSendState {
    /// A session of which nothing was measured.
    pub open spec fn started(sent_bytes: u64, now_us: u64) -> SessionSendState {
        SessionSendState {
            last_sent_bytes: sent_bytes,
            last_update_us: now_us,
            send_rate_kbps: None,
            last_congestion_us: None,
            congestion_bandwidth_kbps: None,
        }
    }

    /// How much was sent since the last measurement, if it is time for the next one.
    pub open spec fn delta(self, sent_bytes: u64, now_us: u64) -> Option<SendDelta> {
        if now_us - self.last_update_us > MEASURE_INTERVAL_US {
            Some(
                SendDelta {
                    bytes: if sent_bytes >= self.last_sent_bytes {
                        (sent_bytes - self.last_sent_bytes) as u64
                    } else {
                        0
                    },
                    elapsed_us: (now_us - self.last_update_us) as u64,
                },
            )
        } else {
            None
        }
    }

    /// The session with a rate that was measured.
    pub open spec fn measured(self, sent_bytes: u64, rate_kbps: u64, now_us: u64) -> SessionSendState {
        SessionSendState {
            last_sent_bytes: sent_bytes,
            last_update_us: now_us,
            send_rate_kbps: Some(rate_kbps),
            ..self
        }
    }

    /// The session after an estimate. When there is congestion, it is noted.
    pub open spec fn assessed(self, rtt_us: u64, averages: Averages, now_us: u64) -> SessionSendState {
        if is_congested(rtt_us, averages.send_kbps) {
            SessionSendState {
                last_congestion_us: Some(now_us),
                congestion_bandwidth_kbps: match averages.available_kbps {
                    Some(kbps) => Some(kbps),
                    None => self.congestion_bandwidth_kbps,
                },
                ..self
            }
        } else {
            self
        }
    }

    /// The session recovers from congestion.
    pub open spec fn recovers(self, send_kbps: u64, now_us: u64) -> bool {
        send_kbps > ACTIVE_SEND_KBPS && match self.last_congestion_us {
            Some(at) => now_us - at < RECOVERY_US,
            None => false,
        }
    }

    /// The bandwidth that is available, in kbit/s.
    pub open spec fn available(
        self,
        rtt_us: u64,
        window_kbps: u64,
        averages: Averages,
        now_us: u64,
    ) -> int {
        if is_congested(rtt_us, averages.send_kbps) {
            smaller((averages.send_kbps * 6) / 5, window_kbps as int)
        } else if self.recovers(averages.send_kbps, now_us) {
            smaller(
                smaller(
                    window_kbps as int,
                    match self.congestion_bandwidth_kbps {
                        Some(ceiling) => ceiling as int,
                        None => window_kbps as int,
                    },
                ),
                MAX_TRUSTED_KBPS as int,
            )
        } else {
            smaller(window_kbps as int, MAX_TRUSTED_KBPS as int)
        }
    }

    /// The state was not changed after `now_us`.
    pub open spec fn up_to(self, now_us: u64) -> bool {
        &&& self.last_update_us <= now_us
        &&& match self.last_congestion_us {
            Some(at) => at <= now_us,
            None => true,
        }
    }

    /// A session of which nothing was measured.
    pub fn new(sent_bytes: u64, now_us: u64) -> (r: Self)
        ensures
            r == SessionSendState::started(sent_bytes, now_us),
    {
        SessionSendState {
            last_sent_bytes: sent_bytes,
            last_update_us: now_us,
            send_rate_kbps: None,
            last_congestion_us: None,
            congestion_bandwidth_kbps: None,
        }
    }

    /// How much was sent since the last measurement, if it is time for the next one.
    pub fn measurement_due(&self, sent_bytes: u64, now_us: u64) -> (r: Option<SendDelta>)
        requires
            self.up_to(now_us),
        ensures
            r == self.delta(sent_bytes, now_us),
    {
        let elapsed_us: u64 = now_us - self.last_update_us;
        if elapsed_us > MEASURE_INTERVAL_US {
            let bytes: u64 = if sent_bytes >= self.last_sent_bytes {
                sent_bytes - self.last_sent_bytes
            } else {
                0
            };
            Some(SendDelta { bytes, elapsed_us })
        } else {
            None
        }
    }

    /// Notes a rate that was measured.
    pub fn record_rate(&mut self, sent_bytes: u64, rate_kbps: u64, now_us: u64)
        ensures
            *final(self) == old(self).measured(sent_bytes, rate_kbps, now_us),
    {
        self.last_sent_bytes = sent_bytes;
        self.last_update_us = now_us;
        self.send_rate_kbps = Some(rate_kbps);
    }

    /// The bandwidth that is available, in kbit/s. Under congestion it is what the session sends
    /// and a fifth more. While the session recovers, it is no more than what was available at the
    /// congestion.
    pub fn assess(&mut self, rtt_us: u64, window_kbps: u64, averages: Averages, now_us: u64) -> (r:
        u64)
        requires
            old(self).up_to(now_us),
            averages.send_kbps * 6 <= u64::MAX,
        ensures
            *final(self) == old(self).assessed(rtt_us, averages, now_us),
            r == old(self).available(rtt_us, window_kbps, averages, now_us),
    {
        let active = averages.send_kbps > ACTIVE_SEND_KBPS;
        if rtt_us > CONGESTED_RTT_US && active {
            self.last_congestion_us = Some(now_us);
            if let Some(kbps) = averages.available_kbps {
                self.congestion_bandwidth_kbps = Some(kbps);
            }
            let headroom: u64 = averages.send_kbps * 6 / 5;
            return if headroom <= window_kbps {
                headroom
            } else {
                window_kbps
            };
        }
        let recovering = match self.last_congestion_us {
            Some(at) => active && now_us - at < RECOVERY_US,
            None => false,
        };
        let mut kbps: u64 = window_kbps;
        if recovering {
            if let Some(ceiling) = self.congestion_bandwidth_kbps {
                if ceiling < kbps {
                    kbps = ceiling;
                }
            }
        }
        if kbps <= MAX_TRUSTED_KBPS {
            kbps
        } else {
            MAX_TRUSTED_KBPS
        }
    }
}

/// A session is congested: the round trips are long, and it sends enough to tell.
pub open spec fn is_congested(rtt_us: u64, send_kbps: u64) -> bool {
    rtt_us > CONGESTED_RTT_US && send_kbps > ACTIVE_SEND_KBPS
}

/// What is known of what the sessions send.
pub struct QuicStatsConsumer {
    sessions: HashMap<u64, SessionSendState>,
}

impl View for QuicStatsConsumer {
    type V = Map<u64, SessionSendState>;

    closed spec fn view(&self) -> Map<u64, SessionSendState> {
        self.sessions@
    }
}

/// What is known of a session, which starts now if nothing is.
pub open spec fn state_at(
    sessions: Map<u64, SessionSendState>,
    stats: QuicPathStats,
    now_us: u64,
) -> SessionSendState {
    if sessions.dom().contains(stats.session_id) {
        sessions[stats.session_id]
    } else {
        SessionSendState::started(stats.udp_tx_bytes, now_us)
    }
}

impl QuicStatsConsumer {
    /// Nothing is known of any session.
    pub fn new() -> (r: Self)
        ensures
            r@ == Map::<u64, SessionSendState>::empty(),
    {
        QuicStatsConsumer { sessions: HashMap::new() }
    }

    /// What is known of a session, which starts now if nothing is.
    pub fn session(&self, stats: &QuicPathStats, now_us: u64) -> (r: SessionSendState)
        ensures
            r == state_at(self@, *stats, now_us),
    {
        match self.sessions.get(&stats.session_id) {
            Some(state) => *state,
            None => SessionSendState::new(stats.udp_tx_bytes, now_us),
        }
    }

    /// How much the session of a report sent since the last measurement, if it is time for the
    /// next one. Reports without a round-trip time are passed over.
    pub fn begin(&self, stats: &QuicPathStats, now_us: u64) -> (r: Option<SendDelta>)
        requires
            state_at(self@, *stats, now_us).up_to(now_us),
        ensures
            r == (if stats.rtt_us == 0 {
                None
            } else {
                state_at(self@, *stats, now_us).delta(stats.udp_tx_bytes, now_us)
            }),
    {
        if stats.rtt_us == 0 {
            return None;
        }
        self.session(stats, now_us).measurement_due(stats.udp_tx_bytes, now_us)
    }

    /// Takes a report with the rate that was measured, if one was, and with the averages of the
    /// session. The result is the bandwidth that is available, in kbit/s. Reports without a
    /// round-trip time are passed over.
    pub fn finish(
        &mut self,
        stats: &QuicPathStats,
        rate_kbps: Option<u64>,
        averages: Averages,
        now_us: u64,
    ) -> (r: Option<u64>)
        requires
            state_at(old(self)@, *stats, now_us).up_to(now_us),
            stats.cwnd * 8000 <= u64::MAX,
            averages.send_kbps * 6 <= u64::MAX,
        ensures
            stats.rtt_us == 0 ==> r is None && final(self)@ == old(self)@,
            stats.rtt_us != 0 ==> ({
                let state = state_at(old(self)@, *stats, now_us);
                let measured = match rate_kbps {
                    Some(rate) => state.measured(stats.udp_tx_bytes, rate, now_us),
                    None => state,
                };
                &&& r is Some
                &&& r->0 == measured.available(
                    stats.rtt_us,
                    window_kbps(stats.cwnd, stats.rtt_us) as u64,
                    averages,
                    now_us,
                )
                &&& final(self)@ == old(self)@.insert(
                    stats.session_id,
                    measured.assessed(stats.rtt_us, averages, now_us),
                )
            }),
    {
        if stats.rtt_us == 0 {
            return None;
        }
        let mut state = self.session(stats, now_us);
        if let Some(rate) = rate_kbps {
            state.record_rate(stats.udp_tx_bytes, rate, now_us);
        }
        let kbps: u64 = state.assess(
            stats.rtt_us,
            stats.estimated_bandwidth_kbps(),
            averages,
            now_us,
        );
        self.sessions.insert(stats.session_id, state);
        Some(kbps)
    }
}

/// The bandwidth that is taken to be available is never more than the congestion window allows,
/// and without congestion never more than what is trusted.
pub proof fn law_available_is_bounded(
    state: SessionSendState,
    rtt_us: u64,
    window_kbps: u64,
    averages: Averages,
    now_us: u64,
)
    ensures
        0 <= state.available(rtt_us, window_kbps, averages, now_us) <= window_kbps,
        !is_congested(rtt_us, averages.send_kbps) ==> state.available(
            rtt_us,
            window_kbps,
            averages,
            now_us,
        ) <= MAX_TRUSTED_KBPS,
{
}

/// A session that recovers is not taken to have more than what was available at the congestion.
pub proof fn law_recovery_is_capped(
    state: SessionSendState,
    at_rtt_us: u64,
    at: Averages,
    at_us: u64,
    rtt_us: u64,
    window_kbps: u64,
    averages: Averages,
    now_us: u64,
)
    requires
        is_congested(at_rtt_us, at.send_kbps),
        at.available_kbps is Some,
        at_us <= now_us < at_us + RECOVERY_US,
        rtt_us <= CONGESTED_RTT_US,
        averages.send_kbps > ACTIVE_SEND_KBPS,
    ensures
        state.assessed(at_rtt_us, at, at_us).available(rtt_us, window_kbps, averages, now_us)
            <= at.available_kbps->0,
{
}

/// A session that sends little is never congested.
pub proof fn law_idle_session_is_not_congested(
    state: SessionSendState,
    rtt_us: u64,
    window_kbps: u64,
    averages: Averages,
    now_us: u64,
)
    requires
        averages.send_kbps <= ACTIVE_SEND_KBPS,
    ensures
        state.assessed(rtt_us, averages, now_us) == state,
        state.available(rtt_us, window_kbps, averages, now_us) == smaller(
            window_kbps as int,
            MAX_TRUSTED_KBPS as int,
        ),
{
}

/// The window allows what sends it once per round trip, in whole kilobits per second, but no more
/// than the largest estimate.
pub proof fn law_window_is_sent_once_per_round_trip(cwnd: u64, rtt_us: u64)
    requires
        rtt_us > 0,
    ensures
        window_kbps(cwnd, rtt_us) <= MAX_ESTIMATE_KBPS,
        window_kbps(cwnd, rtt_us) * rtt_us <= cwnd * 8000,
        window_kbps(cwnd, rtt_us) < MAX_ESTIMATE_KBPS ==> cwnd * 8000 < (window_kbps(cwnd, rtt_us)
            + 1) * rtt_us,
{
    let bits = cwnd * 8000;
    let time = rtt_us as int;
    let whole = bits / time;
    let kbps = window_kbps(cwnd, rtt_us);
    vstd::arithmetic::div_mod::lemma_fundamental_div_mod(bits, time);
    vstd::arithmetic::div_mod::lemma_mod_bound(bits, time);
    assert(kbps * time <= whole * time) by (nonlinear_arith)
        requires
            kbps <= whole,
            time > 0,
    ;
    assert((kbps + 1) * time == kbps * time + time) by (nonlinear_arith);
    assert(time * whole == whole * time) by (nonlinear_arith);
}

/// Measurements are made when more than their interval has passed, over all that was sent since the
/// last one.
pub proof fn law_measurements_cover_what_was_sent(
    state: SessionSendState,
    sent_bytes: u64,
    rate_kbps: u64,
    now_us: u64,
)
    requires
        state.last_update_us <= now_us,
        state.last_sent_bytes <= sent_bytes,
    ensures
        state.delta(sent_bytes, now_us) is Some <==> state.last_update_us + MEASURE_INTERVAL_US
            < now_us,
        state.delta(sent_bytes, now_us) matches Some(delta) ==> state.last_sent_bytes + delta.bytes
            == sent_bytes && state.last_update_us + delta.elapsed_us == now_us,
        state.measured(sent_bytes, rate_kbps, now_us).delta(sent_bytes, now_us) is None,
        state.measured(sent_bytes, rate_kbps, now_us).send_rate_kbps == Some(rate_kbps),
        state.measured(sent_bytes, rate_kbps, now_us).last_congestion_us
            == state.last_congestion_us,
        state.measured(sent_bytes, rate_kbps, now_us).congestion_bandwidth_kbps
            == state.congestion_bandwidth_kbps,
{
}

/// A session that sends enough is congested exactly while its round trips are long. Its bandwidth is
/// a fifth more than it sends then, or what the window allows, whichever is less.
pub proof fn law_long_round_trips_are_congestion(
    state: SessionSendState,
    rtt_us: u64,
    window_kbps: u64,
    averages: Averages,
    now_us: u64,
)
    requires
        averages.send_kbps > ACTIVE_SEND_KBPS,
    ensures
        is_congested(rtt_us, averages.send_kbps) <==> rtt_us > CONGESTED_RTT_US,
        rtt_us > CONGESTED_RTT_US ==> {
            let available = state.available(rtt_us, window_kbps, averages, now_us);
            &&& available * 5 <= averages.send_kbps * 6
            &&& available < window_kbps ==> averages.send_kbps * 6 < (available + 1) * 5
        },
        rtt_us > CONGESTED_RTT_US ==> state.assessed(rtt_us, averages, now_us).last_congestion_us
            == Some(now_us),
        rtt_us <= CONGESTED_RTT_US ==> state.assessed(rtt_us, averages, now_us) == state,
{
}

/// Once the time of recovery has passed, and before any congestion, the bandwidth is what the window
/// allows, as far as it is trusted.
pub proof fn law_recovery_ends(
    state: SessionSendState,
    rtt_us: u64,
    window_kbps: u64,
    averages: Averages,
    now_us: u64,
)
    requires
        rtt_us <= CONGESTED_RTT_US,
        state.last_congestion_us matches Some(at) ==> at + RECOVERY_US <= now_us,
        window_kbps <= MAX_TRUSTED_KBPS,
    ensures
        state.available(rtt_us, window_kbps, averages, now_us) == window_kbps,
{
}

/// A session that is not known starts with what it has sent, and nothing measured.
pub proof fn law_unknown_session_starts_now(
    sessions: Map<u64, SessionSendState>,
    stats: QuicPathStats,
    now_us: u64,
)
    ensures
        sessions.contains_key(stats.session_id) ==> state_at(sessions, stats, now_us)
            == sessions[stats.session_id],
        !sessions.contains_key(stats.session_id) ==> {
            let state = state_at(sessions, stats, now_us);
            &&& state.last_sent_bytes == stats.udp_tx_bytes
            &&& state.last_update_us == now_us
            &&& state.send_rate_kbps is None
            &&& state.last_congestion_us is None
            &&& state.congestion_bandwidth_kbps is None
        },
{
}

/// A session that sends more than 500 kbit/s is congested while its round trips take more than 50
/// milliseconds. The bandwidth that is known then, if any, is its ceiling from then on, and nothing
/// else of the session changes.
pub proof fn law_congestion_sets_the_ceiling(
    state: SessionSendState,
    rtt_us: u64,
    averages: Averages,
    now_us: u64,
)
    ensures
        is_congested(rtt_us, averages.send_kbps) <==> rtt_us > 50_000 && averages.send_kbps > 500,
        is_congested(rtt_us, averages.send_kbps) ==> {
            let after = state.assessed(rtt_us, averages, now_us);
            &&& after.last_congestion_us == Some(now_us)
            &&& averages.available_kbps is Some ==> after.congestion_bandwidth_kbps
                == averages.available_kbps
            &&& averages.available_kbps is None ==> after.congestion_bandwidth_kbps
                == state.congestion_bandwidth_kbps
            &&& after.last_sent_bytes == state.last_sent_bytes && after.last_update_us
                == state.last_update_us && after.send_rate_kbps == state.send_rate_kbps
        },
        !is_congested(rtt_us, averages.send_kbps) ==> state.assessed(rtt_us, averages, now_us)
            == state,
{
}

/// For two seconds after congestion a session that sends enough has no more than its ceiling. With
/// or without that it has no more than the window allows and than is trusted, and it has all of it.
pub proof fn law_ceiling_holds_for_two_seconds(
    state: SessionSendState,
    rtt_us: u64,
    window_kbps: u64,
    averages: Averages,
    now_us: u64,
)
    requires
        rtt_us <= 50_000 || averages.send_kbps <= 500,
    ensures
        ({
            let available = state.available(rtt_us, window_kbps, averages, now_us);
            let recovers = averages.send_kbps > 500 && state.last_congestion_us is Some && now_us
                < state.last_congestion_us->0 + 2_000_000;
            let ceiling = state.congestion_bandwidth_kbps;
            &&& available <= window_kbps && available <= 20_000
            &&& recovers && ceiling is Some ==> available <= ceiling->0
            &&& recovers && ceiling is Some ==> available == window_kbps || available == 20_000
                || available == ceiling->0
            &&& !recovers || ceiling is None ==> available == window_kbps || available == 20_000
        }),
{
}

/// A count of sent bytes that went back tells of nothing sent, and measuring waits for more than a
/// tenth of a second.
pub proof fn law_count_that_went_back_tells_nothing(
    state: SessionSendState,
    sent_bytes: u64,
    now_us: u64,
)
    requires
        state.last_update_us <= now_us,
    ensures
        state.delta(sent_bytes, now_us) is Some <==> now_us > state.last_update_us + 100_000,
        state.delta(sent_bytes, now_us) matches Some(delta) ==> (sent_bytes < state.last_sent_bytes
            ==> delta.bytes == 0),
{
}

/// A window is worth nothing without a round trip, and never more than ten gigabit per second.
pub proof fn law_window_needs_a_round_trip(cwnd: u64, rtt_us: u64)
    ensures
        window_kbps(cwnd, 0) == 0,
        window_kbps(cwnd, rtt_us) <= 10_000_000,
{
}

} // verus!
