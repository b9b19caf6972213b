//! Track switching for the relay: bandwidth estimates, track selection and switching at
//! group boundaries.
//!
//! 1. A subscription with a switching-set assignment registers its track.
//! 2. Bandwidth estimates are brought up to date, and tracks selected by them.
//! 3. [`DtsService::should_forward_object`] tells whether an object goes out.

use std::collections::HashMap;
use vstd::prelude::*;
use crate::bandwidth::{
    self, BandwidthEstimator, BandwidthEstimatorConfig, SubscriberBandwidthView, ThroughputSample,
};
use crate::dts_tracker::{
    self, DtsTrackView, DtsTracker, DtsTrackerConfig, SelectionChange, SelectionChangeView,
    SubscriberDtsView, SwitchingSetAssignment, TrackSelection, TrackSelectionView,
};
use crate::namespace::TrackNamespace;

verus! {

broadcast use vstd::std_specs::hash::group_hash_axioms;

/// Configuration of a [`DtsService`].
#[derive(Clone, Copy, Debug, PartialEq, Eq, Structural)]
pub struct DtsServiceConfig {
    pub tracker: DtsTrackerConfig,
    pub bandwidth: BandwidthEstimatorConfig,
    /// How often bandwidth is to be brought up to date, in milliseconds.
    pub bandwidth_update_interval_ms: u64,
    pub enable_logging: bool,
}

impl DtsServiceConfig {
    pub open spec fn standard() -> DtsServiceConfig {
        DtsServiceConfig {
            tracker: DtsTrackerConfig::standard(),
            bandwidth: BandwidthEstimatorConfig::standard(),
            bandwidth_update_interval_ms: 500,
            enable_logging: false,
        }
    }
}

impl Default for DtsServiceConfig {
    fn default() -> (r: Self)
        ensures
            r == DtsServiceConfig::standard(),
    {
        DtsServiceConfig {
            tracker: DtsTrackerConfig::default(),
            bandwidth: BandwidthEstimatorConfig::default(),
            bandwidth_update_interval_ms: 500,
            enable_logging: false,
        }
    }
}

/// Which track of a switching set is being forwarded, and where it stands.
#[derive(Clone, Copy, Debug, PartialEq, Eq, Structural)]
pub struct GroupState {
    /// The group being forwarded.
    pub current_group: Option<u64>,
    /// The subscription whose track is being forwarded.
    pub current_track_subscription_id: Option<u64>,
    /// The subscription to switch to at the next group.
    pub pending_switch: Option<u64>,
    /// The first group seen while nothing was forwarded.
    pub buffered_group: Option<u64>,
}

impl GroupState {
    pub open spec fn fresh() -> GroupState {
        GroupState {
            current_group: None,
            current_track_subscription_id: None,
            pending_switch: None,
            buffered_group: None,
        }
    }

    /// An object of the subscription goes out: it belongs to the track being forwarded,
    /// or to the selected track where nothing is forwarded or a new group begins.
    pub open spec fn forwards(self, subscription_id: u64, group_id: u64, selected: bool) -> bool {
        match self.current_track_subscription_id {
            None => selected,
            Some(current) => current == subscription_id || (selected && self.current_group != Some(
                group_id,
            )),
        }
    }

    /// The state once an object of the subscription was seen.
    pub open spec fn after_object(
        self,
        subscription_id: u64,
        group_id: u64,
        selected: bool,
    ) -> GroupState {
        let new_group = self.current_group != Some(group_id);
        match self.current_track_subscription_id {
            None => if selected {
                GroupState {
                    current_track_subscription_id: Some(subscription_id),
                    current_group: Some(group_id),
                    ..self
                }
            } else if self.buffered_group is None {
                GroupState { buffered_group: Some(group_id), ..self }
            } else {
                self
            },
            Some(current) => if !selected {
                self
            } else if new_group {
                GroupState {
                    current_track_subscription_id: Some(subscription_id),
                    current_group: Some(group_id),
                    pending_switch: None,
                    ..self
                }
            } else if current != subscription_id {
                GroupState { pending_switch: Some(subscription_id), ..self }
            } else {
                self
            },
        }
    }

    /// The state once the track being forwarded is gone, if it was this one.
    pub open spec fn without(self, subscription_id: u64) -> GroupState {
        if self.current_track_subscription_id == Some(subscription_id) {
            GroupState {
                current_track_subscription_id: None,
                current_group: None,
                pending_switch: None,
                ..self
            }
        } else {
            self
        }
    }

    /// Takes in an object. Returns whether it goes out.
    pub fn object(&mut self, subscription_id: u64, group_id: u64, selected: bool) -> (r: bool)
        ensures
            r == old(self).forwards(subscription_id, group_id, selected),
            *final(self) == old(self).after_object(subscription_id, group_id, selected),
    {
        let new_group = match self.current_group {
            Some(group) => group != group_id,
            None => true,
        };
        match self.current_track_subscription_id {
            None => {
                if selected {
                    self.current_track_subscription_id = Some(subscription_id);
                    self.current_group = Some(group_id);
                    true
                } else {
                    if self.buffered_group.is_none() {
                        self.buffered_group = Some(group_id);
                    }
                    false
                }
            },
            Some(current) => {
                if !selected {
                    return current == subscription_id;
                }
                if new_group {
                    self.current_track_subscription_id = Some(subscription_id);
                    self.current_group = Some(group_id);
                    self.pending_switch = None;
                    true
                } else if current != subscription_id {
                    self.pending_switch = Some(subscription_id);
                    false
                } else {
                    true
                }
            },
        }
    }
}

impl Default for GroupState {
    fn default() -> (r: Self)
        ensures
            r == GroupState::fresh(),
    {
        GroupState {
            current_group: None,
            current_track_subscription_id: None,
            pending_switch: None,
            buffered_group: None,
        }
    }
}

/// The track being forwarded changes only where a new group begins, and with an object
/// that goes out.
pub proof fn law_switches_at_group_boundary(
    state: GroupState,
    subscription_id: u64,
    group_id: u64,
    selected: bool,
)
    requires
        state.current_track_subscription_id is Some,
        state.after_object(subscription_id, group_id, selected).current_track_subscription_id
            != state.current_track_subscription_id,
    ensures
        selected,
        state.current_group != Some(group_id),
        state.forwards(subscription_id, group_id, selected),
        state.after_object(subscription_id, group_id, selected).current_track_subscription_id
            == Some(subscription_id),
{
}

/// Within one group only one track of a set goes out: once an object of the selected track
/// went out, no object of another track in that group does.
pub proof fn law_one_track_per_group(
    state: GroupState,
    forwarded: u64,
    group_id: u64,
    other: u64,
    other_selected: bool,
)
    requires
        forwarded != other,
        state.forwards(forwarded, group_id, true),
    ensures
        !state.after_object(forwarded, group_id, true).forwards(other, group_id, other_selected),
{
}

/// A track that is neither selected nor being forwarded does not go out.
pub proof fn law_unselected_other_track_is_dropped(
    state: GroupState,
    subscription_id: u64,
    group_id: u64,
)
    requires
        state.current_track_subscription_id != Some(subscription_id),
    ensures
        !state.forwards(subscription_id, group_id, false),
{
}


/// One subscriber's forwarding state.
struct SubscriberDtsServiceState {
    /// The group state of each switching set.
    group_states: HashMap<u64, GroupState>,
    last_bandwidth_update_ms: u64,
}

/// The contents of one subscriber's forwarding state.
#[verifier::ext_equal]
pub struct SubscriberDtsServiceView {
    pub group_states: Map<u64, GroupState>,
    pub last_bandwidth_update_ms: u64,
}

impl SubscriberDtsServiceView {
    pub open spec fn fresh(now_ms: u64) -> SubscriberDtsServiceView {
        SubscriberDtsServiceView {
            group_states: Map::empty(),
            last_bandwidth_update_ms: now_ms,
        }
    }

    /// The group state of a set, a fresh one where there is none.
    pub open spec fn group(self, set_id: u64) -> GroupState {
        if self.group_states.contains_key(set_id) {
            self.group_states[set_id]
        } else {
            GroupState::fresh()
        }
    }

    pub open spec fn with_group(self, set_id: u64, group: GroupState) -> SubscriberDtsServiceView {
        SubscriberDtsServiceView {
            group_states: self.group_states.insert(set_id, group),
            ..self
        }
    }
}

impl View for SubscriberDtsServiceState {
    type V = SubscriberDtsServiceView;

    closed spec fn view(&self) -> SubscriberDtsServiceView {
        SubscriberDtsServiceView {
            group_states: self.group_states@,
            last_bandwidth_update_ms: self.last_bandwidth_update_ms,
        }
    }
}

impl SubscriberDtsServiceState {
    fn new(now_ms: u64) -> (r: Self)
        ensures
            r@ == SubscriberDtsServiceView::fresh(now_ms),
    {
        let r = SubscriberDtsServiceState {
            group_states: HashMap::new(),
            last_bandwidth_update_ms: now_ms,
        };
        assert(r@.group_states =~= Map::<u64, GroupState>::empty());
        r
    }

    fn group(&self, set_id: u64) -> (r: GroupState)
        ensures
            r == self@.group(set_id),
    {
        match self.group_states.get(&set_id) {
            Some(group) => *group,
            None => GroupState::default(),
        }
    }

    fn put_group(&mut self, set_id: u64, group: GroupState)
        ensures
            final(self)@ == old(self)@.with_group(set_id, group),
    {
        self.group_states.insert(set_id, group);
    }
}

/// Bandwidth estimation and track selection for all subscribers.
pub struct DtsService {
    tracker: DtsTracker,
    bandwidth: BandwidthEstimator,
    subscribers: HashMap<u64, SubscriberDtsServiceState>,
    config: DtsServiceConfig,
}

/// `after` is the selection state that registering a track leads to: the track is put in
/// its set, and where the set is active the tracks are selected anew at `bandwidth_kbps`.
pub open spec fn registration_selects(
    registered: SubscriberDtsView,
    assignment: SwitchingSetAssignment,
    bandwidth_kbps: u64,
    config: DtsTrackerConfig,
    now_ms: u64,
    after: SubscriberDtsView,
) -> bool {
    match registered.set_position(assignment.set_id) {
        Some(i) => if registered.sets[i].active {
            exists|activated: SubscriberDtsView, change: SelectionChangeView| #[trigger]
                activation_selects(
                    registered,
                    assignment,
                    config,
                    now_ms,
                    activated,
                ) && #[trigger] (SubscriberDtsView {
                    bandwidth_kbps,
                    last_bandwidth_update_ms: now_ms,
                    ..activated
                }).selects(config, now_ms, after, change)
        } else {
            after == registered
        },
        None => after == registered,
    }
}

/// `activated` is the state once the assignment's activation, if it asks for one, is done.
pub open spec fn activation_selects(
    registered: SubscriberDtsView,
    assignment: SwitchingSetAssignment,
    config: DtsTrackerConfig,
    now_ms: u64,
    activated: SubscriberDtsView,
) -> bool {
    if assignment.activate {
        exists|change: SelectionChangeView| #[trigger]
            registered.activated(assignment.set_id).selects(config, now_ms, activated, change)
    } else {
        activated == registered
    }
}

/// A change that tells of one selection, or of none.
pub open spec fn change_of(selection: Option<TrackSelectionView>) -> SelectionChangeView {
    match selection {
        Some(selection) => SelectionChangeView {
            newly_selected: seq![selection],
            ..SelectionChangeView::empty()
        },
        None => SelectionChangeView::empty(),
    }
}

impl DtsService {
    /// The selection state of each subscriber.
    pub closed spec fn selection(&self) -> Map<u64, SubscriberDtsView> {
        self.tracker@
    }

    /// The bandwidth state of each subscriber.
    pub closed spec fn estimates(&self) -> Map<u64, SubscriberBandwidthView> {
        self.bandwidth@
    }

    /// The forwarding state of each subscriber.
    pub closed spec fn forwarding(&self) -> Map<u64, SubscriberDtsServiceView> {
        self.subscribers@.map_values(|s: SubscriberDtsServiceState| s@)
    }

    /// The configuration in use.
    pub closed spec fn spec_config(&self) -> DtsServiceConfig {
        self.config
    }

    /// The selection states are well-formed, and the parts use the service's configuration.
    pub closed spec fn wf(&self) -> bool {
        &&& self.tracker.wf()
        &&& self.tracker.spec_config() == self.config.tracker
        &&& self.bandwidth.spec_config() == self.config.bandwidth
    }

    /// The bandwidth estimate of a subscriber.
    pub open spec fn bandwidth_of(&self, session_id: u64) -> u64 {
        if self.estimates().contains_key(session_id) {
            self.estimates()[session_id].estimate.bandwidth_kbps
        } else {
            self.spec_config().bandwidth.default_bandwidth_kbps
        }
    }

    /// A service with the standard configuration.
    pub fn new() -> (r: Self)
        ensures
            r.wf(),
            r.selection() == Map::<u64, SubscriberDtsView>::empty(),
            r.estimates() == Map::<u64, SubscriberBandwidthView>::empty(),
            r.forwarding() == Map::<u64, SubscriberDtsServiceView>::empty(),
            r.spec_config() == DtsServiceConfig::standard(),
    {
        Self::with_config(DtsServiceConfig::default())
    }

    pub fn with_config(config: DtsServiceConfig) -> (r: Self)
        ensures
            r.wf(),
            r.selection() == Map::<u64, SubscriberDtsView>::empty(),
            r.estimates() == Map::<u64, SubscriberBandwidthView>::empty(),
            r.forwarding() == Map::<u64, SubscriberDtsServiceView>::empty(),
            r.spec_config() == config,
    {
        let r = DtsService {
            tracker: DtsTracker::with_config(config.tracker),
            bandwidth: BandwidthEstimator::with_config(config.bandwidth),
            subscribers: HashMap::new(),
            config,
        };
        assert(r.forwarding() =~= Map::<u64, SubscriberDtsServiceView>::empty());
        r
    }

    /// Takes the forwarding state of a subscriber out, or a fresh one.
    fn take_or_fresh(&mut self, session_id: u64, now_ms: u64) -> (r: SubscriberDtsServiceState)
        ensures
            final(self).tracker == old(self).tracker,
            final(self).bandwidth == old(self).bandwidth,
            final(self).config == old(self).config,
            final(self).forwarding() == old(self).forwarding().remove(session_id),
            r@ == if old(self).forwarding().contains_key(session_id) {
                old(self).forwarding()[session_id]
            } else {
                SubscriberDtsServiceView::fresh(now_ms)
            },
    {
        let ghost before = self.forwarding();
        let r = match self.subscribers.remove(&session_id) {
            Some(state) => state,
            None => SubscriberDtsServiceState::new(now_ms),
        };
        assert(self.forwarding() =~= before.remove(session_id));
        r
    }

    fn put_forwarding(&mut self, session_id: u64, state: SubscriberDtsServiceState)
        ensures
            final(self).tracker == old(self).tracker,
            final(self).bandwidth == old(self).bandwidth,
            final(self).config == old(self).config,
            final(self).forwarding() == old(self).forwarding().insert(session_id, state@),
    {
        let ghost before = self.forwarding();
        self.subscribers.insert(session_id, state);
        assert(self.forwarding() =~= before.insert(session_id, state@));
    }

    /// Registers a subscriber.
    pub fn register_subscriber(&mut self, session_id: u64, now_ms: u64)
        requires
            old(self).wf(),
        ensures
            final(self).wf(),
            final(self).spec_config() == old(self).spec_config(),
            final(self).selection() == old(self).selection(),
            final(self).estimates() == if old(self).estimates().contains_key(session_id) {
                old(self).estimates()
            } else {
                old(self).estimates().insert(
                    session_id,
                    SubscriberBandwidthView::fresh(
                        old(self).spec_config().bandwidth.default_bandwidth_kbps,
                        now_ms,
                    ),
                )
            },
            final(self).forwarding() == if old(self).forwarding().contains_key(session_id) {
                old(self).forwarding()
            } else {
                old(self).forwarding().insert(session_id, SubscriberDtsServiceView::fresh(now_ms))
            },
    {
        self.bandwidth.register_subscriber(session_id, now_ms);
        if !self.subscribers.contains_key(&session_id) {
            let state = SubscriberDtsServiceState::new(now_ms);
            self.put_forwarding(session_id, state);
        }
    }

    /// Removes a subscriber.
    pub fn remove_subscriber(&mut self, session_id: u64)
        requires
            old(self).wf(),
        ensures
            final(self).wf(),
            final(self).spec_config() == old(self).spec_config(),
            final(self).selection() == old(self).selection().remove(session_id),
            final(self).estimates() == old(self).estimates().remove(session_id),
            final(self).forwarding() == old(self).forwarding().remove(session_id),
    {
        let ghost before = self.forwarding();
        self.tracker.remove_subscriber(session_id);
        self.bandwidth.remove_subscriber(session_id);
        self.subscribers.remove(&session_id);
        assert(self.forwarding() =~= before.remove(session_id));
    }

    /// Registers the track of a subscription that came with a switching-set assignment.
    /// Returns whether it came with one.
    pub fn register_track_from_subscribe(
        &mut self,
        session_id: u64,
        subscription_id: u64,
        namespace: &TrackNamespace,
        track_name: &String,
        assignment: Option<SwitchingSetAssignment>,
        now_ms: u64,
    ) -> (r: bool)
        requires
            old(self).wf(),
        ensures
            final(self).wf(),
            final(self).spec_config() == old(self).spec_config(),
            final(self).estimates() == old(self).estimates(),
            r == (assignment is Some),
            match assignment {
                None => final(self).selection() == old(self).selection()
                    && final(self).forwarding() == old(self).forwarding(),
                Some(assignment) => {
                    let track = DtsTrackView {
                        namespace: namespace@,
                        track_name: track_name@,
                        throughput_kbps: assignment.throughput_kbps,
                        subscription_id,
                    };
                    let state = if old(self).selection().contains_key(session_id) {
                        old(self).selection()[session_id]
                    } else {
                        SubscriberDtsView::fresh(now_ms)
                    };
                    let groups = if old(self).forwarding().contains_key(session_id) {
                        old(self).forwarding()[session_id]
                    } else {
                        SubscriberDtsServiceView::fresh(now_ms)
                    };
                    &&& final(self).selection() == old(self).selection().insert(
                        session_id,
                        final(self).selection()[session_id],
                    )
                    &&& registration_selects(
                        state.registered(track, assignment, now_ms),
                        assignment,
                        old(self).bandwidth_of(session_id),
                        old(self).spec_config().tracker,
                        now_ms,
                        final(self).selection()[session_id],
                    )
                    &&& final(self).forwarding() == old(self).forwarding().insert(
                        session_id,
                        groups.with_group(assignment.set_id, groups.group(assignment.set_id)),
                    )
                },
            },
    {
        let assignment = match assignment {
            Some(assignment) => assignment,
            None => return false,
        };
        let ghost before = self.selection();
        let ghost config = self.config.tracker;
        self.tracker.register_track(
            session_id,
            subscription_id,
            namespace.clone(),
            track_name.clone(),
            &assignment,
            now_ms,
        );
        let ghost registered = self.tracker@[session_id];
        proof {
            let state = if before.contains_key(session_id) {
                before[session_id]
            } else {
                SubscriberDtsView::fresh(now_ms)
            };
            let track = DtsTrackView {
                namespace: namespace@,
                track_name: track_name@,
                throughput_kbps: assignment.throughput_kbps,
                subscription_id,
            };
            assert(self.tracker@.contains_key(session_id));
            dts_tracker::law_registered_set_is_there(state, track, assignment, now_ms);
        }
        let ghost old_forwarding = self.forwarding();
        let mut groups = self.take_or_fresh(session_id, now_ms);
        let group = groups.group(assignment.set_id);
        groups.put_group(assignment.set_id, group);
        self.put_forwarding(session_id, groups);
        assert(self.forwarding() =~= old_forwarding.insert(session_id, groups@));

        let set_active = self.tracker.is_set_active(session_id, assignment.set_id);
        if assignment.activate {
            let change = self.tracker.activate_set(session_id, assignment.set_id, now_ms);
            assert(registered.activated(assignment.set_id).selects(
                config,
                now_ms,
                self.tracker@[session_id],
                change@,
            ));
        }
        let ghost activated = self.tracker@[session_id];
        assert(activation_selects(registered, assignment, config, now_ms, activated));
        if assignment.activate || set_active {
            let bandwidth_kbps: u64 = self.bandwidth.get_bandwidth_kbps(session_id);
            let change = self.tracker.update_bandwidth(session_id, bandwidth_kbps, now_ms);
            assert((SubscriberDtsView {
                bandwidth_kbps,
                last_bandwidth_update_ms: now_ms,
                ..activated
            }).selects(config, now_ms, self.tracker@[session_id], change@));
        }
        assert(self.selection() =~= before.insert(session_id, self.selection()[session_id]));
        true
    }
}


impl DtsService {
    /// Removes the track of a subscription. Returns the track that is selected in its place,
    /// if it was the selected one.
    pub fn remove_track(
        &mut self,
        session_id: u64,
        subscription_id: u64,
        now_ms: u64,
    ) -> (change: SelectionChange)
        requires
            old(self).wf(),
        ensures
            final(self).wf(),
            final(self).spec_config() == old(self).spec_config(),
            final(self).estimates() == old(self).estimates(),
            ({
                let state = old(self).selection()[session_id];
                let groups = old(self).forwarding()[session_id];
                if !old(self).selection().contains_key(session_id) || state.subscription_position(
                    subscription_id,
                ) is None {
                    &&& change@ == SelectionChangeView::empty()
                    &&& final(self).selection() == old(self).selection()
                    &&& final(self).forwarding() == old(self).forwarding()
                } else {
                    let set_id = state.sets[state.subscription_position(subscription_id)->0].set_id;
                    let after = final(self).selection()[session_id];
                    &&& final(self).selection() == old(self).selection().insert(session_id, after)
                    &&& state.removal_selects(
                        subscription_id,
                        old(self).spec_config().tracker,
                        now_ms,
                        after,
                    )
                    &&& change@ == if state.removes_selected(subscription_id) {
                        change_of(after.selection_for_set(set_id))
                    } else {
                        SelectionChangeView::empty()
                    }
                    &&& final(self).forwarding() == if old(self).forwarding().contains_key(
                        session_id,
                    ) && groups.group_states.contains_key(set_id) {
                        old(self).forwarding().insert(
                            session_id,
                            groups.with_group(
                                set_id,
                                groups.group_states[set_id].without(subscription_id),
                            ),
                        )
                    } else {
                        old(self).forwarding()
                    }
                }
            }),
    {
        let set_id: u64 = match self.tracker.get_track_set_id(session_id, subscription_id) {
            Some(set_id) => set_id,
            None => {
                self.tracker.remove_track(session_id, subscription_id, now_ms);
                return SelectionChange::default();
            },
        };
        let was_selected = self.tracker.removes_selected(session_id, subscription_id);
        let ghost before = self.forwarding();
        self.tracker.remove_track(session_id, subscription_id, now_ms);
        if self.subscribers.contains_key(&session_id) {
            let mut groups = self.take_or_fresh(session_id, now_ms);
            if groups.group_states.contains_key(&set_id) {
                let mut group = groups.group(set_id);
                let is_current = match group.current_track_subscription_id {
                    Some(current) => current == subscription_id,
                    None => false,
                };
                if is_current {
                    group.current_track_subscription_id = None;
                    group.current_group = None;
                    group.pending_switch = None;
                }
                groups.put_group(set_id, group);
            }
            self.put_forwarding(session_id, groups);
            assert(self.forwarding() =~= before.insert(session_id, groups@));
            assert(before.insert(session_id, before[session_id]) =~= before);
        }
        if !was_selected {
            return SelectionChange::default();
        }
        match self.tracker.get_selection_for_set(session_id, set_id) {
            Some(selection) => {
                let mut change = SelectionChange::default();
                change.newly_selected.push(selection);
                assert(change@ =~= change_of(Some(selection@)));
                change
            },
            None => SelectionChange::default(),
        }
    }

    /// `after` and `change` are what selecting anew at `bandwidth_kbps` makes of the
    /// selection states.
    pub open spec fn reselects(
        &self,
        session_id: u64,
        bandwidth_kbps: u64,
        now_ms: u64,
        after: Map<u64, SubscriberDtsView>,
        change: SelectionChangeView,
    ) -> bool {
        if self.selection().contains_key(session_id) {
            &&& after == self.selection().insert(session_id, after[session_id])
            &&& (SubscriberDtsView {
                bandwidth_kbps,
                last_bandwidth_update_ms: now_ms,
                ..self.selection()[session_id]
            }).selects(self.spec_config().tracker, now_ms, after[session_id], change)
        } else {
            after == self.selection() && change == SelectionChangeView::empty()
        }
    }

    /// Takes in figures of the QUIC congestion controller and selects anew.
    pub fn update_bandwidth_from_quic(
        &mut self,
        session_id: u64,
        pacing_rate_bps: Option<u64>,
        cwnd_bytes: u64,
        rtt_ms: u64,
        now_ms: u64,
    ) -> (change: SelectionChange)
        requires
            old(self).wf(),
            bandwidth::quic_figures_in_range(pacing_rate_bps, cwnd_bytes, rtt_ms),
        ensures
            final(self).wf(),
            final(self).spec_config() == old(self).spec_config(),
            final(self).forwarding() == old(self).forwarding(),
            final(self).estimates() == match bandwidth::quic_kbps(
                pacing_rate_bps,
                cwnd_bytes,
                rtt_ms,
            ) {
                Some(kbps) => if old(self).estimates().contains_key(session_id) {
                    old(self).estimates().insert(
                        session_id,
                        old(self).estimates()[session_id].with_quic(
                            kbps as u64,
                            old(self).spec_config().bandwidth,
                            now_ms,
                        ),
                    )
                } else {
                    old(self).estimates()
                },
                None => old(self).estimates(),
            },
            old(self).reselects(
                session_id,
                final(self).bandwidth_of(session_id),
                now_ms,
                final(self).selection(),
                change@,
            ),
    {
        self.bandwidth.update_quic_estimate(
            session_id,
            pacing_rate_bps,
            cwnd_bytes,
            rtt_ms,
            now_ms,
        );
        let bandwidth_kbps: u64 = self.bandwidth.get_bandwidth_kbps(session_id);
        self.tracker.update_bandwidth(session_id, bandwidth_kbps, now_ms)
    }

    /// Counts bytes sent to a subscriber. Hands out a throughput sample that falls due.
    pub fn record_bytes_sent(
        &mut self,
        session_id: u64,
        bytes: u64,
        now_ms: u64,
    ) -> (r: Option<ThroughputSample>)
        requires
            old(self).wf(),
        ensures
            final(self).wf(),
            final(self).spec_config() == old(self).spec_config(),
            final(self).selection() == old(self).selection(),
            final(self).forwarding() == old(self).forwarding(),
            if old(self).estimates().contains_key(session_id) {
                let config = old(self).spec_config().bandwidth;
                let state = old(self).estimates()[session_id];
                let counted = SubscriberBandwidthView {
                    throughput: state.throughput.recorded(bytes, config, now_ms),
                    ..state
                };
                if state.throughput.sample_due(config, now_ms) {
                    &&& r == Some(
                        ThroughputSample {
                            bytes: bandwidth::saturating_sum(
                                state.throughput.current_bytes,
                                bytes,
                            ),
                            elapsed_ms: (now_ms - state.throughput.last_sample_ms) as u64,
                        },
                    )
                    &&& final(self).estimates() == old(self).estimates().insert(
                        session_id,
                        counted,
                    )
                } else {
                    &&& r is None
                    &&& final(self).estimates() == old(self).estimates().insert(
                        session_id,
                        counted.refreshed(config, now_ms),
                    )
                }
            } else {
                r is None && final(self).estimates() == old(self).estimates()
            },
    {
        self.bandwidth.record_bytes_sent(session_id, bytes, now_ms)
    }

    /// Takes in the smoothed throughput of a subscriber.
    pub fn report_throughput(&mut self, session_id: u64, kbps: u64, now_ms: u64)
        requires
            old(self).wf(),
        ensures
            final(self).wf(),
            final(self).spec_config() == old(self).spec_config(),
            final(self).selection() == old(self).selection(),
            final(self).forwarding() == old(self).forwarding(),
            final(self).estimates() == if old(self).estimates().contains_key(session_id) {
                old(self).estimates().insert(
                    session_id,
                    old(self).estimates()[session_id].with_throughput(
                        kbps,
                        old(self).spec_config().bandwidth,
                        now_ms,
                    ),
                )
            } else {
                old(self).estimates()
            },
    {
        self.bandwidth.report_throughput(session_id, kbps, now_ms)
    }

    /// Sets the bandwidth of a subscriber and selects anew.
    pub fn set_bandwidth(&mut self, session_id: u64, bandwidth_kbps: u64, now_ms: u64) -> (change:
        SelectionChange)
        requires
            old(self).wf(),
        ensures
            final(self).wf(),
            final(self).spec_config() == old(self).spec_config(),
            final(self).forwarding() == old(self).forwarding(),
            final(self).bandwidth_of(session_id) == bandwidth_kbps,
            final(self).estimates() == old(self).estimates().insert(
                session_id,
                SubscriberBandwidthView {
                    estimate: bandwidth::BandwidthEstimate {
                        bandwidth_kbps,
                        source: bandwidth::BandwidthSource::Combined,
                        last_update_ms: now_ms,
                    },
                    ..if old(self).estimates().contains_key(session_id) {
                        old(self).estimates()[session_id]
                    } else {
                        SubscriberBandwidthView::fresh(bandwidth_kbps, now_ms)
                    }
                },
            ),
            old(self).reselects(
                session_id,
                bandwidth_kbps,
                now_ms,
                final(self).selection(),
                change@,
            ),
    {
        self.bandwidth.set_bandwidth(session_id, bandwidth_kbps, now_ms);
        self.tracker.update_bandwidth(session_id, bandwidth_kbps, now_ms)
    }

    /// The id of the set that the subscription's track is in.
    pub open spec fn set_of(&self, session_id: u64, subscription_id: u64) -> Option<u64> {
        if self.selection().contains_key(session_id) {
            match self.selection()[session_id].subscription_position(subscription_id) {
                Some(i) => Some(self.selection()[session_id].sets[i].set_id),
                None => None,
            }
        } else {
            None
        }
    }

    /// The subscription's track is selected.
    pub open spec fn selected(&self, session_id: u64, subscription_id: u64) -> bool {
        self.selection().contains_key(session_id)
            && self.selection()[session_id].subscription_selected(subscription_id)
    }

    /// Whether an object goes out to a subscriber. A track outside any switching set always
    /// does; one in a set does as its group state tells.
    pub fn should_forward_object(
        &mut self,
        session_id: u64,
        subscription_id: u64,
        group_id: u64,
        _object_id: u64,
    ) -> (r: bool)
        requires
            old(self).wf(),
        ensures
            final(self).wf(),
            final(self).spec_config() == old(self).spec_config(),
            final(self).selection() == old(self).selection(),
            final(self).estimates() == old(self).estimates(),
            match old(self).set_of(session_id, subscription_id) {
                None => r && final(self).forwarding() == old(self).forwarding(),
                Some(set_id) => {
                    let selected = old(self).selected(session_id, subscription_id);
                    if old(self).forwarding().contains_key(session_id) {
                        let groups = old(self).forwarding()[session_id];
                        let group = groups.group(set_id);
                        &&& r == group.forwards(subscription_id, group_id, selected)
                        &&& final(self).forwarding() == old(self).forwarding().insert(
                            session_id,
                            groups.with_group(
                                set_id,
                                group.after_object(subscription_id, group_id, selected),
                            ),
                        )
                    } else {
                        r == selected && final(self).forwarding() == old(self).forwarding()
                    }
                },
            },
    {
        let set_id: u64 = match self.tracker.get_track_set_id(session_id, subscription_id) {
            Some(set_id) => set_id,
            None => return true,
        };
        let selected = self.tracker.is_track_selected(session_id, subscription_id);
        if !self.subscribers.contains_key(&session_id) {
            return selected;
        }
        let ghost before = self.forwarding();
        let mut groups = self.take_or_fresh(session_id, 0);
        let mut group = groups.group(set_id);
        let r = group.object(subscription_id, group_id, selected);
        groups.put_group(set_id, group);
        self.put_forwarding(session_id, groups);
        assert(self.forwarding() =~= before.insert(session_id, groups@));
        r
    }

    /// Whether the subscription's track is selected, whatever is being forwarded.
    pub fn is_track_selected(&self, session_id: u64, subscription_id: u64) -> (r: bool)
        ensures
            r == self.selected(session_id, subscription_id),
    {
        self.tracker.is_track_selected(session_id, subscription_id)
    }

    /// Whether the subscription's track is in a switching set.
    pub fn is_track_in_switching_set(&self, session_id: u64, subscription_id: u64) -> (r: bool)
        ensures
            r == (self.set_of(session_id, subscription_id) is Some),
    {
        self.tracker.is_track_in_switching_set(session_id, subscription_id)
    }

    /// Whether the switching set that the subscription's track is in is active.
    pub fn is_set_active_for_track(&self, session_id: u64, subscription_id: u64) -> (r: bool)
        ensures
            r == (self.selection().contains_key(session_id)
                && match self.selection()[session_id].subscription_position(subscription_id) {
                Some(i) => self.selection()[session_id].sets[i].active,
                None => false,
            }),
    {
        self.tracker.is_set_active_for_track(session_id, subscription_id)
    }

    /// The current selections of a subscriber's active sets.
    pub fn get_selections(&self, session_id: u64) -> (r: Vec<TrackSelection>)
        ensures
            r@.map_values(|s: TrackSelection| s@) == if self.selection().contains_key(session_id) {
                dts_tracker::active_selections(
                    self.selection()[session_id].sets,
                    self.selection()[session_id].sets.len(),
                )
            } else {
                Seq::empty()
            },
    {
        self.tracker.get_selections(session_id)
    }

    /// The bandwidth estimate of a subscriber in kbps.
    pub fn get_bandwidth_kbps(&self, session_id: u64) -> (r: u64)
        requires
            self.wf(),
        ensures
            r == self.bandwidth_of(session_id),
    {
        self.bandwidth.get_bandwidth_kbps(session_id)
    }
}

impl Default for DtsService {
    fn default() -> (r: Self)
        ensures
            r.wf(),
            r.selection() == Map::<u64, SubscriberDtsView>::empty(),
            r.estimates() == Map::<u64, SubscriberBandwidthView>::empty(),
            r.forwarding() == Map::<u64, SubscriberDtsServiceView>::empty(),
            r.spec_config() == DtsServiceConfig::standard(),
    {
        Self::new()
    }
}

/// What goes out of a set: while no track is being forwarded, objects of a selected track; else the
/// objects of the track being forwarded, and those of a selected track that begin another group.
pub proof fn law_what_goes_out(
    state: GroupState,
    subscription_id: u64,
    group_id: u64,
    selected: bool,
)
    ensures
        state.current_track_subscription_id is None ==> state.forwards(
            subscription_id,
            group_id,
            selected,
        ) == selected,
        state.current_track_subscription_id == Some(subscription_id) ==> state.forwards(
            subscription_id,
            group_id,
            selected,
        ),
        state.current_track_subscription_id is Some && state.current_track_subscription_id
            != Some(subscription_id) && state.current_group == Some(group_id) ==> !state.forwards(
            subscription_id,
            group_id,
            selected,
        ),
        selected && state.current_group != Some(group_id) ==> state.forwards(
            subscription_id,
            group_id,
            selected,
        ),
{
}

/// A selected track whose object goes out at the start of a group is the one being forwarded from
/// then on. In the middle of a group of another track its switch is noted and waits for the next
/// group. A track that is not selected changes nothing while another one is being forwarded.
pub proof fn law_selected_track_takes_over(
    state: GroupState,
    subscription_id: u64,
    group_id: u64,
    next_group: u64,
)
    ensures
        ({
            let after = state.after_object(subscription_id, group_id, true);
            let waits = state.current_track_subscription_id is Some
                && state.current_track_subscription_id != Some(subscription_id)
                && state.current_group == Some(group_id);
            &&& !waits ==> after.current_track_subscription_id == Some(subscription_id)
                && after.current_group == Some(group_id)
            &&& waits ==> after.pending_switch == Some(subscription_id)
                && after.current_track_subscription_id == state.current_track_subscription_id
                && after.current_group == state.current_group
            &&& waits && next_group != group_id ==> after.forwards(
                subscription_id,
                next_group,
                true,
            )
            &&& state.current_track_subscription_id is Some && state.current_group != Some(
                group_id,
            ) ==> after.pending_switch is None
        }),
        state.current_track_subscription_id is Some ==> state.after_object(
            subscription_id,
            group_id,
            false,
        ) == state,
        state.current_track_subscription_id is None ==> state.after_object(
            subscription_id,
            group_id,
            false,
        ).current_track_subscription_id is None,
{
}

/// Once the track being forwarded is gone, a selected track goes out at once, in whatever group.
/// The end of another track changes nothing.
pub proof fn law_next_track_goes_out_at_once(
    state: GroupState,
    gone: u64,
    next: u64,
    group_id: u64,
)
    ensures
        state.current_track_subscription_id == Some(gone) ==> state.without(gone).forwards(
            next,
            group_id,
            true,
        ) && !state.without(gone).forwards(next, group_id, false),
        state.current_track_subscription_id != Some(gone) ==> state.without(gone) == state,
{
}

/// Each set has a state of its own, in which nothing is being forwarded at first.
pub proof fn law_sets_are_forwarded_apart(
    state: SubscriberDtsServiceView,
    set_id: u64,
    group: GroupState,
    other: u64,
)
    ensures
        state.with_group(set_id, group).group(set_id) == group,
        other != set_id ==> state.with_group(set_id, group).group(other) == state.group(other),
        !state.group_states.contains_key(set_id) ==> state.group(
            set_id,
        ).current_track_subscription_id is None && state.group(set_id).current_group is None
            && state.group(set_id).pending_switch is None,
{
}

/// A track that is registered in a set that is not active leaves the selection alone. In an active
/// set the tracks are selected anew, at the bandwidth that is known.
pub proof fn law_registration_selects_in_active_sets(
    registered: SubscriberDtsView,
    assignment: SwitchingSetAssignment,
    bandwidth_kbps: u64,
    config: DtsTrackerConfig,
    now_ms: u64,
    after: SubscriberDtsView,
    i: int,
)
    requires
        registered.wf(),
        0 <= i < registered.sets.len(),
        registered.sets[i].set_id == assignment.set_id,
        registered.set_position(assignment.set_id) == Some(i),
        registration_selects(registered, assignment, bandwidth_kbps, config, now_ms, after),
    ensures
        !registered.sets[i].active ==> after == registered,
        registered.sets[i].active ==> after.bandwidth_kbps == bandwidth_kbps
            && after.last_bandwidth_update_ms == now_ms,
        registered.sets[i].active && !assignment.activate ==> exists|change: SelectionChangeView|
         #[trigger]
            (SubscriberDtsView {
                bandwidth_kbps,
                last_bandwidth_update_ms: now_ms,
                ..registered
            }).selects(config, now_ms, after, change),
{
}

/// A change after a removal tells of the selection that took over, if there is one, and of nothing
/// else.
pub proof fn law_removal_tells_of_the_next(selection: TrackSelectionView)
    ensures
        change_of(Some(selection)).newly_selected == seq![selection],
        change_of(Some(selection)).deselected.len() == 0,
        change_of(Some(selection)).switched.len() == 0,
        change_of(None).newly_selected.len() == 0,
        change_of(None).deselected.len() == 0,
        change_of(None).switched.len() == 0,
{
}

/// Selecting anew is for one subscriber, who has the bandwidth it was asked with afterwards; the
/// others keep what they have. Nothing is selected for one who is not known.
pub proof fn law_reselection_is_for_one(
    service: DtsService,
    session_id: u64,
    bandwidth_kbps: u64,
    now_ms: u64,
    after: Map<u64, SubscriberDtsView>,
    change: SelectionChangeView,
    other: u64,
)
    requires
        service.reselects(session_id, bandwidth_kbps, now_ms, after, change),
        other != session_id,
    ensures
        service.selection().contains_key(session_id) ==> after.contains_key(session_id)
            && after[session_id].bandwidth_kbps == bandwidth_kbps,
        !service.selection().contains_key(session_id) ==> after == service.selection()
            && change.newly_selected.len() == 0 && change.switched.len() == 0
            && change.deselected.len() == 0,
        after.contains_key(other) == service.selection().contains_key(other),
        after.contains_key(other) ==> after[other] == service.selection()[other],
{
}

/// The set of a subscription is one of the sets of the session that has a track with it.
pub proof fn law_set_of_a_subscription_has_it(
    service: DtsService,
    session_id: u64,
    subscription_id: u64,
)
    requires
        service.selection().contains_key(session_id),
        service.selection()[session_id].wf(),
    ensures
        match service.set_of(session_id, subscription_id) {
            Some(set_id) => exists|i: int, j: int|
                0 <= i < service.selection()[session_id].sets.len() && 0 <= j
                    < service.selection()[session_id].sets[i].tracks.len() && (
                #[trigger] service.selection()[session_id].sets[i].tracks[j]).subscription_id
                    == subscription_id && service.selection()[session_id].sets[i].set_id == set_id,
            None => forall|i: int, j: int|
                0 <= i < service.selection()[session_id].sets.len() && 0 <= j
                    < service.selection()[session_id].sets[i].tracks.len() ==> (
                #[trigger] service.selection()[session_id].sets[i].tracks[j]).subscription_id
                    != subscription_id,
        },
{
    let state = service.selection()[session_id];
    dts_tracker::law_subscriptions_are_found(state, subscription_id);
    match state.subscription_position(subscription_id) {
        Some(i) => {
            let pos = state.track_position(i, subscription_id);
            assert(state.sets[i].tracks[pos].subscription_id == subscription_id);
        },
        None => {},
    }
}

/// The bandwidth of a session is its estimate, or the default while there is none.
pub proof fn law_bandwidth_is_the_estimate(service: DtsService, session_id: u64)
    ensures
        service.estimates().contains_key(session_id) ==> service.bandwidth_of(session_id)
            == service.estimates()[session_id].estimate.bandwidth_kbps,
        !service.estimates().contains_key(session_id) ==> service.bandwidth_of(session_id)
            == service.spec_config().bandwidth.default_bandwidth_kbps,
{
}

/// Unless told otherwise, a service looks at bandwidths twice a second, logs nothing, and leaves its
/// parts as they are.
pub proof fn law_standard_service_leaves_its_parts()
    ensures
        ({
            let config = DtsServiceConfig::standard();
            &&& config.bandwidth_update_interval_ms * 2 == 1000
            &&& !config.enable_logging
            &&& config.tracker == DtsTrackerConfig::standard()
            &&& config.bandwidth == BandwidthEstimatorConfig::standard()
        }),
{
}

/// While no track is being forwarded, the first group that passes by is kept in mind until a track
/// is selected, and nothing else is. No object changes what was kept in mind later.
pub proof fn law_first_group_that_passes_by_is_kept(
    state: GroupState,
    subscription_id: u64,
    group_id: u64,
    selected: bool,
)
    ensures
        ({
            let after = state.after_object(subscription_id, group_id, selected);
            let idle = state.current_track_subscription_id is None && !selected;
            &&& idle && state.buffered_group is None ==> after.buffered_group == Some(group_id)
            &&& !idle || state.buffered_group is Some ==> after.buffered_group
                == state.buffered_group
            &&& idle ==> after.current_group == state.current_group && after.pending_switch
                == state.pending_switch
        }),
        GroupState::fresh().buffered_group is None,
{
}

/// A track is selected for a session that is known and whose sets select it.
pub proof fn law_unknown_session_selects_nothing(
    service: DtsService,
    session_id: u64,
    subscription_id: u64,
)
    ensures
        !service.selection().contains_key(session_id) ==> !service.selected(
            session_id,
            subscription_id,
        ) && service.set_of(session_id, subscription_id) is None,
        service.selection().contains_key(session_id) ==> service.selected(
            session_id,
            subscription_id,
        ) == service.selection()[session_id].subscription_selected(subscription_id),
{
}

} // verus!
