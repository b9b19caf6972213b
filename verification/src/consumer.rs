//! What a relay does when a peer publishes.

use vstd::prelude::*;
use crate::local::{self, Locals, ServeError, TrackInfo};
use crate::namespace::TrackNamespace;
use crate::subscriber_registry::{self, RankingEvent, RegistryView, SubscriberRegistry};

verus! {

/// The extension that carries the audio level of a track.
pub const AUDIO_LEVEL_EXT: u64 = 0x12;

/// The parameter that says whether a publisher sends objects.
pub const FORWARD_PARAM: u64 = 0x10;

/// The value of a parameter or an extension.
#[derive(Debug)]
pub enum Value {
    IntValue(u64),
    BytesValue(Vec<u8>),
}

/// A parameter or an extension.
#[derive(Debug)]
pub struct KeyValuePair {
    pub key: u64,
    pub value: Value,
}

/// The integer that the first of the first `n` pairs with a key holds.
pub open spec fn first_int(pairs: Seq<KeyValuePair>, key: u64, n: int) -> Option<Option<u64>>
    decreases n,
{
    if n <= 0 {
        None
    } else {
        match first_int(pairs, key, n - 1) {
            Some(value) => Some(value),
            None => if pairs[n - 1].key == key {
                match pairs[n - 1].value {
                    Value::IntValue(value) => Some(Some(value)),
                    Value::BytesValue(_) => Some(None),
                }
            } else {
                None
            },
        }
    }
}

/// The integer that the first pair with a key holds. `None` if there is no pair with the key, or
/// if the first one holds no integer.
pub open spec fn int_in(pairs: Seq<KeyValuePair>, key: u64) -> Option<u64> {
    match first_int(pairs, key, pairs.len() as int) {
        Some(value) => value,
        None => None,
    }
}

proof fn lemma_first_int_stays(pairs: Seq<KeyValuePair>, key: u64, m: int, n: int)
    requires
        0 <= m <= n,
        first_int(pairs, key, m) is Some,
    ensures
        first_int(pairs, key, n) == first_int(pairs, key, m),
    decreases n,
{
    if m < n {
        lemma_first_int_stays(pairs, key, m, n - 1);
    }
}

/// The integer that the first pair with a key holds, if it holds one.
pub fn int_value(pairs: &Vec<KeyValuePair>, key: u64) -> (r: Option<u64>)
    ensures
        r == int_in(pairs@, key),
{
    let n: usize = pairs.len();
    let mut i: usize = 0;
    while i < n
        invariant
            i <= n,
            n == pairs@.len(),
            first_int(pairs@, key, i as int) is None,
        decreases n - i,
    {
        if pairs[i].key == key {
            proof {
                lemma_first_int_stays(pairs@, key, i + 1, n as int);
            }
            return match &pairs[i].value {
                Value::IntValue(value) => Some(*value),
                Value::BytesValue(_) => None,
            };
        }
        i += 1;
    }
    None
}

/// A track that a peer publishes.
#[derive(Debug)]
pub struct PublishInfo {
    /// The identifier of the request.
    pub id: u64,
    pub track_namespace: TrackNamespace,
    pub track_name: String,
    pub track_alias: u64,
    /// Whether the peer sends objects already.
    pub forward: bool,
    pub track_extensions: Vec<KeyValuePair>,
}

/// The answer to a peer that may publish. It asks the peer to send objects.
#[derive(Debug, Clone, Copy, PartialEq, Eq)]
pub struct PublishOk {
    pub id: u64,
    /// The parameter of the answer, and its value.
    pub forward: (u64, u64),
}

/// Asks a peer that publishes a track, but does not send objects, to send them.
#[derive(Debug, Clone, Copy, PartialEq, Eq)]
pub struct RequestUpdate {
    pub id: u64,
    pub existing_request_id: u64,
    /// The parameter of the request, and its value.
    pub forward: (u64, u64),
}

/// Why a peer may not publish a track.
#[derive(Debug)]
pub struct Rejection {
    pub error: ServeError,
    pub reason: &'static str,
}

/// What becomes of a track that a peer publishes.
#[derive(Debug)]
pub enum PublishOutcome {
    /// The peer is told that it may not publish the track.
    Rejected(Rejection),
    /// The track cannot be put under its namespace, which is not registered.
    NoNamespace,
    /// The peer may publish the track.
    Accepted(AcceptedPublish),
}

/// What is to be done for a track that a peer may publish.
#[derive(Debug)]
pub struct AcceptedPublish {
    /// The answer to the peer.
    pub ok: PublishOk,
    /// The peer has to be asked to send objects once somebody wants them.
    pub paused: bool,
}

/// What is said of a peer that may not publish.
pub open spec fn rejection_text(error: ServeError) -> Seq<char> {
    match error {
        ServeError::Uninterested => "Already subscribed"@,
        ServeError::Duplicate => "Already publishing"@,
    }
}

/// The registry after a track was published, and the subscriptions to tell: if the track has an
/// audio level, it is ranked by it first.
pub open spec fn announced(
    before: RegistryView,
    publish: PublishInfo,
    session_id: u64,
    closed: Seq<u64>,
    now_ms: u64,
    listeners: Seq<u64>,
    after: RegistryView,
) -> bool {
    exists|ranked: RegistryView|
        {
            &&& match int_in(publish.track_extensions@, AUDIO_LEVEL_EXT) {
                Some(level) => before.track_registered(
                    publish.track_namespace@,
                    publish.track_name@,
                    AUDIO_LEVEL_EXT,
                    level,
                    session_id,
                    now_ms,
                    ranked,
                ),
                None => ranked == before,
            }
            &&& listeners == #[trigger] ranked.publish_listeners(
                publish.track_namespace@,
                publish.track_name@,
                session_id,
                closed,
            )
            &&& after == ranked.told(listeners, publish.track_namespace@, publish.track_name@)
        }
}

/// Notes a track that a peer was told it may publish, and finds the subscriptions to tell of it.
/// Those in `closed` are not told, nor are those of the session that publishes it.
pub fn announce(
    registry: &mut SubscriberRegistry,
    publish: &PublishInfo,
    session_id: u64,
    closed: &Vec<u64>,
    now_ms: u64,
) -> (listeners: Vec<u64>)
    requires
        old(registry).wf(),
    ensures
        final(registry).wf(),
        announced(
            old(registry)@,
            *publish,
            session_id,
            closed@,
            now_ms,
            listeners@,
            final(registry)@,
        ),
{
    if let Some(level) = int_value(&publish.track_extensions, AUDIO_LEVEL_EXT) {
        registry.register_track(
            &publish.track_namespace,
            &publish.track_name,
            AUDIO_LEVEL_EXT,
            level,
            session_id,
            now_ms,
        );
    }
    registry.notify_publish(&publish.track_namespace, &publish.track_name, session_id, closed)
}

/// What is told of a track in the rankings that is going to be published.
pub fn publish_events(registry: &SubscriberRegistry, publish: &PublishInfo, session_id: u64) -> (r:
    Vec<RankingEvent>)
    ensures
        r@ == match int_in(publish.track_extensions@, AUDIO_LEVEL_EXT) {
            Some(level) => registry@.registration_events(
                publish.track_namespace@,
                publish.track_name@,
                AUDIO_LEVEL_EXT,
                level,
                session_id,
            ),
            None => Seq::empty(),
        },
{
    match int_value(&publish.track_extensions, AUDIO_LEVEL_EXT) {
        Some(level) => registry.registration_events(
            &publish.track_namespace,
            &publish.track_name,
            AUDIO_LEVEL_EXT,
            level,
            session_id,
        ),
        None => Vec::new(),
    }
}

/// Serves a track that a peer publishes. `track` is what is known of the track. Once the peer has
/// been answered that it may publish, the track is announced.
pub fn serve_publish<T, K>(locals: &Locals<T, K>, track: &mut TrackInfo, publish: &PublishInfo) -> (r:
    PublishOutcome)
    requires
        locals.wf(),
    ensures
        final(track)@ == old(track)@.published(),
        match r {
            PublishOutcome::Rejected(rejection) => {
                &&& old(track)@.publish_result() == Err::<(), ServeError>(rejection.error)
                &&& rejection.reason@ == rejection_text(rejection.error)
            },
            PublishOutcome::NoNamespace => {
                &&& old(track)@.publish_result() is Ok
                &&& !local::registered(locals@, publish.track_namespace@)
            },
            PublishOutcome::Accepted(accepted) => {
                &&& old(track)@.publish_result() is Ok
                &&& local::registered(locals@, publish.track_namespace@)
                &&& accepted.ok == (PublishOk { id: publish.id, forward: (FORWARD_PARAM, 1) })
                &&& accepted.paused == !publish.forward
            },
        },
{
    match track.publish_arrived() {
        Ok(_) => {},
        Err(ServeError::Uninterested) => {
            return PublishOutcome::Rejected(
                Rejection { error: ServeError::Uninterested, reason: "Already subscribed" },
            );
        },
        Err(ServeError::Duplicate) => {
            return PublishOutcome::Rejected(
                Rejection { error: ServeError::Duplicate, reason: "Already publishing" },
            );
        },
    }
    if locals.insert_track(&publish.track_namespace).is_none() {
        return PublishOutcome::NoNamespace;
    }
    PublishOutcome::Accepted(
        AcceptedPublish {
            ok: PublishOk { id: publish.id, forward: (FORWARD_PARAM, 1) },
            paused: !publish.forward,
        },
    )
}

/// What to send to the publisher of a paused track when it becomes known whether somebody wants
/// objects.
pub fn forward_changed(wanted: bool, next_request_id: u64, publish_request_id: u64) -> (r: Option<
    RequestUpdate,
>)
    ensures
        r == (if wanted {
            Some(
                RequestUpdate {
                    id: next_request_id,
                    existing_request_id: publish_request_id,
                    forward: (FORWARD_PARAM, 1),
                },
            )
        } else {
            None
        }),
{
    if wanted {
        Some(
            RequestUpdate {
                id: next_request_id,
                existing_request_id: publish_request_id,
                forward: (FORWARD_PARAM, 1),
            },
        )
    } else {
        None
    }
}

/// Watches the audio level of a track, so that the rankings are told of each change once.
#[derive(Debug, Clone, Copy, PartialEq, Eq, Structural)]
pub struct IngestObserver {
    /// The largest value stands for none.
    pub last_value: u64,
}

impl IngestObserver {
    /// No value was seen.
    pub fn new() -> (r: Self)
        ensures
            r.last_value == u64::MAX,
    {
        IngestObserver { last_value: u64::MAX }
    }

    /// The level that an object carries, if it is another one than before.
    pub open spec fn change(self, extensions: Seq<KeyValuePair>) -> Option<u64> {
        match int_in(extensions, AUDIO_LEVEL_EXT) {
            Some(value) => if value != self.last_value {
                Some(value)
            } else {
                None
            },
            None => None,
        }
    }

    /// The observer after an object.
    pub open spec fn after(self, extensions: Seq<KeyValuePair>) -> IngestObserver {
        match int_in(extensions, AUDIO_LEVEL_EXT) {
            Some(value) => IngestObserver { last_value: value },
            None => self,
        }
    }

    /// Takes an object. The result is the level that it carries, if it is another one than before.
    pub fn observe(&mut self, extensions: &Vec<KeyValuePair>) -> (r: Option<u64>)
        ensures
            r == old(self).change(extensions@),
            *final(self) == old(self).after(extensions@),
    {
        match int_value(extensions, AUDIO_LEVEL_EXT) {
            Some(value) => {
                let changed = value != self.last_value;
                self.last_value = value;
                if changed {
                    Some(value)
                } else {
                    None
                }
            },
            None => None,
        }
    }

    /// What is told of a track in the rankings when an object of it is going to be taken.
    pub fn ingest_events(
        &self,
        registry: &SubscriberRegistry,
        namespace: &TrackNamespace,
        track_name: &String,
        extensions: &Vec<KeyValuePair>,
    ) -> (r: Vec<RankingEvent>)
        ensures
            r@ == match self.change(extensions@) {
                Some(value) => registry@.update_events(
                    namespace@,
                    track_name@,
                    AUDIO_LEVEL_EXT,
                    value,
                ),
                None => Seq::empty(),
            },
    {
        match int_value(extensions, AUDIO_LEVEL_EXT) {
            Some(value) => if value != self.last_value {
                registry.update_events(namespace, track_name, AUDIO_LEVEL_EXT, value)
            } else {
                Vec::new()
            },
            None => Vec::new(),
        }
    }

    /// Takes an object of a track and updates the rankings if its level has changed. The result
    /// are the subscriptions to tell of the track.
    pub fn ingest(
        &mut self,
        registry: &mut SubscriberRegistry,
        namespace: &TrackNamespace,
        track_name: &String,
        extensions: &Vec<KeyValuePair>,
        session_id: u64,
        closed: &Vec<u64>,
        now_ms: u64,
    ) -> (listeners: Vec<u64>)
        requires
            old(registry).wf(),
        ensures
            final(registry).wf(),
            *final(self) == old(self).after(extensions@),
            match old(self).change(extensions@) {
                Some(value) => {
                    let updated = RegistryView {
                        trackers: final(registry)@.trackers,
                        ..old(registry)@
                    };
                    &&& old(registry)@.value_updated(
                        namespace@,
                        track_name@,
                        AUDIO_LEVEL_EXT,
                        value,
                        now_ms,
                        updated,
                    )
                    &&& listeners@ == updated.update_listeners(
                        namespace@,
                        track_name@,
                        AUDIO_LEVEL_EXT,
                        session_id,
                        closed@,
                    )
                    &&& final(registry)@ == updated.told(listeners@, namespace@, track_name@)
                },
                None => listeners@.len() == 0 && final(registry)@ == old(registry)@,
            },
    {
        match self.observe(extensions) {
            Some(value) => registry.update_track_value(
                namespace,
                track_name,
                AUDIO_LEVEL_EXT,
                value,
                session_id,
                closed,
                now_ms,
            ),
            None => Vec::new(),
        }
    }
}

/// Serves a namespace that a peer publishes: registers it, and finds the subscriptions to tell of
/// it. A namespace that is registered already is refused.
pub fn serve_publish_namespace<T, K>(
    locals: &mut Locals<T, K>,
    registry: Option<&SubscriberRegistry>,
    namespace: TrackNamespace,
    handle: T,
    session_id: u64,
    closed: &Vec<u64>,
) -> (r: Result<Vec<u64>, ServeError>)
    requires
        old(locals).wf(),
    ensures
        final(locals).wf(),
        match r {
            Ok(listeners) => {
                &&& !local::registered(old(locals)@, namespace@)
                &&& final(locals)@ == old(locals)@.push(local::new_entry(namespace@, handle))
                &&& match registry {
                    Some(registry) => listeners@ == registry@.namespace_listeners(
                        namespace@,
                        session_id,
                        closed@,
                    ),
                    None => listeners@.len() == 0,
                }
            },
            Err(e) => {
                &&& local::registered(old(locals)@, namespace@)
                &&& e == ServeError::Duplicate
                &&& final(locals)@ == old(locals)@
            },
        },
{
    let listeners: Vec<u64> = match registry {
        Some(registry) => registry.notify_publish_namespace(&namespace, session_id, closed),
        None => Vec::new(),
    };
    match locals.register(namespace, handle) {
        Ok(_) => Ok(listeners),
        Err(e) => Err(e),
    }
}

/// A value that does not change is passed on once.
pub proof fn law_unchanged_value_is_passed_on_once(
    observer: IngestObserver,
    extensions: Seq<KeyValuePair>,
)
    ensures
        observer.after(extensions).change(extensions) is None,
        observer.after(extensions).after(extensions) == observer.after(extensions),
{
}

/// An integer is read from the first pair with its key, whatever the later ones hold.
pub proof fn law_first_pair_is_read(pairs: Seq<KeyValuePair>, key: u64, i: int)
    requires
        0 <= i < pairs.len(),
        pairs[i].key == key,
        forall|j: int| 0 <= j < i ==> (#[trigger] pairs[j]).key != key,
    ensures
        pairs[i].value matches Value::IntValue(value) ==> int_in(pairs, key) == Some(value),
        pairs[i].value is BytesValue ==> int_in(pairs, key) is None,
{
    lemma_no_int(pairs, key, i);
    lemma_first_int_stays(pairs, key, i + 1, pairs.len() as int);
}

/// Nothing is read for a key that no pair has.
pub proof fn law_missing_key_is_not_read(pairs: Seq<KeyValuePair>, key: u64)
    requires
        forall|j: int| 0 <= j < pairs.len() ==> (#[trigger] pairs[j]).key != key,
    ensures
        int_in(pairs, key) is None,
{
    lemma_no_int(pairs, key, pairs.len() as int);
}

proof fn lemma_no_int(pairs: Seq<KeyValuePair>, key: u64, n: int)
    requires
        0 <= n <= pairs.len(),
        forall|j: int| 0 <= j < n ==> (#[trigger] pairs[j]).key != key,
    ensures
        first_int(pairs, key, n) is None,
    decreases n,
{
    if n > 0 {
        lemma_no_int(pairs, key, n - 1);
    }
}

/// After an object with a level, the next one is passed on exactly if it carries another level. An
/// object without a level is passed over.
pub proof fn law_changed_level_is_passed_on(
    observer: IngestObserver,
    first: Seq<KeyValuePair>,
    next: Seq<KeyValuePair>,
    level: u64,
)
    requires
        int_in(first, AUDIO_LEVEL_EXT) == Some(level),
    ensures
        forall|value: u64|
            observer.after(first).change(next) == Some(value) <==> #[trigger] int_in(
                next,
                AUDIO_LEVEL_EXT,
            ) == Some(value) && value != level,
        int_in(next, AUDIO_LEVEL_EXT) is None ==> observer.after(next) == observer
            && observer.change(next) is None,
        observer.change(first) == Some(level) <==> observer.last_value != level,
{
}

/// A track that is published with an audio level is ranked by it wherever its namespace is ranked
/// by level. Without one the rankings stay as they are.
pub proof fn law_published_level_is_ranked(
    before: RegistryView,
    publish: PublishInfo,
    session_id: u64,
    closed: Seq<u64>,
    now_ms: u64,
    listeners: Seq<u64>,
    after: RegistryView,
    i: int,
)
    requires
        announced(before, publish, session_id, closed, now_ms, listeners, after),
        0 <= i < before.trackers.len(),
    ensures
        int_in(publish.track_extensions@, AUDIO_LEVEL_EXT) is None ==> after.trackers
            == before.trackers,
        int_in(publish.track_extensions@, AUDIO_LEVEL_EXT) matches Some(level) ==> {
            let tracks = before.trackers[i].tracker.tracks;
            let now = after.trackers[i].tracker.tracks;
            let held = exists|j: int|
                0 <= j < tracks.len() && (#[trigger] tracks[j]).namespace
                    == publish.track_namespace@ && tracks[j].track_name == publish.track_name@;
            before.trackers[i].property_type == AUDIO_LEVEL_EXT
                && before.trackers[i].prefix.is_prefix_of(publish.track_namespace@) && !held ==> {
                &&& now.len() == tracks.len() + 1
                &&& now.last().namespace == publish.track_namespace@
                &&& now.last().track_name == publish.track_name@
                &&& now.last().property_value == level
                &&& now.last().publisher_session_id == session_id
                &&& now.last().last_update_ms == now_ms
            }
        },
        forall|id: u64|
            listeners.contains(id) ==> #[trigger] after.published.contains(
                (id, publish.track_namespace@, publish.track_name@),
            ),
{
    let ranked = choose|ranked: RegistryView|
        {
            &&& match int_in(publish.track_extensions@, AUDIO_LEVEL_EXT) {
                Some(level) => before.track_registered(
                    publish.track_namespace@,
                    publish.track_name@,
                    AUDIO_LEVEL_EXT,
                    level,
                    session_id,
                    now_ms,
                    ranked,
                ),
                None => ranked == before,
            }
            &&& listeners == #[trigger] ranked.publish_listeners(
                publish.track_namespace@,
                publish.track_name@,
                session_id,
                closed,
            )
            &&& after == ranked.told(listeners, publish.track_namespace@, publish.track_name@)
        };
    match int_in(publish.track_extensions@, AUDIO_LEVEL_EXT) {
        Some(level) => {
            subscriber_registry::law_registered_track_reaches_every_ranking(
                before,
                publish.track_namespace@,
                publish.track_name@,
                AUDIO_LEVEL_EXT,
                level,
                session_id,
                now_ms,
                ranked,
                i,
            );
        },
        None => {},
    }
}

/// A publisher that is refused learns whether its track comes from upstream or from another
/// publisher.
pub proof fn law_refusal_tells_the_reason()
    ensures
        rejection_text(ServeError::Uninterested).len() > 0,
        rejection_text(ServeError::Duplicate).len() > 0,
        rejection_text(ServeError::Uninterested) != rejection_text(ServeError::Duplicate),
        rejection_text(ServeError::Uninterested).subrange(8, 18) == "subscribed"@,
        rejection_text(ServeError::Duplicate).subrange(8, 18) == "publishing"@,
{
    reveal_strlit("Already subscribed");
    reveal_strlit("Already publishing");
    reveal_strlit("subscribed");
    reveal_strlit("publishing");
    assert("Already subscribed"@.subrange(8, 18) =~= "subscribed"@);
    assert("Already publishing"@.subrange(8, 18) =~= "publishing"@);
    assert("Already subscribed"@[8] != "Already publishing"@[8]);
}

} // verus!
