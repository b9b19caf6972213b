//! What a relay does when a peer asks for a track.

use vstd::prelude::*;
use crate::auth::types::{AuthBlob, AuthDecision, AuthDecisionView, Verdict};
use crate::privacypass::error::{self, error_code};

verus! {

/// The error code of a request that could not be answered.
pub const REQUEST_FAILED: u64 = 4;

/// The tokens that a request is judged by: those that it brings, or else those of the session.
pub fn tokens_for<'a>(request: &'a Vec<AuthBlob>, session: &'a Vec<AuthBlob>) -> (r: &'a Vec<
    AuthBlob,
>)
    ensures
        *r == (if request@.len() == 0 {
            *session
        } else {
            *request
        }),
{
    if request.len() == 0 {
        session
    } else {
        request
    }
}

/// What a hook made of a request.
#[derive(Debug)]
pub enum Authorization {
    Decided(AuthDecision),
    /// The hook failed, with a message.
    Failed(String),
}

/// What a hook made of a request.
#[verifier::ext_equal]
pub enum AuthorizationView {
    Decided(AuthDecisionView),
    Failed(Seq<char>),
}

impl View for Authorization {
    type V = AuthorizationView;

    open spec fn view(&self) -> AuthorizationView {
        match self {
            Authorization::Decided(decision) => AuthorizationView::Decided(decision@),
            Authorization::Failed(message) => AuthorizationView::Failed(message@),
        }
    }
}

/// What came of asking other relays for a track.
#[derive(Debug)]
pub enum RemoteResult {
    Found,
    Missing,
    /// The other relays could not be asked, with a message.
    Failed(String),
}

/// What came of asking other relays for a track.
#[verifier::ext_equal]
pub enum RemoteResultView {
    Found,
    Missing,
    Failed(Seq<char>),
}

impl View for RemoteResult {
    type V = RemoteResultView;

    open spec fn view(&self) -> RemoteResultView {
        match self {
            RemoteResult::Found => RemoteResultView::Found,
            RemoteResult::Missing => RemoteResultView::Missing,
            RemoteResult::Failed(message) => RemoteResultView::Failed(message@),
        }
    }
}

/// Why a subscription is closed.
#[derive(Debug)]
pub enum CloseReason {
    /// It is denied, with an error code.
    Denied(u64),
    /// The hook failed.
    AuthFailed(String),
    /// The other relays could not be asked. The track may exist.
    RouteFailed(String),
    /// The track does not exist.
    NotFound(String),
}

/// Why a subscription is closed.
#[verifier::ext_equal]
pub enum CloseReasonView {
    Denied(u64),
    AuthFailed(Seq<char>),
    RouteFailed(Seq<char>),
    NotFound(Seq<char>),
}

impl View for CloseReason {
    type V = CloseReasonView;

    open spec fn view(&self) -> CloseReasonView {
        match self {
            CloseReason::Denied(code) => CloseReasonView::Denied(*code),
            CloseReason::AuthFailed(text) => CloseReasonView::AuthFailed(text@),
            CloseReason::RouteFailed(text) => CloseReasonView::RouteFailed(text@),
            CloseReason::NotFound(text) => CloseReasonView::NotFound(text@),
        }
    }
}

/// What to do next for a subscription.
#[derive(Debug)]
pub enum SubscribeAction {
    /// Look for the track here.
    LookLocal,
    /// Ask other relays for the track.
    AskRemote,
    /// Serve the track from here.
    ServeLocal,
    /// Serve the track from another relay.
    ServeRemote,
    Close(CloseReason),
}

/// What to do next for a subscription.
#[verifier::ext_equal]
pub enum SubscribeActionView {
    LookLocal,
    AskRemote,
    ServeLocal,
    ServeRemote,
    Close(CloseReasonView),
}

impl View for SubscribeAction {
    type V = SubscribeActionView;

    open spec fn view(&self) -> SubscribeActionView {
        match self {
            SubscribeAction::LookLocal => SubscribeActionView::LookLocal,
            SubscribeAction::AskRemote => SubscribeActionView::AskRemote,
            SubscribeAction::ServeLocal => SubscribeActionView::ServeLocal,
            SubscribeAction::ServeRemote => SubscribeActionView::ServeRemote,
            SubscribeAction::Close(reason) => SubscribeActionView::Close(reason@),
        }
    }
}

/// What happens to a subscription.
#[derive(Debug)]
pub enum SubscribeEvent {
    /// A hook was asked.
    Authorized(Authorization),
    /// The track was looked for here.
    Local(bool),
    /// Other relays were asked for the track.
    Remote(RemoteResult),
}

/// What happens to a subscription.
#[verifier::ext_equal]
pub enum SubscribeEventView {
    Authorized(AuthorizationView),
    Local(bool),
    Remote(RemoteResultView),
}

impl View for SubscribeEvent {
    type V = SubscribeEventView;

    open spec fn view(&self) -> SubscribeEventView {
        match self {
            SubscribeEvent::Authorized(authorization) => SubscribeEventView::Authorized(
                authorization@,
            ),
            SubscribeEvent::Local(found) => SubscribeEventView::Local(*found),
            SubscribeEvent::Remote(result) => SubscribeEventView::Remote(result@),
        }
    }
}

/// A track that a peer asks for, in words.
#[derive(Debug)]
pub struct Asked {
    pub namespace: String,
    pub track_name: String,
}

/// What to do next for a subscription after an event.
pub open spec fn next_action(
    namespace: Seq<char>,
    track_name: Seq<char>,
    event: SubscribeEventView,
) -> SubscribeActionView {
    match event {
        SubscribeEventView::Authorized(AuthorizationView::Decided(decision)) => {
            match decision.denial {
                Some(reason) => SubscribeActionView::Close(
                    CloseReasonView::Denied(error::code_of(reason)),
                ),
                None => SubscribeActionView::LookLocal,
            }
        },
        SubscribeEventView::Authorized(AuthorizationView::Failed(message)) => {
            SubscribeActionView::Close(CloseReasonView::AuthFailed("auth error: "@ + message))
        },
        SubscribeEventView::Local(found) => if found {
            SubscribeActionView::ServeLocal
        } else {
            SubscribeActionView::AskRemote
        },
        SubscribeEventView::Remote(RemoteResultView::Found) => SubscribeActionView::ServeRemote,
        SubscribeEventView::Remote(RemoteResultView::Missing) => SubscribeActionView::Close(
            CloseReasonView::NotFound(
                "track '"@ + namespace + "/"@ + track_name
                    + "' not found in local or remote tracks"@,
            ),
        ),
        SubscribeEventView::Remote(RemoteResultView::Failed(message)) => {
            SubscribeActionView::Close(
                CloseReasonView::RouteFailed(
                    "route error for namespace '"@ + namespace + "': "@ + message,
                ),
            )
        },
    }
}

/// What to do next for a subscription after an event: first a hook is asked, then the track is
/// looked for here, and last other relays are asked for it.
pub fn serve_subscribe(asked: &Asked, event: SubscribeEvent) -> (r: SubscribeAction)
    ensures
        r@ == next_action(asked.namespace@, asked.track_name@, event@),
{
    match event {
        SubscribeEvent::Authorized(Authorization::Decided(decision)) => {
            match &decision.verdict {
                Verdict::Deny(reason) => SubscribeAction::Close(
                    CloseReason::Denied(error_code(reason)),
                ),
                Verdict::Allow => SubscribeAction::LookLocal,
            }
        },
        SubscribeEvent::Authorized(Authorization::Failed(message)) => {
            let mut text: String = "auth error: ".to_owned();
            text.append(message.as_str());
            SubscribeAction::Close(CloseReason::AuthFailed(text))
        },
        SubscribeEvent::Local(found) => if found {
            SubscribeAction::ServeLocal
        } else {
            SubscribeAction::AskRemote
        },
        SubscribeEvent::Remote(RemoteResult::Found) => SubscribeAction::ServeRemote,
        SubscribeEvent::Remote(RemoteResult::Missing) => {
            let mut text: String = "track '".to_owned();
            text.append(asked.namespace.as_str());
            text.append("/");
            text.append(asked.track_name.as_str());
            text.append("' not found in local or remote tracks");
            SubscribeAction::Close(CloseReason::NotFound(text))
        },
        SubscribeEvent::Remote(RemoteResult::Failed(message)) => {
            let mut text: String = "route error for namespace '".to_owned();
            text.append(asked.namespace.as_str());
            text.append("': ");
            text.append(message.as_str());
            SubscribeAction::Close(CloseReason::RouteFailed(text))
        },
    }
}

/// Where a subscription was served from, as metrics name it.
pub open spec fn source_of(action: SubscribeActionView) -> Seq<char> {
    match action {
        SubscribeActionView::ServeLocal => "local"@,
        SubscribeActionView::ServeRemote => "remote"@,
        SubscribeActionView::Close(CloseReasonView::RouteFailed(_)) => "route_error"@,
        _ => "not_found"@,
    }
}

impl SubscribeAction {
    /// Where a subscription was served from, as metrics name it.
    pub fn source(&self) -> (r: &'static str)
        ensures
            r@ == source_of(self@),
    {
        match self {
            SubscribeAction::ServeLocal => "local",
            SubscribeAction::ServeRemote => "remote",
            SubscribeAction::Close(CloseReason::RouteFailed(_)) => "route_error",
            _ => "not_found",
        }
    }
}

/// What to answer a peer that asks for the status of a track.
#[derive(Debug)]
pub enum TrackStatusAction {
    /// Look for the track here.
    LookLocal,
    /// Tell the status of the track.
    Respond,
    /// Tell an error code and a reason.
    Refuse(u64, &'static str),
}

/// What to answer a peer that asks for the status of a track.
#[verifier::ext_equal]
pub enum TrackStatusView {
    LookLocal,
    Respond,
    Refuse(u64, Seq<char>),
}

impl View for TrackStatusAction {
    type V = TrackStatusView;

    open spec fn view(&self) -> TrackStatusView {
        match self {
            TrackStatusAction::LookLocal => TrackStatusView::LookLocal,
            TrackStatusAction::Respond => TrackStatusView::Respond,
            TrackStatusAction::Refuse(code, reason) => TrackStatusView::Refuse(*code, reason@),
        }
    }
}

/// What to do next for a peer that asks for the status of a track, after a hook was asked or the
/// track was looked for here. Other relays are not asked.
pub open spec fn next_status(event: SubscribeEventView) -> TrackStatusView {
    match event {
        SubscribeEventView::Authorized(AuthorizationView::Decided(decision)) => {
            match decision.denial {
                Some(reason) => TrackStatusView::Refuse(error::code_of(reason), "unauthorized"@),
                None => TrackStatusView::LookLocal,
            }
        },
        SubscribeEventView::Authorized(AuthorizationView::Failed(_)) => TrackStatusView::Refuse(
            REQUEST_FAILED,
            "authorization error"@,
        ),
        SubscribeEventView::Local(true) => TrackStatusView::Respond,
        _ => TrackStatusView::Refuse(REQUEST_FAILED, "Track not found"@),
    }
}

/// What to do next for a peer that asks for the status of a track.
pub fn serve_track_status(event: &SubscribeEvent) -> (r: TrackStatusAction)
    ensures
        r@ == next_status(event@),
{
    match event {
        SubscribeEvent::Authorized(Authorization::Decided(decision)) => match &decision.verdict {
            Verdict::Deny(reason) => TrackStatusAction::Refuse(error_code(reason), "unauthorized"),
            Verdict::Allow => TrackStatusAction::LookLocal,
        },
        SubscribeEvent::Authorized(Authorization::Failed(_)) => TrackStatusAction::Refuse(
            REQUEST_FAILED,
            "authorization error",
        ),
        SubscribeEvent::Local(true) => TrackStatusAction::Respond,
        _ => TrackStatusAction::Refuse(REQUEST_FAILED, "Track not found"),
    }
}

/// What is said of a track whose status is not known.
pub fn status_not_found(asked: &Asked) -> (r: String)
    ensures
        r@ == "track '"@ + asked.namespace@ + "/"@ + asked.track_name@
            + "' not found for track_status"@,
{
    let mut text: String = "track '".to_owned();
    text.append(asked.namespace.as_str());
    text.append("/");
    text.append(asked.track_name.as_str());
    text.append("' not found for track_status");
    text
}

/// A request that is denied is refused with the number of the reason, and the track is not looked
/// for.
pub proof fn law_denied_request_is_refused(
    namespace: Seq<char>,
    track_name: Seq<char>,
    decision: AuthDecisionView,
)
    requires
        decision.denial is Some,
    ensures
        next_action(
            namespace,
            track_name,
            SubscribeEventView::Authorized(AuthorizationView::Decided(decision)),
        ) == SubscribeActionView::Close(
            CloseReasonView::Denied(error::code_of(decision.denial->0)),
        ),
        next_status(SubscribeEventView::Authorized(AuthorizationView::Decided(decision)))
            == TrackStatusView::Refuse(error::code_of(decision.denial->0), "unauthorized"@),
{
}

/// A track that is served here is never asked of other relays, and a failure to ask them is told
/// apart from a track that does not exist.
pub proof fn law_local_track_is_served_here(
    namespace: Seq<char>,
    track_name: Seq<char>,
    message: Seq<char>,
)
    ensures
        next_action(namespace, track_name, SubscribeEventView::Local(true))
            == SubscribeActionView::ServeLocal,
        next_action(
            namespace,
            track_name,
            SubscribeEventView::Remote(RemoteResultView::Failed(message)),
        ) != next_action(
            namespace,
            track_name,
            SubscribeEventView::Remote(RemoteResultView::Missing),
        ),
{
}

/// A subscription that is permitted is looked for here first, then at other relays, and is closed
/// only when it is denied, found nowhere, or asking fails.
pub proof fn law_permitted_subscription_is_looked_for(
    namespace: Seq<char>,
    track_name: Seq<char>,
    event: SubscribeEventView,
)
    ensures
        ({
            let next = next_action(namespace, track_name, event);
            &&& next is LookLocal <==> (event matches SubscribeEventView::Authorized(
                AuthorizationView::Decided(decision),
            ) && decision.denial is None)
            &&& next is AskRemote <==> event == SubscribeEventView::Local(false)
            &&& next is ServeLocal <==> event == SubscribeEventView::Local(true)
            &&& next is ServeRemote <==> event == SubscribeEventView::Remote(
                RemoteResultView::Found,
            )
        }),
{
}

/// A peer whose track is found nowhere is told which track that is, one whose route fails which
/// namespace and why, and one whose authorization fails why.
pub proof fn law_refusals_tell_what_failed(
    namespace: Seq<char>,
    track_name: Seq<char>,
    message: Seq<char>,
)
    ensures
        next_action(
            namespace,
            track_name,
            SubscribeEventView::Remote(RemoteResultView::Missing),
        ) matches SubscribeActionView::Close(CloseReasonView::NotFound(text)) && exists|
            a: Seq<char>,
            b: Seq<char>,
        |
            text == #[trigger] (a + namespace + "/"@ + track_name + b),
        next_action(
            namespace,
            track_name,
            SubscribeEventView::Remote(RemoteResultView::Failed(message)),
        ) matches SubscribeActionView::Close(CloseReasonView::RouteFailed(text)) && exists|
            a: Seq<char>,
            b: Seq<char>,
        |
            text == #[trigger] (a + namespace + b + message),
        next_action(
            namespace,
            track_name,
            SubscribeEventView::Authorized(AuthorizationView::Failed(message)),
        ) matches SubscribeActionView::Close(CloseReasonView::AuthFailed(text))
            && message.is_suffix_of(text),
{
    let missing = "track '"@ + namespace + "/"@ + track_name
        + "' not found in local or remote tracks"@;
    assert(missing == "track '"@ + namespace + "/"@ + track_name
        + "' not found in local or remote tracks"@);
    let failed = "route error for namespace '"@ + namespace + "': "@ + message;
    assert(failed == "route error for namespace '"@ + namespace + "': "@ + message);
    let text = "auth error: "@ + message;
    assert(text.subrange("auth error: "@.len() as int, text.len() as int) =~= message);
}

/// Metrics tell apart where a subscription was served from: here, another relay, or nowhere, by a
/// failure or because the track does not exist.
pub proof fn law_sources_are_told_apart(
    namespace: Seq<char>,
    track_name: Seq<char>,
    message: Seq<char>,
)
    ensures
        source_of(next_action(namespace, track_name, SubscribeEventView::Local(true))) == "local"@,
        source_of(
            next_action(
                namespace,
                track_name,
                SubscribeEventView::Remote(RemoteResultView::Found),
            ),
        ) == "remote"@,
        source_of(
            next_action(
                namespace,
                track_name,
                SubscribeEventView::Remote(RemoteResultView::Failed(message)),
            ),
        ) == "route_error"@,
        source_of(
            next_action(
                namespace,
                track_name,
                SubscribeEventView::Remote(RemoteResultView::Missing),
            ),
        ) == "not_found"@,
{
}

/// The status of a track is answered exactly if the track is here. A peer is never sent on to
/// other relays for it, and whatever else happens, it is refused or the track is looked for.
pub proof fn law_status_is_answered_for_tracks_here(event: SubscribeEventView)
    ensures
        next_status(event) is Respond <==> event == SubscribeEventView::Local(true),
        next_status(event) is LookLocal <==> (event matches SubscribeEventView::Authorized(
            AuthorizationView::Decided(decision),
        ) && decision.denial is None),
        event == SubscribeEventView::Local(false) ==> (next_status(
            event,
        ) matches TrackStatusView::Refuse(code, _) && code == REQUEST_FAILED),
        event matches SubscribeEventView::Authorized(AuthorizationView::Failed(_)) ==> (
        next_status(event) matches TrackStatusView::Refuse(code, _) && code == REQUEST_FAILED),
{
}

} // verus!
