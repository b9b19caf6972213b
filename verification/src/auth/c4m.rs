//! The hook that checks every session and request against a Common Access Token that comes
//! with it.

use cat_token::CatError;
use vstd::prelude::*;
use crate::auth::access_token::{
    self, cat_error_text, check_times, decode_claims, scope_authorizes, validate_payload,
    CatClaims, CatClaimsView, CatFault, TokenAction, TokenKey, TokenKeyView,
};
use crate::auth::cose::{self, cose_parts};
use crate::auth::types::{
    self, find_blob, AuthBlob, AuthBlobView, AuthDecision, AuthDecisionView, AuthHook,
    AuthzOperation, DenyReason, DenyReasonView, RequestContext, SessionContext,
};
use crate::bytes::{self, copy_bytes};
use crate::text;

verus! {

/// The type number of the tokens that are looked at.
pub const C4M_TOKEN_TYPE: u64 = 0x63346d;

/// What tokens are checked against.
pub struct C4MConfig {
    /// The key that tokens are verified with.
    pub key: TokenKey,
    /// The issuers that are accepted; any if there is no list.
    pub issuers: Option<Vec<String>>,
    /// The audiences that are accepted; any if there is no list.
    pub audiences: Option<Vec<String>>,
    pub clock_skew_secs: i64,
}

impl C4MConfig {
    /// A key alone.
    pub fn new(key: TokenKey) -> (r: Self)
        ensures
            r == (C4MConfig { key, issuers: None, audiences: None, clock_skew_secs: 0 }),
    {
        C4MConfig { key, issuers: None, audiences: None, clock_skew_secs: 0 }
    }

    /// The configuration with these issuers.
    pub fn with_expected_issuers(self, issuers: Vec<String>) -> (r: Self)
        ensures
            r == (C4MConfig { issuers: Some(issuers), ..self }),
    {
        C4MConfig { issuers: Some(issuers), ..self }
    }

    /// The configuration with these audiences.
    pub fn with_expected_audiences(self, audiences: Vec<String>) -> (r: Self)
        ensures
            r == (C4MConfig { audiences: Some(audiences), ..self }),
    {
        C4MConfig { audiences: Some(audiences), ..self }
    }

    /// The configuration with this clock skew.
    pub fn with_clock_skew_tolerance(self, seconds: i64) -> (r: Self)
        ensures
            r == (C4MConfig { clock_skew_secs: seconds, ..self }),
    {
        C4MConfig { clock_skew_secs: seconds, ..self }
    }
}

/// The denial that a fault of a token leads to.
pub open spec fn denial_of(fault: CatFault) -> DenyReasonView {
    match fault {
        CatFault::TokenExpired => DenyReasonView::TokenExpired,
        CatFault::TokenNotYetValid => DenyReasonView::TokenExpired,
        CatFault::InvalidIssuer => DenyReasonView::IssuerUnknown,
        CatFault::InvalidAudience => DenyReasonView::TokenInvalid,
        CatFault::SignatureVerificationFailed => DenyReasonView::TokenInvalid,
        CatFault::MoqtActionNotAuthorized(_) => DenyReasonView::ScopeMismatch,
        CatFault::InvalidTokenFormat => DenyReasonView::TokenMalformed,
        CatFault::InvalidCbor(_) => DenyReasonView::TokenMalformed,
        CatFault::InvalidBase64(_) => DenyReasonView::TokenMalformed,
        CatFault::MissingRequiredClaim(_) => DenyReasonView::TokenMalformed,
        CatFault::ReplayAttackDetected => DenyReasonView::TokenReplayed,
        CatFault::UnsupportedAlgorithm(_) => DenyReasonView::TokenInvalid,
        CatFault::AlgorithmMismatch { .. } => DenyReasonView::TokenInvalid,
        _ => DenyReasonView::Other { message: access_token::fault_text(fault) },
    }
}

/// The denial that an error leads to.
pub fn map_cat_error(err: CatError) -> (r: DenyReason)
    ensures
        r@ == denial_of(access_token::fault_of(err)),
{
    match err {
        CatError::TokenExpired => DenyReason::TokenExpired,
        CatError::TokenNotYetValid => DenyReason::TokenExpired,
        CatError::InvalidIssuer => DenyReason::IssuerUnknown,
        CatError::InvalidAudience => DenyReason::TokenInvalid,
        CatError::SignatureVerificationFailed => DenyReason::TokenInvalid,
        CatError::MoqtActionNotAuthorized(_) => DenyReason::ScopeMismatch,
        CatError::InvalidTokenFormat => DenyReason::TokenMalformed,
        CatError::InvalidCbor(_) => DenyReason::TokenMalformed,
        CatError::InvalidBase64(_) => DenyReason::TokenMalformed,
        CatError::MissingRequiredClaim(_) => DenyReason::TokenMalformed,
        CatError::ReplayAttackDetected => DenyReason::TokenReplayed,
        CatError::UnsupportedAlgorithm(_) => DenyReason::TokenInvalid,
        CatError::AlgorithmMismatch { .. } => DenyReason::TokenInvalid,
        other => DenyReason::Other { message: cat_error_text(&other) },
    }
}

/// The action, the namespace and the track that an operation stands for. Where it names
/// none, they are empty.
pub open spec fn operation_view(operation: AuthzOperation) -> (
    TokenAction,
    Seq<Seq<u8>>,
    Seq<u8>,
) {
    match operation {
        AuthzOperation::Publish { namespace, track } => (
            TokenAction::Publish,
            namespace@,
            track@,
        ),
        AuthzOperation::PublishNamespace { namespace } => (
            TokenAction::PublishNamespace,
            namespace@,
            Seq::empty(),
        ),
        AuthzOperation::PublishNamespaceDone { namespace } => (
            TokenAction::PublishNamespace,
            namespace@,
            Seq::empty(),
        ),
        AuthzOperation::Subscribe { namespace, track } => (
            TokenAction::Subscribe,
            namespace@,
            track@,
        ),
        AuthzOperation::SubscribeNamespace { prefix } => (
            TokenAction::SubscribeNamespace,
            prefix@,
            Seq::empty(),
        ),
        AuthzOperation::Fetch { namespace, track } => (TokenAction::Fetch, namespace@, track@),
        AuthzOperation::TrackStatus { namespace, track } => (
            TokenAction::TrackStatus,
            namespace@,
            track@,
        ),
        AuthzOperation::RequestUpdate { .. } => (
            TokenAction::RequestUpdate,
            Seq::empty(),
            Seq::empty(),
        ),
    }
}

/// The action, the namespace and the track that an operation stands for.
pub fn map_operation(operation: &AuthzOperation<'_>) -> (r: (TokenAction, Vec<Vec<u8>>, Vec<u8>))
    ensures
        r.0 == operation_view(*operation).0,
        bytes::tuple_view(r.1@) == operation_view(*operation).1,
        r.2@ == operation_view(*operation).2,
{
    match operation {
        AuthzOperation::Publish { namespace, track } => (
            TokenAction::Publish,
            namespace.to_tuple(),
            copy_bytes(track),
        ),
        AuthzOperation::PublishNamespace { namespace } => (
            TokenAction::PublishNamespace,
            namespace.to_tuple(),
            Vec::new(),
        ),
        AuthzOperation::PublishNamespaceDone { namespace } => (
            TokenAction::PublishNamespace,
            namespace.to_tuple(),
            Vec::new(),
        ),
        AuthzOperation::Subscribe { namespace, track } => (
            TokenAction::Subscribe,
            namespace.to_tuple(),
            copy_bytes(track),
        ),
        AuthzOperation::SubscribeNamespace { prefix } => (
            TokenAction::SubscribeNamespace,
            prefix.to_tuple(),
            Vec::new(),
        ),
        AuthzOperation::Fetch { namespace, track } => (
            TokenAction::Fetch,
            namespace.to_tuple(),
            copy_bytes(track),
        ),
        AuthzOperation::TrackStatus { namespace, track } => (
            TokenAction::TrackStatus,
            namespace.to_tuple(),
            copy_bytes(track),
        ),
        AuthzOperation::RequestUpdate { .. } => {
            let namespace: Vec<Vec<u8>> = Vec::new();
            assert(bytes::tuple_view(namespace@) =~= Seq::empty());
            (TokenAction::RequestUpdate, namespace, Vec::new())
        },
    }
}

/// What the hook is asked: an action on a namespace and a track.
pub struct Question {
    pub action: TokenAction,
    pub namespace: Vec<Vec<u8>>,
    pub track: Vec<u8>,
}

/// What the hook is asked.
#[verifier::ext_equal]
pub struct QuestionView {
    pub action: TokenAction,
    pub namespace: Seq<Seq<u8>>,
    pub track: Seq<u8>,
}

impl View for Question {
    type V = QuestionView;

    open spec fn view(&self) -> QuestionView {
        QuestionView {
            action: self.action,
            namespace: bytes::tuple_view(self.namespace@),
            track: self.track@,
        }
    }
}

/// The question whether a session may be set up.
pub open spec fn setup_question() -> QuestionView {
    QuestionView {
        action: TokenAction::ClientSetup,
        namespace: Seq::empty(),
        track: Seq::empty(),
    }
}

/// The question that an operation stands for.
pub open spec fn operation_question(operation: AuthzOperation) -> QuestionView {
    let (action, namespace, track) = operation_view(operation);
    QuestionView { action, namespace, track }
}

/// The answer for the claims of a verified token, by what is wrong with them.
pub open spec fn answer(
    claims: CatClaimsView,
    fault: Option<CatFault>,
    question: QuestionView,
) -> AuthDecisionView {
    match fault {
        Some(fault) => AuthDecisionView { denial: Some(denial_of(fault)), principal: None },
        None => if claims.grants(
            question.action,
            Some(question.namespace),
            Some(question.track),
        ) {
            AuthDecisionView { denial: None, principal: claims.sub }
        } else {
            AuthDecisionView { denial: Some(DenyReasonView::ScopeMismatch), principal: None }
        },
    }
}

/// The answer for the claims of a verified token, by what is wrong with them.
pub fn conclude(claims: CatClaims, validity: Result<(), CatError>, question: &Question) -> (r:
    AuthDecision)
    ensures
        r@ == answer(claims@, access_token::fault_view(validity), question@),
{
    match validity {
        Err(err) => AuthDecision::deny(map_cat_error(err)),
        Ok(()) => {
            if scope_authorizes(
                &claims,
                question.action,
                Some(question.namespace.as_slice()),
                Some(question.track.as_slice()),
            ) {
                AuthDecision::allow().with_principal(claims.sub)
            } else {
                AuthDecision::deny(DenyReason::ScopeMismatch)
            }
        },
    }
}

/// The hook that checks every session and request against a token that comes with it.
pub struct C4MAuthHook {
    pub config: C4MConfig,
}

/// What tokens are checked against.
#[verifier::ext_equal]
pub struct C4MAuthHookView {
    pub key: TokenKeyView,
    pub issuers: Option<Seq<Seq<char>>>,
    pub audiences: Option<Seq<Seq<char>>>,
    pub clock_skew_secs: i64,
}

impl View for C4MAuthHook {
    type V = C4MAuthHookView;

    open spec fn view(&self) -> C4MAuthHookView {
        C4MAuthHookView {
            key: self.config.key@,
            issuers: access_token::list_view(self.config.issuers),
            audiences: access_token::list_view(self.config.audiences),
            clock_skew_secs: self.config.clock_skew_secs,
        }
    }
}

impl C4MAuthHookView {
    /// The answer for a token when the clock is read at `then`.
    pub open spec fn answers(
        self,
        token: Seq<u8>,
        question: QuestionView,
        then: i64,
    ) -> AuthDecisionView {
        match access_token::token_claims(self.key, token) {
            Err(fault) => AuthDecisionView { denial: Some(denial_of(fault)), principal: None },
            Ok(claims) => answer(
                claims,
                access_token::validity_fault(
                    claims,
                    self.issuers,
                    self.audiences,
                    self.clock_skew_secs,
                    then,
                    access_token::other_fault(
                        cose::token_payload(token),
                        self.issuers,
                        self.audiences,
                        self.clock_skew_secs,
                        then,
                    ),
                ),
                question,
            ),
        }
    }

    /// The times of the token's claims can be compared with the skew taken in.
    pub open spec fn can_compare(self, token: Seq<u8>) -> bool {
        access_token::token_claims(self.key, token) matches Ok(claims) ==> access_token::times_fit(
            claims,
            self.clock_skew_secs,
        )
    }

    /// The decision by the tokens that a peer presents. There is none where the times of
    /// the claims cannot be compared.
    pub open spec fn decides(
        self,
        tokens: Seq<AuthBlobView>,
        question: QuestionView,
        then: i64,
    ) -> Option<AuthDecisionView> {
        match types::value_of_type(tokens, C4M_TOKEN_TYPE) {
            None => Some(
                AuthDecisionView { denial: Some(DenyReasonView::TokenMissing), principal: None },
            ),
            Some(token) => if self.can_compare(token) {
                Some(self.answers(token, question, then))
            } else {
                None
            },
        }
    }
}

/// The contents of an optional decision.
pub open spec fn decision_view(r: Option<AuthDecision>) -> Option<AuthDecisionView> {
    match r {
        Some(decision) => Some(decision@),
        None => None,
    }
}

/// A copy of an optional list of texts.
fn copy_list(list: &Option<Vec<String>>) -> (r: Option<Vec<String>>)
    ensures
        access_token::list_view(r) == access_token::list_view(*list),
{
    match list {
        None => None,
        Some(list) => {
            let mut out: Vec<String> = Vec::new();
            let mut i: usize = 0;
            while i < list.len()
                invariant
                    i <= list@.len(),
                    out@.len() == i,
                    forall|k: int| 0 <= k < i ==> (#[trigger] out@[k])@ == list@[k]@,
                decreases list@.len() - i,
            {
                out.push(list[i].clone());
                i += 1;
            }
            assert(text::texts_view(out@) =~= text::texts_view(list@));
            Some(out)
        },
    }
}

impl C4MAuthHook {
    pub fn new(config: C4MConfig) -> (r: Self)
        ensures
            r.config == config,
    {
        C4MAuthHook { config }
    }

    /// Decides on a question by the tokens that a peer presents: the first of the right type
    /// counts. There is no decision where the times of its claims cannot be compared.
    pub fn validate_and_authorize(&self, tokens: &[AuthBlob], question: &Question) -> (r: Option<
        AuthDecision,
    >)
        ensures
            exists|then: i64|
                decision_view(r) == #[trigger] self@.decides(
                    types::blobs_view(tokens@),
                    question@,
                    then,
                ),
    {
        let ghost all = types::blobs_view(tokens@);
        let blob = match find_blob(tokens, C4M_TOKEN_TYPE) {
            Some(blob) => blob,
            None => {
                let r = Some(AuthDecision::deny(DenyReason::TokenMissing));
                assert(decision_view(r) == self@.decides(all, question@, 0));
                return r;
            },
        };
        let token: &[u8] = blob.token_value.as_slice();
        let claims = match decode_claims(&self.config.key, token) {
            Ok(claims) => claims,
            Err(err) => {
                let r = Some(AuthDecision::deny(map_cat_error(err)));
                assert(decision_view(r) == self@.decides(all, question@, 0));
                return r;
            },
        };
        if !check_times(&claims, self.config.clock_skew_secs) {
            let r: Option<AuthDecision> = None;
            assert(decision_view(r) == self@.decides(all, question@, 0));
            return r;
        }
        let ghost granted = claims@;
        match cose_parts(token) {
            None => {
                assert(false);
                None
            },
            Some((_, payload)) => {
                let validity = validate_payload(
                    payload.as_slice(),
                    copy_list(&self.config.issuers),
                    copy_list(&self.config.audiences),
                    self.config.clock_skew_secs,
                );
                let r = Some(conclude(claims, validity, question));
                proof {
                    let then = choose|then: i64|
                        access_token::fault_view(validity) == access_token::validity_fault(
                            granted,
                            self@.issuers,
                            self@.audiences,
                            self@.clock_skew_secs,
                            then,
                            #[trigger] access_token::other_fault(
                                payload@,
                                self@.issuers,
                                self@.audiences,
                                self@.clock_skew_secs,
                                then,
                            ),
                        );
                    assert(decision_view(r) == self@.decides(all, question@, then));
                }
                r
            },
        }
    }
}

impl AuthHook for C4MAuthHook {
    /// Decides on a session by the token that its peer presents.
    fn on_setup(&self, _ctx: &SessionContext, tokens: &[AuthBlob]) -> (r: Option<AuthDecision>)
        ensures
            exists|then: i64|
                decision_view(r) == #[trigger] self@.decides(
                    types::blobs_view(tokens@),
                    setup_question(),
                    then,
                ),
    {
        let question = Question {
            action: TokenAction::ClientSetup,
            namespace: Vec::new(),
            track: Vec::new(),
        };
        assert(question@ =~= setup_question());
        self.validate_and_authorize(tokens, &question)
    }

    /// Decides on a request by the token that comes with it.
    fn on_request(&self, ctx: &RequestContext<'_>, tokens: &[AuthBlob]) -> (r: Option<
        AuthDecision,
    >)
        ensures
            exists|then: i64|
                decision_view(r) == #[trigger] self@.decides(
                    types::blobs_view(tokens@),
                    operation_question(ctx.operation),
                    then,
                ),
    {
        let (action, namespace, track) = map_operation(&ctx.operation);
        let question = Question { action, namespace, track };
        assert(question@ =~= operation_question(ctx.operation));
        self.validate_and_authorize(tokens, &question)
    }
}

/// Without a token of the right type everything is denied.
pub proof fn law_missing_token_is_denied(
    hook: C4MAuthHookView,
    tokens: Seq<AuthBlobView>,
    question: QuestionView,
    then: i64,
)
    requires
        types::value_of_type(tokens, C4M_TOKEN_TYPE) is None,
    ensures
        hook.decides(tokens, question, then) == Some(
            AuthDecisionView { denial: Some(DenyReasonView::TokenMissing), principal: None },
        ),
{
}

/// Whatever is allowed is granted by the claims of a token that verifies and is valid when
/// the clock is read.
pub proof fn law_allowed_means_granted(
    hook: C4MAuthHookView,
    tokens: Seq<AuthBlobView>,
    question: QuestionView,
    then: i64,
)
    requires
        hook.decides(tokens, question, then) matches Some(decision) && decision.denial is None,
    ensures
        types::value_of_type(tokens, C4M_TOKEN_TYPE) matches Some(token)
            && access_token::token_claims(hook.key, token) matches Ok(claims) && claims.grants(
            question.action,
            Some(question.namespace),
            Some(question.track),
        ) && access_token::time_fault(claims, hook.clock_skew_secs, then) is None
            && access_token::issuer_fault(claims, hook.issuers) is None
            && access_token::audience_fault(claims, hook.audiences) is None,
{
}

/// With a sound token every operation is allowed exactly if the token grants its action, on the
/// namespace and the track that it names. What it does not name counts as empty.
pub proof fn law_operations_need_their_grant(
    claims: CatClaimsView,
    namespace: &crate::namespace::TrackNamespace,
    track: &[u8],
    request_id: u64,
)
    ensures
        ({
            let allows = |operation: AuthzOperation|
                answer(claims, None, operation_question(operation)).denial is None;
            let grants = |action: TokenAction|
                claims.grants(action, Some(namespace@), Some(track@));
            let grants_namespace = |action: TokenAction|
                claims.grants(action, Some(namespace@), Some(Seq::empty()));
            &&& allows(AuthzOperation::Publish { namespace, track }) == grants(TokenAction::Publish)
            &&& allows(AuthzOperation::Subscribe { namespace, track }) == grants(
                TokenAction::Subscribe,
            )
            &&& allows(AuthzOperation::Fetch { namespace, track }) == grants(TokenAction::Fetch)
            &&& allows(AuthzOperation::TrackStatus { namespace, track }) == grants(
                TokenAction::TrackStatus,
            )
            &&& allows(AuthzOperation::PublishNamespace { namespace }) == grants_namespace(
                TokenAction::PublishNamespace,
            )
            &&& allows(AuthzOperation::PublishNamespaceDone { namespace }) == grants_namespace(
                TokenAction::PublishNamespace,
            )
            &&& allows(AuthzOperation::SubscribeNamespace { prefix: namespace })
                == grants_namespace(TokenAction::SubscribeNamespace)
            &&& allows(AuthzOperation::RequestUpdate { request_id }) == claims.grants(
                TokenAction::RequestUpdate,
                Some(Seq::empty()),
                Some(Seq::empty()),
            )
        }),
        answer(claims, None, setup_question()).denial is None <==> claims.grants(
            TokenAction::ClientSetup,
            Some(Seq::empty()),
            Some(Seq::empty()),
        ),
{
}

/// A peer that is allowed goes by the subject of its token; one that is denied by none. What a
/// sound token does not grant is out of scope.
pub proof fn law_allowed_peer_goes_by_its_subject(
    claims: CatClaimsView,
    fault: Option<CatFault>,
    question: QuestionView,
)
    ensures
        ({
            let decision = answer(claims, fault, question);
            &&& decision.denial is None ==> decision.principal == claims.sub
            &&& decision.denial is Some ==> decision.principal is None
            &&& fault is Some ==> decision.denial is Some
            &&& fault is None && decision.denial is Some ==> decision.denial == Some(
                DenyReasonView::ScopeMismatch,
            )
        }),
{
}

/// Each denial stands for the faults of its sort: a token out of its time, of another issuer, out of
/// scope, seen before, not readable, or not to be verified. Any other fault is told in its own
/// words.
pub proof fn law_faults_lead_to_their_denial(fault: CatFault)
    ensures
        denial_of(fault) is TokenExpired <==> fault is TokenExpired || fault is TokenNotYetValid,
        denial_of(fault) is IssuerUnknown <==> fault is InvalidIssuer,
        denial_of(fault) is ScopeMismatch <==> fault is MoqtActionNotAuthorized,
        denial_of(fault) is TokenReplayed <==> fault is ReplayAttackDetected,
        denial_of(fault) is TokenMalformed <==> fault is InvalidTokenFormat || fault is InvalidCbor
            || fault is InvalidBase64 || fault is MissingRequiredClaim,
        denial_of(fault) is TokenInvalid <==> fault is InvalidAudience
            || fault is SignatureVerificationFailed || fault is UnsupportedAlgorithm
            || fault is AlgorithmMismatch,
        !(denial_of(fault) is TokenMissing),
        denial_of(fault) matches DenyReasonView::Other { message } ==> message
            == access_token::fault_text(fault),
{
}

/// The first token of the type decides: where it verifies, is valid and grants the question, the
/// peer is allowed.
pub proof fn law_granted_question_is_allowed(
    hook: C4MAuthHookView,
    tokens: Seq<AuthBlobView>,
    i: int,
    question: QuestionView,
    then: i64,
)
    requires
        0 <= i < tokens.len(),
        tokens[i].token_type == C4M_TOKEN_TYPE,
        forall|j: int| 0 <= j < i ==> (#[trigger] tokens[j]).token_type != C4M_TOKEN_TYPE,
        access_token::token_claims(hook.key, tokens[i].token_value) is Ok,
        hook.can_compare(tokens[i].token_value),
    ensures
        ({
            let token = tokens[i].token_value;
            let claims = access_token::token_claims(hook.key, token)->Ok_0;
            let rest = access_token::other_fault(
                cose::token_payload(token),
                hook.issuers,
                hook.audiences,
                hook.clock_skew_secs,
                then,
            );
            let allowed = AuthDecisionView { denial: None, principal: claims.sub };
            hook.decides(tokens, question, then) == Some(allowed) <==> {
                &&& access_token::time_fault(claims, hook.clock_skew_secs, then) is None
                &&& access_token::issuer_fault(claims, hook.issuers) is None
                &&& access_token::audience_fault(claims, hook.audiences) is None
                &&& rest is None
                &&& claims.grants(question.action, Some(question.namespace), Some(question.track))
            }
        }),
{
    types::law_first_token_of_a_type_counts(tokens, C4M_TOKEN_TYPE, i);
}

} // verus!
