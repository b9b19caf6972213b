//! What an authorization hook is asked and what it answers.

use vstd::prelude::*;
use crate::auth::cose;
use crate::bytes::{bytes_eq, copy_bytes};
use crate::namespace::TrackNamespace;

verus! {

/// A session. It stays the same as long as the session lasts.
#[derive(Debug)]
pub struct SessionContext {
    pub session_id: u64,
    /// The path that the peer connected to.
    pub connection_path: Option<String>,
    /// The address of the peer.
    pub peer: String,
}

/// A request of a session.
#[derive(Debug)]
pub struct RequestContext<'a> {
    pub session: &'a SessionContext,
    pub operation: AuthzOperation<'a>,
    pub request_id: Option<u64>,
}

/// What a peer asks for.
#[derive(Debug)]
#[non_exhaustive]
pub enum AuthzOperation<'a> {
    PublishNamespace { namespace: &'a TrackNamespace },
    PublishNamespaceDone { namespace: &'a TrackNamespace },
    Publish { namespace: &'a TrackNamespace, track: &'a [u8] },
    Subscribe { namespace: &'a TrackNamespace, track: &'a [u8] },
    SubscribeNamespace { prefix: &'a TrackNamespace },
    Fetch { namespace: &'a TrackNamespace, track: &'a [u8] },
    TrackStatus { namespace: &'a TrackNamespace, track: &'a [u8] },
    RequestUpdate { request_id: u64 },
}

/// A token that a peer presents.
#[derive(Debug)]
pub struct AuthBlob {
    pub token_type: u64,
    pub token_value: Vec<u8>,
}

/// A token that a peer presents.
#[verifier::ext_equal]
pub struct AuthBlobView {
    pub token_type: u64,
    pub token_value: Seq<u8>,
}

impl View for AuthBlob {
    type V = AuthBlobView;

    open spec fn view(&self) -> AuthBlobView {
        AuthBlobView { token_type: self.token_type, token_value: self.token_value@ }
    }
}

/// The contents of a list of tokens.
pub open spec fn blobs_view(tokens: Seq<AuthBlob>) -> Seq<AuthBlobView> {
    tokens.map_values(|t: AuthBlob| t@)
}

/// The place of the first token of a type.
pub open spec fn first_of_type(tokens: Seq<AuthBlobView>, token_type: u64, n: int) -> Option<int>
    decreases n,
{
    if n <= 0 {
        None
    } else {
        match first_of_type(tokens, token_type, n - 1) {
            Some(i) => Some(i),
            None => if tokens[n - 1].token_type == token_type {
                Some(n - 1)
            } else {
                None
            },
        }
    }
}

proof fn lemma_first_of_type_stays(
    tokens: Seq<AuthBlobView>,
    token_type: u64,
    m: int,
    n: int,
)
    requires
        0 <= m <= n,
        first_of_type(tokens, token_type, m) is Some,
    ensures
        first_of_type(tokens, token_type, n) == first_of_type(tokens, token_type, m),
    decreases n,
{
    if m < n {
        lemma_first_of_type_stays(tokens, token_type, m, n - 1);
    }
}

/// The value of the first token of a type, if there is one.
pub open spec fn value_of_type(tokens: Seq<AuthBlobView>, token_type: u64) -> Option<Seq<u8>> {
    match first_of_type(tokens, token_type, tokens.len() as int) {
        Some(i) => Some(tokens[i].token_value),
        None => None,
    }
}

/// The first token of a type, if there is one.
pub fn find_blob<'a>(tokens: &'a [AuthBlob], token_type: u64) -> (r: Option<&'a AuthBlob>)
    ensures
        match r {
            Some(blob) => value_of_type(blobs_view(tokens@), token_type) == Some(
                blob.token_value@,
            ),
            None => value_of_type(blobs_view(tokens@), token_type) is None,
        },
{
    let ghost all = blobs_view(tokens@);
    let n: usize = tokens.len();
    let mut i: usize = 0;
    while i < n
        invariant
            i <= n,
            n == tokens@.len(),
            all == blobs_view(tokens@),
            first_of_type(all, token_type, i as int) is None,
        decreases n - i,
    {
        assert(all[i as int] == tokens@[i as int]@);
        if tokens[i].token_type == token_type {
            proof {
                lemma_first_of_type_stays(all, token_type, i + 1, n as int);
            }
            return Some(&tokens[i]);
        }
        i += 1;
    }
    None
}

/// The answer of a hook.
#[derive(Debug)]
pub struct AuthDecision {
    pub verdict: Verdict,
    /// Who the peer is, for logs.
    pub principal: Option<String>,
}

/// Whether something is allowed.
#[derive(Debug)]
pub enum Verdict {
    Allow,
    Deny(DenyReason),
}

/// Why something is denied.
#[derive(Debug)]
pub enum DenyReason {
    TokenMissing,
    TokenInvalid,
    TokenExpired,
    TokenReplayed,
    TokenMalformed,
    ScopeMismatch,
    IssuerUnknown,
    Other { message: String },
}

/// Why something is denied.
#[verifier::ext_equal]
pub enum DenyReasonView {
    TokenMissing,
    TokenInvalid,
    TokenExpired,
    TokenReplayed,
    TokenMalformed,
    ScopeMismatch,
    IssuerUnknown,
    Other { message: Seq<char> },
}

impl View for DenyReason {
    type V = DenyReasonView;

    open spec fn view(&self) -> DenyReasonView {
        match self {
            DenyReason::TokenMissing => DenyReasonView::TokenMissing,
            DenyReason::TokenInvalid => DenyReasonView::TokenInvalid,
            DenyReason::TokenExpired => DenyReasonView::TokenExpired,
            DenyReason::TokenReplayed => DenyReasonView::TokenReplayed,
            DenyReason::TokenMalformed => DenyReasonView::TokenMalformed,
            DenyReason::ScopeMismatch => DenyReasonView::ScopeMismatch,
            DenyReason::IssuerUnknown => DenyReasonView::IssuerUnknown,
            DenyReason::Other { message } => DenyReasonView::Other { message: message@ },
        }
    }
}

impl DenyReasonView {
    /// What is said of the denial.
    pub open spec fn text(self) -> Seq<char> {
        match self {
            DenyReasonView::TokenMissing => "token missing"@,
            DenyReasonView::TokenInvalid => "token invalid"@,
            DenyReasonView::TokenExpired => "token expired"@,
            DenyReasonView::TokenReplayed => "token replayed"@,
            DenyReasonView::TokenMalformed => "token malformed"@,
            DenyReasonView::ScopeMismatch => "scope mismatch"@,
            DenyReasonView::IssuerUnknown => "issuer unknown"@,
            DenyReasonView::Other { message } => message,
        }
    }
}

impl DenyReason {
    /// What is said of the denial.
    pub fn to_text(&self) -> (r: String)
        ensures
            r@ == self@.text(),
    {
        match self {
            DenyReason::TokenMissing => "token missing".to_owned(),
            DenyReason::TokenInvalid => "token invalid".to_owned(),
            DenyReason::TokenExpired => "token expired".to_owned(),
            DenyReason::TokenReplayed => "token replayed".to_owned(),
            DenyReason::TokenMalformed => "token malformed".to_owned(),
            DenyReason::ScopeMismatch => "scope mismatch".to_owned(),
            DenyReason::IssuerUnknown => "issuer unknown".to_owned(),
            DenyReason::Other { message } => message.clone(),
        }
    }
}

/// The answer of a hook: the reason if something is denied, and who the peer is.
#[verifier::ext_equal]
pub struct AuthDecisionView {
    pub denial: Option<DenyReasonView>,
    pub principal: Option<Seq<char>>,
}

impl View for AuthDecision {
    type V = AuthDecisionView;

    open spec fn view(&self) -> AuthDecisionView {
        AuthDecisionView {
            denial: match self.verdict {
                Verdict::Allow => None,
                Verdict::Deny(reason) => Some(reason@),
            },
            principal: cose::text_view(self.principal),
        }
    }
}

impl AuthDecision {
    /// Allowed.
    pub fn allow() -> (r: Self)
        ensures
            r@ == (AuthDecisionView { denial: None, principal: None }),
    {
        AuthDecision { verdict: Verdict::Allow, principal: None }
    }

    /// Denied for a reason.
    pub fn deny(reason: DenyReason) -> (r: Self)
        ensures
            r@ == (AuthDecisionView { denial: Some(reason@), principal: None }),
    {
        AuthDecision { verdict: Verdict::Deny(reason), principal: None }
    }

    /// The decision with the principal set.
    pub fn with_principal(self, principal: Option<String>) -> (r: Self)
        ensures
            r@ == (AuthDecisionView { principal: cose::text_view(principal), ..self@ }),
    {
        AuthDecision { verdict: self.verdict, principal }
    }

    /// Whether it is allowed.
    pub fn is_allowed(&self) -> (r: bool)
        ensures
            r == (self@.denial is None),
    {
        match &self.verdict {
            Verdict::Allow => true,
            Verdict::Deny(_) => false,
        }
    }
}

/// An authorization hook. It is asked when a session is set up and before each request. One
/// that decides nothing of its own allows everything.
pub trait AuthHook {
    /// Decides on a session. `None` if no decision could be made.
    fn on_setup(&self, _ctx: &SessionContext, _tokens: &[AuthBlob]) -> (r: Option<AuthDecision>)
        default_ensures
            r matches Some(decision) && decision@ == (AuthDecisionView {
                denial: None,
                principal: None,
            }),
    {
        Some(AuthDecision::allow())
    }

    /// Decides on a request. `None` if no decision could be made.
    fn on_request(&self, _ctx: &RequestContext<'_>, _tokens: &[AuthBlob]) -> (r: Option<
        AuthDecision,
    >)
        default_ensures
            r matches Some(decision) && decision@ == (AuthDecisionView {
                denial: None,
                principal: None,
            }),
    {
        Some(AuthDecision::allow())
    }
}

/// The hook that allows everything.
pub struct AllowAllAuthHook;

impl AuthHook for AllowAllAuthHook {

}

/// The type of the tokens that carry a shared secret.
pub const KEY_VALUE_TOKEN_TYPE: u64 = 0;

/// A token of the type for shared secrets is there with this value.
pub open spec fn presents(tokens: Seq<AuthBlobView>, secret: Seq<u8>) -> bool {
    tokens.contains(AuthBlobView { token_type: KEY_VALUE_TOKEN_TYPE, token_value: secret })
}

/// What becomes of a session with these tokens where peers share a secret.
pub open spec fn secret_denial(tokens: Seq<AuthBlobView>, secret: Seq<u8>) -> Option<
    DenyReasonView,
> {
    if presents(tokens, secret) {
        None
    } else if value_of_type(tokens, KEY_VALUE_TOKEN_TYPE) is Some {
        Some(DenyReasonView::TokenInvalid)
    } else {
        Some(DenyReasonView::TokenMissing)
    }
}

/// The hook for peers that share a secret. A session has to present it; its requests are allowed.
pub struct KeyValueAuthHook {
    secret: Vec<u8>,
}

impl View for KeyValueAuthHook {
    type V = Seq<u8>;

    closed spec fn view(&self) -> Seq<u8> {
        self.secret@
    }
}

impl KeyValueAuthHook {
    /// The hook for a secret.
    pub fn new(secret: &[u8]) -> (r: Self)
        ensures
            r@ == secret@,
    {
        KeyValueAuthHook { secret: copy_bytes(secret) }
    }

    /// Whether a token carries the secret.
    fn is_presented(&self, tokens: &[AuthBlob]) -> (r: bool)
        ensures
            r == presents(blobs_view(tokens@), self@),
    {
        let ghost all = blobs_view(tokens@);
        let ghost wanted = AuthBlobView { token_type: KEY_VALUE_TOKEN_TYPE, token_value: self@ };
        let mut i: usize = 0;
        while i < tokens.len()
            invariant
                i <= tokens@.len(),
                all == blobs_view(tokens@),
                wanted == (AuthBlobView {
                    token_type: KEY_VALUE_TOKEN_TYPE,
                    token_value: self@,
                }),
                forall|k: int| 0 <= k < i ==> #[trigger] all[k] != wanted,
            decreases tokens@.len() - i,
        {
            assert(all[i as int] == tokens@[i as int]@);
            if tokens[i].token_type == KEY_VALUE_TOKEN_TYPE && bytes_eq(
                tokens[i].token_value.as_slice(),
                self.secret.as_slice(),
            ) {
                assert(all[i as int] == wanted);
                return true;
            }
            i += 1;
        }
        false
    }
}

impl AuthHook for KeyValueAuthHook {
    fn on_setup(&self, _ctx: &SessionContext, tokens: &[AuthBlob]) -> (r: Option<AuthDecision>)
        ensures
            r matches Some(decision) && decision@ == (AuthDecisionView {
                denial: secret_denial(blobs_view(tokens@), self@),
                principal: None,
            }),
    {
        if self.is_presented(tokens) {
            return Some(AuthDecision::allow());
        }
        match find_blob(tokens, KEY_VALUE_TOKEN_TYPE) {
            Some(_) => Some(AuthDecision::deny(DenyReason::TokenInvalid)),
            None => Some(AuthDecision::deny(DenyReason::TokenMissing)),
        }
    }
}

/// A hook that leaves the decision to another one, so that it can be watched.
pub struct LoggingAuthHook<H> {
    pub inner: H,
}

impl<H> LoggingAuthHook<H> {
    pub fn new(inner: H) -> (r: Self)
        ensures
            r.inner == inner,
    {
        LoggingAuthHook { inner }
    }
}

impl<H: AuthHook> AuthHook for LoggingAuthHook<H> {
    fn on_setup(&self, ctx: &SessionContext, tokens: &[AuthBlob]) -> (r: Option<AuthDecision>)
        ensures
            call_ensures(H::on_setup, (&self.inner, ctx, tokens), r),
    {
        self.inner.on_setup(ctx, tokens)
    }

    fn on_request(&self, ctx: &RequestContext<'_>, tokens: &[AuthBlob]) -> (r: Option<
        AuthDecision,
    >)
        ensures
            call_ensures(H::on_request, (&self.inner, ctx, tokens), r),
    {
        self.inner.on_request(ctx, tokens)
    }
}

/// Of several tokens of a type the first one is looked at. Where none has the type, none is.
pub proof fn law_first_token_of_a_type_counts(tokens: Seq<AuthBlobView>, token_type: u64, i: int)
    requires
        0 <= i <= tokens.len(),
        forall|j: int| 0 <= j < i ==> (#[trigger] tokens[j]).token_type != token_type,
    ensures
        i < tokens.len() && tokens[i].token_type == token_type ==> value_of_type(tokens, token_type)
            == Some(tokens[i].token_value),
        i == tokens.len() ==> value_of_type(tokens, token_type) is None,
{
    lemma_none_of_type(tokens, token_type, i);
    if i < tokens.len() && tokens[i].token_type == token_type {
        assert(first_of_type(tokens, token_type, i + 1) == Some(i));
        lemma_first_of_type_stays(tokens, token_type, i + 1, tokens.len() as int);
    }
}

proof fn lemma_none_of_type(tokens: Seq<AuthBlobView>, token_type: u64, n: int)
    requires
        0 <= n <= tokens.len(),
        forall|j: int| 0 <= j < n ==> (#[trigger] tokens[j]).token_type != token_type,
    ensures
        first_of_type(tokens, token_type, n) is None,
    decreases n,
{
    if n > 0 {
        lemma_none_of_type(tokens, token_type, n - 1);
    }
}

/// Where peers share a secret, a session with any token of the type for secrets that holds it is
/// let in. One that has such a token with another value is told apart from one that has none.
pub proof fn law_shared_secret_lets_in(tokens: Seq<AuthBlobView>, secret: Seq<u8>)
    ensures
        secret_denial(tokens, secret) is None <==> exists|i: int|
            0 <= i < tokens.len() && (#[trigger] tokens[i]).token_type == KEY_VALUE_TOKEN_TYPE
                && tokens[i].token_value == secret,
        secret_denial(tokens, secret) == Some(DenyReasonView::TokenMissing) <==> forall|i: int|
            0 <= i < tokens.len() ==> (#[trigger] tokens[i]).token_type != KEY_VALUE_TOKEN_TYPE,
        secret_denial(tokens, secret) is Some ==> secret_denial(tokens, secret)->0 is TokenMissing
            || secret_denial(tokens, secret)->0 is TokenInvalid,
{
    let own = AuthBlobView { token_type: KEY_VALUE_TOKEN_TYPE, token_value: secret };
    if presents(tokens, secret) {
        let i = tokens.index_of(own);
        assert(tokens[i].token_type == KEY_VALUE_TOKEN_TYPE);
    }
    if exists|i: int|
        0 <= i < tokens.len() && (#[trigger] tokens[i]).token_type == KEY_VALUE_TOKEN_TYPE
            && tokens[i].token_value == secret {
        let i = choose|i: int|
            0 <= i < tokens.len() && (#[trigger] tokens[i]).token_type == KEY_VALUE_TOKEN_TYPE
                && tokens[i].token_value == secret;
        assert(tokens[i] == own);
    }
    lemma_typed(tokens, KEY_VALUE_TOKEN_TYPE, tokens.len() as int);
}

proof fn lemma_typed(tokens: Seq<AuthBlobView>, token_type: u64, n: int)
    requires
        0 <= n <= tokens.len(),
    ensures
        first_of_type(tokens, token_type, n) is Some <==> exists|i: int|
            0 <= i < n && (#[trigger] tokens[i]).token_type == token_type,
    decreases n,
{
    if n > 0 {
        lemma_typed(tokens, token_type, n - 1);
        if tokens[n - 1].token_type == token_type {
            assert(tokens[n - 1].token_type == token_type);
        }
    }
}

/// Denials are told apart by what is said of them, and any other is told in its own words.
pub proof fn law_denials_are_told_apart(a: DenyReasonView, b: DenyReasonView)
    ensures
        !(a is Other) && !(b is Other) && a.text() == b.text() ==> a == b,
        a matches DenyReasonView::Other { message } ==> a.text() == message,
{
    reveal_strlit("token missing");
    reveal_strlit("token invalid");
    reveal_strlit("token expired");
    reveal_strlit("token replayed");
    reveal_strlit("token malformed");
    reveal_strlit("scope mismatch");
    reveal_strlit("issuer unknown");
    let x = a.text();
    let y = b.text();
    if !(a is Other) && !(b is Other) && x == y {
        assert(x[0] == y[0] && x[6] == y[6] && x.len() == y.len());
    }
}

} // verus!
