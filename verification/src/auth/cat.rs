//! Sessions and requests checked against Common Access Tokens.
//!
//! A token is verified once, when a session is set up. Its claims are kept with the session,
//! and every request is checked against them and against the expiry of the token.

use cat_token::CatError;
use vstd::prelude::*;
use crate::auth::access_token::{
    self, cat_error_text, decode_claims, es256_key_fault, scope_authorizes, validate_payload,
    CatClaims, CatClaimsView, CatFault, TokenAction, TokenKey, TokenKeyView,
};
use crate::auth::cose::{
    self, cose_parts, has_critical_header, header_kid, token_claims_key, unenforceable_claim,
};
use crate::bytes::{self, copy_bytes};
use crate::namespace::TrackNamespace;
use crate::text;

verus! {

/// The type number of a Common Access Token.
pub const CAT_TOKEN_TYPE: u64 = 0x63346d;

/// How many keys a scope may have.
pub const MAX_SCOPE_AUTH_KEYS: usize = 5;

/// The longest token lifetime that is honoured, in seconds.
pub const MAX_TOKEN_LIFETIME_SECS: i64 = 604800;

/// The largest clock skew that is tolerated, in seconds.
pub const MAX_CLOCK_SKEW_SECS: i64 = 300;

/// How many signatures are verified for one session setup.
pub const MAX_SETUP_VERIFICATIONS: usize = 12;

/// The clock skew that is tolerated where a scope says nothing, in seconds.
pub const DEFAULT_CLOCK_SKEW_SECS: u64 = 60;

/// The claim that asks for a token to be validated again during a session.
pub const REVALIDATION_CLAIM: i64 = 328;

/// The algorithm of a public key.
#[derive(Clone, Copy, Debug, PartialEq, Eq, Structural)]
pub enum AuthKeyAlgorithm {
    Es256,
}

/// A public key that tokens are verified with.
#[derive(Debug)]
pub struct AuthPublicKey {
    pub algorithm: AuthKeyAlgorithm,
    pub pem: String,
    pub kid: Option<String>,
}

impl AuthPublicKey {
    /// An ES256 key without an identifier.
    pub fn es256(pem: String) -> (r: Self)
        ensures
            r.algorithm == AuthKeyAlgorithm::Es256,
            r.pem == pem,
            r.kid is None,
    {
        AuthPublicKey { algorithm: AuthKeyAlgorithm::Es256, pem, kid: None }
    }

    /// The key with an identifier.
    pub fn with_kid(self, kid: String) -> (r: Self)
        ensures
            r.algorithm == self.algorithm,
            r.pem == self.pem,
            r.kid == Some(kid),
    {
        AuthPublicKey { algorithm: self.algorithm, pem: self.pem, kid: Some(kid) }
    }
}

/// What a scope asks of tokens.
#[derive(Debug)]
pub struct ScopeAuthConfig {
    pub keys: Vec<AuthPublicKey>,
    /// The issuers that are accepted; any if there is none.
    pub issuers: Vec<String>,
    /// The audiences that are accepted; any if there is none.
    pub audiences: Vec<String>,
    pub clock_skew_secs: Option<u64>,
}

impl ScopeAuthConfig {
    /// Keys alone.
    pub fn new(keys: Vec<AuthPublicKey>) -> (r: Self)
        ensures
            r.keys == keys,
            r.issuers@ == Seq::<String>::empty(),
            r.audiences@ == Seq::<String>::empty(),
            r.clock_skew_secs is None,
    {
        ScopeAuthConfig {
            keys,
            issuers: Vec::new(),
            audiences: Vec::new(),
            clock_skew_secs: None,
        }
    }

    /// The configuration with these issuers.
    pub fn with_issuers(self, issuers: Vec<String>) -> (r: Self)
        ensures
            r == (ScopeAuthConfig { issuers, ..self }),
    {
        ScopeAuthConfig { issuers, ..self }
    }

    /// The configuration with these audiences.
    pub fn with_audiences(self, audiences: Vec<String>) -> (r: Self)
        ensures
            r == (ScopeAuthConfig { audiences, ..self }),
    {
        ScopeAuthConfig { audiences, ..self }
    }

    /// The configuration with this clock skew.
    pub fn with_clock_skew(self, secs: u64) -> (r: Self)
        ensures
            r == (ScopeAuthConfig { clock_skew_secs: Some(secs), ..self }),
    {
        ScopeAuthConfig { clock_skew_secs: Some(secs), ..self }
    }

    /// The clock skew that counts.
    pub open spec fn skew(self) -> u64 {
        match self.clock_skew_secs {
            Some(secs) => secs,
            None => DEFAULT_CLOCK_SKEW_SECS,
        }
    }

    /// The clock skew that counts, in seconds.
    pub fn effective_clock_skew(&self) -> (r: u64)
        ensures
            r == self.skew(),
    {
        match self.clock_skew_secs {
            Some(secs) => secs,
            None => DEFAULT_CLOCK_SKEW_SECS,
        }
    }
}

/// Why the hook itself failed.
#[derive(Debug)]
pub enum AuthError {
    Configuration(String),
    Backend(String),
}

/// Why something is denied.
#[derive(Debug)]
pub enum DenyReason {
    TokenMissing,
    TokenInvalid,
    TokenExpired,
    TokenReplayed,
    TokenMalformed,
    ScopeMismatch,
    IssuerUnknown,
    PolicyDenied { message: String },
    HookFault { message: String },
}

/// Why something is denied.
#[verifier::ext_equal]
pub enum DenyReasonView {
    TokenMissing,
    TokenInvalid,
    TokenExpired,
    TokenReplayed,
    TokenMalformed,
    ScopeMismatch,
    IssuerUnknown,
    PolicyDenied { message: Seq<char> },
    HookFault { message: Seq<char> },
}

impl View for DenyReason {
    type V = DenyReasonView;

    open spec fn view(&self) -> DenyReasonView {
        match self {
            DenyReason::TokenMissing => DenyReasonView::TokenMissing,
            DenyReason::TokenInvalid => DenyReasonView::TokenInvalid,
            DenyReason::TokenExpired => DenyReasonView::TokenExpired,
            DenyReason::TokenReplayed => DenyReasonView::TokenReplayed,
            DenyReason::TokenMalformed => DenyReasonView::TokenMalformed,
            DenyReason::ScopeMismatch => DenyReasonView::ScopeMismatch,
            DenyReason::IssuerUnknown => DenyReasonView::IssuerUnknown,
            DenyReason::PolicyDenied { message } => DenyReasonView::PolicyDenied {
                message: message@,
            },
            DenyReason::HookFault { message } => DenyReasonView::HookFault { message: message@ },
        }
    }
}

/// A token as a peer presents it.
#[derive(Debug)]
pub struct AuthToken {
    pub token_type: u64,
    pub value: Vec<u8>,
}

impl AuthToken {
    pub fn new(token_type: u64, value: Vec<u8>) -> (r: Self)
        ensures
            r.token_type == token_type,
            r.value == value,
    {
        AuthToken { token_type, value }
    }
}

/// What a peer asks for.
#[derive(Debug)]
pub enum AuthzOperation<'a> {
    PublishNamespace { namespace: &'a TrackNamespace },
    Publish { namespace: &'a TrackNamespace, track: &'a [u8] },
    Subscribe { namespace: &'a TrackNamespace, track: &'a [u8] },
    SubscribeNamespace { prefix: &'a TrackNamespace },
    TrackStatus { namespace: &'a TrackNamespace, track: &'a [u8] },
}

/// What a session was granted.
#[derive(Debug)]
pub struct CatPrincipal {
    pub token: CatClaims,
    /// When the token expires, in seconds since the epoch.
    pub expires_at: i64,
    pub clock_skew: i64,
}

/// A key that tokens are verified with.
#[derive(Debug)]
pub struct CatKey {
    pub kid: Option<String>,
    pub pem: String,
}

/// A key that tokens are verified with.
#[verifier::ext_equal]
pub struct CatKeyView {
    pub kid: Option<Seq<char>>,
    pub pem: Seq<char>,
}

impl View for CatKey {
    type V = CatKeyView;

    open spec fn view(&self) -> CatKeyView {
        CatKeyView { kid: cose::text_view(self.kid), pem: self.pem@ }
    }
}

impl View for AuthPublicKey {
    type V = CatKeyView;

    open spec fn view(&self) -> CatKeyView {
        CatKeyView { kid: cose::text_view(self.kid), pem: self.pem@ }
    }
}

/// A text in quotation marks, with what needs escaping escaped, as `{:?}` prints it.
pub uninterp spec fn quoted_text(text: Seq<char>) -> Seq<char>;

/// `std::fmt::Debug` of a text puts it in quotation marks and escapes it.
#[verifier::external_body]
fn quoted(text: &str) -> (r: String)
    ensures
        r@ == quoted_text(text@),
{
    format!("{text:?}")
}

/// The contents of a list of configured keys.
pub open spec fn keys_view(keys: Seq<AuthPublicKey>) -> Seq<CatKeyView> {
    keys.map_values(|key: AuthPublicKey| key@)
}

/// The key at `i` has the identifier of an earlier one.
pub open spec fn repeats_kid(keys: Seq<CatKeyView>, i: int) -> bool {
    keys[i].kid is Some && exists|k: int|
        0 <= k < i && (#[trigger] keys[k]).kid == keys[i].kid
}

/// The first of the first `n` keys that has the identifier of an earlier one.
pub open spec fn first_repeat(keys: Seq<CatKeyView>, n: int) -> Option<int>
    decreases n,
{
    if n <= 0 {
        None
    } else {
        match first_repeat(keys, n - 1) {
            Some(i) => Some(i),
            None => if repeats_kid(keys, n - 1) {
                Some(n - 1)
            } else {
                None
            },
        }
    }
}

/// The first of the first `n` keys that cannot be read.
pub open spec fn first_unreadable(keys: Seq<CatKeyView>, n: int) -> Option<int>
    decreases n,
{
    if n <= 0 {
        None
    } else {
        match first_unreadable(keys, n - 1) {
            Some(i) => Some(i),
            None => if access_token::es256_fault(keys[n - 1].pem) is Some {
                Some(n - 1)
            } else {
                None
            },
        }
    }
}

/// What is said of a key that cannot be read.
pub open spec fn unreadable_text(key: CatKeyView, i: int, fault: Seq<char>) -> Seq<char> {
    "key "@ + text::decimal(i as nat) + " ("@ + (match key.kid {
        Some(kid) => kid,
        None => "no kid"@,
    }) + ") is not a valid ES256 public key: "@ + fault
}

/// What is wrong with the keys of a scope, if anything is.
pub open spec fn keys_fault(keys: Seq<CatKeyView>) -> Option<Seq<char>> {
    let n = keys.len() as int;
    if n == 0 {
        Some("no public keys configured"@)
    } else if n > MAX_SCOPE_AUTH_KEYS {
        Some(text::decimal(n as nat) + " public keys configured, at most 5 are allowed"@)
    } else if first_repeat(keys, n) is Some {
        Some("duplicate key identifier "@ + quoted_text(keys[first_repeat(keys, n)->0].kid->0))
    } else if first_unreadable(keys, n) is Some {
        let i = first_unreadable(keys, n)->0;
        Some(unreadable_text(keys[i], i, access_token::es256_fault(keys[i].pem)->0))
    } else {
        None
    }
}

/// The hook that checks sessions and requests against Common Access Tokens.
#[derive(Debug)]
pub struct CatAuthHook {
    keys: Vec<CatKey>,
    issuers: Vec<String>,
    audiences: Vec<String>,
    clock_skew: i64,
    scope: Option<String>,
}

/// The settings of a [`CatAuthHook`].
#[verifier::ext_equal]
pub struct CatAuthHookView {
    pub keys: Seq<CatKeyView>,
    pub issuers: Seq<Seq<char>>,
    pub audiences: Seq<Seq<char>>,
    pub clock_skew: i64,
    pub scope: Option<Seq<char>>,
}

impl View for CatAuthHook {
    type V = CatAuthHookView;

    closed spec fn view(&self) -> CatAuthHookView {
        CatAuthHookView {
            keys: self.keys@.map_values(|key: CatKey| key@),
            issuers: text::texts_view(self.issuers@),
            audiences: text::texts_view(self.audiences@),
            clock_skew: self.clock_skew,
            scope: cose::text_view(self.scope),
        }
    }
}

/// A list that counts if it is not empty.
pub open spec fn if_any(list: Seq<Seq<char>>) -> Option<Seq<Seq<char>>> {
    if list.len() == 0 {
        None
    } else {
        Some(list)
    }
}

/// A copy of a list of texts.
fn copy_texts(list: &Vec<String>) -> (r: Vec<String>)
    ensures
        text::texts_view(r@) == text::texts_view(list@),
{
    let mut out: Vec<String> = Vec::new();
    let mut i: usize = 0;
    while i < list.len()
        invariant
            i <= list@.len(),
            out@.len() == i,
            forall|k: int| 0 <= k < i ==> (#[trigger] out@[k])@ == list@[k]@,
        decreases list@.len() - i,
    {
        out.push(list[i].clone());
        i += 1;
    }
    assert(text::texts_view(out@) =~= text::texts_view(list@));
    out
}

/// A copy of a list of texts that counts if it is not empty.
fn copy_if_any(list: &Vec<String>) -> (r: Option<Vec<String>>)
    ensures
        access_token::list_view(r) == if_any(text::texts_view(list@)),
{
    assert(text::texts_view(list@).len() == list@.len());
    if list.len() == 0 {
        None
    } else {
        Some(copy_texts(list))
    }
}

/// Whether two optional texts are both there and equal.
fn same_kid(a: &Option<String>, b: &Option<String>) -> (r: bool)
    ensures
        r == (a is Some && cose::text_view(*a) == cose::text_view(*b)),
{
    match (a, b) {
        (Some(a), Some(b)) => text::text_eq(a, b),
        _ => false,
    }
}

/// A copy of an optional text.
fn copy_text(text: &Option<String>) -> (r: Option<String>)
    ensures
        cose::text_view(r) == cose::text_view(*text),
{
    match text {
        Some(text) => Some(text.clone()),
        None => None,
    }
}

impl CatAuthHook {
    /// The skew lies within its limits.
    pub open spec fn wf(&self) -> bool {
        0 <= self@.clock_skew <= MAX_CLOCK_SKEW_SECS
    }

    /// The hook for a scope. It fails as a whole if one of the keys is not usable.
    pub fn new(config: &ScopeAuthConfig, scope: Option<String>) -> (r: Result<Self, AuthError>)
        ensures
            match r {
                Ok(hook) => {
                    &&& keys_fault(keys_view(config.keys@)) is None
                    &&& hook.wf()
                    &&& hook@ == (CatAuthHookView {
                        keys: keys_view(config.keys@),
                        issuers: text::texts_view(config.issuers@),
                        audiences: text::texts_view(config.audiences@),
                        clock_skew: if config.skew() < MAX_CLOCK_SKEW_SECS {
                            config.skew() as i64
                        } else {
                            MAX_CLOCK_SKEW_SECS
                        },
                        scope: cose::text_view(scope),
                    })
                },
                Err(AuthError::Configuration(message)) => keys_fault(keys_view(config.keys@))
                    == Some(message@),
                Err(AuthError::Backend(_)) => false,
            },
    {
        let ghost all = keys_view(config.keys@);
        assert(all.len() == config.keys@.len());
        if config.keys.len() == 0 {
            return Err(AuthError::Configuration("no public keys configured".to_owned()));
        }
        if config.keys.len() > MAX_SCOPE_AUTH_KEYS {
            let mut message = String::new();
            text::push_decimal(&mut message, config.keys.len() as u64);
            message.append(" public keys configured, at most 5 are allowed");
            proof {
                reveal_strlit("");
                let n = text::decimal(all.len() as nat);
                assert(message@ =~= n + " public keys configured, at most 5 are allowed"@);
            }
            return Err(AuthError::Configuration(message));
        }
        if let Some(message) = repeat_fault(&config.keys) {
            return Err(AuthError::Configuration(message));
        }
        let keys = build_keys(&config.keys)?;
        let skew: u64 = config.effective_clock_skew();
        let clock_skew: i64 = if skew < 300 {
            skew as i64
        } else {
            MAX_CLOCK_SKEW_SECS
        };
        Ok(
            CatAuthHook {
                keys,
                issuers: copy_texts(&config.issuers),
                audiences: copy_texts(&config.audiences),
                clock_skew,
                scope,
            },
        )
    }

    /// The clock skew that is tolerated, in seconds.
    pub fn clock_skew(&self) -> (r: i64)
        ensures
            r == self@.clock_skew,
    {
        self.clock_skew
    }

    /// The number of keys.
    pub fn key_count(&self) -> (r: usize)
        ensures
            r == self@.keys.len(),
    {
        self.keys.len()
    }
}

/// What is said of a key that has the identifier of an earlier one, if there is such a key.
fn repeat_fault(keys: &Vec<AuthPublicKey>) -> (r: Option<String>)
    ensures
        match r {
            Some(message) => {
                let all = keys_view(keys@);
                first_repeat(all, all.len() as int) matches Some(i) && message@
                    == "duplicate key identifier "@ + quoted_text(all[i].kid->0)
            },
            None => first_repeat(keys_view(keys@), keys@.len() as int) is None,
        },
{
    let ghost all = keys_view(keys@);
    let mut i: usize = 0;
    while i < keys.len()
        invariant
            i <= keys@.len(),
            all == keys_view(keys@),
            first_repeat(all, i as int) is None,
        decreases keys@.len() - i,
    {
        assert(all[i as int] == keys@[i as int]@);
        let mut k: usize = 0;
        while k < i
            invariant
                k <= i < keys@.len(),
                all == keys_view(keys@),
                all[i as int] == keys@[i as int]@,
                first_repeat(all, i as int) is None,
                all[i as int].kid is Some ==> forall|j: int|
                    0 <= j < k ==> (#[trigger] all[j]).kid != all[i as int].kid,
            decreases i - k,
        {
            assert(all[k as int] == keys@[k as int]@);
            if same_kid(&keys[i].kid, &keys[k].kid) {
                proof {
                    assert(all[k as int].kid == all[i as int].kid);
                    assert(repeats_kid(all, i as int));
                    lemma_repeat_stays(all, i + 1, all.len() as int);
                }
                let mut message = "duplicate key identifier ".to_owned();
                if let Some(kid) = &keys[i].kid {
                    message.append(quoted(kid.as_str()).as_str());
                }
                return Some(message);
            }
            k += 1;
        }
        assert(!repeats_kid(all, i as int));
        i += 1;
    }
    None
}

proof fn lemma_repeat_stays(keys: Seq<CatKeyView>, m: int, n: int)
    requires
        0 <= m <= n,
        first_repeat(keys, m) is Some,
    ensures
        first_repeat(keys, n) == first_repeat(keys, m),
    decreases n,
{
    if m < n {
        lemma_repeat_stays(keys, m, n - 1);
    }
}

proof fn lemma_unreadable_stays(keys: Seq<CatKeyView>, m: int, n: int)
    requires
        0 <= m <= n,
        first_unreadable(keys, m) is Some,
    ensures
        first_unreadable(keys, n) == first_unreadable(keys, m),
    decreases n,
{
    if m < n {
        lemma_unreadable_stays(keys, m, n - 1);
    }
}

/// The keys to verify tokens with, if all of them can be read.
fn build_keys(keys: &Vec<AuthPublicKey>) -> (r: Result<Vec<CatKey>, AuthError>)
    ensures
        ({
            let all = keys_view(keys@);
            match r {
                Ok(built) => first_unreadable(all, all.len() as int) is None && built@.map_values(
                    |key: CatKey| key@,
                ) == all,
                Err(AuthError::Configuration(message)) => first_unreadable(
                    all,
                    all.len() as int,
                ) matches Some(i) && message@ == unreadable_text(
                    all[i],
                    i,
                    access_token::es256_fault(all[i].pem)->0,
                ),
                Err(AuthError::Backend(_)) => false,
            }
        }),
{
    let ghost all = keys_view(keys@);
    let mut built: Vec<CatKey> = Vec::new();
    let mut i: usize = 0;
    while i < keys.len()
        invariant
            i <= keys@.len(),
            all == keys_view(keys@),
            first_unreadable(all, i as int) is None,
            built@.len() == i,
            forall|k: int| 0 <= k < i ==> (#[trigger] built@[k])@ == all[k],
        decreases keys@.len() - i,
    {
        assert(all[i as int] == keys@[i as int]@);
        if let Some(fault) = es256_key_fault(keys[i].pem.as_str()) {
            proof {
                lemma_unreadable_stays(all, i + 1, all.len() as int);
            }
            let mut message = "key ".to_owned();
            text::push_decimal(&mut message, i as u64);
            message.append(" (");
            match &keys[i].kid {
                Some(kid) => {
                    message.append(kid.as_str());
                },
                None => {
                    message.append("no kid");
                },
            }
            message.append(") is not a valid ES256 public key: ");
            message.append(fault.as_str());
            assert(message@ =~= unreadable_text(all[i as int], i as int, fault@));
            return Err(AuthError::Configuration(message));
        }
        built.push(CatKey { kid: copy_text(&keys[i].kid), pem: keys[i].pem.clone() });
        i += 1;
    }
    assert(built@.map_values(|key: CatKey| key@) =~= all);
    Ok(built)
}

/// The error says that the key does not fit, and nothing of the token.
pub open spec fn is_key_mismatch(fault: CatFault) -> bool {
    fault is SignatureVerificationFailed || fault is AlgorithmMismatch
}

/// The more useful of two verification failures: the first that is not about the key.
pub open spec fn better_fault(current: Option<CatFault>, candidate: CatFault) -> CatFault {
    match current {
        Some(current) => if is_key_mismatch(current) {
            candidate
        } else {
            current
        },
        None => candidate,
    }
}

/// The contents of an optional error.
pub open spec fn error_view(err: Option<CatError>) -> Option<CatFault> {
    match err {
        Some(err) => Some(access_token::fault_of(err)),
        None => None,
    }
}

/// The more useful of two verification failures.
pub fn more_informative(current: Option<CatError>, candidate: CatError) -> (r: CatError)
    ensures
        access_token::fault_of(r) == better_fault(
            error_view(current),
            access_token::fault_of(candidate),
        ),
{
    match current {
        None => candidate,
        Some(current) => {
            let mismatch = match &current {
                CatError::SignatureVerificationFailed => true,
                CatError::AlgorithmMismatch { .. } => true,
                _ => false,
            };
            if mismatch {
                candidate
            } else {
                current
            }
        },
    }
}

/// The denial says nothing specific of a token.
pub open spec fn is_generic(reason: DenyReasonView) -> bool {
    reason is TokenInvalid || reason is TokenMissing
}

/// The more useful of two denials: the first that is specific.
pub open spec fn better_denial(
    current: Option<DenyReasonView>,
    candidate: DenyReasonView,
) -> DenyReasonView {
    match current {
        Some(current) => if is_generic(current) {
            candidate
        } else {
            current
        },
        None => candidate,
    }
}

/// The contents of an optional denial.
pub open spec fn denial_view(reason: Option<DenyReason>) -> Option<DenyReasonView> {
    match reason {
        Some(reason) => Some(reason@),
        None => None,
    }
}

/// The more useful of two denials.
pub fn more_specific_denial(current: Option<DenyReason>, candidate: DenyReason) -> (r: DenyReason)
    ensures
        r@ == better_denial(denial_view(current), candidate@),
{
    match current {
        None => candidate,
        Some(current) => {
            let generic = match &current {
                DenyReason::TokenInvalid => true,
                DenyReason::TokenMissing => true,
                _ => false,
            };
            if generic {
                candidate
            } else {
                current
            }
        },
    }
}

/// The denial that a fault of a token leads to.
pub open spec fn denial_of(fault: CatFault) -> DenyReasonView {
    match fault {
        CatFault::TokenExpired => DenyReasonView::TokenExpired,
        CatFault::TokenNotYetValid => DenyReasonView::TokenExpired,
        CatFault::InvalidIssuer => DenyReasonView::IssuerUnknown,
        CatFault::ReplayAttackDetected => DenyReasonView::TokenReplayed,
        CatFault::MoqtActionNotAuthorized(_) => DenyReasonView::ScopeMismatch,
        CatFault::InvalidTokenFormat => DenyReasonView::TokenMalformed,
        CatFault::InvalidCbor(_) => DenyReasonView::TokenMalformed,
        CatFault::InvalidBase64(_) => DenyReasonView::TokenMalformed,
        CatFault::MissingRequiredClaim(_) => DenyReasonView::TokenMalformed,
        CatFault::InvalidAudience => DenyReasonView::TokenInvalid,
        CatFault::SignatureVerificationFailed => DenyReasonView::TokenInvalid,
        CatFault::UnsupportedAlgorithm(_) => DenyReasonView::TokenInvalid,
        CatFault::AlgorithmMismatch { .. } => DenyReasonView::TokenInvalid,
        _ => DenyReasonView::PolicyDenied { message: access_token::fault_text(fault) },
    }
}

/// The denial that an error leads to.
pub fn map_cat_error(err: CatError) -> (r: DenyReason)
    ensures
        r@ == denial_of(access_token::fault_of(err)),
{
    match err {
        CatError::TokenExpired => DenyReason::TokenExpired,
        CatError::TokenNotYetValid => DenyReason::TokenExpired,
        CatError::InvalidIssuer => DenyReason::IssuerUnknown,
        CatError::ReplayAttackDetected => DenyReason::TokenReplayed,
        CatError::MoqtActionNotAuthorized(_) => DenyReason::ScopeMismatch,
        CatError::InvalidTokenFormat => DenyReason::TokenMalformed,
        CatError::InvalidCbor(_) => DenyReason::TokenMalformed,
        CatError::InvalidBase64(_) => DenyReason::TokenMalformed,
        CatError::MissingRequiredClaim(_) => DenyReason::TokenMalformed,
        CatError::InvalidAudience => DenyReason::TokenInvalid,
        CatError::SignatureVerificationFailed => DenyReason::TokenInvalid,
        CatError::UnsupportedAlgorithm(_) => DenyReason::TokenInvalid,
        CatError::AlgorithmMismatch { .. } => DenyReason::TokenInvalid,
        other => DenyReason::PolicyDenied { message: cat_error_text(&other) },
    }
}

/// The key has that identifier.
pub open spec fn named(kid: Seq<char>) -> spec_fn(CatKeyView) -> bool {
    |key: CatKeyView| key.kid == Some(kid)
}

/// The key does not have that identifier.
pub open spec fn unnamed(kid: Seq<char>) -> spec_fn(CatKeyView) -> bool {
    |key: CatKeyView| key.kid != Some(kid)
}

/// The keys in the order in which they are tried: those with the identifier come first.
pub open spec fn trial_order(keys: Seq<CatKeyView>, kid: Option<Seq<char>>) -> Seq<CatKeyView> {
    match kid {
        Some(kid) => keys.filter(named(kid)) + keys.filter(unnamed(kid)),
        None => keys,
    }
}

/// The contents of a list of references to keys.
pub open spec fn refs_view(keys: Seq<&CatKey>) -> Seq<CatKeyView> {
    keys.map_values(|key: &CatKey| key@)
}

impl CatAuthHook {
    /// The keys with the identifier, or those without it, in order.
    fn keys_with(&self, kid: &String, with: bool) -> (r: Vec<&CatKey>)
        ensures
            refs_view(r@) == self@.keys.filter(
                if with {
                    named(kid@)
                } else {
                    unnamed(kid@)
                },
            ),
    {
        let ghost keep = if with {
            named(kid@)
        } else {
            unnamed(kid@)
        };
        let ghost all = self@.keys;
        let mut out: Vec<&CatKey> = Vec::new();
        assert(all.take(0).filter(keep) =~= refs_view(out@)) by {
            reveal(Seq::filter);
        }
        let mut i: usize = 0;
        while i < self.keys.len()
            invariant
                i <= all.len(),
                all.len() == self.keys@.len(),
                all == self@.keys,
                keep == if with {
                    named(kid@)
                } else {
                    unnamed(kid@)
                },
                refs_view(out@) == all.take(i as int).filter(keep),
            decreases all.len() - i,
        {
            proof {
                reveal(Seq::filter);
                assert(all.take(i + 1).drop_last() =~= all.take(i as int));
                assert(all[i as int] == self.keys@[i as int]@);
            }
            let ghost sofar = refs_view(out@);
            let has = match &self.keys[i].kid {
                Some(own) => text::text_eq(own, kid),
                None => false,
            };
            assert(keep(all[i as int]) == (has == with));
            if has == with {
                out.push(&self.keys[i]);
                assert(refs_view(out@) =~= sofar.push(all[i as int]));
            }
            i += 1;
        }
        assert(all.take(i as int) =~= all);
        out
    }

    /// The keys in the order in which they are tried for a token with the identifier.
    pub fn candidate_keys(&self, kid: &Option<String>) -> (r: Vec<&CatKey>)
        ensures
            refs_view(r@) == trial_order(self@.keys, cose::text_view(*kid)),
    {
        match kid {
            Some(kid) => {
                let mut out = self.keys_with(kid, true);
                let ghost first = refs_view(out@);
                let mut rest = self.keys_with(kid, false);
                let ghost second = refs_view(rest@);
                out.append(&mut rest);
                assert(refs_view(out@) =~= first + second);
                out
            },
            None => {
                let mut out: Vec<&CatKey> = Vec::new();
                let mut i: usize = 0;
                while i < self.keys.len()
                    invariant
                        i <= self.keys@.len(),
                        out@.len() == i,
                        forall|k: int| 0 <= k < i ==> (#[trigger] out@[k])@ == self.keys@[k]@,
                    decreases self.keys@.len() - i,
                {
                    out.push(&self.keys[i]);
                    i += 1;
                }
                assert(refs_view(out@) =~= self@.keys);
                out
            },
        }
    }
}

/// What trying keys on a token comes to.
#[verifier::ext_equal]
pub enum Trial {
    Verified(CatClaimsView),
    Failed(CatFault),
    /// No more signatures may be verified.
    Exhausted,
}

/// Tries keys in turn, as long as signatures may be verified. `best` is the most useful
/// failure so far. The second part is how many verifications are left.
pub open spec fn try_keys(
    keys: Seq<CatKeyView>,
    token: Seq<u8>,
    budget: int,
    best: Option<CatFault>,
) -> (Trial, int)
    decreases keys.len(),
{
    if keys.len() == 0 {
        (
            Trial::Failed(
                match best {
                    Some(fault) => fault,
                    None => CatFault::SignatureVerificationFailed,
                },
            ),
            budget,
        )
    } else if budget <= 0 {
        (Trial::Exhausted, budget)
    } else {
        match access_token::token_claims(TokenKeyView::Es256(keys[0].pem), token) {
            Ok(claims) => (Trial::Verified(claims), budget - 1),
            Err(fault) => try_keys(
                keys.drop_first(),
                token,
                budget - 1,
                Some(better_fault(best, fault)),
            ),
        }
    }
}

/// The sum of two times, kept within the range.
pub open spec fn clamped(time: int) -> int {
    if time > i64::MAX {
        i64::MAX as int
    } else if time < i64::MIN {
        i64::MIN as int
    } else {
        time
    }
}

/// The expiry of a token whose times are plausible: it expires, neither too late nor too
/// long after it starts, and does not start too far away.
pub open spec fn lifetime(claims: CatClaimsView, now: i64) -> Option<i64> {
    match claims.exp {
        Some(exp) => {
            let horizon = clamped(now + MAX_TOKEN_LIFETIME_SECS);
            if exp > horizon {
                None
            } else {
                match claims.nbf {
                    Some(nbf) => if nbf < clamped(now - MAX_TOKEN_LIFETIME_SECS) || horizon < nbf
                        || clamped(exp - nbf) > MAX_TOKEN_LIFETIME_SECS {
                        None
                    } else {
                        Some(exp)
                    },
                    None => Some(exp),
                }
            }
        },
        None => None,
    }
}

/// The expiry of a token whose times are plausible.
pub fn check_lifetime(claims: &CatClaims, now: i64) -> (r: Option<i64>)
    ensures
        r == lifetime(claims@, now),
{
    match claims.exp {
        None => None,
        Some(exp) => {
            let horizon: i64 = saturating_plus(now, MAX_TOKEN_LIFETIME_SECS);
            if exp > horizon {
                return None;
            }
            if let Some(nbf) = claims.nbf {
                if nbf < saturating_minus(now, MAX_TOKEN_LIFETIME_SECS) || nbf > horizon {
                    return None;
                }
                if saturating_minus(exp, nbf) > MAX_TOKEN_LIFETIME_SECS {
                    return None;
                }
            }
            Some(exp)
        },
    }
}

fn saturating_plus(a: i64, b: i64) -> (r: i64)
    ensures
        r == clamped(a + b),
{
    match a.checked_add(b) {
        Some(sum) => sum,
        None => if b > 0 {
            i64::MAX
        } else {
            i64::MIN
        },
    }
}

fn saturating_minus(a: i64, b: i64) -> (r: i64)
    ensures
        r == clamped(a - b),
{
    match a.checked_sub(b) {
        Some(difference) => difference,
        None => if b > 0 {
            i64::MIN
        } else {
            i64::MAX
        },
    }
}

/// What a session is granted, or why it is denied.
pub type Verified = Result<(CatClaims, i64), DenyReason>;

/// The contents of a verification result.
pub open spec fn verified_view(r: Verified) -> Result<(CatClaimsView, i64), DenyReasonView> {
    match r {
        Ok(granted) => Ok((granted.0@, granted.1)),
        Err(reason) => Err(reason@),
    }
}

/// The outcome for a token whose claims can be enforced, by what is wrong with them: they
/// must be valid and must not ask for revalidation. `revalidate` tells whether the token asks
/// for it in a way that the decoded claims do not show.
pub open spec fn conclusion(
    claims: CatClaimsView,
    expires_at: i64,
    revalidate: bool,
    fault: Option<CatFault>,
) -> Result<(CatClaimsView, i64), DenyReasonView> {
    match fault {
        Some(fault) => Err(denial_of(fault)),
        None => if claims.moqt_reval || revalidate {
            Err(denial_of(CatFault::RevalidationRequired))
        } else {
            Ok((claims, expires_at))
        },
    }
}

/// The outcome for a token whose claims can be enforced, by what is wrong with them.
pub fn conclude(
    claims: CatClaims,
    expires_at: i64,
    revalidate: bool,
    validity: Result<(), CatError>,
) -> (r: Verified)
    ensures
        verified_view(r) == conclusion(
            claims@,
            expires_at,
            revalidate,
            access_token::fault_view(validity),
        ),
{
    match validity {
        Err(err) => Err(map_cat_error(err)),
        Ok(()) => {
            if claims.moqt_reval || revalidate {
                Err(map_cat_error(CatError::RevalidationRequired))
            } else {
                Ok((claims, expires_at))
            }
        },
    }
}

impl CatAuthHookView {
    /// The outcome for the claims of a verified token, when the clock is read once as `now`
    /// and once as `then`.
    pub open spec fn judges(
        self,
        token: Seq<u8>,
        claims: CatClaimsView,
        now: i64,
        then: i64,
    ) -> Result<(CatClaimsView, i64), DenyReasonView> {
        match lifetime(claims, now) {
            None => Err(DenyReasonView::TokenInvalid),
            Some(expires_at) => match cose::token_fault(token) {
                Some(claim) => Err(
                    DenyReasonView::PolicyDenied { message: "unenforceable claim: "@ + claim },
                ),
                None => {
                    let issuers = if_any(self.issuers);
                    let audiences = if_any(self.audiences);
                    conclusion(
                        claims,
                        expires_at,
                        cose::token_has_claim(token, REVALIDATION_CLAIM),
                        access_token::validity_fault(
                            claims,
                            issuers,
                            audiences,
                            self.clock_skew,
                            then,
                            access_token::other_fault(
                                cose::token_payload(token),
                                issuers,
                                audiences,
                                self.clock_skew,
                                then,
                            ),
                        ),
                    )
                },
            },
        }
    }

    /// The outcome for a token, and how many verifications are left.
    pub open spec fn verifies(
        self,
        token: Seq<u8>,
        budget: int,
        now: i64,
        then: i64,
    ) -> (Result<(CatClaimsView, i64), DenyReasonView>, int) {
        if token.len() == 0 {
            (Err(DenyReasonView::TokenMalformed), budget)
        } else if cose::token_critical(token) {
            (Err(DenyReasonView::TokenInvalid), budget)
        } else {
            let (trial, left) = try_keys(
                trial_order(self.keys, cose::token_kid(token)),
                token,
                budget,
                None,
            );
            match trial {
                Trial::Verified(claims) => (self.judges(token, claims, now, then), left),
                Trial::Failed(fault) => (Err(denial_of(fault)), left),
                Trial::Exhausted => (Err(DenyReasonView::TokenInvalid), left),
            }
        }
    }
}

/// A point in time that the clock can be at: lifetimes and skews can be added to it.
pub open spec fn is_clock_time(now: i64) -> bool {
    0 <= now && now + MAX_TOKEN_LIFETIME_SECS + MAX_CLOCK_SKEW_SECS <= i64::MAX
}

impl CatAuthHook {
    /// Tries the keys on a token and decodes its claims.
    fn try_candidates(&self, token: &[u8], budget: &mut usize) -> (r: Result<
        CatClaims,
        DenyReason,
    >)
        ensures
            ({
                let (trial, left) = try_keys(
                    trial_order(self@.keys, cose::token_kid(token@)),
                    token@,
                    *old(budget) as int,
                    None,
                );
                &&& *final(budget) == left
                &&& match trial {
                    Trial::Verified(claims) => r matches Ok(c) && c@ == claims
                        && cose::token_parts(token@) is Some && access_token::has_claims(
                        cose::token_payload(token@),
                        claims,
                    ),
                    Trial::Failed(fault) => r matches Err(reason) && reason@ == denial_of(fault),
                    Trial::Exhausted => r matches Err(reason) && reason@
                        == DenyReasonView::TokenInvalid,
                }
            }),
    {
        let kid: Option<String> = header_kid(token);
        let keys = self.candidate_keys(&kid);
        let ghost all = refs_view(keys@);
        let ghost start = *budget as int;
        let ghost whole = try_keys(all, token@, start, None);
        let mut best: Option<CatError> = None;
        let mut i: usize = 0;
        assert(all.skip(0) =~= all);
        while i < keys.len()
            invariant
                i <= keys@.len(),
                all == refs_view(keys@),
                whole == try_keys(all.skip(i as int), token@, *budget as int, error_view(best)),
                all == trial_order(self@.keys, cose::token_kid(token@)),
                start == *old(budget),
                whole == try_keys(all, token@, start, None),
            decreases keys@.len() - i,
        {
            let ghost rest = all.skip(i as int);
            assert(rest.drop_first() =~= all.skip(i + 1));
            assert(rest[0] == keys@[i as int]@);
            if *budget == 0 {
                return Err(DenyReason::TokenInvalid);
            }
            *budget = *budget - 1;
            match decode_claims(&TokenKey::Es256(keys[i].pem.clone()), token) {
                Ok(claims) => {
                    return Ok(claims);
                },
                Err(err) => {
                    best = Some(more_informative(best, err));
                },
            }
            i += 1;
        }
        match best {
            Some(err) => Err(map_cat_error(err)),
            None => Err(map_cat_error(CatError::SignatureVerificationFailed)),
        }
    }

    /// Verifies a token and checks its claims. `budget` is how many signatures may still be
    /// verified. The clock is read again inside, when the claims are validated.
    pub fn verify(&self, token: &AuthToken, budget: &mut usize, now: i64) -> (r: Verified)
        requires
            self.wf(),
            is_clock_time(now),
        ensures
            exists|then: i64|
                #[trigger] self@.verifies(
                    token.value@,
                    *old(budget) as int,
                    now,
                    then,
                ) == (verified_view(r), *final(budget) as int),
    {
        let ghost start = *budget as int;
        let ghost value = token.value@;
        if token.value.len() == 0 {
            let r: Verified = Err(DenyReason::TokenMalformed);
            assert(self@.verifies(value, start, now, 0) == (verified_view(r), *budget as int));
            return r;
        }
        if has_critical_header(token.value.as_slice()) {
            let r: Verified = Err(DenyReason::TokenInvalid);
            assert(self@.verifies(value, start, now, 0) == (verified_view(r), *budget as int));
            return r;
        }
        let claims = match self.try_candidates(token.value.as_slice(), budget) {
            Ok(claims) => claims,
            Err(reason) => {
                let r: Verified = Err(reason);
                assert(self@.verifies(value, start, now, 0) == (verified_view(r), *budget as int));
                return r;
            },
        };
        let expires_at: i64 = match check_lifetime(&claims, now) {
            Some(expires_at) => expires_at,
            None => {
                let r: Verified = Err(DenyReason::TokenInvalid);
                assert(self@.verifies(value, start, now, 0) == (verified_view(r), *budget as int));
                return r;
            },
        };
        if let Some(claim) = unenforceable_claim(token.value.as_slice()) {
            let mut message = "unenforceable claim: ".to_owned();
            message.append(claim.as_str());
            let r: Verified = Err(DenyReason::PolicyDenied { message });
            assert(self@.verifies(value, start, now, 0) == (verified_view(r), *budget as int));
            return r;
        }
        let ghost granted = claims@;
        match cose_parts(token.value.as_slice()) {
            None => {
                assert(false);
                Err(DenyReason::TokenMalformed)
            },
            Some((_, payload)) => {
                let validity = validate_payload(
                    payload.as_slice(),
                    copy_if_any(&self.issuers),
                    copy_if_any(&self.audiences),
                    self.clock_skew,
                );
                let revalidate = token_claims_key(token.value.as_slice(), REVALIDATION_CLAIM);
                let r = conclude(claims, expires_at, revalidate, validity);
                proof {
                    let issuers = if_any(self@.issuers);
                    let audiences = if_any(self@.audiences);
                    let then = choose|then: i64|
                        access_token::fault_view(validity) == access_token::validity_fault(
                            granted,
                            issuers,
                            audiences,
                            self@.clock_skew,
                            then,
                            #[trigger] access_token::other_fault(
                                payload@,
                                issuers,
                                audiences,
                                self@.clock_skew,
                                then,
                            ),
                        );
                    assert(self@.verifies(value, start, now, then) == (
                        verified_view(r),
                        *budget as int,
                    ));
                }
                r
            },
        }
    }
}

/// A token as a peer presents it.
#[verifier::ext_equal]
pub struct AuthTokenView {
    pub token_type: u64,
    pub value: Seq<u8>,
}

impl View for AuthToken {
    type V = AuthTokenView;

    open spec fn view(&self) -> AuthTokenView {
        AuthTokenView { token_type: self.token_type, value: self.value@ }
    }
}

/// The contents of a list of tokens.
pub open spec fn tokens_view(tokens: Seq<AuthToken>) -> Seq<AuthTokenView> {
    tokens.map_values(|t: AuthToken| t@)
}

/// The contents of a principal.
#[verifier::ext_equal]
pub struct CatPrincipalView {
    pub claims: CatClaimsView,
    pub expires_at: i64,
    pub clock_skew: i64,
}

impl View for CatPrincipal {
    type V = CatPrincipalView;

    open spec fn view(&self) -> CatPrincipalView {
        CatPrincipalView {
            claims: self.token@,
            expires_at: self.expires_at,
            clock_skew: self.clock_skew,
        }
    }
}

/// The contents of a setup decision.
pub open spec fn setup_view(r: Result<CatPrincipal, DenyReason>) -> Result<
    CatPrincipalView,
    DenyReasonView,
> {
    match r {
        Ok(principal) => Ok(principal@),
        Err(reason) => Err(reason@),
    }
}

/// One of the tokens is a Common Access Token.
pub open spec fn presents_cat(tokens: Seq<AuthTokenView>) -> bool {
    exists|i: int| 0 <= i < tokens.len() && (#[trigger] tokens[i]).token_type == CAT_TOKEN_TYPE
}

impl CatAuthHookView {
    /// The outcome of verifying the tokens from `i` on, one after the other until one is
    /// accepted. `times` are the points in time at which the clock is read for each.
    pub open spec fn accepts_from(
        self,
        tokens: Seq<AuthTokenView>,
        i: int,
        budget: int,
        now: i64,
        times: Seq<i64>,
        denial: Option<DenyReasonView>,
    ) -> Result<(CatClaimsView, i64), DenyReasonView>
        decreases tokens.len() - i,
    {
        if i < 0 || i >= tokens.len() {
            Err(
                match denial {
                    Some(reason) => reason,
                    None => DenyReasonView::TokenInvalid,
                },
            )
        } else if tokens[i].token_type != CAT_TOKEN_TYPE {
            self.accepts_from(tokens, i + 1, budget, now, times, denial)
        } else {
            let (outcome, left) = self.verifies(tokens[i].value, budget, now, times[i]);
            match outcome {
                Ok(granted) => Ok(granted),
                Err(reason) => self.accepts_from(
                    tokens,
                    i + 1,
                    left,
                    now,
                    times,
                    Some(better_denial(denial, reason)),
                ),
            }
        }
    }

    /// The decision on a session by the outcome of its tokens: setting up a session must be
    /// granted too.
    pub open spec fn admits(
        self,
        outcome: Result<(CatClaimsView, i64), DenyReasonView>,
    ) -> Result<CatPrincipalView, DenyReasonView> {
        match outcome {
            Err(reason) => Err(reason),
            Ok((claims, expires_at)) => if claims.grants(TokenAction::ClientSetup, None, None) {
                Ok(CatPrincipalView { claims, expires_at, clock_skew: self.clock_skew })
            } else {
                Err(DenyReasonView::ScopeMismatch)
            },
        }
    }

    /// The decision on a session.
    pub open spec fn sets_up(
        self,
        tokens: Seq<AuthTokenView>,
        now: i64,
        times: Seq<i64>,
    ) -> Result<CatPrincipalView, DenyReasonView> {
        if !presents_cat(tokens) {
            Err(DenyReasonView::TokenMissing)
        } else {
            self.admits(
                self.accepts_from(
                    tokens,
                    0,
                    MAX_SETUP_VERIFICATIONS as int,
                    now,
                    times,
                    None,
                ),
            )
        }
    }
}

impl CatAuthHook {
    /// The decision on a session by the outcome of its tokens.
    pub fn decide_setup(&self, outcome: Verified) -> (r: Result<CatPrincipal, DenyReason>)
        ensures
            setup_view(r) == self@.admits(verified_view(outcome)),
    {
        match outcome {
            Err(reason) => Err(reason),
            Ok((claims, expires_at)) => {
                if scope_authorizes(&claims, TokenAction::ClientSetup, None, None) {
                    Ok(CatPrincipal { token: claims, expires_at, clock_skew: self.clock_skew })
                } else {
                    Err(DenyReason::ScopeMismatch)
                }
            },
        }
    }

    /// Decides on a session by the tokens that its peer presents. The first usable one
    /// counts, and the most specific denial is given if there is none.
    pub fn on_setup(&self, tokens: &[AuthToken], now: i64) -> (r: Result<CatPrincipal, DenyReason>)
        requires
            self.wf(),
            is_clock_time(now),
        ensures
            exists|times: Seq<i64>|
                times.len() == tokens@.len() && setup_view(r) == #[trigger] self@.sets_up(
                    tokens_view(tokens@),
                    now,
                    times,
                ),
    {
        let n: usize = tokens.len();
        let ghost all = tokens_view(tokens@);
        let ghost mut times: Seq<i64> = Seq::empty();
        let ghost total = MAX_SETUP_VERIFICATIONS as int;
        let mut budget: usize = MAX_SETUP_VERIFICATIONS;
        let mut denial: Option<DenyReason> = None;
        let mut presented = false;
        let mut i: usize = 0;
        while i < n
            invariant
                i <= n,
                n == tokens@.len(),
                all == tokens_view(tokens@),
                self.wf(),
                is_clock_time(now),
                times.len() == i,
                budget <= total,
                total == MAX_SETUP_VERIFICATIONS,
                presented == exists|k: int|
                    0 <= k < i && (#[trigger] all[k]).token_type == CAT_TOKEN_TYPE,
                forall|more: Seq<i64>|
                    #![trigger self@.accepts_from(all, 0, total, now, more, None)]
                    more.len() == n && times.is_prefix_of(more) ==> self@.accepts_from(
                        all,
                        0,
                        total,
                        now,
                        more,
                        None,
                    ) == self@.accepts_from(
                        all,
                        i as int,
                        budget as int,
                        now,
                        more,
                        denial_view(denial),
                    ),
            decreases n - i,
        {
            assert(all[i as int] == tokens@[i as int]@);
            let ghost before = times;
            let ghost left = budget as int;
            let ghost held = denial_view(denial);
            if tokens[i].token_type == CAT_TOKEN_TYPE {
                presented = true;
                assert(all[i as int].token_type == CAT_TOKEN_TYPE);
                let outcome = self.verify(&tokens[i], &mut budget, now);
                let ghost then = choose|then: i64|
                    #[trigger] self@.verifies(all[i as int].value, left, now, then) == (
                        verified_view(outcome),
                        budget as int,
                    );
                proof {
                    lemma_budget_shrinks(self@, all[i as int].value, left, now, then);
                    times = times.push(then);
                }
                match outcome {
                    Ok(granted) => {
                        let ghost all_times = times + Seq::new((n - i - 1) as nat, |k: int| 0i64);
                        proof {
                            assert(before.is_prefix_of(all_times)) by {
                                assert(before =~= all_times.subrange(0, before.len() as int));
                            }
                            assert(all_times[i as int] == then);
                            assert(self@.accepts_from(all, 0, total, now, all_times, None)
                                == verified_view(Ok(granted)));
                        }
                        let r = self.decide_setup(Ok(granted));
                        proof {
                            assert(presents_cat(all));
                            assert(setup_view(r) == self@.sets_up(all, now, all_times));
                        }
                        return r;
                    },
                    Err(reason) => {
                        denial = Some(more_specific_denial(denial, reason));
                    },
                }
            } else {
                proof {
                    times = times.push(0);
                }
            }
            proof {
                assert forall|more: Seq<i64>|
                    #![trigger self@.accepts_from(all, 0, total, now, more, None)]
                    more.len() == n && times.is_prefix_of(more) implies self@.accepts_from(
                    all,
                    0,
                    total,
                    now,
                    more,
                    None,
                ) == self@.accepts_from(
                    all,
                    i + 1,
                    budget as int,
                    now,
                    more,
                    denial_view(denial),
                ) by {
                    assert(before =~= times.subrange(0, before.len() as int));
                    assert(before.is_prefix_of(more)) by {
                        assert(before =~= more.subrange(0, before.len() as int));
                    }
                    assert(more[i as int] == times[i as int]);
                    assert(self@.accepts_from(all, 0, total, now, more, None)
                        == self@.accepts_from(all, i as int, left, now, more, held));
                }
            }
            i += 1;
        }
        if !presented {
            assert(!presents_cat(all));
            let r: Result<CatPrincipal, DenyReason> = Err(DenyReason::TokenMissing);
            assert(setup_view(r) == self@.sets_up(all, now, times));
            return r;
        }
        let outcome: Verified = match denial {
            Some(reason) => Err(reason),
            None => Err(DenyReason::TokenInvalid),
        };
        assert(presents_cat(all));
        assert(times.is_prefix_of(times)) by {
            assert(times =~= times.subrange(0, times.len() as int));
        }
        assert(self@.accepts_from(all, 0, total, now, times, None) == verified_view(outcome));
        let r = self.decide_setup(outcome);
        assert(setup_view(r) == self@.sets_up(all, now, times));
        r
    }
}

/// Verifying a token never adds to the verifications that are left, and takes no more than
/// there are.
proof fn lemma_budget_shrinks(
    hook: CatAuthHookView,
    token: Seq<u8>,
    budget: int,
    now: i64,
    then: i64,
)
    requires
        0 <= budget,
    ensures
        0 <= hook.verifies(token, budget, now, then).1 <= budget,
{
    law_keys_are_tried_once(
        trial_order(hook.keys, cose::token_kid(token)),
        token,
        budget,
        None,
    );
}

/// Trying keys takes one verification for each key at most, and no more than there are.
pub proof fn law_keys_are_tried_once(
    keys: Seq<CatKeyView>,
    token: Seq<u8>,
    budget: int,
    best: Option<CatFault>,
)
    requires
        0 <= budget,
    ensures
        0 <= try_keys(keys, token, budget, best).1 <= budget,
        budget - try_keys(keys, token, budget, best).1 <= keys.len(),
    decreases keys.len(),
{
    if keys.len() > 0 && budget > 0 {
        match access_token::token_claims(TokenKeyView::Es256(keys[0].pem), token) {
            Ok(_) => {},
            Err(fault) => {
                law_keys_are_tried_once(
                    keys.drop_first(),
                    token,
                    budget - 1,
                    Some(better_fault(best, fault)),
                );
            },
        }
    }
}

/// An identifier reorders the keys; it never leaves one out or adds one.
pub proof fn law_kid_reorders_keys(keys: Seq<CatKeyView>, kid: Option<Seq<char>>, key: CatKeyView)
    ensures
        trial_order(keys, kid).len() == keys.len(),
        trial_order(keys, kid).contains(key) <==> keys.contains(key),
{
    if kid is Some {
        lemma_filters_split(keys, kid->0, key);
    }
}

/// The keys with an identifier and those without it are all keys.
proof fn lemma_filters_split(keys: Seq<CatKeyView>, kid: Seq<char>, key: CatKeyView)
    ensures
        keys.filter(named(kid)).len() + keys.filter(unnamed(kid)).len() == keys.len(),
        (keys.filter(named(kid)) + keys.filter(unnamed(kid))).contains(key) <==> keys.contains(
            key,
        ),
    decreases keys.len(),
{
    reveal(Seq::filter);
    let a = keys.filter(named(kid));
    let b = keys.filter(unnamed(kid));
    if keys.len() > 0 {
        let most = keys.drop_last();
        let last = keys.last();
        lemma_filters_split(most, kid, key);
        let c = most.filter(named(kid));
        let d = most.filter(unnamed(kid));
        assert(keys =~= most.push(last));
        if keys.contains(key) {
            let i = choose|i: int| 0 <= i < keys.len() && keys[i] == key;
            if i < most.len() {
                assert(most[i] == key);
                assert((c + d).contains(key));
                let j = choose|j: int| 0 <= j < (c + d).len() && (c + d)[j] == key;
                if j < c.len() {
                    assert(a[j] == key);
                    assert((a + b)[j] == key);
                } else {
                    assert(b[j - c.len()] == key);
                    assert((a + b)[a.len() + (j - c.len())] == key);
                }
            } else if named(kid)(last) {
                assert(a[a.len() - 1] == key);
                assert((a + b)[a.len() - 1] == key);
            } else {
                assert(b[b.len() - 1] == key);
                assert((a + b)[a.len() + b.len() - 1] == key);
            }
        }
        if (a + b).contains(key) {
            let j = choose|j: int| 0 <= j < (a + b).len() && (a + b)[j] == key;
            if key == last {
                assert(keys[keys.len() - 1] == key);
            } else {
                if j < a.len() {
                    assert(c[j] == key);
                    assert((c + d)[j] == key);
                } else {
                    assert(d[j - a.len()] == key);
                    assert((c + d)[c.len() + (j - a.len())] == key);
                }
                assert(most.contains(key));
                let i = choose|i: int| 0 <= i < most.len() && most[i] == key;
                assert(keys[i] == key);
            }
        }
    } else {
        assert((a + b).len() == 0);
    }
}

/// The action, the namespace and the track that an operation stands for.
pub open spec fn operation_view(operation: AuthzOperation) -> (
    TokenAction,
    Seq<Seq<u8>>,
    Option<Seq<u8>>,
) {
    match operation {
        AuthzOperation::PublishNamespace { namespace } => (
            TokenAction::PublishNamespace,
            namespace@,
            None,
        ),
        AuthzOperation::Publish { namespace, track } => (
            TokenAction::Publish,
            namespace@,
            Some(track@),
        ),
        AuthzOperation::Subscribe { namespace, track } => (
            TokenAction::Subscribe,
            namespace@,
            Some(track@),
        ),
        AuthzOperation::SubscribeNamespace { prefix } => (
            TokenAction::SubscribeNamespace,
            prefix@,
            None,
        ),
        AuthzOperation::TrackStatus { namespace, track } => (
            TokenAction::TrackStatus,
            namespace@,
            Some(track@),
        ),
    }
}

/// The action, the namespace and the track that an operation stands for.
pub fn map_operation(operation: &AuthzOperation<'_>) -> (r: (
    TokenAction,
    Vec<Vec<u8>>,
    Option<Vec<u8>>,
))
    ensures
        r.0 == operation_view(*operation).0,
        bytes::tuple_view(r.1@) == operation_view(*operation).1,
        match operation_view(*operation).2 {
            Some(track) => r.2 matches Some(t) && t@ == track,
            None => r.2 is None,
        },
{
    match operation {
        AuthzOperation::PublishNamespace { namespace } => (
            TokenAction::PublishNamespace,
            namespace.to_tuple(),
            None,
        ),
        AuthzOperation::Publish { namespace, track } => (
            TokenAction::Publish,
            namespace.to_tuple(),
            Some(copy_bytes(track)),
        ),
        AuthzOperation::Subscribe { namespace, track } => (
            TokenAction::Subscribe,
            namespace.to_tuple(),
            Some(copy_bytes(track)),
        ),
        AuthzOperation::SubscribeNamespace { prefix } => (
            TokenAction::SubscribeNamespace,
            prefix.to_tuple(),
            None,
        ),
        AuthzOperation::TrackStatus { namespace, track } => (
            TokenAction::TrackStatus,
            namespace.to_tuple(),
            Some(copy_bytes(track)),
        ),
    }
}

/// Why an operation is denied to a session at a time, if it is. Without a clock everything
/// is.
pub open spec fn request_denial(
    principal: CatPrincipalView,
    operation: (TokenAction, Seq<Seq<u8>>, Option<Seq<u8>>),
    now: Option<i64>,
) -> Option<DenyReasonView> {
    match now {
        None => Some(DenyReasonView::HookFault { message: "clock unavailable"@ }),
        Some(now) => if now > clamped(principal.expires_at + principal.clock_skew) {
            Some(DenyReasonView::TokenExpired)
        } else if principal.claims.grants(operation.0, Some(operation.1), operation.2) {
            None
        } else {
            Some(DenyReasonView::ScopeMismatch)
        },
    }
}

impl CatAuthHook {
    /// Why an operation is denied to a session, if it is. `now` is what the clock says, if
    /// there is one.
    pub fn authorize(
        &self,
        principal: &CatPrincipal,
        operation: &AuthzOperation<'_>,
        now: Option<i64>,
    ) -> (r: Option<DenyReason>)
        ensures
            denial_view(r) == request_denial(principal@, operation_view(*operation), now),
    {
        let now: i64 = match now {
            Some(now) => now,
            None => {
                return Some(DenyReason::HookFault { message: "clock unavailable".to_owned() });
            },
        };
        if now > saturating_plus(principal.expires_at, principal.clock_skew) {
            return Some(DenyReason::TokenExpired);
        }
        let (action, namespace, track) = map_operation(operation);
        let track_bytes: Option<&[u8]> = match &track {
            Some(track) => Some(track.as_slice()),
            None => None,
        };
        if scope_authorizes(&principal.token, action, Some(namespace.as_slice()), track_bytes) {
            None
        } else {
            Some(DenyReason::ScopeMismatch)
        }
    }

    /// Decides on a request of a session. A session that this hook did not set up is a fault.
    pub fn on_request(
        &self,
        principal: Option<&CatPrincipal>,
        operation: &AuthzOperation<'_>,
        now: Option<i64>,
    ) -> (r: Result<Option<DenyReason>, AuthError>)
        ensures
            match principal {
                Some(principal) => r matches Ok(denial) && denial_view(denial) == request_denial(
                    principal@,
                    operation_view(*operation),
                    now,
                ),
                None => r matches Err(AuthError::Backend(message)) && message@
                    == "session principal was not established by the CAT hook"@,
            },
    {
        match principal {
            Some(principal) => Ok(self.authorize(principal, operation, now)),
            None => Err(
                AuthError::Backend(
                    "session principal was not established by the CAT hook".to_owned(),
                ),
            ),
        }
    }
}

/// A session is denied everything once its token has expired.
pub proof fn law_expired_session_is_denied(
    principal: CatPrincipalView,
    operation: (TokenAction, Seq<Seq<u8>>, Option<Seq<u8>>),
    now: i64,
)
    requires
        0 <= principal.clock_skew,
        now > principal.expires_at + principal.clock_skew,
    ensures
        request_denial(principal, operation, Some(now)) == Some(DenyReasonView::TokenExpired),
{
}

/// Where an operation names no track, the track patterns of a token do not count.
pub proof fn law_track_pattern_counts_for_tracks_only(
    scope: access_token::GrantView,
    action: TokenAction,
    namespace: Seq<Seq<u8>>,
    track_match: Option<access_token::BytePatternView>,
)
    ensures
        scope.grants(action, Some(namespace), None) == (access_token::GrantView {
            track_match,
            ..scope
        }).grants(action, Some(namespace), None),
{
    let other = access_token::GrantView { track_match, ..scope };
    if scope.fits_namespace(namespace) {
        assert forall|i: int| 0 <= i < other.namespace_matches.len() implies
            #[trigger] other.field_fits(namespace, i) by {
            assert(scope.field_fits(namespace, i));
        }
    }
    if other.fits_namespace(namespace) {
        assert forall|i: int| 0 <= i < scope.namespace_matches.len() implies
            #[trigger] scope.field_fits(namespace, i) by {
            assert(other.field_fits(namespace, i));
        }
    }
}

/// What is granted on one action is not granted on another.
pub proof fn law_action_is_not_implied(
    scope: access_token::GrantView,
    action: TokenAction,
    namespace: Option<Seq<Seq<u8>>>,
    track: Option<Seq<u8>>,
)
    requires
        !scope.actions.contains(action.number()),
    ensures
        !scope.grants(action, namespace, track),
{
}

/// A token that is accepted expires within the longest lifetime that is honoured, has no
/// claim that cannot be enforced, asks for no revalidation, was valid when the clock was read,
/// and is of an issuer and for an audience that are expected.
pub proof fn law_accepted_token_is_bounded(
    hook: CatAuthHookView,
    token: Seq<u8>,
    budget: int,
    now: i64,
    then: i64,
)
    requires
        hook.verifies(token, budget, now, then).0 is Ok,
    ensures
        ({
            let (claims, expires_at) = hook.verifies(token, budget, now, then).0->Ok_0;
            &&& claims.exp == Some(expires_at)
            &&& expires_at <= now + MAX_TOKEN_LIFETIME_SECS
            &&& then <= expires_at + hook.clock_skew
            &&& (claims.nbf matches Some(nbf) ==> nbf - hook.clock_skew <= then)
            &&& cose::token_fault(token) is None
            &&& !claims.moqt_reval
            &&& (hook.issuers.len() > 0 ==> claims.iss is Some && hook.issuers.contains(
                claims.iss->0,
            ))
            &&& (hook.audiences.len() > 0 ==> claims.aud is Some && exists|i: int|
                0 <= i < (claims.aud->0).len() && hook.audiences.contains(
                    #[trigger] (claims.aud->0)[i],
                ))
        }),
{
}

proof fn lemma_verified_by_a_key(
    keys: Seq<CatKeyView>,
    token: Seq<u8>,
    budget: int,
    best: Option<CatFault>,
)
    requires
        try_keys(keys, token, budget, best).0 is Verified,
    ensures
        exists|i: int|
            0 <= i < keys.len() && access_token::token_claims(TokenKeyView::Es256((#[trigger] keys[i]).pem), token)
                == Ok::<CatClaimsView, CatFault>(try_keys(keys, token, budget, best).0->Verified_0),
    decreases keys.len(),
{
    match access_token::token_claims(TokenKeyView::Es256(keys[0].pem), token) {
        Ok(_) => {},
        Err(fault) => {
            let rest = keys.drop_first();
            let claims = try_keys(keys, token, budget, best).0->Verified_0;
            lemma_verified_by_a_key(rest, token, budget - 1, Some(better_fault(best, fault)));
            let i = choose|i: int|
                0 <= i < rest.len() && access_token::token_claims(TokenKeyView::Es256((#[trigger] rest[i]).pem), token)
                    == Ok::<CatClaimsView, CatFault>(claims);
            assert(keys[i + 1] == rest[i]);
        },
    }
}

/// A token is accepted only if it verifies under one of the keys, and its claims are those that
/// the key makes of it.
pub proof fn law_accepted_token_is_signed(
    hook: CatAuthHookView,
    token: Seq<u8>,
    budget: int,
    now: i64,
    then: i64,
)
    requires
        hook.verifies(token, budget, now, then).0 is Ok,
    ensures
        budget > 0,
        exists|i: int|
            0 <= i < hook.keys.len() && access_token::token_claims(
                TokenKeyView::Es256((#[trigger] hook.keys[i]).pem),
                token,
            ) == Ok::<CatClaimsView, CatFault>(
                (hook.verifies(token, budget, now, then).0->Ok_0).0,
            ),
{
    let order = trial_order(hook.keys, cose::token_kid(token));
    let claims = (hook.verifies(token, budget, now, then).0->Ok_0).0;
    lemma_verified_by_a_key(order, token, budget, None);
    let i = choose|i: int|
        0 <= i < order.len() && access_token::token_claims(TokenKeyView::Es256((#[trigger] order[i]).pem), token)
            == Ok::<CatClaimsView, CatFault>(claims);
    law_kid_reorders_keys(hook.keys, cose::token_kid(token), order[i]);
    assert(order.contains(order[i]));
}

/// A token that asks for revalidation is refused, in whatever form the claim stands in it: tokens
/// are validated once only.
pub proof fn law_revalidation_is_refused(
    hook: CatAuthHookView,
    token: Seq<u8>,
    budget: int,
    now: i64,
    then: i64,
)
    requires
        cose::token_has_claim(token, REVALIDATION_CLAIM),
    ensures
        hook.verifies(token, budget, now, then).0 is Err,
{
}

/// A session is set up only where a token is presented that grants it.
pub proof fn law_setup_needs_a_grant(
    hook: CatAuthHookView,
    tokens: Seq<AuthTokenView>,
    now: i64,
    times: Seq<i64>,
)
    requires
        hook.sets_up(tokens, now, times) is Ok,
    ensures
        presents_cat(tokens),
        (hook.sets_up(tokens, now, times)->Ok_0).claims.grants(
            TokenAction::ClientSetup,
            None,
            None,
        ),
{
}

/// The keys of a scope are in order if there are one to five of them, no two have the same
/// identifier, and all can be read.
pub proof fn law_keys_are_in_order(keys: Seq<CatKeyView>)
    ensures
        keys_fault(keys) is None <==> {
            &&& 1 <= keys.len() <= 5
            &&& forall|i: int, k: int|
                0 <= k < i < keys.len() && (#[trigger] keys[i]).kid is Some ==> (
                #[trigger] keys[k]).kid != keys[i].kid
            &&& forall|i: int|
                0 <= i < keys.len() ==> access_token::es256_fault((#[trigger] keys[i]).pem) is None
        },
{
    let n = keys.len() as int;
    lemma_first_repeat(keys, n);
    lemma_first_unreadable(keys, n);
    if forall|i: int| 0 <= i < n ==> !#[trigger] repeats_kid(keys, i) {
        assert forall|i: int, k: int| 0 <= k < i < n && (#[trigger] keys[i]).kid is Some implies (
        #[trigger] keys[k]).kid != keys[i].kid by {
            assert(!repeats_kid(keys, i));
        }
    }
}

proof fn lemma_first_repeat(keys: Seq<CatKeyView>, n: int)
    requires
        0 <= n <= keys.len(),
    ensures
        match first_repeat(keys, n) {
            Some(i) => 0 <= i < n && repeats_kid(keys, i),
            None => forall|i: int| 0 <= i < n ==> !#[trigger] repeats_kid(keys, i),
        },
    decreases n,
{
    if n > 0 {
        lemma_first_repeat(keys, n - 1);
    }
}

proof fn lemma_first_unreadable(keys: Seq<CatKeyView>, n: int)
    requires
        0 <= n <= keys.len(),
    ensures
        match first_unreadable(keys, n) {
            Some(i) => 0 <= i < n && access_token::es256_fault(keys[i].pem) is Some,
            None => forall|i: int|
                0 <= i < n ==> access_token::es256_fault((#[trigger] keys[i]).pem) is None,
        },
    decreases n,
{
    if n > 0 {
        lemma_first_unreadable(keys, n - 1);
    }
}

/// A token is verified by the first key in turn that fits it, as long as verifications are left,
/// and each key that was tried takes one of them.
pub proof fn law_fitting_key_verifies(
    keys: Seq<CatKeyView>,
    token: Seq<u8>,
    budget: int,
    best: Option<CatFault>,
    i: int,
)
    requires
        0 <= i < keys.len(),
        i < budget,
        access_token::token_claims(TokenKeyView::Es256(keys[i].pem), token) is Ok,
        forall|j: int|
            0 <= j < i ==> access_token::token_claims(
                TokenKeyView::Es256((#[trigger] keys[j]).pem),
                token,
            ) is Err,
    ensures
        try_keys(keys, token, budget, best) == (
            Trial::Verified(
                access_token::token_claims(TokenKeyView::Es256(keys[i].pem), token)->Ok_0,
            ),
            budget - i - 1,
        ),
    decreases i,
{
    if i > 0 {
        assert(access_token::token_claims(TokenKeyView::Es256(keys[0].pem), token) is Err);
        let rest = keys.drop_first();
        assert(rest[i - 1] == keys[i]);
        assert forall|j: int| 0 <= j < i - 1 implies access_token::token_claims(
            TokenKeyView::Es256((#[trigger] rest[j]).pem),
            token,
        ) is Err by {
            assert(rest[j] == keys[j + 1]);
        }
        let fault = access_token::token_claims(TokenKeyView::Es256(keys[0].pem), token)->Err_0;
        law_fitting_key_verifies(rest, token, budget - 1, Some(better_fault(best, fault)), i - 1);
    }
}

/// The first failure that tells something of the token is kept: one that only tells that the key
/// does not fit gives way to the next, and the same holds of denials that tell nothing specific.
pub proof fn law_telling_failure_is_kept(
    fault: CatFault,
    next: CatFault,
    reason: DenyReasonView,
    other: DenyReasonView,
)
    ensures
        better_fault(None, next) == next,
        fault is SignatureVerificationFailed || fault is AlgorithmMismatch ==> better_fault(
            Some(fault),
            next,
        ) == next,
        !(fault is SignatureVerificationFailed) && !(fault is AlgorithmMismatch) ==> better_fault(
            Some(fault),
            next,
        ) == fault,
        better_denial(None, other) == other,
        reason is TokenInvalid || reason is TokenMissing ==> better_denial(Some(reason), other)
            == other,
        !(reason is TokenInvalid) && !(reason is TokenMissing) ==> better_denial(
            Some(reason),
            other,
        ) == reason,
{
}

/// The keys with the identifier that a token names are tried first. Without an identifier the keys
/// are tried as they are configured.
pub proof fn law_named_keys_are_tried_first(keys: Seq<CatKeyView>, kid: Seq<char>)
    ensures
        trial_order(keys, None) == keys,
        forall|i: int, j: int|
            0 <= i < j < trial_order(keys, Some(kid)).len() && (#[trigger] trial_order(
                keys,
                Some(kid),
            )[j]).kid == Some(kid) ==> (#[trigger] trial_order(keys, Some(kid))[i]).kid == Some(
                kid,
            ),
{
    let first = keys.filter(named(kid));
    let then = keys.filter(unnamed(kid));
    let order = trial_order(keys, Some(kid));
    assert forall|i: int, j: int|
        0 <= i < j < order.len() && (#[trigger] order[j]).kid == Some(kid) implies (
    #[trigger] order[i]).kid == Some(kid) by {
        if j >= first.len() {
            keys.lemma_filter_pred(unnamed(kid), j - first.len());
            assert(order[j] == then[j - first.len()]);
        }
        keys.lemma_filter_pred(named(kid), i);
        assert(order[i] == first[i]);
    }
}

/// A token is taken to be plausible if it expires within a week from now, and if it started and
/// starts within a week of now, and no more than a week before its end.
pub proof fn law_plausible_tokens_live_a_week(claims: CatClaimsView, now: i64)
    requires
        is_clock_time(now),
    ensures
        lifetime(claims, now) is Some <==> claims.exp is Some && claims.exp->0 <= now + 604800 && (
        claims.nbf matches Some(nbf) ==> now - 604800 <= nbf <= now + 604800 && claims.exp->0 - nbf
            <= 604800),
        lifetime(claims, now) is Some ==> lifetime(claims, now) == claims.exp,
{
}

/// A token that verifies, is plausible and sound, has only claims that can be enforced and asks for
/// no revalidation is accepted.
pub proof fn law_sound_token_is_accepted(
    hook: CatAuthHookView,
    token: Seq<u8>,
    budget: int,
    now: i64,
    then: i64,
    claims: CatClaimsView,
    expires_at: i64,
)
    requires
        token.len() > 0,
        !cose::token_critical(token),
        try_keys(trial_order(hook.keys, cose::token_kid(token)), token, budget, None).0
            == Trial::Verified(claims),
        lifetime(claims, now) == Some(expires_at),
        cose::token_fault(token) is None,
        !claims.moqt_reval,
        !cose::token_has_claim(token, REVALIDATION_CLAIM),
        access_token::time_fault(claims, hook.clock_skew, then) is None,
        hook.issuers.len() > 0 ==> claims.iss is Some && hook.issuers.contains(claims.iss->0),
        hook.audiences.len() > 0 ==> claims.aud is Some && exists|i: int|
            0 <= i < claims.aud->0.len() && hook.audiences.contains(#[trigger] claims.aud->0[i]),
        access_token::other_fault(
            cose::token_payload(token),
            if_any(hook.issuers),
            if_any(hook.audiences),
            hook.clock_skew,
            then,
        ) is None,
    ensures
        hook.verifies(token, budget, now, then).0 == Ok::<(CatClaimsView, i64), DenyReasonView>(
            (claims, expires_at),
        ),
{
}

/// An empty token is not readable, and one that declares a critical extension is not valid. Neither
/// takes a verification.
pub proof fn law_unusable_tokens_take_no_verification(
    hook: CatAuthHookView,
    token: Seq<u8>,
    budget: int,
    now: i64,
    then: i64,
)
    requires
        token.len() == 0 || cose::token_critical(token),
    ensures
        hook.verifies(token, budget, now, then).0 is Err,
        hook.verifies(token, budget, now, then).1 == budget,
        token.len() == 0 ==> hook.verifies(token, budget, now, then).0->Err_0 is TokenMalformed,
{
}

/// The first token of the type that is accepted counts. Tokens of other types are passed over, and
/// so are those that are refused.
pub proof fn law_first_accepted_token_counts(
    hook: CatAuthHookView,
    tokens: Seq<AuthTokenView>,
    i: int,
    budget: int,
    now: i64,
    times: Seq<i64>,
    denial: Option<DenyReasonView>,
)
    requires
        0 <= i < tokens.len(),
    ensures
        tokens[i].token_type != CAT_TOKEN_TYPE ==> hook.accepts_from(
            tokens,
            i,
            budget,
            now,
            times,
            denial,
        ) == hook.accepts_from(tokens, i + 1, budget, now, times, denial),
        tokens[i].token_type == CAT_TOKEN_TYPE ==> {
            let (outcome, left) = hook.verifies(tokens[i].value, budget, now, times[i]);
            &&& outcome is Ok ==> hook.accepts_from(tokens, i, budget, now, times, denial)
                == outcome
            &&& outcome is Err && hook.accepts_from(
                tokens,
                i + 1,
                left,
                now,
                times,
                Some(better_denial(denial, outcome->Err_0)),
            ) is Ok ==> hook.accepts_from(tokens, i, budget, now, times, denial) is Ok
        },
{
}

/// A session is set up exactly if its accepted token grants that, and it then has what the token
/// grants until the token expires.
pub proof fn law_session_has_what_its_token_grants(
    hook: CatAuthHookView,
    outcome: Result<(CatClaimsView, i64), DenyReasonView>,
)
    ensures
        hook.admits(outcome) is Ok <==> outcome is Ok && (outcome->Ok_0).0.grants(
            TokenAction::ClientSetup,
            None,
            None,
        ),
        hook.admits(outcome) matches Ok(principal) ==> principal.claims == (outcome->Ok_0).0
            && principal.expires_at == (outcome->Ok_0).1 && principal.clock_skew
            == hook.clock_skew,
        outcome matches Err(reason) ==> hook.admits(outcome) == Err::<
            CatPrincipalView,
            DenyReasonView,
        >(reason),
{
}

/// During a session every operation is allowed exactly while the token has not expired, with the
/// skew allowed, and grants its action on the namespace and the track that it names.
pub proof fn law_requests_need_their_grant(
    principal: CatPrincipalView,
    namespace: &TrackNamespace,
    track: &[u8],
    now: i64,
)
    requires
        i64::MIN <= principal.expires_at + principal.clock_skew <= i64::MAX,
    ensures
        ({
            let live = now <= principal.expires_at + principal.clock_skew;
            let allows = |operation: AuthzOperation|
                request_denial(principal, operation_view(operation), Some(now)) is None;
            &&& allows(AuthzOperation::Publish { namespace, track }) == (live
                && principal.claims.grants(
                TokenAction::Publish,
                Some(namespace@),
                Some(track@),
            ))
            &&& allows(AuthzOperation::Subscribe { namespace, track }) == (live
                && principal.claims.grants(
                TokenAction::Subscribe,
                Some(namespace@),
                Some(track@),
            ))
            &&& allows(AuthzOperation::TrackStatus { namespace, track }) == (live
                && principal.claims.grants(
                TokenAction::TrackStatus,
                Some(namespace@),
                Some(track@),
            ))
            &&& allows(AuthzOperation::PublishNamespace { namespace }) == (live
                && principal.claims.grants(
                TokenAction::PublishNamespace,
                Some(namespace@),
                None,
            ))
            &&& allows(AuthzOperation::SubscribeNamespace { prefix: namespace }) == (live
                && principal.claims.grants(
                TokenAction::SubscribeNamespace,
                Some(namespace@),
                None,
            ))
        }),
        request_denial(
            principal,
            operation_view(AuthzOperation::Publish { namespace, track }),
            None,
        ) is Some,
{
}

/// Each denial stands for the faults of its sort: a token out of its time, of another issuer, out of
/// scope, seen before, not readable, or not to be verified. Any other fault is told in its own
/// words.
pub proof fn law_token_faults_lead_to_their_denial(fault: CatFault)
    ensures
        denial_of(fault) is TokenExpired <==> fault is TokenExpired || fault is TokenNotYetValid,
        denial_of(fault) is IssuerUnknown <==> fault is InvalidIssuer,
        denial_of(fault) is ScopeMismatch <==> fault is MoqtActionNotAuthorized,
        denial_of(fault) is TokenReplayed <==> fault is ReplayAttackDetected,
        denial_of(fault) is TokenMalformed <==> fault is InvalidTokenFormat || fault is InvalidCbor
            || fault is InvalidBase64 || fault is MissingRequiredClaim,
        denial_of(fault) is TokenInvalid <==> fault is InvalidAudience
            || fault is SignatureVerificationFailed || fault is UnsupportedAlgorithm
            || fault is AlgorithmMismatch,
        !(denial_of(fault) is TokenMissing) && !(denial_of(fault) is HookFault),
        denial_of(fault) matches DenyReasonView::PolicyDenied { message } ==> message
            == access_token::fault_text(fault),
{
}

/// Times are added as they are, within the range that times have.
pub proof fn law_times_stay_in_range(time: int)
    ensures
        i64::MIN <= clamped(time) <= i64::MAX,
        i64::MIN <= time <= i64::MAX ==> clamped(time) == time,
        time > i64::MAX ==> clamped(time) == i64::MAX,
        time < i64::MIN ==> clamped(time) == i64::MIN,
{
}

/// A scope that says nothing of the clock skew tolerates a minute.
pub proof fn law_skew_is_a_minute_unless_said(config: ScopeAuthConfig)
    ensures
        config.clock_skew_secs is None ==> config.skew() == 60,
        config.clock_skew_secs matches Some(secs) ==> config.skew() == secs,
{
}

proof fn lemma_other_types_are_passed_over(
    hook: CatAuthHookView,
    tokens: Seq<AuthTokenView>,
    from: int,
    i: int,
    budget: int,
    now: i64,
    times: Seq<i64>,
)
    requires
        0 <= from <= i < tokens.len(),
        forall|j: int| from <= j < i ==> (#[trigger] tokens[j]).token_type != CAT_TOKEN_TYPE,
    ensures
        hook.accepts_from(tokens, from, budget, now, times, None) == hook.accepts_from(
            tokens,
            i,
            budget,
            now,
            times,
            None,
        ),
    decreases i - from,
{
    if from < i {
        assert(tokens[from].token_type != CAT_TOKEN_TYPE);
        lemma_other_types_are_passed_over(hook, tokens, from + 1, i, budget, now, times);
    }
}

/// A session without a token of the type is told that it is missing. One whose first token of the
/// type is accepted, within twelve verifications, is set up if the token grants that, whatever
/// tokens of other types stand before it.
pub proof fn law_accepted_token_sets_up(
    hook: CatAuthHookView,
    tokens: Seq<AuthTokenView>,
    i: int,
    now: i64,
    times: Seq<i64>,
)
    requires
        0 <= i <= tokens.len(),
        forall|j: int| 0 <= j < i ==> (#[trigger] tokens[j]).token_type != CAT_TOKEN_TYPE,
    ensures
        i == tokens.len() ==> hook.sets_up(tokens, now, times) == Err::<
            CatPrincipalView,
            DenyReasonView,
        >(DenyReasonView::TokenMissing),
        i < tokens.len() && tokens[i].token_type == CAT_TOKEN_TYPE ==> (hook.verifies(
            tokens[i].value,
            12,
            now,
            times[i],
        ).0 matches Ok((claims, expires_at)) ==> hook.sets_up(tokens, now, times) == (
        if claims.grants(TokenAction::ClientSetup, None, None) {
            Ok::<CatPrincipalView, DenyReasonView>(
                CatPrincipalView { claims, expires_at, clock_skew: hook.clock_skew },
            )
        } else {
            Err(DenyReasonView::ScopeMismatch)
        })),
{
    if i < tokens.len() && tokens[i].token_type == CAT_TOKEN_TYPE {
        lemma_other_types_are_passed_over(hook, tokens, 0, i, 12, now, times);
        assert(presents_cat(tokens));
    }
}

} // verus!
