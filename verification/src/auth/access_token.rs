//! Common Access Tokens: what they grant, and the outside code that verifies them.

use cat_token::{
    CatError, CatTokenValidator, CryptographicAlgorithm, Cwt, Es256Algorithm, HmacSha256Algorithm,
    Ps256Algorithm,
};
use rsa::pkcs8::DecodePublicKey;
use rsa::RsaPublicKey;
use vstd::prelude::*;
use crate::auth::cose;
use crate::bytes;
use crate::text;

verus! {

/// What the outside code finds wrong with a token.
#[verifier::external_type_specification]
pub struct ExCatError(CatError);

/// What is wrong with a token.
#[verifier::ext_equal]
pub enum CatFault {
    InvalidTokenFormat,
    InvalidCbor(Seq<char>),
    InvalidBase64(Seq<char>),
    SignatureVerificationFailed,
    TokenExpired,
    TokenNotYetValid,
    InvalidAudience,
    InvalidIssuer,
    MissingRequiredClaim(Seq<char>),
    InvalidClaimValue(Seq<char>),
    UnsupportedAlgorithm(Seq<char>),
    AlgorithmMismatch { expected: i64, found: i64 },
    CryptoError(Seq<char>),
    GeographicValidationFailed(Seq<char>),
    ReplayAttackDetected,
    UsageLimitExceeded,
    MoqtActionNotAuthorized(Seq<char>),
    DpopValidationFailed(Seq<char>),
    InvalidDpopBinding,
    RevalidationRequired,
    RevalidationIntervalTooShort,
    RejectedByProbability,
    MethodNotAllowed(Seq<char>),
    CertificateValidationFailed(Seq<char>),
}

/// What an error of the outside code stands for.
pub open spec fn fault_of(err: CatError) -> CatFault {
    match err {
        CatError::InvalidTokenFormat => CatFault::InvalidTokenFormat,
        CatError::InvalidCbor(text) => CatFault::InvalidCbor(text@),
        CatError::InvalidBase64(text) => CatFault::InvalidBase64(text@),
        CatError::SignatureVerificationFailed => CatFault::SignatureVerificationFailed,
        CatError::TokenExpired => CatFault::TokenExpired,
        CatError::TokenNotYetValid => CatFault::TokenNotYetValid,
        CatError::InvalidAudience => CatFault::InvalidAudience,
        CatError::InvalidIssuer => CatFault::InvalidIssuer,
        CatError::MissingRequiredClaim(text) => CatFault::MissingRequiredClaim(text@),
        CatError::InvalidClaimValue(text) => CatFault::InvalidClaimValue(text@),
        CatError::UnsupportedAlgorithm(text) => CatFault::UnsupportedAlgorithm(text@),
        CatError::AlgorithmMismatch { expected, found } => CatFault::AlgorithmMismatch { expected, found },
        CatError::CryptoError(text) => CatFault::CryptoError(text@),
        CatError::GeographicValidationFailed(text) => CatFault::GeographicValidationFailed(text@),
        CatError::ReplayAttackDetected => CatFault::ReplayAttackDetected,
        CatError::UsageLimitExceeded => CatFault::UsageLimitExceeded,
        CatError::MoqtActionNotAuthorized(text) => CatFault::MoqtActionNotAuthorized(text@),
        CatError::DpopValidationFailed(text) => CatFault::DpopValidationFailed(text@),
        CatError::InvalidDpopBinding => CatFault::InvalidDpopBinding,
        CatError::RevalidationRequired => CatFault::RevalidationRequired,
        CatError::RevalidationIntervalTooShort => CatFault::RevalidationIntervalTooShort,
        CatError::RejectedByProbability => CatFault::RejectedByProbability,
        CatError::MethodNotAllowed(text) => CatFault::MethodNotAllowed(text@),
        CatError::CertificateValidationFailed(text) => CatFault::CertificateValidationFailed(text@),
    }
}

/// The message that `cat_token::CatError` has for a fault.
pub uninterp spec fn fault_text(fault: CatFault) -> Seq<char>;

/// `cat_token::CatError` as text. The text depends on the error alone.
#[verifier::external_body]
pub(crate) fn cat_error_text(err: &CatError) -> (r: String)
    ensures
        r@ == fault_text(fault_of(*err)),
{
    err.to_string()
}

/// What a session may be used for.
#[derive(Clone, Copy, Debug, PartialEq, Eq, Structural)]
pub enum TokenAction {
    ClientSetup,
    ServerSetup,
    PublishNamespace,
    SubscribeNamespace,
    Subscribe,
    RequestUpdate,
    Publish,
    Fetch,
    TrackStatus,
}

impl TokenAction {
    /// The number that stands for the action in a token.
    pub open spec fn number(self) -> u8 {
        match self {
            TokenAction::ClientSetup => 0,
            TokenAction::ServerSetup => 1,
            TokenAction::PublishNamespace => 2,
            TokenAction::SubscribeNamespace => 3,
            TokenAction::Subscribe => 4,
            TokenAction::RequestUpdate => 5,
            TokenAction::Publish => 6,
            TokenAction::Fetch => 7,
            TokenAction::TrackStatus => 8,
        }
    }

    /// The number that stands for the action in a token.
    pub fn code(self) -> (r: u8)
        ensures
            r == self.number(),
    {
        match self {
            TokenAction::ClientSetup => 0,
            TokenAction::ServerSetup => 1,
            TokenAction::PublishNamespace => 2,
            TokenAction::SubscribeNamespace => 3,
            TokenAction::Subscribe => 4,
            TokenAction::RequestUpdate => 5,
            TokenAction::Publish => 6,
            TokenAction::Fetch => 7,
            TokenAction::TrackStatus => 8,
        }
    }
}

/// A pattern for a byte string. An empty pattern fits every string.
#[derive(Debug)]
pub struct BytePattern {
    /// 0: the string is the pattern; 1: it begins with it; 2: it ends with it.
    pub match_type: u8,
    pub pattern: Vec<u8>,
}

/// A part of what a token grants: some actions on some tracks.
#[derive(Debug)]
pub struct Grant {
    /// The actions by their numbers.
    pub actions: Vec<u8>,
    /// One pattern for each field of the namespace; none where the namespace must have
    /// ended. Fields beyond the patterns may be anything.
    pub namespace_matches: Vec<Option<BytePattern>>,
    pub track_match: Option<BytePattern>,
}

/// The claims of a token.
#[derive(Debug)]
pub struct CatClaims {
    pub iss: Option<String>,
    pub aud: Option<Vec<String>>,
    pub sub: Option<String>,
    /// When the token expires, in seconds since the epoch.
    pub exp: Option<i64>,
    /// From when on the token is valid.
    pub nbf: Option<i64>,
    /// What the token grants.
    pub moqt: Option<Vec<Grant>>,
    /// Whether the token asks for revalidation.
    pub moqt_reval: bool,
}

/// A pattern for a byte string.
#[verifier::ext_equal]
pub struct BytePatternView {
    pub match_type: u8,
    pub pattern: Seq<u8>,
}

/// A part of what a token grants.
#[verifier::ext_equal]
pub struct GrantView {
    pub actions: Seq<u8>,
    pub namespace_matches: Seq<Option<BytePatternView>>,
    pub track_match: Option<BytePatternView>,
}

/// The claims of a token.
#[verifier::ext_equal]
pub struct CatClaimsView {
    pub iss: Option<Seq<char>>,
    pub aud: Option<Seq<Seq<char>>>,
    pub sub: Option<Seq<char>>,
    pub exp: Option<i64>,
    pub nbf: Option<i64>,
    pub moqt: Option<Seq<GrantView>>,
    pub moqt_reval: bool,
}

impl View for BytePattern {
    type V = BytePatternView;

    open spec fn view(&self) -> BytePatternView {
        BytePatternView { match_type: self.match_type, pattern: self.pattern@ }
    }
}

/// The contents of an optional pattern.
pub open spec fn match_view(pattern: Option<BytePattern>) -> Option<BytePatternView> {
    match pattern {
        Some(pattern) => Some(pattern@),
        None => None,
    }
}

impl View for Grant {
    type V = GrantView;

    open spec fn view(&self) -> GrantView {
        GrantView {
            actions: self.actions@,
            namespace_matches: self.namespace_matches@.map_values(
                |m: Option<BytePattern>| match_view(m),
            ),
            track_match: match_view(self.track_match),
        }
    }
}

impl View for CatClaims {
    type V = CatClaimsView;

    open spec fn view(&self) -> CatClaimsView {
        CatClaimsView {
            iss: cose::text_view(self.iss),
            aud: match self.aud {
                Some(aud) => Some(text::texts_view(aud@)),
                None => None,
            },
            sub: cose::text_view(self.sub),
            exp: self.exp,
            nbf: self.nbf,
            moqt: match self.moqt {
                Some(scopes) => Some(scopes@.map_values(|s: Grant| s@)),
                None => None,
            },
            moqt_reval: self.moqt_reval,
        }
    }
}

impl BytePatternView {
    /// The pattern fits the string.
    pub open spec fn fits(self, input: Seq<u8>) -> bool {
        ||| self.pattern.len() == 0
        ||| self.match_type == 0 && input == self.pattern
        ||| self.match_type == 1 && bytes::starts_with(input, self.pattern)
        ||| self.match_type == 2 && bytes::ends_with(input, self.pattern)
    }
}

impl BytePattern {
    /// Whether the pattern fits the string.
    pub fn matches(&self, input: &[u8]) -> (r: bool)
        ensures
            r == self@.fits(input@),
    {
        let n: usize = input.len();
        if self.pattern.len() == 0 {
            return true;
        }
        if self.match_type == 0 {
            bytes::bytes_eq(input, self.pattern.as_slice())
        } else if self.match_type == 1 {
            self.pattern.len() <= n && bytes::bytes_occur_at(input, self.pattern.as_slice(), 0)
        } else if self.match_type == 2 {
            self.pattern.len() <= n && bytes::bytes_occur_at(
                input,
                self.pattern.as_slice(),
                n - self.pattern.len(),
            )
        } else {
            false
        }
    }
}

impl GrantView {
    /// The pattern at `i` fits that field of the namespace, or the namespace has ended and
    /// must have.
    pub open spec fn field_fits(self, namespace: Seq<Seq<u8>>, i: int) -> bool {
        match self.namespace_matches[i] {
            Some(pattern) => i < namespace.len() && pattern.fits(namespace[i]),
            None => namespace.len() <= i,
        }
    }

    /// The namespace fits all patterns.
    pub open spec fn fits_namespace(self, namespace: Seq<Seq<u8>>) -> bool {
        forall|i: int|
            0 <= i < self.namespace_matches.len() ==> #[trigger] self.field_fits(namespace, i)
    }

    /// The track fits the pattern, if there is one.
    pub open spec fn fits_track(self, track: Seq<u8>) -> bool {
        self.track_match matches Some(pattern) ==> pattern.fits(track)
    }

    /// The action is granted on a namespace and a track; each of them counts if it is given.
    pub open spec fn grants(
        self,
        action: TokenAction,
        namespace: Option<Seq<Seq<u8>>>,
        track: Option<Seq<u8>>,
    ) -> bool {
        &&& self.actions.contains(action.number())
        &&& (namespace matches Some(namespace) ==> self.fits_namespace(namespace))
        &&& (track matches Some(track) ==> self.fits_track(track))
    }
}

impl Grant {
    /// Whether the action is granted.
    pub fn allows_action(&self, action: TokenAction) -> (r: bool)
        ensures
            r == self@.actions.contains(action.number()),
    {
        let wanted: u8 = action.code();
        let mut i: usize = 0;
        while i < self.actions.len()
            invariant
                i <= self.actions@.len(),
                wanted == action.number(),
                forall|k: int| 0 <= k < i ==> #[trigger] self.actions@[k] != wanted,
            decreases self.actions@.len() - i,
        {
            if self.actions[i] == wanted {
                return true;
            }
            i += 1;
        }
        false
    }

    /// Whether the namespace fits all patterns.
    pub fn matches_namespace(&self, namespace: &[Vec<u8>]) -> (r: bool)
        ensures
            r == self@.fits_namespace(bytes::tuple_view(namespace@)),
    {
        let ghost fields = bytes::tuple_view(namespace@);
        let n: usize = namespace.len();
        let mut i: usize = 0;
        while i < self.namespace_matches.len()
            invariant
                i <= self.namespace_matches@.len(),
                n == namespace@.len(),
                fields == bytes::tuple_view(namespace@),
                forall|k: int| 0 <= k < i ==> #[trigger] self@.field_fits(fields, k),
            decreases self.namespace_matches@.len() - i,
        {
            assert(self@.namespace_matches[i as int] == match_view(
                self.namespace_matches@[i as int],
            ));
            let fits = match &self.namespace_matches[i] {
                Some(pattern) => i < n && pattern.matches(namespace[i].as_slice()),
                None => n <= i,
            };
            if !fits {
                assert(!self@.field_fits(fields, i as int));
                return false;
            }
            i += 1;
        }
        true
    }

    /// Whether the track fits the pattern, if there is one.
    pub fn matches_track(&self, track: &[u8]) -> (r: bool)
        ensures
            r == self@.fits_track(track@),
    {
        match &self.track_match {
            Some(pattern) => pattern.matches(track),
            None => true,
        }
    }
}

impl CatClaimsView {
    /// One of the scopes grants the action.
    pub open spec fn grants(
        self,
        action: TokenAction,
        namespace: Option<Seq<Seq<u8>>>,
        track: Option<Seq<u8>>,
    ) -> bool {
        match self.moqt {
            Some(scopes) => one_grants(scopes, action, namespace, track),
            None => false,
        }
    }
}

/// One of the scopes grants the action.
pub open spec fn one_grants(
    scopes: Seq<GrantView>,
    action: TokenAction,
    namespace: Option<Seq<Seq<u8>>>,
    track: Option<Seq<u8>>,
) -> bool {
    exists|i: int|
        0 <= i < scopes.len() && (#[trigger] scopes[i]).grants(action, namespace, track)
}

/// The contents of an optional namespace.
pub open spec fn namespace_view(namespace: Option<&[Vec<u8>]>) -> Option<Seq<Seq<u8>>> {
    match namespace {
        Some(namespace) => Some(bytes::tuple_view(namespace@)),
        None => None,
    }
}

/// The contents of an optional track.
pub open spec fn track_view(track: Option<&[u8]>) -> Option<Seq<u8>> {
    match track {
        Some(track) => Some(track@),
        None => None,
    }
}

/// Whether the claims grant an action on a namespace and a track. Each of them counts if it
/// is given.
pub fn scope_authorizes(
    claims: &CatClaims,
    action: TokenAction,
    namespace: Option<&[Vec<u8>]>,
    track: Option<&[u8]>,
) -> (r: bool)
    ensures
        r == claims@.grants(action, namespace_view(namespace), track_view(track)),
{
    match &claims.moqt {
        None => false,
        Some(scopes) => {
            let ghost all = claims@.moqt->0;
            let mut i: usize = 0;
            while i < scopes.len()
                invariant
                    i <= scopes@.len(),
                    claims@.moqt == Some(all),
                    all == scopes@.map_values(|s: Grant| s@),
                    forall|k: int|
                        0 <= k < i ==> !(#[trigger] all[k]).grants(
                            action,
                            namespace_view(namespace),
                            track_view(track),
                        ),
                decreases scopes@.len() - i,
            {
                assert(all[i as int] == scopes@[i as int]@);
                let scope = &scopes[i];
                if scope.allows_action(action) && (match namespace {
                    Some(namespace) => scope.matches_namespace(namespace),
                    None => true,
                }) && (match track {
                    Some(track) => scope.matches_track(track),
                    None => true,
                }) {
                    assert(all[i as int].grants(
                        action,
                        namespace_view(namespace),
                        track_view(track),
                    ));
                    return true;
                }
                i += 1;
            }
            false
        },
    }
}

/// What is wrong with the text of a public key, as `cat_token::Es256Algorithm` says.
pub uninterp spec fn es256_fault(pem: Seq<char>) -> Option<Seq<char>>;

/// `cat_token::Es256Algorithm::from_public_key_pem` reads a public key; the message if it
/// cannot. It depends on the text alone.
#[verifier::external_body]
pub(crate) fn es256_key_fault(pem: &str) -> (r: Option<String>)
    ensures
        cose::text_view(r) == es256_fault(pem@),
{
    Es256Algorithm::from_public_key_pem(pem).err().map(|e| e.to_string())
}

/// What `cat_token::Cwt::decode_payload` makes of the payload of a token.
pub uninterp spec fn payload_claims(payload: Seq<u8>) -> Result<CatClaimsView, CatFault>;

/// A key that tokens are verified with.
pub enum TokenKey {
    /// An ES256 public key as PEM text.
    Es256(String),
    /// A PS256 public key as PEM text.
    Ps256(String),
    /// The secret of HMAC with SHA-256.
    Hmac(Vec<u8>),
}

/// A key that tokens are verified with.
pub enum TokenKeyView {
    Es256(Seq<char>),
    Ps256(Seq<char>),
    Hmac(Seq<u8>),
}

impl View for TokenKey {
    type V = TokenKeyView;

    open spec fn view(&self) -> TokenKeyView {
        match self {
            TokenKey::Es256(pem) => TokenKeyView::Es256(pem@),
            TokenKey::Ps256(pem) => TokenKeyView::Ps256(pem@),
            TokenKey::Hmac(secret) => TokenKeyView::Hmac(secret@),
        }
    }
}

/// What `cat_token::decode_token` makes of a token under a key.
pub uninterp spec fn token_claims(key: TokenKeyView, token: Seq<u8>) -> Result<
    CatClaimsView,
    CatFault,
>;

/// The contents of a decoding result.
pub open spec fn claims_view(r: Result<CatClaims, CatError>) -> Result<CatClaimsView, CatFault> {
    match r {
        Ok(claims) => Ok(claims@),
        Err(err) => Err(fault_of(err)),
    }
}

/// An action, as the outside code names it.
#[verifier::external_type_specification]
pub struct ExMoqtAction(cat_token::MoqtAction);

/// How a pattern compares, as the outside code names it.
#[verifier::external_type_specification]
pub struct ExBinaryMatchType(cat_token::BinaryMatchType);

/// A pattern, as the outside code holds it.
#[verifier::external_type_specification]
pub struct ExBinaryMatch(cat_token::BinaryMatch);

/// A pattern for a field of a namespace, as the outside code holds it.
#[verifier::external_type_specification]
pub struct ExNamespaceMatch(cat_token::NamespaceMatch);

/// A part of what a token grants, as the outside code holds it.
#[verifier::external_type_specification]
pub struct ExMoqtScope(cat_token::MoqtScope);

/// The number of an action of the outside code.
pub open spec fn outside_action(action: cat_token::MoqtAction) -> u8 {
    match action {
        cat_token::MoqtAction::ClientSetup => 0,
        cat_token::MoqtAction::ServerSetup => 1,
        cat_token::MoqtAction::PublishNamespace => 2,
        cat_token::MoqtAction::SubscribeNamespace => 3,
        cat_token::MoqtAction::Subscribe => 4,
        cat_token::MoqtAction::RequestUpdate => 5,
        cat_token::MoqtAction::Publish => 6,
        cat_token::MoqtAction::Fetch => 7,
        cat_token::MoqtAction::TrackStatus => 8,
    }
}

/// The contents of a pattern of the outside code.
pub open spec fn outside_match(m: cat_token::BinaryMatch) -> BytePatternView {
    BytePatternView {
        match_type: match m.match_type {
            cat_token::BinaryMatchType::Exact => 0,
            cat_token::BinaryMatchType::Prefix => 1,
            cat_token::BinaryMatchType::Suffix => 2,
        },
        pattern: m.pattern@,
    }
}

/// The contents of a pattern of the outside code for a field.
pub open spec fn outside_field(m: cat_token::NamespaceMatch) -> Option<BytePatternView> {
    match m {
        cat_token::NamespaceMatch::Match(m) => Some(outside_match(m)),
        cat_token::NamespaceMatch::Nil => None,
    }
}

/// The contents of a grant of the outside code.
pub open spec fn outside_scope(s: cat_token::MoqtScope) -> GrantView {
    GrantView {
        actions: s.actions@.map_values(|a: cat_token::MoqtAction| outside_action(a)),
        namespace_matches: s.namespace_matches@.map_values(
            |m: cat_token::NamespaceMatch| outside_field(m),
        ),
        track_match: match s.track_match {
            Some(m) => Some(outside_match(m)),
            None => None,
        },
    }
}

/// The claims of a token, with the grants as the outside code holds them.
struct DecodedClaims {
    iss: Option<String>,
    aud: Option<Vec<String>>,
    sub: Option<String>,
    exp: Option<i64>,
    nbf: Option<i64>,
    moqt: Option<Vec<cat_token::MoqtScope>>,
    moqt_reval: bool,
}

impl View for DecodedClaims {
    type V = CatClaimsView;

    closed spec fn view(&self) -> CatClaimsView {
        CatClaimsView {
            iss: cose::text_view(self.iss),
            aud: list_view(self.aud),
            sub: cose::text_view(self.sub),
            exp: self.exp,
            nbf: self.nbf,
            moqt: match self.moqt {
                Some(scopes) => Some(
                    scopes@.map_values(|s: cat_token::MoqtScope| outside_scope(s)),
                ),
                None => None,
            },
            moqt_reval: self.moqt_reval,
        }
    }
}

/// The contents of a decoding result of the outside code.
closed spec fn decoded_view(r: Result<DecodedClaims, CatError>) -> Result<CatClaimsView, CatFault> {
    match r {
        Ok(claims) => Ok(claims@),
        Err(err) => Err(fault_of(err)),
    }
}

/// `cat_token::decode_token` verifies a token under a key, which becomes the `cat_token`
/// algorithm of its kind, and decodes the claims, which are those of the payload. What comes out
/// depends on the key and the token alone. The decoder makes no claims that join others.
#[verifier::external_body]
fn decode_token(key: &TokenKey, token: &[u8]) -> (r: Result<DecodedClaims, CatError>)
    ensures
        decoded_view(r) == token_claims(key@, token@),
        r matches Ok(claims) ==> (cose::token_parts(token@) matches Some((_, payload))
            && payload_claims(payload) == Ok::<CatClaimsView, CatFault>(claims@)),
{
    let verifier: Box<dyn CryptographicAlgorithm> = match key {
        TokenKey::Es256(pem) => Box::new(Es256Algorithm::from_public_key_pem(pem)?),
        TokenKey::Ps256(pem) => Box::new(Ps256Algorithm::new_verifier(
            RsaPublicKey::from_public_key_pem(pem).map_err(|e| CatError::CryptoError(e.to_string()))?,
        )?),
        TokenKey::Hmac(secret) => Box::new(HmacSha256Algorithm::new(secret)),
    };
    let t = cat_token::decode_token(token, verifier.as_ref())?;
    let cat_token::CoreClaims { iss, aud, exp, nbf, .. } = t.core;
    let sub = t.informational.sub;
    let moqt_reval = t.moqt.moqt_reval.is_some();
    Ok(DecodedClaims { iss, aud, sub, exp, nbf, moqt: t.moqt.moqt, moqt_reval })
}

fn copy_match(m: &cat_token::BinaryMatch) -> (r: BytePattern)
    ensures
        r@ == outside_match(*m),
{
    let match_type: u8 = match m.match_type {
        cat_token::BinaryMatchType::Exact => 0,
        cat_token::BinaryMatchType::Prefix => 1,
        cat_token::BinaryMatchType::Suffix => 2,
    };
    BytePattern { match_type, pattern: bytes::copy_bytes(m.pattern.as_slice()) }
}

fn action_number(action: &cat_token::MoqtAction) -> (r: u8)
    ensures
        r == outside_action(*action),
{
    match action {
        cat_token::MoqtAction::ClientSetup => 0,
        cat_token::MoqtAction::ServerSetup => 1,
        cat_token::MoqtAction::PublishNamespace => 2,
        cat_token::MoqtAction::SubscribeNamespace => 3,
        cat_token::MoqtAction::Subscribe => 4,
        cat_token::MoqtAction::RequestUpdate => 5,
        cat_token::MoqtAction::Publish => 6,
        cat_token::MoqtAction::Fetch => 7,
        cat_token::MoqtAction::TrackStatus => 8,
    }
}

fn copy_scope(s: &cat_token::MoqtScope) -> (r: Grant)
    ensures
        r@ == outside_scope(*s),
{
    let ghost want = outside_scope(*s);
    let mut actions: Vec<u8> = Vec::new();
    let mut i: usize = 0;
    while i < s.actions.len()
        invariant
            i <= s.actions@.len(),
            want == outside_scope(*s),
            actions@ =~= want.actions.take(i as int),
        decreases s.actions@.len() - i,
    {
        actions.push(action_number(&s.actions[i]));
        i += 1;
    }
    let mut fields: Vec<Option<BytePattern>> = Vec::new();
    let mut k: usize = 0;
    while k < s.namespace_matches.len()
        invariant
            k <= s.namespace_matches@.len(),
            want == outside_scope(*s),
            fields@.len() == k,
            forall|j: int|
                0 <= j < k ==> match_view(#[trigger] fields@[j]) == want.namespace_matches[j],
        decreases s.namespace_matches@.len() - k,
    {
        let field: Option<BytePattern> = match &s.namespace_matches[k] {
            cat_token::NamespaceMatch::Match(m) => Some(copy_match(m)),
            cat_token::NamespaceMatch::Nil => None,
        };
        fields.push(field);
        k += 1;
    }
    let track_match: Option<BytePattern> = match &s.track_match {
        Some(m) => Some(copy_match(m)),
        None => None,
    };
    let r = Grant { actions, namespace_matches: fields, track_match };
    assert(r@.namespace_matches =~= want.namespace_matches);
    assert(r@.actions =~= want.actions);
    r
}

/// Verifies a token under a key and decodes its claims.
pub(crate) fn decode_claims(key: &TokenKey, token: &[u8]) -> (r: Result<CatClaims, CatError>)
    ensures
        claims_view(r) == token_claims(key@, token@),
        r matches Ok(claims) ==> (cose::token_parts(token@) matches Some((_, payload))
            && payload_claims(payload) == Ok::<CatClaimsView, CatFault>(claims@)),
{
    let decoded = match decode_token(key, token) {
        Ok(decoded) => decoded,
        Err(err) => {
            return Err(err);
        },
    };
    let ghost want = decoded@;
    let moqt: Option<Vec<Grant>> = match &decoded.moqt {
        Some(scopes) => {
            let mut copies: Vec<Grant> = Vec::new();
            let mut i: usize = 0;
            while i < scopes.len()
                invariant
                    i <= scopes@.len(),
                    copies@.len() == i,
                    forall|j: int|
                        0 <= j < i ==> (#[trigger] copies@[j])@ == outside_scope(scopes@[j]),
                decreases scopes@.len() - i,
            {
                copies.push(copy_scope(&scopes[i]));
                i += 1;
            }
            Some(copies)
        },
        None => None,
    };
    let claims = CatClaims {
        iss: decoded.iss,
        aud: decoded.aud,
        sub: decoded.sub,
        exp: decoded.exp,
        nbf: decoded.nbf,
        moqt,
        moqt_reval: decoded.moqt_reval,
    };
    assert(claims@ =~= want);
    Ok(claims)
}

/// What `cat_token::CatTokenValidator::validate` finds wrong with a payload at a time,
/// beside its times, issuer and audience.
pub uninterp spec fn other_fault(
    payload: Seq<u8>,
    issuers: Option<Seq<Seq<char>>>,
    audiences: Option<Seq<Seq<char>>>,
    skew: i64,
    now: i64,
) -> Option<CatFault>;

/// The contents of an optional list of texts.
pub open spec fn list_view(list: Option<Vec<String>>) -> Option<Seq<Seq<char>>> {
    match list {
        Some(list) => Some(text::texts_view(list@)),
        None => None,
    }
}

/// What is wrong with the times of a token.
pub open spec fn time_fault(claims: CatClaimsView, skew: i64, now: i64) -> Option<CatFault> {
    if claims.exp matches Some(exp) && now > exp + skew {
        Some(CatFault::TokenExpired)
    } else if claims.nbf matches Some(nbf) && now < nbf - skew {
        Some(CatFault::TokenNotYetValid)
    } else {
        None
    }
}

/// What is wrong with the issuer of a token.
pub open spec fn issuer_fault(
    claims: CatClaimsView,
    issuers: Option<Seq<Seq<char>>>,
) -> Option<CatFault> {
    match (issuers, claims.iss) {
        (Some(issuers), Some(iss)) => if issuers.contains(iss) {
            None
        } else {
            Some(CatFault::InvalidIssuer)
        },
        (Some(_), None) => Some(CatFault::MissingRequiredClaim("iss"@)),
        (None, _) => None,
    }
}

/// What is wrong with the audience of a token.
pub open spec fn audience_fault(
    claims: CatClaimsView,
    audiences: Option<Seq<Seq<char>>>,
) -> Option<CatFault> {
    match (audiences, claims.aud) {
        (Some(audiences), Some(aud)) => if exists|i: int|
            0 <= i < aud.len() && audiences.contains(#[trigger] aud[i]) {
            None
        } else {
            Some(CatFault::InvalidAudience)
        },
        (Some(_), None) => Some(CatFault::MissingRequiredClaim("aud"@)),
        (None, _) => None,
    }
}

/// What is wrong with a token at a time. Times come first, then the issuer, the audience and
/// the rest.
pub open spec fn validity_fault(
    claims: CatClaimsView,
    issuers: Option<Seq<Seq<char>>>,
    audiences: Option<Seq<Seq<char>>>,
    skew: i64,
    now: i64,
    rest: Option<CatFault>,
) -> Option<CatFault> {
    if time_fault(claims, skew, now) is Some {
        time_fault(claims, skew, now)
    } else if issuer_fault(claims, issuers) is Some {
        issuer_fault(claims, issuers)
    } else if audience_fault(claims, audiences) is Some {
        audience_fault(claims, audiences)
    } else {
        rest
    }
}

/// The contents of a validation result.
pub open spec fn fault_view(r: Result<(), CatError>) -> Option<CatFault> {
    match r {
        Ok(()) => None,
        Err(err) => Some(fault_of(err)),
    }
}

/// The times of a token can be compared with a skew taken in.
pub open spec fn times_fit(claims: CatClaimsView, skew: i64) -> bool {
    &&& (claims.exp matches Some(exp) ==> i64::MIN <= exp + skew <= i64::MAX)
    &&& (claims.nbf matches Some(nbf) ==> i64::MIN <= nbf - skew <= i64::MAX)
}

/// Whether the times of a token can be compared with a skew taken in.
pub fn check_times(claims: &CatClaims, skew: i64) -> (r: bool)
    ensures
        r == times_fit(claims@, skew),
{
    if let Some(exp) = claims.exp {
        let latest: i128 = exp as i128 + skew as i128;
        if latest < (i64::MIN as i128) || latest > (i64::MAX as i128) {
            return false;
        }
    }
    if let Some(nbf) = claims.nbf {
        let earliest: i128 = nbf as i128 - skew as i128;
        if earliest < (i64::MIN as i128) || earliest > (i64::MAX as i128) {
            return false;
        }
    }
    true
}

/// The payload is that of a token with these claims.
pub open spec fn has_claims(payload: Seq<u8>, claims: CatClaimsView) -> bool {
    payload_claims(payload) == Ok::<CatClaimsView, CatFault>(claims)
}

/// `cat_token::CatTokenValidator::validate` checks the claims of a payload against the clock
/// and what is expected of them. The clock is read inside, so the result is that of some
/// point in time.
#[verifier::external_body]
pub(crate) fn validate_payload(
    payload: &[u8],
    issuers: Option<Vec<String>>,
    audiences: Option<Vec<String>>,
    skew: i64,
) -> (r: Result<(), CatError>)
    requires
        payload_claims(payload@) matches Ok(claims) && times_fit(claims, skew),
    ensures
        exists|now: i64|
            fault_view(r) == validity_fault(
                payload_claims(payload@)->Ok_0,
                list_view(issuers),
                list_view(audiences),
                skew,
                now,
                #[trigger] other_fault(
                    payload@,
                    list_view(issuers),
                    list_view(audiences),
                    skew,
                    now,
                ),
            ),
{
    let token = Cwt::decode_payload(payload)?;
    let mut validator = CatTokenValidator::new().with_clock_skew_tolerance(skew);
    if let Some(issuers) = issuers {
        validator = validator.with_expected_issuers(issuers);
    }
    if let Some(audiences) = audiences {
        validator = validator.with_expected_audiences(audiences);
    }
    validator.validate(&token)
}

/// Every action has a number of its own, the one that tokens hold it by.
pub proof fn law_actions_have_numbers_of_their_own(a: TokenAction, b: TokenAction)
    ensures
        a.number() == b.number() ==> a == b,
        TokenAction::ClientSetup.number() == outside_action(cat_token::MoqtAction::ClientSetup),
        TokenAction::ServerSetup.number() == outside_action(cat_token::MoqtAction::ServerSetup),
        TokenAction::PublishNamespace.number() == outside_action(
            cat_token::MoqtAction::PublishNamespace,
        ),
        TokenAction::SubscribeNamespace.number() == outside_action(
            cat_token::MoqtAction::SubscribeNamespace,
        ),
        TokenAction::Subscribe.number() == outside_action(cat_token::MoqtAction::Subscribe),
        TokenAction::RequestUpdate.number() == outside_action(cat_token::MoqtAction::RequestUpdate),
        TokenAction::Publish.number() == outside_action(cat_token::MoqtAction::Publish),
        TokenAction::Fetch.number() == outside_action(cat_token::MoqtAction::Fetch),
        TokenAction::TrackStatus.number() == outside_action(cat_token::MoqtAction::TrackStatus),
{
}

/// An empty pattern fits everything. Another one fits what it is, what begins with it or what ends
/// with it, by its type.
pub proof fn law_patterns_fit_by_their_type(pattern: BytePatternView, input: Seq<u8>)
    ensures
        pattern.pattern.len() == 0 ==> pattern.fits(input),
        pattern.pattern.len() > 0 ==> {
            &&& pattern.match_type == 0 ==> (pattern.fits(input) <==> input == pattern.pattern)
            &&& pattern.match_type == 1 ==> (pattern.fits(input) <==> pattern.pattern.is_prefix_of(
                input,
            ))
            &&& pattern.match_type == 2 ==> (pattern.fits(input) <==> pattern.pattern.is_suffix_of(
                input,
            ))
            &&& pattern.match_type > 2 ==> !pattern.fits(input)
        },
{
    bytes::law_parts_of_a_whole_are_found(seq![], pattern.pattern, input);
}

/// Patterns for whole fields name a prefix: every namespace that begins with these fields fits, and
/// no other. Where the namespace has to end behind them, only these fields fit.
pub proof fn law_field_patterns_name_a_prefix(
    scope: GrantView,
    prefix: Seq<Seq<u8>>,
    namespace: Seq<Seq<u8>>,
)
    requires
        prefix.len() <= scope.namespace_matches.len() <= prefix.len() + 1,
        forall|i: int|
            0 <= i < prefix.len() ==> (#[trigger] prefix[i]).len() > 0
                && scope.namespace_matches[i] == Some(
                BytePatternView { match_type: 0, pattern: prefix[i] },
            ),
        scope.namespace_matches.len() == prefix.len() + 1
            ==> scope.namespace_matches[prefix.len() as int] is None,
    ensures
        scope.namespace_matches.len() == prefix.len() ==> (scope.fits_namespace(namespace)
            <==> prefix.is_prefix_of(namespace)),
        scope.namespace_matches.len() > prefix.len() ==> (scope.fits_namespace(namespace)
            <==> prefix == namespace),
{
    let n = prefix.len() as int;
    if scope.fits_namespace(namespace) {
        assert forall|i: int| 0 <= i < n implies i < namespace.len() && #[trigger] prefix[i]
            == namespace[i] by {
            assert(prefix[i].len() > 0);
            assert(scope.field_fits(namespace, i));
        }
        if n > 0 {
            assert(prefix[n - 1] == namespace[n - 1]);
        }
        assert(prefix =~= namespace.subrange(0, n));
        if scope.namespace_matches.len() > n {
            assert(scope.field_fits(namespace, n));
            assert(prefix =~= namespace);
        }
    }
    if prefix.is_prefix_of(namespace) {
        assert forall|i: int| 0 <= i < n implies scope.field_fits(namespace, i) by {
            assert(prefix[i] == namespace.subrange(0, n)[i]);
        }
        if scope.namespace_matches.len() == n || prefix == namespace {
            assert(scope.fits_namespace(namespace));
        }
    }
    if prefix == namespace {
        assert(namespace.subrange(0, n) =~= prefix);
    }
}

/// A scope without patterns grants its actions everywhere, and no others.
pub proof fn law_scope_without_patterns_grants_everywhere(
    scope: GrantView,
    action: TokenAction,
    namespace: Option<Seq<Seq<u8>>>,
    track: Option<Seq<u8>>,
)
    requires
        scope.namespace_matches.len() == 0,
        scope.track_match is None,
    ensures
        scope.grants(action, namespace, track) <==> scope.actions.contains(action.number()),
{
}

/// A scope grants its actions on what fits it. A track pattern has to fit the track.
pub proof fn law_scope_grants_what_fits(
    scope: GrantView,
    action: TokenAction,
    namespace: Seq<Seq<u8>>,
    track: Seq<u8>,
)
    requires
        scope.actions.contains(action.number()),
    ensures
        scope.grants(action, None, None),
        scope.grants(action, Some(namespace), None) <==> scope.fits_namespace(namespace),
        scope.track_match is None ==> (scope.grants(action, Some(namespace), Some(track))
            <==> scope.fits_namespace(namespace)),
        scope.track_match matches Some(pattern) ==> (scope.grants(
            action,
            Some(namespace),
            Some(track),
        ) <==> scope.fits_namespace(namespace) && pattern.fits(track)),
{
}

/// A token grants what one of its scopes grants. One without scopes grants nothing.
pub proof fn law_one_scope_suffices(
    claims: CatClaimsView,
    action: TokenAction,
    namespace: Option<Seq<Seq<u8>>>,
    track: Option<Seq<u8>>,
)
    ensures
        claims.grants(action, namespace, track) <==> claims.moqt is Some && exists|i: int|
            0 <= i < claims.moqt->0.len() && (#[trigger] claims.moqt->0[i]).grants(
                action,
                namespace,
                track,
            ),
{
}

/// A token is valid from its start to its end, with the skew allowed at both. A time that is not
/// claimed does not count.
pub proof fn law_token_is_valid_between_its_times(claims: CatClaimsView, skew: i64, now: i64)
    ensures
        time_fault(claims, skew, now) is None <==> (claims.exp matches Some(exp) ==> now <= exp
            + skew) && (claims.nbf matches Some(nbf) ==> nbf - skew <= now),
        time_fault(claims, skew, now) == Some(CatFault::TokenExpired) <==> claims.exp is Some && now
            > claims.exp->0 + skew,
        time_fault(claims, skew, now) is Some ==> time_fault(claims, skew, now)
            == Some(CatFault::TokenExpired) || time_fault(claims, skew, now) == Some(
            CatFault::TokenNotYetValid,
        ),
{
}

/// Where issuers are expected, a token has to name one of them, and where audiences are, it has to
/// be for one of them. Else anything goes.
pub proof fn law_expected_parties_are_asked_for(
    claims: CatClaimsView,
    expected: Option<Seq<Seq<char>>>,
)
    ensures
        issuer_fault(claims, expected) is None <==> expected is None || (claims.iss is Some
            && exists|k: int|
            0 <= k < expected->0.len() && #[trigger] expected->0[k] == claims.iss->0),
        audience_fault(claims, expected) is None <==> expected is None || (claims.aud is Some
            && exists|i: int, k: int|
            0 <= i < claims.aud->0.len() && 0 <= k < expected->0.len() && #[trigger] claims.aud->0[i]
                == #[trigger] expected->0[k]),
        issuer_fault(claims, expected) == Some(CatFault::InvalidIssuer) <==> expected is Some
            && claims.iss is Some && !expected->0.contains(claims.iss->0),
        audience_fault(claims, expected) == Some(CatFault::InvalidAudience) ==> expected is Some
            && claims.aud is Some,
{
    if expected is Some && claims.iss is Some {
        let issuers = expected->0;
        if issuers.contains(claims.iss->0) {
            let k = issuers.index_of(claims.iss->0);
            assert(expected->0[k] == claims.iss->0);
        }
    }
    if expected is Some && claims.aud is Some {
        let audiences = expected->0;
        let aud = claims.aud->0;
        if exists|i: int| 0 <= i < aud.len() && audiences.contains(#[trigger] aud[i]) {
            let i = choose|i: int| 0 <= i < aud.len() && audiences.contains(#[trigger] aud[i]);
            let k = audiences.index_of(aud[i]);
            assert(claims.aud->0[i] == expected->0[k]);
        }
        if exists|i: int, k: int|
            0 <= i < aud.len() && 0 <= k < audiences.len() && #[trigger] aud[i]
                == #[trigger] audiences[k] {
            let (i, k) = choose|i: int, k: int|
                0 <= i < aud.len() && 0 <= k < audiences.len() && #[trigger] aud[i]
                    == #[trigger] audiences[k];
            assert(audiences.contains(aud[i]));
        }
    }
}

/// A token is sound if nothing is wrong with it, and what is told of one that is not sound is
/// wrong with it.
pub proof fn law_sound_token_has_no_fault(
    claims: CatClaimsView,
    issuers: Option<Seq<Seq<char>>>,
    audiences: Option<Seq<Seq<char>>>,
    skew: i64,
    now: i64,
    rest: Option<CatFault>,
)
    ensures
        ({
            let fault = validity_fault(claims, issuers, audiences, skew, now, rest);
            let time = time_fault(claims, skew, now);
            let issuer = issuer_fault(claims, issuers);
            let audience = audience_fault(claims, audiences);
            &&& fault is None <==> time is None && issuer is None && audience is None
                && rest is None
            &&& fault is Some ==> fault == time || fault == issuer || fault == audience || fault
                == rest
            &&& time is Some ==> fault == time
        }),
{
}

/// The patterns of the outside code fit as they are named.
pub proof fn law_outside_patterns_fit_as_named(m: cat_token::BinaryMatch, input: Seq<u8>)
    requires
        m.pattern@.len() > 0,
    ensures
        m.match_type is Exact ==> (outside_match(m).fits(input) <==> input == m.pattern@),
        m.match_type is Prefix ==> (outside_match(m).fits(input) <==> m.pattern@.is_prefix_of(
            input,
        )),
        m.match_type is Suffix ==> (outside_match(m).fits(input) <==> m.pattern@.is_suffix_of(
            input,
        )),
        outside_field(cat_token::NamespaceMatch::Match(m)) == Some(outside_match(m)),
        outside_field(cat_token::NamespaceMatch::Nil) is None,
{
    law_patterns_fit_by_their_type(outside_match(m), input);
}

/// A grant of the outside code grants the actions that it names.
pub proof fn law_outside_actions_are_granted(s: cat_token::MoqtScope, i: int)
    requires
        0 <= i < s.actions@.len(),
    ensures
        outside_scope(s).actions.len() == s.actions@.len(),
        outside_scope(s).actions[i] == outside_action(s.actions@[i]),
        s.actions@[i] == cat_token::MoqtAction::Publish ==> outside_scope(s).grants(
            TokenAction::Publish,
            None,
            None,
        ),
        s.actions@[i] == cat_token::MoqtAction::Subscribe ==> outside_scope(s).grants(
            TokenAction::Subscribe,
            None,
            None,
        ),
        s.track_match is None <==> outside_scope(s).track_match is None,
        outside_scope(s).namespace_matches.len() == s.namespace_matches@.len(),
{
    assert(outside_scope(s).actions.contains(outside_scope(s).actions[i]));
}

/// The times of a token can be compared if its end with the skew added, and its start with the skew
/// taken off, are times.
pub proof fn law_times_can_be_compared_in_range(claims: CatClaimsView, skew: i64)
    ensures
        times_fit(claims, skew) <==> (claims.exp is None || (claims.exp->0 + skew) as i64
            == claims.exp->0 + skew) && (claims.nbf is None || (claims.nbf->0 - skew) as i64
            == claims.nbf->0 - skew),
{
}

} // verus!
