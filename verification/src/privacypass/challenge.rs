//! What a token is asked for, and the challenges that were given out.

use vstd::prelude::*;
use crate::auth::types::AuthzOperation;
use crate::bytes::{
    self, bytes_contain, bytes_eq, bytes_occur_at, copy_bytes, copy_tuple, tuple_contains,
    tuple_occurs_at, tuples_equal,
};
use crate::namespace::TrackNamespace;
use crate::privacypass::framing::{self, put_vec_u16, put_vec_u8};
use crate::text::{self, list_texts, push_decimal};

verus! {

/// What a token entitles to.
#[derive(Debug, Clone, Copy, PartialEq, Eq, Structural)]
pub enum MoqAction {
    Setup,
    Subscribe,
    Publish,
}

/// How a name is held against a pattern.
#[derive(Debug, PartialEq, Eq)]
pub enum MatchRule<T> {
    Exact(T),
    Prefix(T),
    Suffix(T),
    Contains(T),
}

/// How a name is held against a pattern.
#[derive(Debug, Clone, Copy, PartialEq, Eq, Structural)]
pub enum MatchType {
    Exact,
    Prefix,
    Suffix,
    Contains,
}

impl MatchType {
    /// The number of the match type on the wire.
    pub open spec fn number(self) -> u8 {
        match self {
            MatchType::Exact => 0,
            MatchType::Prefix => 1,
            MatchType::Suffix => 2,
            MatchType::Contains => 3,
        }
    }

    /// The name of the match type.
    pub open spec fn label(self) -> Seq<char> {
        match self {
            MatchType::Exact => "Exact"@,
            MatchType::Prefix => "Prefix"@,
            MatchType::Suffix => "Suffix"@,
            MatchType::Contains => "Contains"@,
        }
    }

    fn to_u8(self) -> (r: u8)
        ensures
            r == self.number(),
    {
        match self {
            MatchType::Exact => 0,
            MatchType::Prefix => 1,
            MatchType::Suffix => 2,
            MatchType::Contains => 3,
        }
    }

    fn name(self) -> (r: &'static str)
        ensures
            r@ == self.label(),
    {
        match self {
            MatchType::Exact => "Exact",
            MatchType::Prefix => "Prefix",
            MatchType::Suffix => "Suffix",
            MatchType::Contains => "Contains",
        }
    }
}

/// `target` meets `pattern`.
pub open spec fn meets<T>(match_type: MatchType, target: Seq<T>, pattern: Seq<T>) -> bool {
    match match_type {
        MatchType::Exact => target == pattern,
        MatchType::Prefix => bytes::starts_with(target, pattern),
        MatchType::Suffix => bytes::ends_with(target, pattern),
        MatchType::Contains => bytes::contains_run(target, pattern),
    }
}

impl<T> MatchRule<T> {
    /// How the rule compares.
    pub open spec fn match_type(self) -> MatchType {
        match self {
            MatchRule::Exact(_) => MatchType::Exact,
            MatchRule::Prefix(_) => MatchType::Prefix,
            MatchRule::Suffix(_) => MatchType::Suffix,
            MatchRule::Contains(_) => MatchType::Contains,
        }
    }

    /// What the rule compares with.
    pub open spec fn pattern(self) -> T {
        match self {
            MatchRule::Exact(pattern) => pattern,
            MatchRule::Prefix(pattern) => pattern,
            MatchRule::Suffix(pattern) => pattern,
            MatchRule::Contains(pattern) => pattern,
        }
    }

    /// How the rule compares, and with what.
    fn parts(&self) -> (r: (MatchType, &T))
        ensures
            r.0 == self.match_type(),
            *r.1 == self.pattern(),
    {
        match self {
            MatchRule::Exact(pattern) => (MatchType::Exact, pattern),
            MatchRule::Prefix(pattern) => (MatchType::Prefix, pattern),
            MatchRule::Suffix(pattern) => (MatchType::Suffix, pattern),
            MatchRule::Contains(pattern) => (MatchType::Contains, pattern),
        }
    }

    /// The rule that compares so.
    fn of(match_type: MatchType, pattern: T) -> (r: Self)
        ensures
            r.match_type() == match_type,
            r.pattern() == pattern,
    {
        match match_type {
            MatchType::Exact => MatchRule::Exact(pattern),
            MatchType::Prefix => MatchRule::Prefix(pattern),
            MatchType::Suffix => MatchRule::Suffix(pattern),
            MatchType::Contains => MatchRule::Contains(pattern),
        }
    }
}

impl MatchRule<Vec<Vec<u8>>> {
    /// Whether a namespace meets the rule. Fields are compared as wholes.
    pub fn matches_namespace(&self, target: &[Vec<u8>]) -> (r: bool)
        ensures
            r == meets(
                self.match_type(),
                bytes::tuple_view(target@),
                bytes::tuple_view(self.pattern()@),
            ),
    {
        match self {
            MatchRule::Exact(pattern) => tuples_equal(target, pattern.as_slice()),
            MatchRule::Prefix(pattern) => tuple_occurs_at(target, pattern.as_slice(), 0),
            MatchRule::Suffix(pattern) => if pattern.len() > target.len() {
                false
            } else {
                tuple_occurs_at(target, pattern.as_slice(), target.len() - pattern.len())
            },
            MatchRule::Contains(pattern) => tuple_contains(target, pattern.as_slice()),
        }
    }
}

impl MatchRule<Vec<u8>> {
    /// Whether a track name meets the rule.
    pub fn matches_track(&self, target: &[u8]) -> (r: bool)
        ensures
            r == meets(self.match_type(), target@, self.pattern()@),
    {
        match self {
            MatchRule::Exact(pattern) => bytes_eq(target, pattern.as_slice()),
            MatchRule::Prefix(pattern) => bytes_occur_at(target, pattern.as_slice(), 0),
            MatchRule::Suffix(pattern) => if pattern.len() > target.len() {
                false
            } else {
                bytes_occur_at(target, pattern.as_slice(), target.len() - pattern.len())
            },
            MatchRule::Contains(pattern) => bytes_contain(target, pattern.as_slice()),
        }
    }
}

/// A copy of a rule on namespaces.
fn copy_namespace_rule(rule: &MatchRule<Vec<Vec<u8>>>) -> (r: MatchRule<Vec<Vec<u8>>>)
    ensures
        r.match_type() == rule.match_type(),
        bytes::tuple_view(r.pattern()@) == bytes::tuple_view(rule.pattern()@),
{
    let (match_type, pattern) = rule.parts();
    MatchRule::of(match_type, copy_tuple(pattern.as_slice()))
}

/// A copy of a rule on track names.
fn copy_track_rule(rule: &MatchRule<Vec<u8>>) -> (r: MatchRule<Vec<u8>>)
    ensures
        r.match_type() == rule.match_type(),
        r.pattern()@ == rule.pattern()@,
{
    let (match_type, pattern) = rule.parts();
    MatchRule::of(match_type, copy_bytes(pattern.as_slice()))
}

/// What an operation asks for. Some operations no token entitles to.
pub open spec fn action_asked(op: AuthzOperation) -> Option<MoqAction> {
    match op {
        AuthzOperation::Subscribe { namespace, track } => Some(MoqAction::Subscribe),
        AuthzOperation::Fetch { namespace, track } => Some(MoqAction::Subscribe),
        AuthzOperation::TrackStatus { namespace, track } => Some(MoqAction::Subscribe),
        AuthzOperation::Publish { namespace, track } => Some(MoqAction::Publish),
        AuthzOperation::PublishNamespace { namespace } => Some(MoqAction::Publish),
        AuthzOperation::PublishNamespaceDone { namespace } => Some(MoqAction::Publish),
        AuthzOperation::SubscribeNamespace { prefix } => None,
        AuthzOperation::RequestUpdate { request_id } => None,
    }
}

/// The namespace that an operation is about.
pub open spec fn namespace_asked(op: AuthzOperation) -> Seq<Seq<u8>> {
    match op {
        AuthzOperation::Subscribe { namespace, track } => namespace@,
        AuthzOperation::Fetch { namespace, track } => namespace@,
        AuthzOperation::TrackStatus { namespace, track } => namespace@,
        AuthzOperation::Publish { namespace, track } => namespace@,
        AuthzOperation::PublishNamespace { namespace } => namespace@,
        AuthzOperation::PublishNamespaceDone { namespace } => namespace@,
        AuthzOperation::SubscribeNamespace { prefix } => prefix@,
        AuthzOperation::RequestUpdate { request_id } => seq![],
    }
}

/// The track that an operation is about.
pub open spec fn track_asked(op: AuthzOperation) -> Option<Seq<u8>> {
    match op {
        AuthzOperation::Subscribe { namespace, track } => Some(track@),
        AuthzOperation::Fetch { namespace, track } => Some(track@),
        AuthzOperation::TrackStatus { namespace, track } => Some(track@),
        AuthzOperation::Publish { namespace, track } => Some(track@),
        AuthzOperation::PublishNamespace { namespace } => None,
        AuthzOperation::PublishNamespaceDone { namespace } => None,
        AuthzOperation::SubscribeNamespace { prefix } => None,
        AuthzOperation::RequestUpdate { request_id } => None,
    }
}

/// What a token entitles to: an action, on the namespaces and tracks that meet the rules.
#[derive(Debug)]
pub struct ChallengeScope {
    action: MoqAction,
    namespace: MatchRule<Vec<Vec<u8>>>,
    track: MatchRule<Vec<u8>>,
}

/// What a token entitles to.
#[verifier::ext_equal]
pub struct ChallengeScopeView {
    pub action: MoqAction,
    pub namespace_match: MatchType,
    pub namespace: Seq<Seq<u8>>,
    pub track_match: MatchType,
    pub track: Seq<u8>,
}

impl View for ChallengeScope {
    type V = ChallengeScopeView;

    closed spec fn view(&self) -> ChallengeScopeView {
        ChallengeScopeView {
            action: self.action,
            namespace_match: self.namespace.match_type(),
            namespace: bytes::tuple_view(self.namespace.pattern()@),
            track_match: self.track.match_type(),
            track: self.track.pattern()@,
        }
    }
}

impl ChallengeScopeView {
    /// The scope of an action on everything under a namespace.
    pub open spec fn under(action: MoqAction, namespace: Seq<Seq<u8>>) -> ChallengeScopeView {
        ChallengeScopeView {
            action,
            namespace_match: MatchType::Prefix,
            namespace,
            track_match: MatchType::Prefix,
            track: seq![],
        }
    }

    /// The scope covers an operation.
    pub open spec fn allows(self, op: AuthzOperation) -> bool {
        &&& action_asked(op) == Some(self.action)
        &&& meets(self.namespace_match, namespace_asked(op), self.namespace)
        &&& match track_asked(op) {
            Some(track) => meets(self.track_match, track, self.track),
            None => true,
        }
    }

    /// What is told to an issuer of the scope.
    pub open spec fn info(self) -> Seq<AuthScopeView> {
        seq![
            AuthScopeView {
                actions: actions_of(self.action),
                namespace_match: self.namespace_match,
                namespace: self.namespace,
                track_match: self.track_match,
                track: self.track,
            },
        ]
    }

    /// The encoded scope is short enough for a challenge.
    pub open spec fn fits(self) -> bool {
        scopes_bytes(self.info()).len() <= 0xff
    }
}

impl ChallengeScope {
    /// The scope of setting up a session.
    pub fn setup() -> (r: Self)
        ensures
            r@ == ChallengeScopeView::under(MoqAction::Setup, seq![]),
    {
        let r = ChallengeScope {
            action: MoqAction::Setup,
            namespace: MatchRule::Prefix(Vec::new()),
            track: MatchRule::Prefix(Vec::new()),
        };
        assert(r@.namespace =~= seq![]);
        r
    }

    /// The scope of subscribing to everything under a namespace.
    pub fn subscribe_namespace_prefix(namespace: &TrackNamespace) -> (r: Self)
        ensures
            r@ == ChallengeScopeView::under(MoqAction::Subscribe, namespace@),
    {
        ChallengeScope {
            action: MoqAction::Subscribe,
            namespace: MatchRule::Prefix(namespace.to_tuple()),
            track: MatchRule::Prefix(Vec::new()),
        }
    }

    /// The scope of publishing everything under a namespace.
    pub fn publish_namespace_prefix(namespace: &TrackNamespace) -> (r: Self)
        ensures
            r@ == ChallengeScopeView::under(MoqAction::Publish, namespace@),
    {
        ChallengeScope {
            action: MoqAction::Publish,
            namespace: MatchRule::Prefix(namespace.to_tuple()),
            track: MatchRule::Prefix(Vec::new()),
        }
    }

    fn covers(&self, action: MoqAction, namespace: &TrackNamespace) -> (r: bool)
        ensures
            r == (self@.action == action && meets(
                self@.namespace_match,
                namespace@,
                self@.namespace,
            )),
    {
        self.action == action && self.namespace.matches_namespace(namespace.to_tuple().as_slice())
    }

    fn covers_track(&self, action: MoqAction, namespace: &TrackNamespace, track: &[u8]) -> (r: bool)
        ensures
            r == (self@.action == action && meets(
                self@.namespace_match,
                namespace@,
                self@.namespace,
            ) && meets(self@.track_match, track@, self@.track)),
    {
        self.covers(action, namespace) && self.track.matches_track(track)
    }

    /// Whether the scope covers an operation.
    pub fn allows(&self, operation: &AuthzOperation<'_>) -> (r: bool)
        ensures
            r == self@.allows(*operation),
    {
        match operation {
            AuthzOperation::Subscribe { namespace, track } => self.covers_track(
                MoqAction::Subscribe,
                namespace,
                track,
            ),
            AuthzOperation::Fetch { namespace, track } => self.covers_track(
                MoqAction::Subscribe,
                namespace,
                track,
            ),
            AuthzOperation::TrackStatus { namespace, track } => self.covers_track(
                MoqAction::Subscribe,
                namespace,
                track,
            ),
            AuthzOperation::Publish { namespace, track } => self.covers_track(
                MoqAction::Publish,
                namespace,
                track,
            ),
            AuthzOperation::PublishNamespace { namespace } => self.covers(
                MoqAction::Publish,
                namespace,
            ),
            AuthzOperation::PublishNamespaceDone { namespace } => self.covers(
                MoqAction::Publish,
                namespace,
            ),
            _ => false,
        }
    }

    /// Whether the scope covers setting up a session.
    pub fn allows_setup(&self) -> (r: bool)
        ensures
            r == (self@.action == MoqAction::Setup),
    {
        self.action == MoqAction::Setup
    }

    /// What is told to an issuer of the scope.
    pub fn authorization_info(&self) -> (r: MoqAuthorizationInfo)
        ensures
            r@ == self@.info(),
    {
        let mut actions: Vec<MoqActionValue> = Vec::new();
        match self.action {
            MoqAction::Setup => {
                actions.push(MoqActionValue::ClientSetup);
            },
            MoqAction::Subscribe => {
                actions.push(MoqActionValue::Subscribe);
                actions.push(MoqActionValue::Fetch);
                actions.push(MoqActionValue::TrackStatus);
            },
            MoqAction::Publish => {
                actions.push(MoqActionValue::PublishNamespace);
                actions.push(MoqActionValue::Publish);
            },
        }
        assert(actions@ =~= actions_of(self.action));
        let mut scopes: Vec<MoqAuthScope> = Vec::new();
        scopes.push(
            MoqAuthScope {
                actions,
                namespace: copy_namespace_rule(&self.namespace),
                track: copy_track_rule(&self.track),
            },
        );
        let r = MoqAuthorizationInfo { scopes };
        assert(r@ =~= self@.info());
        r
    }

    /// The scope as a challenge carries it.
    pub fn encode_origin_info(&self) -> (r: Vec<u8>)
        requires
            self@.fits(),
        ensures
            r@ == framing::framed8(scopes_bytes(self@.info())),
    {
        self.authorization_info().encode()
    }

    /// Whether the encoded scope is short enough for a challenge.
    pub fn fits_challenge(&self) -> (r: bool)
        ensures
            r == self@.fits(),
    {
        self.authorization_info().fits()
    }

    /// The challenge for a token of an issuer.
    pub fn token_challenge(&self, issuer_name: &str) -> (r: TokenChallenge)
        requires
            self@.fits(),
            vstd::utf8::encode_utf8(issuer_name@).len() <= 0xffff,
        ensures
            r@ == (TokenChallengeView {
                token_type: 2,
                issuer_name: vstd::utf8::encode_utf8(issuer_name@),
                redemption_context: seq![],
                origin_info: framing::framed8(scopes_bytes(self@.info())),
            }),
    {
        TokenChallenge {
            token_type: 2,
            issuer_name: copy_bytes(issuer_name.as_bytes()),
            redemption_context: Vec::new(),
            origin_info: self.encode_origin_info(),
        }
    }
}

/// What a token is asked of an issuer for.
#[derive(Debug)]
pub struct TokenChallenge {
    pub token_type: u16,
    pub issuer_name: Vec<u8>,
    pub redemption_context: Vec<u8>,
    pub origin_info: Vec<u8>,
}

/// What a token is asked of an issuer for.
#[verifier::ext_equal]
pub struct TokenChallengeView {
    pub token_type: u16,
    pub issuer_name: Seq<u8>,
    pub redemption_context: Seq<u8>,
    pub origin_info: Seq<u8>,
}

impl View for TokenChallenge {
    type V = TokenChallengeView;

    open spec fn view(&self) -> TokenChallengeView {
        TokenChallengeView {
            token_type: self.token_type,
            issuer_name: self.issuer_name@,
            redemption_context: self.redemption_context@,
            origin_info: self.origin_info@,
        }
    }
}

/// What an issuer is told that a token is for.
#[derive(Debug, Clone, Copy, PartialEq, Eq, Structural)]
pub enum MoqActionValue {
    ClientSetup,
    PublishNamespace,
    Subscribe,
    Publish,
    Fetch,
    TrackStatus,
}

impl MoqActionValue {
    /// The number of the action on the wire.
    pub open spec fn number(self) -> u8 {
        match self {
            MoqActionValue::ClientSetup => 0,
            MoqActionValue::PublishNamespace => 2,
            MoqActionValue::Subscribe => 4,
            MoqActionValue::Publish => 6,
            MoqActionValue::Fetch => 7,
            MoqActionValue::TrackStatus => 8,
        }
    }

    /// The name of the action.
    pub open spec fn label(self) -> Seq<char> {
        match self {
            MoqActionValue::ClientSetup => "ClientSetup"@,
            MoqActionValue::PublishNamespace => "PublishNamespace"@,
            MoqActionValue::Subscribe => "Subscribe"@,
            MoqActionValue::Publish => "Publish"@,
            MoqActionValue::Fetch => "Fetch"@,
            MoqActionValue::TrackStatus => "TrackStatus"@,
        }
    }

    /// The number of the action on the wire.
    pub fn to_u8(self) -> (r: u8)
        ensures
            r == self.number(),
    {
        match self {
            MoqActionValue::ClientSetup => 0,
            MoqActionValue::PublishNamespace => 2,
            MoqActionValue::Subscribe => 4,
            MoqActionValue::Publish => 6,
            MoqActionValue::Fetch => 7,
            MoqActionValue::TrackStatus => 8,
        }
    }

    fn name(self) -> (r: &'static str)
        ensures
            r@ == self.label(),
    {
        match self {
            MoqActionValue::ClientSetup => "ClientSetup",
            MoqActionValue::PublishNamespace => "PublishNamespace",
            MoqActionValue::Subscribe => "Subscribe",
            MoqActionValue::Publish => "Publish",
            MoqActionValue::Fetch => "Fetch",
            MoqActionValue::TrackStatus => "TrackStatus",
        }
    }
}

/// What an action is made up of.
pub open spec fn actions_of(action: MoqAction) -> Seq<MoqActionValue> {
    match action {
        MoqAction::Setup => seq![MoqActionValue::ClientSetup],
        MoqAction::Subscribe => seq![
            MoqActionValue::Subscribe,
            MoqActionValue::Fetch,
            MoqActionValue::TrackStatus,
        ],
        MoqAction::Publish => seq![MoqActionValue::PublishNamespace, MoqActionValue::Publish],
    }
}

/// One entry of what an issuer is told.
#[derive(Debug)]
struct MoqAuthScope {
    actions: Vec<MoqActionValue>,
    namespace: MatchRule<Vec<Vec<u8>>>,
    track: MatchRule<Vec<u8>>,
}

/// One entry of what an issuer is told.
#[verifier::ext_equal]
pub struct AuthScopeView {
    pub actions: Seq<MoqActionValue>,
    pub namespace_match: MatchType,
    pub namespace: Seq<Seq<u8>>,
    pub track_match: MatchType,
    pub track: Seq<u8>,
}

impl View for MoqAuthScope {
    type V = AuthScopeView;

    closed spec fn view(&self) -> AuthScopeView {
        AuthScopeView {
            actions: self.actions@,
            namespace_match: self.namespace.match_type(),
            namespace: bytes::tuple_view(self.namespace.pattern()@),
            track_match: self.track.match_type(),
            track: self.track.pattern()@,
        }
    }
}

/// What an issuer is told that a token is for.
#[derive(Debug)]
pub struct MoqAuthorizationInfo {
    scopes: Vec<MoqAuthScope>,
}

impl View for MoqAuthorizationInfo {
    type V = Seq<AuthScopeView>;

    closed spec fn view(&self) -> Seq<AuthScopeView> {
        self.scopes@.map_values(|scope: MoqAuthScope| scope@)
    }
}

/// The numbers of actions.
pub open spec fn action_bytes(actions: Seq<MoqActionValue>) -> Seq<u8> {
    actions.map_values(|action: MoqActionValue| action.number())
}

/// Fields one after the other, each behind its length.
pub open spec fn tuple_bytes(tuple: Seq<Seq<u8>>) -> Seq<u8>
    decreases tuple.len(),
{
    if tuple.len() == 0 {
        seq![]
    } else {
        tuple_bytes(tuple.drop_last()) + framing::framed16(tuple.last())
    }
}

impl AuthScopeView {
    /// The encoded entry.
    pub open spec fn encoded(self) -> Seq<u8> {
        framing::framed8(action_bytes(self.actions)) + seq![self.namespace_match.number()]
            + framing::framed16(tuple_bytes(self.namespace)) + seq![self.track_match.number()]
            + framing::framed16(self.track)
    }
}

/// The encoded entries.
pub open spec fn scopes_bytes(scopes: Seq<AuthScopeView>) -> Seq<u8>
    decreases scopes.len(),
{
    if scopes.len() == 0 {
        seq![]
    } else {
        scopes_bytes(scopes.drop_last()) + scopes.last().encoded()
    }
}

proof fn lemma_tuple_bytes_grow(tuple: Seq<Seq<u8>>, m: int)
    requires
        0 <= m <= tuple.len(),
    ensures
        tuple_bytes(tuple.take(m)).len() <= tuple_bytes(tuple).len(),
        m < tuple.len() ==> tuple_bytes(tuple.take(m)).len() + 2 + tuple[m].len() <= tuple_bytes(
            tuple,
        ).len(),
    decreases tuple.len() - m,
{
    if m < tuple.len() {
        lemma_tuple_bytes_grow(tuple, m + 1);
        assert(tuple.take(m + 1).drop_last() =~= tuple.take(m));
        assert(tuple.take(m + 1).last() == tuple[m]);
    } else {
        assert(tuple.take(m) =~= tuple);
    }
}

proof fn lemma_scopes_bytes_grow(scopes: Seq<AuthScopeView>, m: int)
    requires
        0 <= m <= scopes.len(),
    ensures
        scopes_bytes(scopes.take(m)).len() <= scopes_bytes(scopes).len(),
        m < scopes.len() ==> scopes_bytes(scopes.take(m)).len() + scopes[m].encoded().len()
            <= scopes_bytes(scopes).len(),
    decreases scopes.len() - m,
{
    if m < scopes.len() {
        lemma_scopes_bytes_grow(scopes, m + 1);
        assert(scopes.take(m + 1).drop_last() =~= scopes.take(m));
        assert(scopes.take(m + 1).last() == scopes[m]);
    } else {
        assert(scopes.take(m) =~= scopes);
    }
}

/// Appends a number no larger than a limit, or tells that the limit is exceeded.
fn sum_within(total: usize, more: usize, limit: usize) -> (r: Option<usize>)
    requires
        total <= limit,
    ensures
        r matches Some(sum) ==> sum == total + more && sum <= limit,
        r is None ==> total + more > limit,
{
    if more > limit - total {
        None
    } else {
        Some(total + more)
    }
}

impl MoqAuthScope {
    fn put_namespace(&self, out: &mut Vec<u8>)
        requires
            tuple_bytes(self@.namespace).len() <= 0xffff,
        ensures
            final(out)@ == old(out)@ + seq![self@.namespace_match.number()] + framing::framed16(
                tuple_bytes(self@.namespace),
            ),
    {
        let ghost before = out@;
        let (match_type, tuple) = self.namespace.parts();
        out.push(match_type.to_u8());
        let mut encoded: Vec<u8> = Vec::new();
        let mut i: usize = 0;
        assert(self@.namespace.take(0) =~= seq![]);
        while i < tuple.len()
            invariant
                i <= tuple@.len(),
                *tuple == self.namespace.pattern(),
                self@.namespace == bytes::tuple_view(tuple@),
                encoded@ == tuple_bytes(self@.namespace.take(i as int)),
                tuple_bytes(self@.namespace).len() <= 0xffff,
            decreases tuple@.len() - i,
        {
            proof {
                lemma_tuple_bytes_grow(self@.namespace, i as int);
                assert(self@.namespace[i as int] == tuple@[i as int]@);
                let next = self@.namespace.take(i + 1);
                assert(next.drop_last() =~= self@.namespace.take(i as int));
                assert(next.last() == tuple@[i as int]@);
            }
            put_vec_u16(&mut encoded, tuple[i].as_slice());
            i += 1;
        }
        assert(self@.namespace.take(i as int) =~= self@.namespace);
        put_vec_u16(out, encoded.as_slice());
        assert(out@ =~= before + seq![self@.namespace_match.number()] + framing::framed16(
            tuple_bytes(self@.namespace),
        ));
    }

    fn encode(&self) -> (r: Vec<u8>)
        requires
            self@.encoded().len() <= 0xff,
        ensures
            r@ == self@.encoded(),
    {
        let mut out: Vec<u8> = Vec::new();
        let mut numbers: Vec<u8> = Vec::new();
        let mut i: usize = 0;
        while i < self.actions.len()
            invariant
                i <= self.actions@.len(),
                numbers@ =~= action_bytes(self.actions@.take(i as int)),
            decreases self.actions@.len() - i,
        {
            numbers.push(self.actions[i].to_u8());
            i += 1;
        }
        assert(self.actions@.take(i as int) =~= self@.actions);
        put_vec_u8(&mut out, numbers.as_slice());
        self.put_namespace(&mut out);
        let (match_type, track) = self.track.parts();
        out.push(match_type.to_u8());
        put_vec_u16(&mut out, track.as_slice());
        assert(out@ =~= self@.encoded());
        out
    }

    /// The length of the encoded entry, if it is within a limit.
    fn encoded_len(&self, limit: usize) -> (r: Option<usize>)
        requires
            limit <= 0xff,
        ensures
            r matches Some(n) ==> n == self@.encoded().len() && n <= limit,
            r is None ==> self@.encoded().len() > limit,
    {
        let (_, tuple) = self.namespace.parts();
        let (_, track) = self.track.parts();
        assert(self@.encoded().len() == 7 + self.actions@.len() + tuple_bytes(
            self@.namespace,
        ).len() + track@.len());
        if limit < 7 {
            return None;
        }
        let with_actions = sum_within(7, self.actions.len(), limit)?;
        let mut total: usize = sum_within(with_actions, track.len(), limit)?;
        let mut i: usize = 0;
        assert(self@.namespace.take(0) =~= seq![]);
        while i < tuple.len()
            invariant
                i <= tuple@.len(),
                limit <= 0xff,
                self@.namespace == bytes::tuple_view(tuple@),
                self@.encoded().len() == 7 + self.actions@.len() + tuple_bytes(
                    self@.namespace,
                ).len() + track@.len(),
                total == 7 + self.actions@.len() + track@.len() + tuple_bytes(
                    self@.namespace.take(i as int),
                ).len(),
                total <= limit,
            decreases tuple@.len() - i,
        {
            proof {
                lemma_tuple_bytes_grow(self@.namespace, i as int);
                assert(self@.namespace[i as int] == tuple@[i as int]@);
                let next = self@.namespace.take(i + 1);
                assert(next.drop_last() =~= self@.namespace.take(i as int));
                assert(next.last() == tuple@[i as int]@);
            }
            let with_length = sum_within(total, 2, limit)?;
            total = sum_within(with_length, tuple[i].len(), limit)?;
            i += 1;
        }
        assert(self@.namespace.take(i as int) =~= self@.namespace);
        Some(total)
    }
}

impl MoqAuthorizationInfo {
    /// The encoded entries behind their length.
    pub fn encode(&self) -> (r: Vec<u8>)
        requires
            scopes_bytes(self@).len() <= 0xff,
        ensures
            r@ == framing::framed8(scopes_bytes(self@)),
    {
        let mut scopes: Vec<u8> = Vec::new();
        let mut i: usize = 0;
        assert(self@.take(0) =~= seq![]);
        while i < self.scopes.len()
            invariant
                i <= self.scopes@.len(),
                self@.len() == self.scopes@.len(),
                scopes@ == scopes_bytes(self@.take(i as int)),
                scopes_bytes(self@).len() <= 0xff,
            decreases self.scopes@.len() - i,
        {
            proof {
                lemma_scopes_bytes_grow(self@, i as int);
                assert(self@[i as int] == self.scopes@[i as int]@);
                let next = self@.take(i + 1);
                assert(next.drop_last() =~= self@.take(i as int));
                assert(next.last() == self@[i as int]);
            }
            bytes::put_bytes(&mut scopes, self.scopes[i].encode().as_slice());
            i += 1;
        }
        assert(self@.take(i as int) =~= self@);
        let mut out: Vec<u8> = Vec::new();
        put_vec_u8(&mut out, scopes.as_slice());
        assert(out@ =~= framing::framed8(scopes_bytes(self@)));
        out
    }

    /// Whether the encoded entries are short enough for a length of one byte.
    pub fn fits(&self) -> (r: bool)
        ensures
            r == (scopes_bytes(self@).len() <= 0xff),
    {
        let mut total: usize = 0;
        let mut i: usize = 0;
        assert(self@.take(0) =~= seq![]);
        while i < self.scopes.len()
            invariant
                i <= self.scopes@.len(),
                self@.len() == self.scopes@.len(),
                total == scopes_bytes(self@.take(i as int)).len(),
                total <= 0xff,
            decreases self.scopes@.len() - i,
        {
            proof {
                lemma_scopes_bytes_grow(self@, i as int);
                assert(self@[i as int] == self.scopes@[i as int]@);
                let next = self@.take(i + 1);
                assert(next.drop_last() =~= self@.take(i as int));
                assert(next.last() == self@[i as int]);
            }
            match self.scopes[i].encoded_len(255 - total) {
                Some(n) => {
                    total += n;
                },
                None => {
                    return false;
                },
            }
            i += 1;
        }
        assert(self@.take(i as int) =~= self@);
        true
    }
}

/// A byte string in words: its bytes in decimal.
pub open spec fn bytes_text(bytes: Seq<u8>) -> Seq<char> {
    text::listed(bytes.map_values(|byte: u8| text::decimal(byte as nat)))
}

/// A tuple in words.
pub open spec fn tuple_text(tuple: Seq<Seq<u8>>) -> Seq<char> {
    text::listed(tuple.map_values(|field: Seq<u8>| bytes_text(field)))
}

impl AuthScopeView {
    /// The entry in words.
    pub open spec fn text(self) -> Seq<char> {
        "MoQAuthScope { actions: "@ + text::listed(
            self.actions.map_values(|action: MoqActionValue| action.label()),
        ) + ", namespace: "@ + self.namespace_match.label() + "("@ + tuple_text(self.namespace)
            + "), track: "@ + self.track_match.label() + "("@ + bytes_text(self.track) + ") }"@
    }
}

/// What an issuer is told, in words.
pub open spec fn info_text(scopes: Seq<AuthScopeView>) -> Seq<char> {
    "MoQAuthorizationInfo { scopes: "@ + text::listed(
        scopes.map_values(|scope: AuthScopeView| scope.text()),
    ) + " }"@
}

fn describe_bytes(bytes: &[u8]) -> (r: String)
    ensures
        r@ == bytes_text(bytes@),
{
    let ghost all = bytes@.map_values(|byte: u8| text::decimal(byte as nat));
    let mut parts: Vec<String> = Vec::new();
    let mut i: usize = 0;
    while i < bytes.len()
        invariant
            i <= bytes@.len(),
            all == bytes@.map_values(|byte: u8| text::decimal(byte as nat)),
            text::texts_view(parts@) == all.take(i as int),
        decreases bytes@.len() - i,
    {
        let mut part: String = String::new();
        push_decimal(&mut part, bytes[i] as u64);
        assert(part@ =~= all[i as int]);
        proof {
            text::lemma_texts_push(parts@, part);
        }
        parts.push(part);
        assert(all.take(i + 1) =~= all.take(i as int).push(all[i as int]));
        i += 1;
    }
    assert(all.take(i as int) =~= all);
    list_texts(&parts)
}

fn describe_tuple(tuple: &[Vec<u8>]) -> (r: String)
    ensures
        r@ == tuple_text(bytes::tuple_view(tuple@)),
{
    let ghost all = bytes::tuple_view(tuple@).map_values(|field: Seq<u8>| bytes_text(field));
    let mut parts: Vec<String> = Vec::new();
    let mut i: usize = 0;
    while i < tuple.len()
        invariant
            i <= tuple@.len(),
            all == bytes::tuple_view(tuple@).map_values(|field: Seq<u8>| bytes_text(field)),
            text::texts_view(parts@) == all.take(i as int),
        decreases tuple@.len() - i,
    {
        let part: String = describe_bytes(tuple[i].as_slice());
        proof {
            text::lemma_texts_push(parts@, part);
        }
        parts.push(part);
        assert(all.take(i + 1) =~= all.take(i as int).push(all[i as int]));
        i += 1;
    }
    assert(all.take(i as int) =~= all);
    list_texts(&parts)
}

impl MoqAuthScope {
    fn describe(&self) -> (r: String)
        ensures
            r@ == self@.text(),
    {
        let ghost all = self@.actions.map_values(|action: MoqActionValue| action.label());
        let mut parts: Vec<String> = Vec::new();
        let mut i: usize = 0;
        while i < self.actions.len()
            invariant
                i <= self.actions@.len(),
                all == self.actions@.map_values(|action: MoqActionValue| action.label()),
                text::texts_view(parts@) == all.take(i as int),
            decreases self.actions@.len() - i,
        {
            let part: String = self.actions[i].name().to_owned();
            proof {
                text::lemma_texts_push(parts@, part);
            }
            parts.push(part);
            assert(all.take(i + 1) =~= all.take(i as int).push(all[i as int]));
            i += 1;
        }
        assert(all.take(i as int) =~= all);
        let (namespace_match, tuple) = self.namespace.parts();
        let (track_match, track) = self.track.parts();
        let mut out: String = "MoQAuthScope { actions: ".to_owned();
        out.append(list_texts(&parts).as_str());
        out.append(", namespace: ");
        out.append(namespace_match.name());
        out.append("(");
        out.append(describe_tuple(tuple.as_slice()).as_str());
        out.append("), track: ");
        out.append(track_match.name());
        out.append("(");
        out.append(describe_bytes(track.as_slice()).as_str());
        out.append(") }");
        out
    }
}

impl MoqAuthorizationInfo {
    /// What an issuer is told, in words.
    pub fn to_text(&self) -> (r: String)
        ensures
            r@ == info_text(self@),
    {
        let ghost all = self@.map_values(|scope: AuthScopeView| scope.text());
        let mut parts: Vec<String> = Vec::new();
        let mut i: usize = 0;
        while i < self.scopes.len()
            invariant
                i <= self.scopes@.len(),
                all == self@.map_values(|scope: AuthScopeView| scope.text()),
                text::texts_view(parts@) == all.take(i as int),
            decreases self.scopes@.len() - i,
        {
            let part: String = self.scopes[i].describe();
            proof {
                text::lemma_texts_push(parts@, part);
            }
            parts.push(part);
            assert(all.take(i + 1) =~= all.take(i as int).push(all[i as int]));
            i += 1;
        }
        assert(all.take(i as int) =~= all);
        let mut out: String = "MoQAuthorizationInfo { scopes: ".to_owned();
        out.append(list_texts(&parts).as_str());
        out.append(" }");
        out
    }
}

/// A challenge that was given out.
#[derive(Debug)]
struct ChallengeEntry {
    digest: Vec<u8>,
    scope: ChallengeScope,
    expires_at_ms: u64,
}

/// A challenge that was given out.
#[verifier::ext_equal]
pub struct ChallengeEntryView {
    pub scope: ChallengeScopeView,
    pub expires_at_ms: u64,
}

/// The challenges that were given out, by their digests.
#[derive(Debug)]
pub struct ChallengeRegistry {
    ttl_ms: u64,
    entries: Vec<ChallengeEntry>,
}

/// The challenges that were given out: how long one lasts, and the scopes by their digests.
#[verifier::ext_equal]
pub struct ChallengeRegistryView {
    pub ttl_ms: u64,
    pub entries: Map<Seq<u8>, ChallengeEntryView>,
}

/// The challenges that have not expired.
pub open spec fn live(entries: Map<Seq<u8>, ChallengeEntryView>, now_ms: u64) -> Map<
    Seq<u8>,
    ChallengeEntryView,
> {
    Map::new(
        |digest: Seq<u8>|
            entries.dom().contains(digest) && entries[digest].expires_at_ms > now_ms,
        |digest: Seq<u8>| entries[digest],
    )
}

impl ChallengeRegistryView {
    /// The registry with a challenge given out at a time.
    pub open spec fn inserted(
        self,
        digest: Seq<u8>,
        scope: ChallengeScopeView,
        now_ms: u64,
    ) -> ChallengeRegistryView {
        ChallengeRegistryView {
            entries: self.entries.insert(
                digest,
                ChallengeEntryView { scope, expires_at_ms: (now_ms + self.ttl_ms) as u64 },
            ),
            ..self
        }
    }

    /// The registry without the challenges that have expired.
    pub open spec fn swept(self, now_ms: u64) -> ChallengeRegistryView {
        ChallengeRegistryView { entries: live(self.entries, now_ms), ..self }
    }

    /// The scope of a challenge that has not expired.
    pub open spec fn scope_of(self, digest: Seq<u8>, now_ms: u64) -> Option<ChallengeScopeView> {
        if self.entries.dom().contains(digest) && self.entries[digest].expires_at_ms > now_ms {
            Some(self.entries[digest].scope)
        } else {
            None
        }
    }
}

/// The entries by their digests.
closed spec fn entries_view(entries: Seq<ChallengeEntry>) -> Map<Seq<u8>, ChallengeEntryView> {
    Map::new(
        |digest: Seq<u8>| exists|i: int|
            0 <= i < entries.len() && (#[trigger] entries[i]).digest@ == digest,
        |digest: Seq<u8>|
            {
                let i = choose|i: int|
                    0 <= i < entries.len() && (#[trigger] entries[i]).digest@ == digest;
                ChallengeEntryView {
                    scope: entries[i].scope@,
                    expires_at_ms: entries[i].expires_at_ms,
                }
            },
    )
}

impl View for ChallengeRegistry {
    type V = ChallengeRegistryView;

    closed spec fn view(&self) -> ChallengeRegistryView {
        ChallengeRegistryView { ttl_ms: self.ttl_ms, entries: entries_view(self.entries@) }
    }
}

/// No digest occurs twice.
closed spec fn distinct(entries: Seq<ChallengeEntry>) -> bool {
    forall|i: int, j: int|
        0 <= i < j < entries.len() ==> (#[trigger] entries[i]).digest@ != (
        #[trigger] entries[j]).digest@
}

proof fn lemma_entry(entries: Seq<ChallengeEntry>, i: int)
    requires
        distinct(entries),
        0 <= i < entries.len(),
    ensures
        entries_view(entries).dom().contains(entries[i].digest@),
        entries_view(entries)[entries[i].digest@] == (ChallengeEntryView {
            scope: entries[i].scope@,
            expires_at_ms: entries[i].expires_at_ms,
        }),
{
}

/// The entry of `entries` that has a digest.
proof fn lemma_entry_of(entries: Seq<ChallengeEntry>, digest: Seq<u8>) -> (i: int)
    requires
        entries_view(entries).dom().contains(digest),
    ensures
        0 <= i < entries.len(),
        entries[i].digest@ == digest,
{
    choose|i: int| 0 <= i < entries.len() && (#[trigger] entries[i]).digest@ == digest
}

proof fn lemma_absent(entries: Seq<ChallengeEntry>, digest: Seq<u8>)
    requires
        forall|i: int| 0 <= i < entries.len() ==> (#[trigger] entries[i]).digest@ != digest,
    ensures
        !entries_view(entries).dom().contains(digest),
{
}

proof fn lemma_no_entry(entries: Seq<ChallengeEntry>, digest: Seq<u8>)
    requires
        !entries_view(entries).dom().contains(digest),
    ensures
        forall|i: int| 0 <= i < entries.len() ==> (#[trigger] entries[i]).digest@ != digest,
{
}

proof fn lemma_pushed(entries: Seq<ChallengeEntry>, entry: ChallengeEntry)
    requires
        distinct(entries),
        forall|i: int|
            0 <= i < entries.len() ==> (#[trigger] entries[i]).digest@ != entry.digest@,
    ensures
        distinct(entries.push(entry)),
        entries_view(entries.push(entry)) == entries_view(entries).insert(
            entry.digest@,
            ChallengeEntryView { scope: entry.scope@, expires_at_ms: entry.expires_at_ms },
        ),
{
    let next = entries.push(entry);
    assert(next[entries.len() as int] == entry);
    lemma_entry(next, entries.len() as int);
    let want = entries_view(entries).insert(
        entry.digest@,
        ChallengeEntryView { scope: entry.scope@, expires_at_ms: entry.expires_at_ms },
    );
    assert forall|d: Seq<u8>| entries_view(next).dom().contains(d) == want.dom().contains(d) by {
        if entries_view(entries).dom().contains(d) {
            let i = lemma_entry_of(entries, d);
            assert(next[i] == entries[i]);
        }
    }
    assert forall|d: Seq<u8>| want.dom().contains(d) implies entries_view(next)[d] == want[d] by {
        if d != entry.digest@ {
            let i = lemma_entry_of(entries, d);
            assert(next[i] == entries[i]);
            lemma_entry(entries, i);
            lemma_entry(next, i);
        }
    }
    assert(entries_view(next) =~= want);
}

proof fn lemma_replaced(entries: Seq<ChallengeEntry>, at: int, entry: ChallengeEntry)
    requires
        distinct(entries),
        0 <= at < entries.len(),
        entries[at].digest@ == entry.digest@,
    ensures
        distinct(entries.update(at, entry)),
        entries_view(entries.update(at, entry)) == entries_view(entries).insert(
            entry.digest@,
            ChallengeEntryView { scope: entry.scope@, expires_at_ms: entry.expires_at_ms },
        ),
{
    let next = entries.update(at, entry);
    assert(next[at] == entry);
    lemma_entry(next, at);
    let want = entries_view(entries).insert(
        entry.digest@,
        ChallengeEntryView { scope: entry.scope@, expires_at_ms: entry.expires_at_ms },
    );
    assert forall|d: Seq<u8>| entries_view(next).dom().contains(d) == want.dom().contains(d) by {
        if entries_view(entries).dom().contains(d) {
            let i = lemma_entry_of(entries, d);
            assert(next[i].digest@ == entries[i].digest@);
        }
        if entries_view(next).dom().contains(d) {
            let i = lemma_entry_of(next, d);
            assert(next[i].digest@ == entries[i].digest@);
        }
    }
    assert forall|d: Seq<u8>| want.dom().contains(d) implies entries_view(next)[d] == want[d] by {
        if d != entry.digest@ {
            let i = lemma_entry_of(entries, d);
            assert(next[i] == entries[i]);
            lemma_entry(entries, i);
            lemma_entry(next, i);
        }
    }
    assert(entries_view(next) =~= want);
}

impl ChallengeRegistry {
    /// No digest occurs twice.
    pub closed spec fn wf(&self) -> bool {
        distinct(self.entries@)
    }

    /// A registry of challenges that last for a time.
    pub fn new(ttl_ms: u64) -> (r: Self)
        ensures
            r.wf(),
            r@.ttl_ms == ttl_ms,
            r@.entries == Map::<Seq<u8>, ChallengeEntryView>::empty(),
    {
        let r = ChallengeRegistry { ttl_ms, entries: Vec::new() };
        assert(r@.entries =~= Map::<Seq<u8>, ChallengeEntryView>::empty());
        r
    }

    /// The place of a digest.
    fn find(&self, digest: &[u8]) -> (r: Option<usize>)
        ensures
            match r {
                Some(i) => i < self.entries@.len() && self.entries@[i as int].digest@ == digest@,
                None => forall|i: int|
                    0 <= i < self.entries@.len() ==> (#[trigger] self.entries@[i]).digest@
                        != digest@,
            },
    {
        let mut i: usize = 0;
        while i < self.entries.len()
            invariant
                i <= self.entries@.len(),
                forall|k: int| 0 <= k < i ==> (#[trigger] self.entries@[k]).digest@ != digest@,
            decreases self.entries@.len() - i,
        {
            if bytes_eq(self.entries[i].digest.as_slice(), digest) {
                return Some(i);
            }
            i += 1;
        }
        None
    }

    /// Notes a challenge that is given out.
    pub fn insert(&mut self, digest: &[u8], scope: ChallengeScope, now_ms: u64)
        requires
            old(self).wf(),
            now_ms + old(self)@.ttl_ms <= u64::MAX,
        ensures
            final(self).wf(),
            final(self)@ == old(self)@.inserted(digest@, scope@, now_ms),
    {
        let entry = ChallengeEntry {
            digest: copy_bytes(digest),
            scope,
            expires_at_ms: now_ms + self.ttl_ms,
        };
        match self.find(digest) {
            Some(i) => {
                proof {
                    lemma_replaced(self.entries@, i as int, entry);
                }
                self.entries.set(i, entry);
            },
            None => {
                proof {
                    lemma_pushed(self.entries@, entry);
                }
                self.entries.push(entry);
            },
        }
    }

    /// Drops the challenges that have expired.
    fn sweep(&mut self, now_ms: u64)
        requires
            old(self).wf(),
        ensures
            final(self).wf(),
            final(self)@ == old(self)@.swept(now_ms),
    {
        let ghost all = entries_view(self.entries@);
        let mut kept: Vec<ChallengeEntry> = Vec::new();
        assert(live(all, now_ms).union_prefer_right(entries_view(kept@)) =~= live(all, now_ms));
        while self.entries.len() > 0
            invariant
                self.ttl_ms == old(self).ttl_ms,
                distinct(self.entries@),
                distinct(kept@),
                entries_view(self.entries@).dom().disjoint(entries_view(kept@).dom()),
                live(entries_view(self.entries@), now_ms).union_prefer_right(entries_view(kept@))
                    == live(all, now_ms),
            decreases self.entries@.len(),
        {
            let ghost before = self.entries@;
            let ghost had = entries_view(kept@);
            if let Some(entry) = self.entries.pop() {
                proof {
                    assert(before =~= self.entries@.push(entry));
                    assert(distinct(self.entries@));
                    assert forall|i: int| 0 <= i < self.entries@.len() implies (
                    #[trigger] self.entries@[i]).digest@ != entry.digest@ by {
                        assert(before[i] == self.entries@[i]);
                        assert(before[self.entries@.len() as int] == entry);
                    }
                    lemma_pushed(self.entries@, entry);
                    lemma_absent(self.entries@, entry.digest@);
                    assert(entries_view(before).dom().contains(entry.digest@));
                }
                let ghost rest = entries_view(self.entries@);
                if entry.expires_at_ms > now_ms {
                    proof {
                        lemma_no_entry(kept@, entry.digest@);
                        lemma_pushed(kept@, entry);
                    }
                    kept.push(entry);
                }
                assert(live(rest, now_ms).union_prefer_right(entries_view(kept@)) =~= live(
                    entries_view(before),
                    now_ms,
                ).union_prefer_right(had));
            }
        }
        assert(entries_view(self.entries@) =~= Map::<Seq<u8>, ChallengeEntryView>::empty());
        assert(live(entries_view(self.entries@), now_ms).union_prefer_right(entries_view(kept@))
            =~= entries_view(kept@));
        self.entries = kept;
    }

    /// The scope of a challenge, unless it has expired. Challenges that have expired are dropped.
    pub fn get(&mut self, digest: &[u8], now_ms: u64) -> (r: Option<&ChallengeScope>)
        requires
            old(self).wf(),
        ensures
            final(self).wf(),
            final(self)@ == old(self)@.swept(now_ms),
            match r {
                Some(scope) => old(self)@.scope_of(digest@, now_ms) == Some(scope@),
                None => old(self)@.scope_of(digest@, now_ms) is None,
            },
    {
        self.sweep(now_ms);
        match self.find(digest) {
            Some(i) => {
                proof {
                    lemma_entry(self.entries@, i as int);
                }
                Some(&self.entries[i].scope)
            },
            None => {
                proof {
                    if self@.entries.dom().contains(digest@) {
                        let i = lemma_entry_of(self.entries@, digest@);
                    }
                }
                None
            },
        }
    }
}

/// A scope of everything under a namespace covers the operations of its action on the namespaces
/// whose first fields are those of the namespace, and no others.
pub proof fn law_prefix_scope_covers_tuples(
    action: MoqAction,
    namespace: Seq<Seq<u8>>,
    op: AuthzOperation,
)
    ensures
        ChallengeScopeView::under(action, namespace).allows(op) <==> action_asked(op) == Some(
            action,
        ) && namespace.is_prefix_of(namespace_asked(op)),
{
    let scope = ChallengeScopeView::under(action, namespace);
    let asked = namespace_asked(op);
    match track_asked(op) {
        Some(track) => {
            assert(track.subrange(0, 0) =~= Seq::<u8>::empty());
            assert(bytes::occurs_at(track, scope.track, 0));
        },
        None => {},
    }
    assert(bytes::starts_with(asked, namespace) <==> namespace.is_prefix_of(asked));
}

/// The scope of setting up a session covers no operation.
pub proof fn law_setup_scope_covers_no_operation(scope: ChallengeScopeView, op: AuthzOperation)
    requires
        scope.action == MoqAction::Setup,
    ensures
        !scope.allows(op),
{
}

/// A challenge that is given out can be looked up until its time has passed, and not after.
pub proof fn law_challenge_lasts_its_time(
    registry: ChallengeRegistryView,
    digest: Seq<u8>,
    scope: ChallengeScopeView,
    given_ms: u64,
    now_ms: u64,
)
    requires
        given_ms + registry.ttl_ms <= u64::MAX,
    ensures
        registry.inserted(digest, scope, given_ms).scope_of(digest, now_ms) == (if now_ms < given_ms
            + registry.ttl_ms {
            Some(scope)
        } else {
            None
        }),
{
}

/// Giving out a challenge and dropping the ones that have expired leave the other challenges
/// as they are.
pub proof fn law_other_challenges_stay(
    registry: ChallengeRegistryView,
    digest: Seq<u8>,
    scope: ChallengeScopeView,
    given_ms: u64,
    other: Seq<u8>,
    swept_ms: u64,
    now_ms: u64,
)
    requires
        other != digest,
        swept_ms <= now_ms,
    ensures
        registry.inserted(digest, scope, given_ms).scope_of(other, now_ms) == registry.scope_of(
            other,
            now_ms,
        ),
        registry.swept(swept_ms).scope_of(other, now_ms) == registry.scope_of(other, now_ms),
{
}

/// A scope of publishing under a namespace covers publishing every track in every namespace under
/// it, and announcing such a namespace or taking it back. It covers nothing else: no other
/// namespace, and no operation that reads.
pub proof fn law_publish_scope_covers_publishing(
    prefix: Seq<Seq<u8>>,
    namespace: TrackNamespace,
    track: &[u8],
    request_id: u64,
)
    ensures
        ({
            let scope = ChallengeScopeView::under(MoqAction::Publish, prefix);
            let under = prefix.is_prefix_of(namespace@);
            &&& scope.allows(AuthzOperation::Publish { namespace: &namespace, track }) == under
            &&& scope.allows(AuthzOperation::PublishNamespace { namespace: &namespace }) == under
            &&& scope.allows(AuthzOperation::PublishNamespaceDone { namespace: &namespace })
                == under
            &&& !scope.allows(AuthzOperation::Subscribe { namespace: &namespace, track })
            &&& !scope.allows(AuthzOperation::Fetch { namespace: &namespace, track })
            &&& !scope.allows(AuthzOperation::TrackStatus { namespace: &namespace, track })
            &&& !scope.allows(AuthzOperation::SubscribeNamespace { prefix: &namespace })
            &&& !scope.allows(AuthzOperation::RequestUpdate { request_id })
        }),
{
    let scope = ChallengeScopeView::under(MoqAction::Publish, prefix);
    assert(track@.subrange(0, 0) =~= Seq::<u8>::empty());
    assert(bytes::occurs_at(track@, scope.track, 0));
    assert(bytes::starts_with(namespace@, prefix) <==> prefix.is_prefix_of(namespace@));
}

/// A scope of subscribing under a namespace covers subscribing to every track in every namespace
/// under it, fetching it and asking for its status. It covers nothing else.
pub proof fn law_subscribe_scope_covers_reading(
    prefix: Seq<Seq<u8>>,
    namespace: TrackNamespace,
    track: &[u8],
    request_id: u64,
)
    ensures
        ({
            let scope = ChallengeScopeView::under(MoqAction::Subscribe, prefix);
            let under = prefix.is_prefix_of(namespace@);
            &&& scope.allows(AuthzOperation::Subscribe { namespace: &namespace, track }) == under
            &&& scope.allows(AuthzOperation::Fetch { namespace: &namespace, track }) == under
            &&& scope.allows(AuthzOperation::TrackStatus { namespace: &namespace, track }) == under
            &&& !scope.allows(AuthzOperation::Publish { namespace: &namespace, track })
            &&& !scope.allows(AuthzOperation::PublishNamespace { namespace: &namespace })
            &&& !scope.allows(AuthzOperation::PublishNamespaceDone { namespace: &namespace })
            &&& !scope.allows(AuthzOperation::SubscribeNamespace { prefix: &namespace })
            &&& !scope.allows(AuthzOperation::RequestUpdate { request_id })
        }),
{
    let scope = ChallengeScopeView::under(MoqAction::Subscribe, prefix);
    assert(track@.subrange(0, 0) =~= Seq::<u8>::empty());
    assert(bytes::occurs_at(track@, scope.track, 0));
    assert(bytes::starts_with(namespace@, prefix) <==> prefix.is_prefix_of(namespace@));
}

/// A rule compares by its kind: with the whole name, with its beginning, with its end, or with any
/// run of it.
pub proof fn law_rules_compare_by_their_kind<T>(name: Seq<T>, pattern: Seq<T>)
    ensures
        meets(MatchType::Exact, name, pattern) <==> name == pattern,
        meets(MatchType::Prefix, name, pattern) <==> pattern.is_prefix_of(name),
        meets(MatchType::Suffix, name, pattern) <==> pattern.is_suffix_of(name),
        meets(MatchType::Contains, name, pattern) <==> exists|a: Seq<T>, b: Seq<T>|
            name == #[trigger] (a + pattern + b),
        MatchRule::Exact(pattern).match_type() == MatchType::Exact && MatchRule::Exact(
            pattern,
        ).pattern() == pattern,
        MatchRule::Prefix(pattern).match_type() == MatchType::Prefix && MatchRule::Prefix(
            pattern,
        ).pattern() == pattern,
        MatchRule::Suffix(pattern).match_type() == MatchType::Suffix && MatchRule::Suffix(
            pattern,
        ).pattern() == pattern,
        MatchRule::Contains(pattern).match_type() == MatchType::Contains && MatchRule::Contains(
            pattern,
        ).pattern() == pattern,
{
    bytes::law_parts_of_a_whole_are_found(seq![], pattern, name);
    if exists|a: Seq<T>, b: Seq<T>| name == #[trigger] (a + pattern + b) {
        let (a, b) = choose|a: Seq<T>, b: Seq<T>| name == #[trigger] (a + pattern + b);
        bytes::law_parts_of_a_whole_are_found(a, pattern, b);
    }
}

/// The kinds of rules and the actions are numbered as they are in access tokens, and no two have the
/// same number.
pub proof fn law_numbers_are_those_of_access_tokens(
    rule: MatchType,
    other: MatchType,
    name: Seq<u8>,
    pattern: Seq<u8>,
    a: MoqActionValue,
    b: MoqActionValue,
)
    ensures
        rule.number() == other.number() ==> rule == other,
        rule != MatchType::Contains && pattern.len() > 0 ==> meets(rule, name, pattern) == (
        crate::auth::access_token::BytePatternView { match_type: rule.number(), pattern }).fits(
            name,
        ),
        a.number() == b.number() ==> a == b,
        MoqActionValue::ClientSetup.number()
            == crate::auth::access_token::TokenAction::ClientSetup.number(),
        MoqActionValue::PublishNamespace.number()
            == crate::auth::access_token::TokenAction::PublishNamespace.number(),
        MoqActionValue::Subscribe.number()
            == crate::auth::access_token::TokenAction::Subscribe.number(),
        MoqActionValue::Publish.number() == crate::auth::access_token::TokenAction::Publish.number(),
        MoqActionValue::Fetch.number() == crate::auth::access_token::TokenAction::Fetch.number(),
        MoqActionValue::TrackStatus.number()
            == crate::auth::access_token::TokenAction::TrackStatus.number(),
{
}

/// The names of rules and actions tell them apart.
pub proof fn law_names_tell_apart(
    rule: MatchType,
    other: MatchType,
    a: MoqActionValue,
    b: MoqActionValue,
)
    ensures
        rule.label() == other.label() ==> rule == other,
        a.label() == b.label() ==> a == b,
{
    reveal_strlit("Exact");
    reveal_strlit("Prefix");
    reveal_strlit("Suffix");
    reveal_strlit("Contains");
    reveal_strlit("ClientSetup");
    reveal_strlit("PublishNamespace");
    reveal_strlit("Subscribe");
    reveal_strlit("Publish");
    reveal_strlit("Fetch");
    reveal_strlit("TrackStatus");
    if rule.label() == other.label() {
        assert(rule.label()[0] == other.label()[0] && rule.label().len() == other.label().len());
    }
    if a.label() == b.label() {
        assert(a.label()[0] == b.label()[0] && a.label().len() == b.label().len());
    }
}

/// A scope covers an operation of its action on a namespace that meets its rule, if the track meets
/// its rule too. Announcing a namespace names no track.
pub proof fn law_scope_covers_by_its_rules(
    scope: ChallengeScopeView,
    namespace: TrackNamespace,
    track: &[u8],
)
    ensures
        ({
            let meets_namespace = meets(scope.namespace_match, namespace@, scope.namespace);
            let meets_both = meets_namespace && meets(scope.track_match, track@, scope.track);
            let publishes = scope.action == MoqAction::Publish;
            let reads = scope.action == MoqAction::Subscribe;
            &&& scope.allows(AuthzOperation::Publish { namespace: &namespace, track }) == (publishes
                && meets_both)
            &&& scope.allows(AuthzOperation::PublishNamespace { namespace: &namespace }) == (
            publishes && meets_namespace)
            &&& scope.allows(AuthzOperation::PublishNamespaceDone { namespace: &namespace }) == (
            publishes && meets_namespace)
            &&& scope.allows(AuthzOperation::Subscribe { namespace: &namespace, track }) == (reads
                && meets_both)
            &&& scope.allows(AuthzOperation::Fetch { namespace: &namespace, track }) == (reads
                && meets_both)
            &&& scope.allows(AuthzOperation::TrackStatus { namespace: &namespace, track }) == (reads
                && meets_both)
        }),
{
}

/// An issuer is told of the operations that an action covers, each once, with the rules of the
/// scope.
pub proof fn law_issuer_is_told_what_is_covered(scope: ChallengeScopeView, value: MoqActionValue)
    ensures
        actions_of(scope.action).no_duplicates(),
        actions_of(scope.action).contains(value) <==> match value {
            MoqActionValue::ClientSetup => scope.action == MoqAction::Setup,
            MoqActionValue::Subscribe => scope.action == MoqAction::Subscribe,
            MoqActionValue::Fetch => scope.action == MoqAction::Subscribe,
            MoqActionValue::TrackStatus => scope.action == MoqAction::Subscribe,
            MoqActionValue::PublishNamespace => scope.action == MoqAction::Publish,
            MoqActionValue::Publish => scope.action == MoqAction::Publish,
        },
        scope.info().len() == 1,
        scope.info()[0].actions == actions_of(scope.action),
        scope.info()[0].namespace_match == scope.namespace_match && scope.info()[0].namespace
            == scope.namespace,
        scope.info()[0].track_match == scope.track_match && scope.info()[0].track == scope.track,
{
    let actions = actions_of(scope.action);
    assert(actions.len() > 0 && actions[0] == actions[0]);
    if scope.action == MoqAction::Subscribe {
        assert(actions[0] == MoqActionValue::Subscribe && actions[1] == MoqActionValue::Fetch
            && actions[2] == MoqActionValue::TrackStatus);
    } else if scope.action == MoqAction::Publish {
        assert(actions[0] == MoqActionValue::PublishNamespace && actions[1]
            == MoqActionValue::Publish);
    } else {
        assert(actions[0] == MoqActionValue::ClientSetup);
    }
}

/// Fields are written one after the other, and each behind its length. The same holds of scopes.
pub proof fn law_fields_are_written_in_order(
    a: Seq<Seq<u8>>,
    b: Seq<Seq<u8>>,
    field: Seq<u8>,
)
    ensures
        tuple_bytes(a + b) == tuple_bytes(a) + tuple_bytes(b),
        tuple_bytes(seq![field]) == framing::framed16(field),
    decreases b.len(),
{
    if b.len() == 0 {
        assert(a + b =~= a);
        assert(tuple_bytes(a) + tuple_bytes(b) =~= tuple_bytes(a));
    } else {
        law_fields_are_written_in_order(a, b.drop_last(), field);
        assert((a + b).drop_last() =~= a + b.drop_last());
        assert(tuple_bytes(a + b) =~= tuple_bytes(a) + tuple_bytes(b));
    }
    assert(seq![field].drop_last() =~= Seq::<Seq<u8>>::empty());
    assert(tuple_bytes(Seq::empty()) =~= Seq::<u8>::empty());
    assert(tuple_bytes(seq![field]) =~= framing::framed16(field));
}

/// Scopes are written one after the other.
pub proof fn law_scopes_are_written_in_order(
    a: Seq<AuthScopeView>,
    b: Seq<AuthScopeView>,
    scope: AuthScopeView,
)
    ensures
        scopes_bytes(a + b) == scopes_bytes(a) + scopes_bytes(b),
        scopes_bytes(seq![scope]) == scope.encoded(),
    decreases b.len(),
{
    if b.len() == 0 {
        assert(a + b =~= a);
        assert(scopes_bytes(a) + scopes_bytes(b) =~= scopes_bytes(a));
    } else {
        law_scopes_are_written_in_order(a, b.drop_last(), scope);
        assert((a + b).drop_last() =~= a + b.drop_last());
        assert(scopes_bytes(a + b) =~= scopes_bytes(a) + scopes_bytes(b));
    }
    assert(seq![scope].drop_last() =~= Seq::<AuthScopeView>::empty());
    assert(scopes_bytes(Seq::empty()) =~= Seq::<u8>::empty());
    assert(scopes_bytes(seq![scope]) =~= scope.encoded());
}

/// The parts of a scope read back from its bytes: the actions, then the rule for the namespace, then
/// the rule for the track.
pub proof fn law_parts_of_a_scope_read_back(scope: AuthScopeView)
    requires
        scope.actions.len() <= 0xff,
        tuple_bytes(scope.namespace).len() <= 0xffff,
        scope.track.len() <= 0xffff,
    ensures
        ({
            let bytes = scope.encoded();
            let namespace_at = 1 + scope.actions.len() as int;
            let track_at = namespace_at + 3 + tuple_bytes(scope.namespace).len();
            &&& framing::unframed8(bytes, 0) == Some(action_bytes(scope.actions))
            &&& bytes[namespace_at] == scope.namespace_match.number()
            &&& framing::unframed16(bytes, namespace_at + 1) == Some(tuple_bytes(scope.namespace))
            &&& bytes[track_at] == scope.track_match.number()
            &&& framing::unframed16(bytes, track_at + 1) == Some(scope.track)
            &&& bytes.len() == track_at + 3 + scope.track.len()
        }),
        forall|i: int|
            0 <= i < scope.actions.len() ==> #[trigger] action_bytes(scope.actions)[i]
                == scope.actions[i].number(),
{
    let bytes = scope.encoded();
    let names = action_bytes(scope.actions);
    let fields = tuple_bytes(scope.namespace);
    let actions = framing::framed8(names);
    let first = actions + seq![scope.namespace_match.number()];
    let namespace = framing::framed16(fields);
    let second = seq![scope.track_match.number()];
    let track = framing::framed16(scope.track);
    let namespace_at = 1 + scope.actions.len() as int;
    let track_at = namespace_at + 3 + fields.len();
    assert(bytes == first + namespace + second + track);
    assert(actions.len() == namespace_at && first.len() == namespace_at + 1);
    assert(namespace.len() == 2 + fields.len() && track.len() == 2 + scope.track.len());
    assert(framing::unframed8(bytes, 0) == Some(names)) by {
        let rest = seq![scope.namespace_match.number()] + namespace + second + track;
        assert(Seq::<u8>::empty() + actions + rest =~= bytes);
        framing::lemma_framed8_reads_back(Seq::<u8>::empty(), names, rest);
    }
    assert(framing::unframed16(bytes, namespace_at + 1) == Some(fields)) by {
        assert(first + namespace + (second + track) =~= bytes);
        framing::lemma_framed16_reads_back(first, fields, second + track);
    }
    assert(framing::unframed16(bytes, track_at + 1) == Some(scope.track)) by {
        let front = first + namespace + second;
        assert(front + track + Seq::<u8>::empty() =~= bytes);
        framing::lemma_framed16_reads_back(front, scope.track, Seq::<u8>::empty());
    }
}

/// In words a scope tells its rules: how the namespace and the track compare, and with what.
pub proof fn law_words_tell_the_rules(scope: AuthScopeView)
    ensures
        bytes::contains_run(
            scope.text(),
            scope.namespace_match.label() + "("@ + tuple_text(scope.namespace),
        ),
        bytes::contains_run(
            scope.text(),
            scope.track_match.label() + "("@ + bytes_text(scope.track),
        ),
        bytes::contains_run(
            scope.text(),
            text::listed(scope.actions.map_values(|action: MoqActionValue| action.label())),
        ),
{
    let whole = scope.text();
    let actions = text::listed(scope.actions.map_values(|action: MoqActionValue| action.label()));
    let a = "MoQAuthScope { actions: "@;
    let b = ", namespace: "@;
    let c = "), track: "@;
    let d = ") }"@;
    let namespace = scope.namespace_match.label() + "("@ + tuple_text(scope.namespace);
    let track = scope.track_match.label() + "("@ + bytes_text(scope.track);
    assert(whole =~= a + actions + b + namespace + c + track + d);
    assert(whole =~= a + actions + (b + namespace + c + track + d));
    bytes::law_parts_of_a_whole_are_found(a, actions, b + namespace + c + track + d);
    assert(whole =~= (a + actions + b) + namespace + (c + track + d));
    bytes::law_parts_of_a_whole_are_found(a + actions + b, namespace, c + track + d);
    assert(whole =~= (a + actions + b + namespace + c) + track + d);
    bytes::law_parts_of_a_whole_are_found(a + actions + b + namespace + c, track, d);
}

/// In words a byte string tells each byte in decimal, and a tuple each field.
pub proof fn law_words_tell_every_byte(bytes: Seq<u8>, byte: u8, tuple: Seq<Seq<u8>>)
    ensures
        bytes_text(seq![byte]) == "["@ + text::decimal(byte as nat) + "]"@,
        bytes.len() > 0 ==> bytes_text(bytes.push(byte)) == bytes_text(bytes).drop_last() + ", "@
            + text::decimal(byte as nat) + "]"@,
        tuple_text(seq![bytes]) == "["@ + bytes_text(bytes) + "]"@,
        tuple.len() > 0 ==> tuple_text(tuple.push(bytes)) == tuple_text(tuple).drop_last() + ", "@
            + bytes_text(bytes) + "]"@,
{
    let numbers = bytes.map_values(|byte: u8| text::decimal(byte as nat));
    let fields = tuple.map_values(|field: Seq<u8>| bytes_text(field));
    text::law_listed_texts_are_parted_by_commas(numbers, text::decimal(byte as nat));
    text::law_listed_texts_are_parted_by_commas(fields, bytes_text(bytes));
    assert(seq![byte].map_values(|byte: u8| text::decimal(byte as nat)) =~= seq![
        text::decimal(byte as nat),
    ]);
    assert(bytes.push(byte).map_values(|byte: u8| text::decimal(byte as nat)) =~= numbers.push(
        text::decimal(byte as nat),
    ));
    assert(seq![bytes].map_values(|field: Seq<u8>| bytes_text(field)) =~= seq![bytes_text(bytes)]);
    assert(tuple.push(bytes).map_values(|field: Seq<u8>| bytes_text(field)) =~= fields.push(
        bytes_text(bytes),
    ));
}

/// Dropping the challenges that have expired drops these and no others.
pub proof fn law_expired_challenges_are_dropped(
    registry: ChallengeRegistryView,
    digest: Seq<u8>,
    now_ms: u64,
)
    ensures
        registry.swept(now_ms).entries.dom().contains(digest) <==> registry.entries.dom().contains(
            digest,
        ) && now_ms < registry.entries[digest].expires_at_ms,
        registry.swept(now_ms).entries.dom().contains(digest)
            ==> registry.swept(now_ms).entries[digest] == registry.entries[digest],
        registry.swept(now_ms).ttl_ms == registry.ttl_ms,
        registry.scope_of(digest, now_ms) is Some <==> registry.swept(
            now_ms,
        ).entries.dom().contains(digest),
{
}

/// What an issuer is told names every scope in words.
pub proof fn law_words_tell_every_scope(scopes: Seq<AuthScopeView>, scope: AuthScopeView)
    ensures
        info_text(seq![scope]) == "MoQAuthorizationInfo { scopes: "@ + "["@ + scope.text() + "]"@
            + " }"@,
        bytes::contains_run(
            info_text(scopes),
            text::listed(scopes.map_values(|scope: AuthScopeView| scope.text())),
        ),
{
    let words = scopes.map_values(|scope: AuthScopeView| scope.text());
    text::law_listed_texts_are_parted_by_commas(words, scope.text());
    assert(seq![scope].map_values(|scope: AuthScopeView| scope.text()) =~= seq![scope.text()]);
    assert(info_text(seq![scope]) =~= "MoQAuthorizationInfo { scopes: "@ + "["@ + scope.text() + "]"@
        + " }"@);
    bytes::law_parts_of_a_whole_are_found(
        "MoQAuthorizationInfo { scopes: "@,
        text::listed(words),
        " }"@,
    );
}

} // verus!
