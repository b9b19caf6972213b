use cat_token::{
    encode_token, CatToken, CatTokenBuilder, CompositeClaim, CompositeOperator, Es256Algorithm,
    HmacSha256Algorithm, MoqtAction, MoqtScopeBuilder,
};
use moq_relay::auth::access_token::TokenKey;
use moq_relay::auth::c4m::{map_cat_error, C4MAuthHook, C4MConfig, C4M_TOKEN_TYPE};
use moq_relay::auth::types::{
    AllowAllAuthHook, AuthBlob, AuthDecision, AuthHook, AuthzOperation, DenyReason,
    KeyValueAuthHook, LoggingAuthHook, RequestContext, SessionContext, Verdict,
};
use moq_relay::namespace::TrackNamespace;
use p256::pkcs8::EncodePublicKey;

fn ns(path: &str) -> TrackNamespace {
    TrackNamespace::new(path.split('/').map(|f| f.as_bytes().to_vec()).collect())
}

fn test_session_ctx() -> SessionContext {
    SessionContext {
        session_id: 42,
        connection_path: Some("/test/scope".to_string()),
        peer: "127.0.0.1:4443".to_string(),
    }
}

fn pem_of(key: &Es256Algorithm) -> String {
    key.verifying_key().to_public_key_pem(Default::default()).unwrap()
}

fn make_hook_and_key() -> (C4MAuthHook, Es256Algorithm) {
    let signing_key = Es256Algorithm::new_with_key_pair().unwrap();
    let config = C4MConfig::new(TokenKey::Es256(pem_of(&signing_key)))
        .with_expected_issuers(vec!["test-issuer".to_string()])
        .with_expected_audiences(vec!["test-relay".to_string()])
        .with_clock_skew_tolerance(60);
    (C4MAuthHook::new(config), signing_key)
}

fn make_token(
    signing_key: &Es256Algorithm,
    role: MoqtScopeBuilder,
    subject: &str,
    namespace_parts: &[&[u8]],
) -> Vec<u8> {
    let mut builder = role;
    for part in namespace_parts {
        builder = builder.namespace_prefix(part);
    }
    let scope = builder.track_prefix(b"").build();
    let setup_scope = MoqtScopeBuilder::new().action(MoqtAction::ClientSetup).build();

    let token = CatTokenBuilder::new()
        .issuer("test-issuer")
        .single_audience("test-relay")
        .subject(subject)
        .expires_in(3600)
        .moqt_scope(scope)
        .moqt_scope(setup_scope)
        .build();

    encode_token(&token, signing_key).unwrap()
}

fn make_publisher_token(signing_key: &Es256Algorithm, namespace_parts: &[&[u8]]) -> Vec<u8> {
    let role = MoqtScopeBuilder::new().publisher();
    make_token(signing_key, role, "publisher-1", namespace_parts)
}

fn make_subscriber_token(signing_key: &Es256Algorithm, namespace_parts: &[&[u8]]) -> Vec<u8> {
    let role = MoqtScopeBuilder::new().subscriber();
    make_token(signing_key, role, "subscriber-1", namespace_parts)
}

fn token_to_blobs(token: Vec<u8>) -> Vec<AuthBlob> {
    vec![AuthBlob { token_type: C4M_TOKEN_TYPE, token_value: token }]
}

fn request(hook: &C4MAuthHook, blobs: &[AuthBlob], operation: AuthzOperation<'_>) -> AuthDecision {
    let ctx = test_session_ctx();
    let req_ctx = RequestContext { session: &ctx, operation, request_id: None };
    hook.on_request(&req_ctx, blobs).unwrap()
}

#[test]
fn valid_publisher_token_allows_setup() {
    let (hook, key) = make_hook_and_key();
    let blobs = token_to_blobs(make_publisher_token(&key, &[b"sports", b"football"]));

    let decision = hook.on_setup(&test_session_ctx(), &blobs).unwrap();
    assert!(decision.is_allowed());
    assert_eq!(decision.principal.as_deref(), Some("publisher-1"));
}

#[test]
fn valid_publisher_token_allows_publish_namespace() {
    let (hook, key) = make_hook_and_key();
    let blobs = token_to_blobs(make_publisher_token(&key, &[b"sports", b"football"]));
    let namespace = ns("sports/football/match-42");

    let decision =
        request(&hook, &blobs, AuthzOperation::PublishNamespace { namespace: &namespace });
    assert!(decision.is_allowed());
}

#[test]
fn valid_publisher_token_allows_publish() {
    let (hook, key) = make_hook_and_key();
    let blobs = token_to_blobs(make_publisher_token(&key, &[b"sports", b"football"]));
    let namespace = ns("sports/football/match-42");

    let decision = request(
        &hook,
        &blobs,
        AuthzOperation::Publish { namespace: &namespace, track: b"video-1080p" },
    );
    assert!(decision.is_allowed());
}

#[test]
fn subscriber_token_denies_publish() {
    let (hook, key) = make_hook_and_key();
    let blobs = token_to_blobs(make_subscriber_token(&key, &[b"sports", b"football"]));
    let namespace = ns("sports/football/match-42");

    let decision =
        request(&hook, &blobs, AuthzOperation::PublishNamespace { namespace: &namespace });
    assert!(!decision.is_allowed());
}

#[test]
fn valid_subscriber_token_allows_subscribe() {
    let (hook, key) = make_hook_and_key();
    let blobs = token_to_blobs(make_subscriber_token(&key, &[b"sports", b"football"]));
    let namespace = ns("sports/football/match-42");

    let decision = request(
        &hook,
        &blobs,
        AuthzOperation::Subscribe { namespace: &namespace, track: b"video-1080p" },
    );
    assert!(decision.is_allowed());
}

#[test]
fn valid_subscriber_token_allows_fetch() {
    let (hook, key) = make_hook_and_key();
    let blobs = token_to_blobs(make_subscriber_token(&key, &[b"sports", b"football"]));
    let namespace = ns("sports/football/match-42");

    let decision = request(
        &hook,
        &blobs,
        AuthzOperation::Fetch { namespace: &namespace, track: b"video-1080p" },
    );
    assert!(decision.is_allowed());
}

#[test]
fn wrong_namespace_denies() {
    let (hook, key) = make_hook_and_key();
    let blobs = token_to_blobs(make_publisher_token(&key, &[b"sports", b"football"]));
    let namespace = ns("music/concert/live");

    let decision =
        request(&hook, &blobs, AuthzOperation::PublishNamespace { namespace: &namespace });
    assert!(!decision.is_allowed());
}

#[test]
fn missing_token_denies() {
    let (hook, _) = make_hook_and_key();

    let decision = hook.on_setup(&test_session_ctx(), &[]).unwrap();
    assert!(!decision.is_allowed());
}

#[test]
fn malformed_token_denies() {
    let (hook, _) = make_hook_and_key();
    let blobs = token_to_blobs(b"not.a.valid.token".to_vec());

    let decision = hook.on_setup(&test_session_ctx(), &blobs).unwrap();
    assert!(!decision.is_allowed());
}

fn setup_token(signing_key: &Es256Algorithm, issuer: &str, audience: &str) -> Vec<AuthBlob> {
    let scope = MoqtScopeBuilder::new().action(MoqtAction::ClientSetup).build();
    let token = CatTokenBuilder::new()
        .issuer(issuer)
        .single_audience(audience)
        .expires_in(3600)
        .moqt_scope(scope)
        .build();
    token_to_blobs(encode_token(&token, signing_key).unwrap())
}

#[test]
fn wrong_issuer_denies() {
    let signing_key = Es256Algorithm::new_with_key_pair().unwrap();
    let config = C4MConfig::new(TokenKey::Es256(pem_of(&signing_key)))
        .with_expected_issuers(vec!["expected-issuer".to_string()])
        .with_expected_audiences(vec!["test-relay".to_string()]);
    let hook = C4MAuthHook::new(config);

    let blobs = setup_token(&signing_key, "wrong-issuer", "test-relay");
    let decision = hook.on_setup(&test_session_ctx(), &blobs).unwrap();
    assert!(!decision.is_allowed());
}

#[test]
fn wrong_audience_denies() {
    let signing_key = Es256Algorithm::new_with_key_pair().unwrap();
    let config = C4MConfig::new(TokenKey::Es256(pem_of(&signing_key)))
        .with_expected_issuers(vec!["test-issuer".to_string()])
        .with_expected_audiences(vec!["expected-relay".to_string()]);
    let hook = C4MAuthHook::new(config);

    let blobs = setup_token(&signing_key, "test-issuer", "wrong-relay");
    let decision = hook.on_setup(&test_session_ctx(), &blobs).unwrap();
    assert!(!decision.is_allowed());
}

#[test]
fn token_without_client_setup_scope_denies_setup() {
    let (hook, key) = make_hook_and_key();

    let scope = MoqtScopeBuilder::new()
        .publisher()
        .namespace_prefix(b"sports")
        .track_prefix(b"/")
        .build();
    let token = CatTokenBuilder::new()
        .issuer("test-issuer")
        .single_audience("test-relay")
        .expires_in(3600)
        .moqt_scope(scope)
        .build();

    let blobs = token_to_blobs(encode_token(&token, &key).unwrap());
    let decision = hook.on_setup(&test_session_ctx(), &blobs).unwrap();
    assert!(!decision.is_allowed());
}

#[test]
fn invalid_signature_denies() {
    let signing_key = Es256Algorithm::new_with_key_pair().unwrap();
    let different_key = Es256Algorithm::new_with_key_pair().unwrap();
    let config = C4MConfig::new(TokenKey::Es256(pem_of(&different_key)))
        .with_expected_issuers(vec!["test-issuer".to_string()])
        .with_expected_audiences(vec!["test-relay".to_string()]);
    let hook = C4MAuthHook::new(config);

    let blobs = setup_token(&signing_key, "test-issuer", "test-relay");
    let decision = hook.on_setup(&test_session_ctx(), &blobs).unwrap();
    assert!(!decision.is_allowed());
}

#[test]
fn issuer_and_audience_that_are_expected_are_admitted() {
    let (hook, key) = make_hook_and_key();
    let blobs = setup_token(&key, "test-issuer", "test-relay");
    let decision = hook.on_setup(&test_session_ctx(), &blobs).unwrap();
    assert!(decision.is_allowed());
    assert!(decision.principal.is_none());
}

#[test]
fn denials_name_their_reason() {
    let (hook, key) = make_hook_and_key();
    let ctx = test_session_ctx();
    let reason = |blobs: &[AuthBlob]| match hook.on_setup(&ctx, blobs).unwrap().verdict {
        Verdict::Deny(reason) => reason.to_text(),
        Verdict::Allow => panic!("allowed"),
    };
    assert_eq!(reason(&[]), DenyReason::TokenMissing.to_text());
    assert_eq!(
        reason(&setup_token(&key, "someone", "test-relay")),
        DenyReason::IssuerUnknown.to_text()
    );
    assert!(matches!(
        map_cat_error(cat_token::CatError::TokenExpired),
        DenyReason::TokenExpired
    ));
    assert!(matches!(
        map_cat_error(cat_token::CatError::InvalidTokenFormat),
        DenyReason::TokenMalformed
    ));
}

#[test]
fn allow_all_hook_allows_setup() {
    let hook = AllowAllAuthHook;
    let decision = hook.on_setup(&test_session_ctx(), &[]).unwrap();
    assert!(decision.is_allowed());
}

#[test]
fn allow_all_hook_allows_request() {
    let hook = AllowAllAuthHook;
    let ctx = test_session_ctx();
    let namespace = ns("test/ns");
    let req_ctx = RequestContext {
        session: &ctx,
        operation: AuthzOperation::Subscribe { namespace: &namespace, track: b"video" },
        request_id: Some(1),
    };
    let decision = hook.on_request(&req_ctx, &[]).unwrap();
    assert!(decision.is_allowed());
}

#[test]
fn auth_decision_builder() {
    let d = AuthDecision::allow().with_principal(Some("user@example.com".to_string()));
    assert!(d.is_allowed());
    assert_eq!(d.principal.as_deref(), Some("user@example.com"));

    let d = AuthDecision::deny(DenyReason::TokenExpired);
    assert!(!d.is_allowed());
    assert!(d.principal.is_none());
}

fn test_tokens(secret: &[u8]) -> Vec<AuthBlob> {
    vec![AuthBlob { token_type: 0, token_value: secret.to_vec() }]
}

#[test]
fn key_value_hook_accepts_matching_secret() {
    let hook = KeyValueAuthHook::new(b"my-secret".as_slice());
    let ctx = test_session_ctx();
    let tokens = test_tokens(b"my-secret");
    let decision = hook.on_setup(&ctx, &tokens).unwrap();
    assert!(decision.is_allowed());
}

#[test]
fn key_value_hook_rejects_wrong_secret() {
    let hook = KeyValueAuthHook::new(b"my-secret".as_slice());
    let ctx = test_session_ctx();
    let tokens = test_tokens(b"wrong-secret");
    let decision = hook.on_setup(&ctx, &tokens).unwrap();
    assert!(!decision.is_allowed());
    assert!(matches!(decision.verdict, Verdict::Deny(DenyReason::TokenInvalid)));
}

#[test]
fn key_value_hook_rejects_empty_tokens() {
    let hook = KeyValueAuthHook::new(b"my-secret".as_slice());
    let ctx = test_session_ctx();
    let decision = hook.on_setup(&ctx, &[]).unwrap();
    assert!(!decision.is_allowed());
    assert!(matches!(decision.verdict, Verdict::Deny(DenyReason::TokenMissing)));
}

#[test]
fn key_value_hook_rejects_wrong_token_type() {
    let hook = KeyValueAuthHook::new(b"my-secret".as_slice());
    let ctx = test_session_ctx();
    let tokens = vec![AuthBlob { token_type: 1, token_value: b"my-secret".to_vec() }];
    let decision = hook.on_setup(&ctx, &tokens).unwrap();
    assert!(!decision.is_allowed());
}

#[test]
fn the_secret_may_stand_among_other_tokens() {
    let hook = KeyValueAuthHook::new(b"my-secret".as_slice());
    let ctx = test_session_ctx();
    let mut tokens = test_tokens(b"wrong-secret");
    tokens.push(AuthBlob { token_type: 1, token_value: Vec::new() });
    tokens.extend(test_tokens(b"my-secret"));
    assert!(hook.on_setup(&ctx, &tokens).unwrap().is_allowed());

    let namespace = ns("test/ns");
    let req_ctx = RequestContext {
        session: &ctx,
        operation: AuthzOperation::Subscribe { namespace: &namespace, track: b"video" },
        request_id: None,
    };
    assert!(hook.on_request(&req_ctx, &[]).unwrap().is_allowed());
}

#[test]
fn logging_hook_delegates_to_inner() {
    let inner = KeyValueAuthHook::new(b"secret".as_slice());
    let hook = LoggingAuthHook::new(inner);
    let ctx = test_session_ctx();

    let tokens = test_tokens(b"secret");
    let decision = hook.on_setup(&ctx, &tokens).unwrap();
    assert!(decision.is_allowed());

    let tokens = test_tokens(b"wrong");
    let decision = hook.on_setup(&ctx, &tokens).unwrap();
    assert!(!decision.is_allowed());
}

fn bare_token() -> CatToken {
    let scope = MoqtScopeBuilder::new().action(MoqtAction::ClientSetup).build();
    CatTokenBuilder::new().subject("peer").expires_in(3600).moqt_scope(scope).build()
}

#[test]
fn a_shared_secret_verifies_tokens() {
    let hook = C4MAuthHook::new(C4MConfig::new(TokenKey::Hmac(b"a secret".to_vec())));
    let signed = |secret: &[u8]| {
        token_to_blobs(encode_token(&bare_token(), &HmacSha256Algorithm::new(secret)).unwrap())
    };
    let decision = hook.on_setup(&test_session_ctx(), &signed(b"a secret")).unwrap();
    assert!(decision.is_allowed());
    assert_eq!(decision.principal.as_deref(), Some("peer"));
    let decision = hook.on_setup(&test_session_ctx(), &signed(b"another")).unwrap();
    assert!(matches!(decision.verdict, Verdict::Deny(DenyReason::TokenInvalid)));
}

#[test]
fn claims_that_join_others_do_not_stop_a_decision() {
    let mut joined = CompositeClaim::new(CompositeOperator::Or);
    joined.add_token(CatTokenBuilder::new().expires_in(60).build());
    let token = bare_token().with_or_composite(joined);
    let secret = HmacSha256Algorithm::new(b"a secret");
    let hook = C4MAuthHook::new(
        C4MConfig::new(TokenKey::Hmac(b"a secret".to_vec())).with_clock_skew_tolerance(60),
    );
    let blobs = token_to_blobs(encode_token(&token, &secret).unwrap());
    assert!(hook.on_setup(&test_session_ctx(), &blobs).unwrap().is_allowed());
}
