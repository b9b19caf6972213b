use cat_token::{
    create_signing_input, encode_token, CatError, CatToken, ConfirmationClaim,
    CryptographicAlgorithm, Cwt, Es256Algorithm, MoqtAction, MoqtScopeBuilder, ALG_ES256,
};
use chrono::{DateTime, Utc};
use moq_relay::auth::cat::{
    map_cat_error, AuthError, AuthPublicKey, AuthToken, AuthzOperation, CatAuthHook, CatPrincipal,
    DenyReason, ScopeAuthConfig, CAT_TOKEN_TYPE, MAX_CLOCK_SKEW_SECS, MAX_SCOPE_AUTH_KEYS,
    MAX_TOKEN_LIFETIME_SECS,
};
use moq_relay::auth::cose::header_kid;
use moq_relay::namespace::TrackNamespace;
use p256::pkcs8::EncodePublicKey;

const MAX_SETUP_TOKENS: usize = 8;

fn ns(path: &str) -> TrackNamespace {
    TrackNamespace::new(path.split('/').map(|f| f.as_bytes().to_vec()).collect())
}

fn now_unix() -> i64 {
    Utc::now().timestamp()
}

fn in_seconds(seconds: i64) -> DateTime<Utc> {
    Utc::now() + chrono::Duration::seconds(seconds)
}

struct TestKey {
    signer: Es256Algorithm,
    pem: String,
}

fn generate_key() -> TestKey {
    let signer = Es256Algorithm::new_with_key_pair().expect("keypair");
    let pem = signer.verifying_key().to_public_key_pem(Default::default()).expect("public key pem");
    TestKey { signer, pem }
}

fn encode_with_kid(token: &CatToken, signer: &Es256Algorithm, kid: &str) -> Vec<u8> {
    encode_with_raw_kid(token, signer, ciborium::Value::Text(kid.to_string()))
}

fn encode_with_raw_kid(
    token: &CatToken,
    signer: &Es256Algorithm,
    kid: ciborium::Value,
) -> Vec<u8> {
    encode_with_extra_headers(
        token,
        signer,
        vec![(ciborium::Value::Integer(4.into()), kid)],
    )
}

fn encode_with_extra_headers(
    token: &CatToken,
    signer: &Es256Algorithm,
    extra: Vec<(ciborium::Value, ciborium::Value)>,
) -> Vec<u8> {
    let cwt = Cwt::new(signer.algorithm_id(), token.clone());

    let mut headers = vec![
        (
            ciborium::Value::Integer(1.into()),
            ciborium::Value::Integer(signer.algorithm_id().into()),
        ),
        (
            ciborium::Value::Integer(16.into()),
            ciborium::Value::Text("CAT".to_string()),
        ),
    ];
    headers.extend(extra);
    let header = ciborium::Value::Map(headers);

    let mut header_cbor = Vec::new();
    ciborium::ser::into_writer(&header, &mut header_cbor).expect("header cbor");
    let payload_cbor = cwt.encode_payload().expect("payload cbor");

    let signing_input =
        create_signing_input(&header_cbor, &payload_cbor, ALG_ES256).expect("signing input");
    let signature = signer.sign(&signing_input).expect("sign");

    let cose = ciborium::Value::Tag(
        18,
        Box::new(ciborium::Value::Array(vec![
            ciborium::Value::Bytes(header_cbor),
            ciborium::Value::Map(vec![]),
            ciborium::Value::Bytes(payload_cbor),
            ciborium::Value::Bytes(signature),
        ])),
    );
    let mut encoded = Vec::new();
    ciborium::ser::into_writer(&cose, &mut encoded).expect("COSE_Sign1");
    encoded
}

fn config(keys: Vec<AuthPublicKey>) -> ScopeAuthConfig {
    ScopeAuthConfig::new(keys)
        .with_issuers(vec!["test-issuer".to_string()])
        .with_audiences(vec!["test-relay".to_string()])
}

fn hook(keys: Vec<AuthPublicKey>) -> CatAuthHook {
    CatAuthHook::new(&config(keys), Some("test-scope".to_string())).expect("hook builds")
}

fn publisher_token(signer: &Es256Algorithm, prefix: &[&[u8]]) -> Vec<u8> {
    mint(signer, prefix, true, None, 3600)
}

fn subscriber_token(signer: &Es256Algorithm, prefix: &[&[u8]]) -> Vec<u8> {
    mint(signer, prefix, false, None, 3600)
}

fn mint(
    signer: &Es256Algorithm,
    prefix: &[&[u8]],
    publisher: bool,
    kid: Option<&str>,
    expires_in: i64,
) -> Vec<u8> {
    let mut scope = MoqtScopeBuilder::new();
    scope = if publisher {
        scope.publisher()
    } else {
        scope.subscriber()
    };
    for part in prefix {
        scope = scope.namespace_prefix(part);
    }
    let scope = scope.track_prefix(b"").build();

    let setup_scope = MoqtScopeBuilder::new()
        .action(MoqtAction::ClientSetup)
        .build();

    let token = CatToken::new()
        .with_issuer("test-issuer")
        .with_audience(vec!["test-relay".to_string()])
        .with_subject("test-subject")
        .with_expiration(in_seconds(expires_in))
        .with_moqt_scope(scope)
        .with_moqt_scope(setup_scope);

    let encoded = match kid {
        Some(kid) => encode_with_kid(&token, signer, kid),
        None => encode_token(&token, signer).expect("encode"),
    };
    encoded
}

fn auth_token(value: Vec<u8>) -> AuthToken {
    AuthToken::new(CAT_TOKEN_TYPE, value)
}

struct Decision(Result<CatPrincipal, DenyReason>);

impl Decision {
    fn is_allowed(&self) -> bool {
        self.0.is_ok()
    }

    fn deny_reason(&self) -> Option<&DenyReason> {
        self.0.as_ref().err()
    }
}

fn present(hook: &CatAuthHook, tokens: &[AuthToken]) -> Decision {
    Decision(hook.on_setup(tokens, now_unix()))
}

fn principal_for(hook: &CatAuthHook, value: Vec<u8>) -> CatPrincipal {
    present(hook, &[auth_token(value)]).0.expect("allowed")
}

fn base_token() -> CatToken {
    CatToken::new()
        .with_issuer("test-issuer")
        .with_audience(vec!["test-relay".to_string()])
        .with_subject("test-subject")
        .with_expiration(in_seconds(3600))
        .with_moqt_scope(
            MoqtScopeBuilder::new()
                .publisher()
                .namespace_prefix(b"sports")
                .track_prefix(b"")
                .build(),
        )
        .with_moqt_scope(
            MoqtScopeBuilder::new()
                .action(MoqtAction::ClientSetup)
                .build(),
        )
}

fn mint_with_extra_claim(
    signer: &Es256Algorithm,
    claim_key: i64,
    value: ciborium::Value,
) -> Vec<u8> {
    let cwt = Cwt::new(signer.algorithm_id(), base_token());
    let payload_cbor = cwt.encode_payload().expect("payload cbor");

    let ciborium::Value::Map(mut entries) =
        ciborium::de::from_reader::<ciborium::Value, _>(payload_cbor.as_slice())
            .expect("payload is a map")
    else {
        panic!("payload is a map");
    };
    entries.push((ciborium::Value::Integer(claim_key.into()), value));

    let mut payload_cbor = Vec::new();
    ciborium::ser::into_writer(&ciborium::Value::Map(entries), &mut payload_cbor)
        .expect("re-encode");

    let header = ciborium::Value::Map(vec![
        (
            ciborium::Value::Integer(1.into()),
            ciborium::Value::Integer(signer.algorithm_id().into()),
        ),
        (
            ciborium::Value::Integer(16.into()),
            ciborium::Value::Text("CAT".to_string()),
        ),
    ]);
    let mut header_cbor = Vec::new();
    ciborium::ser::into_writer(&header, &mut header_cbor).expect("header cbor");

    let signing_input =
        create_signing_input(&header_cbor, &payload_cbor, ALG_ES256).expect("signing input");
    let signature = signer.sign(&signing_input).expect("sign");

    let cose = ciborium::Value::Tag(
        18,
        Box::new(ciborium::Value::Array(vec![
            ciborium::Value::Bytes(header_cbor),
            ciborium::Value::Map(vec![]),
            ciborium::Value::Bytes(payload_cbor),
            ciborium::Value::Bytes(signature),
        ])),
    );
    let mut encoded = Vec::new();
    ciborium::ser::into_writer(&cose, &mut encoded).expect("COSE_Sign1");
    encoded
}

fn track_scoped_token(signer: &Es256Algorithm, track_prefix: &[u8]) -> Vec<u8> {
    let token = CatToken::new()
        .with_issuer("test-issuer")
        .with_audience(vec!["test-relay".to_string()])
        .with_subject("test-subject")
        .with_expiration(in_seconds(3600))
        .with_moqt_scope(
            MoqtScopeBuilder::new()
                .publisher()
                .subscriber()
                .namespace_prefix(b"sports")
                .track_prefix(track_prefix)
                .build(),
        )
        .with_moqt_scope(
            MoqtScopeBuilder::new()
                .action(MoqtAction::ClientSetup)
                .build(),
        );

    encode_token(&token, signer).expect("encode")
}

struct Answer(Option<DenyReason>);

impl Answer {
    fn is_allowed(&self) -> bool {
        self.0.is_none()
    }

    fn deny_reason(&self) -> Option<&DenyReason> {
        self.0.as_ref()
    }
}

fn decide(
    hook: &CatAuthHook,
    principal: &CatPrincipal,
    operation: AuthzOperation<'_>,
) -> Answer {
    Answer(hook.on_request(Some(principal), &operation, Some(now_unix())).expect("no fault"))
}

#[test]
fn rejects_an_empty_key_set() {
    let err = CatAuthHook::new(&config(vec![]), None).expect_err("must fail");
    assert!(matches!(err, AuthError::Configuration(_)), "{err:?}");
}

#[test]
fn rejects_more_than_the_maximum_keys() {
    let keys = (0..MAX_SCOPE_AUTH_KEYS + 1)
        .map(|_| AuthPublicKey::es256(generate_key().pem))
        .collect();

    let err = CatAuthHook::new(&config(keys), None).expect_err("must fail");
    assert!(
        matches!(&err, AuthError::Configuration(text) if text.contains("at most 5")),
        "{err:?} should name the bound"
    );
}

#[test]
fn accepts_exactly_the_maximum_keys() {
    let keys = (0..MAX_SCOPE_AUTH_KEYS)
        .map(|_| AuthPublicKey::es256(generate_key().pem))
        .collect();

    assert!(CatAuthHook::new(&config(keys), None).is_ok());
}

#[test]
fn rejects_unparseable_key_material() {
    let good = generate_key();
    let keys = vec![
        AuthPublicKey::es256(good.pem),
        AuthPublicKey::es256(
            "-----BEGIN PUBLIC KEY-----\nnope\n-----END PUBLIC KEY-----".to_string(),
        ),
    ];

    let err = CatAuthHook::new(&config(keys), None).expect_err("must fail");
    assert!(matches!(err, AuthError::Configuration(_)), "{err:?}");
}

#[test]
fn a_repeated_identifier_is_quoted() {
    let keys = vec![
        AuthPublicKey::es256(generate_key().pem).with_kid("a\"b".to_string()),
        AuthPublicKey::es256(generate_key().pem).with_kid("a\"b".to_string()),
    ];
    let err = CatAuthHook::new(&config(keys), None).expect_err("must fail");
    assert!(
        matches!(
            &err,
            AuthError::Configuration(text) if text == "duplicate key identifier \"a\\\"b\""
        ),
        "{err:?}"
    );
}

#[test]
fn rejects_duplicate_key_identifiers() {
    let keys = vec![
        AuthPublicKey::es256(generate_key().pem).with_kid("rotating".to_string()),
        AuthPublicKey::es256(generate_key().pem).with_kid("rotating".to_string()),
    ];

    let err = CatAuthHook::new(&config(keys), None).expect_err("must fail");
    assert!(
        matches!(&err, AuthError::Configuration(text) if text.contains("duplicate")),
        "{err:?}"
    );
}


#[test]
fn accepts_a_valid_token() {
    let key = generate_key();
    let hook = hook(vec![AuthPublicKey::es256(key.pem)]);

    let decision = present(&hook, &[auth_token(publisher_token(&key.signer, &[b"sports"]))],
        );

    assert!(decision.is_allowed());
    let principal = decision.0.unwrap();
    assert_eq!(principal.token.sub.as_deref(), Some("test-subject"));
}

#[test]
fn denies_when_no_token_is_presented() {
    let key = generate_key();
    let hook = hook(vec![AuthPublicKey::es256(key.pem)]);

    let decision = present(&hook, &[]);
    assert!(matches!(
        decision.deny_reason(),
        Some(DenyReason::TokenMissing)
    ));
}

#[test]
fn ignores_tokens_of_other_types() {
    let key = generate_key();
    let hook = hook(vec![AuthPublicKey::es256(key.pem)]);

    let other = AuthToken::new(0, b"out-of-band".to_vec());

    let decision = present(&hook, &[other]);
    assert!(matches!(
        decision.deny_reason(),
        Some(DenyReason::TokenMissing)
    ));
}

#[test]
fn denies_a_token_signed_by_an_unknown_key() {
    let configured = generate_key();
    let attacker = generate_key();
    let hook = hook(vec![AuthPublicKey::es256(configured.pem)]);

    let decision = present(&hook, &[auth_token(publisher_token(&attacker.signer, &[b"sports"]))],
        );

    assert!(matches!(
        decision.deny_reason(),
        Some(DenyReason::TokenInvalid)
    ));
}

#[test]
fn denies_an_expired_token() {
    let key = generate_key();
    let hook = hook(vec![AuthPublicKey::es256(key.pem)]);

    let expired = mint(&key.signer, &[b"sports"], true, None, -3600);

    let decision = present(&hook, &[auth_token(expired)]);
    assert!(matches!(
        decision.deny_reason(),
        Some(DenyReason::TokenExpired)
    ));
}

#[test]
fn denies_a_token_from_an_unexpected_issuer() {
    let key = generate_key();
    let hook = hook(vec![AuthPublicKey::es256(key.pem)]);

    let scope = MoqtScopeBuilder::new()
        .publisher()
        .namespace_prefix(b"sports")
        .track_prefix(b"")
        .build();
    let token = CatToken::new()
        .with_issuer("some-other-issuer")
        .with_audience(vec!["test-relay".to_string()])
        .with_subject("test-subject")
        .with_expiration(in_seconds(3600))
        .with_moqt_scope(scope);
    let encoded = encode_token(&token, &key.signer).unwrap();

    let decision = present(&hook, &[auth_token(encoded)]);
    assert!(matches!(
        decision.deny_reason(),
        Some(DenyReason::IssuerUnknown)
    ));
}

#[test]
fn denies_a_token_for_another_audience() {
    let key = generate_key();
    let hook = hook(vec![AuthPublicKey::es256(key.pem)]);

    let scope = MoqtScopeBuilder::new()
        .publisher()
        .namespace_prefix(b"sports")
        .track_prefix(b"")
        .build();
    let token = CatToken::new()
        .with_issuer("test-issuer")
        .with_audience(vec!["some-other-relay".to_string()])
        .with_subject("test-subject")
        .with_expiration(in_seconds(3600))
        .with_moqt_scope(scope);
    let encoded = encode_token(&token, &key.signer).unwrap();

    let decision = present(&hook, &[auth_token(encoded)]);
    assert!(matches!(
        decision.deny_reason(),
        Some(DenyReason::TokenInvalid)
    ));
}

#[test]
fn denies_a_token_that_does_not_grant_client_setup() {
    let key = generate_key();
    let hook = hook(vec![AuthPublicKey::es256(key.pem)]);

    let scope = MoqtScopeBuilder::new()
        .publisher()
        .namespace_prefix(b"sports")
        .track_prefix(b"")
        .build();
    let token = CatToken::new()
        .with_issuer("test-issuer")
        .with_audience(vec!["test-relay".to_string()])
        .with_subject("test-subject")
        .with_expiration(in_seconds(3600))
        .with_moqt_scope(scope);
    let encoded = encode_token(&token, &key.signer).unwrap();

    let decision = present(&hook, &[auth_token(encoded)]);
    assert!(matches!(
        decision.deny_reason(),
        Some(DenyReason::ScopeMismatch)
    ));
}

#[test]
fn denies_a_token_with_no_moqt_claim() {
    let key = generate_key();
    let hook = hook(vec![AuthPublicKey::es256(key.pem)]);

    let token = CatToken::new()
        .with_issuer("test-issuer")
        .with_audience(vec!["test-relay".to_string()])
        .with_subject("test-subject")
        .with_expiration(in_seconds(3600));
    let encoded = encode_token(&token, &key.signer).unwrap();

    let decision = present(&hook, &[auth_token(encoded)]);
    assert!(matches!(
        decision.deny_reason(),
        Some(DenyReason::ScopeMismatch)
    ));
}

#[test]
fn denies_a_token_requiring_revalidation() {
    let key = generate_key();
    let hook = hook(vec![AuthPublicKey::es256(key.pem)]);

    let scope = MoqtScopeBuilder::new()
        .publisher()
        .namespace_prefix(b"sports")
        .track_prefix(b"")
        .build();
    let setup = MoqtScopeBuilder::new()
        .action(MoqtAction::ClientSetup)
        .build();
    let token = CatToken::new()
        .with_issuer("test-issuer")
        .with_audience(vec!["test-relay".to_string()])
        .with_subject("test-subject")
        .with_expiration(in_seconds(3600))
        .with_moqt_scope(scope)
        .with_moqt_scope(setup)
        .with_moqt_reval(30.0);
    let encoded = encode_token(&token, &key.signer).unwrap();

    let decision = present(&hook, &[auth_token(encoded)]);
    assert!(
        !decision.is_allowed(),
        "revalidation-bound token must be denied"
    );
}

#[test]
fn denies_garbage_token_values() {
    let key = generate_key();
    let hook = hook(vec![AuthPublicKey::es256(key.pem)]);

    for value in [
        b"".to_vec(),
        b"not-a-token".to_vec(),
        b"a.b".to_vec(),
        b"a.b.c.d".to_vec(),
        b"!!!.###.$$$".to_vec(),
        vec![0xff, 0xfe, 0xfd],
    ] {
        let decision = present(&hook, &[auth_token(value.clone())]);
        assert!(!decision.is_allowed(), "{value:?} must not be allowed");
    }
}


#[test]
fn verifies_against_any_key_in_the_set() {
    for signing_index in 0..MAX_SCOPE_AUTH_KEYS {
        let generated: Vec<TestKey> =
            (0..MAX_SCOPE_AUTH_KEYS).map(|_| generate_key()).collect();
        let keys = generated
            .iter()
            .map(|key| AuthPublicKey::es256(key.pem.clone()))
            .collect();
        let hook = hook(keys);

        let token = publisher_token(&generated[signing_index].signer, &[b"sports"]);
        let decision = present(&hook, &[auth_token(token)]);

        assert!(
            decision.is_allowed(),
            "token signed by key {signing_index} should verify"
        );
    }
}

#[test]
fn denies_when_no_key_in_the_set_matches() {
    let generated: Vec<TestKey> = (0..MAX_SCOPE_AUTH_KEYS).map(|_| generate_key()).collect();
    let keys = generated
        .iter()
        .map(|key| AuthPublicKey::es256(key.pem.clone()))
        .collect();
    let hook = hook(keys);

    let attacker = generate_key();
    let token = publisher_token(&attacker.signer, &[b"sports"]);

    let decision = present(&hook, &[auth_token(token)]);
    assert!(!decision.is_allowed());
}

#[test]
fn selects_the_key_named_by_the_token_kid() {
    let old = generate_key();
    let new = generate_key();
    let hook = hook(vec![
        AuthPublicKey::es256(old.pem).with_kid("old".to_string()),
        AuthPublicKey::es256(new.pem).with_kid("new".to_string()),
    ]);

    let token = mint(&new.signer, &[b"sports"], true, Some("new"), 3600);
    assert!(present(&hook, &[auth_token(token)])
        .is_allowed());

    let token = mint(&old.signer, &[b"sports"], true, Some("old"), 3600);
    assert!(present(&hook, &[auth_token(token)])
        .is_allowed());
}

#[test]
fn a_kid_less_key_can_verify_a_token_bearing_a_kid() {
    let key = generate_key();
    let hook = hook(vec![AuthPublicKey::es256(key.pem)]);

    let token = mint(&key.signer, &[b"sports"], true, Some("whatever"), 3600);
    assert!(present(&hook, &[auth_token(token)])
        .is_allowed());
}

#[test]
fn a_kid_reorders_but_never_excludes_keys() {
    let hook = hook(vec![
        AuthPublicKey::es256(generate_key().pem),
        AuthPublicKey::es256(generate_key().pem).with_kid("a".to_string()),
        AuthPublicKey::es256(generate_key().pem).with_kid("b".to_string()),
    ]);

    let kids = |kid: Option<&str>| -> Vec<Option<String>> {
        hook.candidate_keys(&kid.map(|kid| kid.to_string()))
            .into_iter()
            .map(|key| key.kid.clone())
            .collect()
    };

    assert_eq!(
        kids(Some("b")),
        vec![Some("b".to_string()), None, Some("a".to_string())]
    );

    assert_eq!(
        kids(Some("absent")),
        vec![None, Some("a".to_string()), Some("b".to_string())]
    );

    assert_eq!(
        kids(None),
        vec![None, Some("a".to_string()), Some("b".to_string())]
    );

    for kid in [Some("a"), Some("b"), Some("absent"), None] {
        assert_eq!(
            kids(kid).len(),
            hook.key_count(),
            "every key must remain a candidate for kid {kid:?}"
        );
    }
}

#[test]
fn header_kid_reads_the_cose_label() {
    let key = generate_key();

    let labelled = mint(&key.signer, &[b"sports"], true, Some("rotating"), 3600);
    assert_eq!(header_kid(&labelled), Some("rotating".to_string()));

    let unlabelled = publisher_token(&key.signer, &[b"sports"]);
    assert_eq!(header_kid(&unlabelled), None);
}

#[test]
fn header_kid_degrades_to_no_hint_on_malformed_input() {
    for value in [
        &b""[..],
        &b"only-one-part"[..],
        &b"two.parts"[..],
        &b"four.parts.are.wrong"[..],
        &b".empty.header"[..],
        &b"!!!not-base64!!!.b.c"[..],
        &[0xff, 0xfe, 0xfd][..],
    ] {
        assert_eq!(
            header_kid(value),
            None,
            "{:?} should yield no hint",
            String::from_utf8_lossy(value)
        );
    }
}

#[test]
fn a_token_with_an_unsupported_critical_header_is_refused() {
    let key = generate_key();
    let hook = hook(vec![AuthPublicKey::es256(key.pem.clone())]);
    let encoded = encode_with_extra_headers(
        &base_token(),
        &key.signer,
        vec![
            (
                ciborium::Value::Integer(2.into()),
                ciborium::Value::Array(vec![ciborium::Value::Integer(42.into())]),
            ),
            (
                ciborium::Value::Integer(42.into()),
                ciborium::Value::Bool(true),
            ),
        ],
    );

    let decision = present(&hook, &[auth_token(encoded)]);
    assert!(!decision.is_allowed());
}

#[test]
fn an_unmatchable_kid_does_not_prevent_verification() {
    let key = generate_key();
    let hook = hook(vec![AuthPublicKey::es256(key.pem.clone())]);

    let token = CatToken::new()
        .with_issuer("test-issuer")
        .with_audience(vec!["test-relay".to_string()])
        .with_subject("test-subject")
        .with_expiration(in_seconds(3600))
        .with_moqt_scope(
            MoqtScopeBuilder::new()
                .publisher()
                .namespace_prefix(b"sports")
                .track_prefix(b"")
                .build(),
        )
        .with_moqt_scope(
            MoqtScopeBuilder::new()
                .action(MoqtAction::ClientSetup)
                .build(),
        );

    for kid in [
        ciborium::Value::Bytes(vec![0xde, 0xad, 0xbe, 0xef]),
        ciborium::Value::Integer(7.into()),
        ciborium::Value::Null,
    ] {
        let encoded = encode_with_raw_kid(&token, &key.signer, kid.clone());
        let decision = present(&hook, &[auth_token(encoded)]);

        assert!(
            decision.is_allowed(),
            "a token with kid {kid:?} must still verify against the configured key"
        );
    }
}

#[test]
fn a_kid_naming_no_configured_key_still_verifies() {
    let key = generate_key();
    let hook = hook(vec![AuthPublicKey::es256(key.pem).with_kid("known".to_string())]);

    let token = mint(&key.signer, &[b"sports"], true, Some("unknown"), 3600);

    assert!(present(&hook, &[auth_token(token)])
        .is_allowed());
}


#[test]
fn publisher_token_allows_publish_and_denies_subscribe() {
    let key = generate_key();
    let hook = hook(vec![AuthPublicKey::es256(key.pem)]);
    let principal = principal_for(&hook, publisher_token(&key.signer, &[b"sports"]));

    let namespace = ns("sports/football");
    let track = b"video";

    assert!(decide(
        &hook,
        &principal,
        AuthzOperation::PublishNamespace {
            namespace: &namespace
        }
    )
    .is_allowed());

    assert!(decide(
        &hook,
        &principal,
        AuthzOperation::Publish {
            namespace: &namespace,
            track
        }
    )
    .is_allowed());

    assert!(!decide(
        &hook,
        &principal,
        AuthzOperation::Subscribe {
            namespace: &namespace,
            track
        }
    )
    .is_allowed());
}

#[test]
fn subscriber_token_allows_subscribe_and_denies_publish() {
    let key = generate_key();
    let hook = hook(vec![AuthPublicKey::es256(key.pem)]);
    let principal = principal_for(&hook, subscriber_token(&key.signer, &[b"sports"]));

    let namespace = ns("sports/football");
    let track = b"video";

    assert!(decide(
        &hook,
        &principal,
        AuthzOperation::Subscribe {
            namespace: &namespace,
            track
        }
    )
    .is_allowed());

    assert!(!decide(
        &hook,
        &principal,
        AuthzOperation::PublishNamespace {
            namespace: &namespace
        }
    )
    .is_allowed());
}

#[test]
fn denies_operations_outside_the_granted_namespace() {
    let key = generate_key();
    let hook = hook(vec![AuthPublicKey::es256(key.pem)]);
    let principal = principal_for(&hook, publisher_token(&key.signer, &[b"sports"]));

    let other = ns("news/politics");

    let decision = decide(
        &hook,
        &principal,
        AuthzOperation::PublishNamespace { namespace: &other },
    );

    assert!(matches!(
        decision.deny_reason(),
        Some(DenyReason::ScopeMismatch)
    ));
}

#[test]
fn namespace_level_actions_ignore_the_track_predicate() {
    let key = generate_key();
    let hook = hook(vec![AuthPublicKey::es256(key.pem)]);

    let principal = principal_for(&hook, track_scoped_token(&key.signer, b"live/"));

    let namespace = ns("sports/football");
    let prefix = ns("sports");

    assert!(
        decide(
            &hook,
            &principal,
            AuthzOperation::PublishNamespace {
                namespace: &namespace
            }
        )
        .is_allowed(),
        "a track-scoped token must still be able to announce its namespace"
    );

    assert!(
        decide(
            &hook,
            &principal,
            AuthzOperation::SubscribeNamespace { prefix: &prefix }
        )
        .is_allowed(),
        "a track-scoped token must still be able to subscribe to the prefix"
    );

    assert!(
        decide(
            &hook,
            &principal,
            AuthzOperation::Publish {
                namespace: &namespace,
                track: b"live/video",
            }
        )
        .is_allowed(),
        "a matching track name is permitted"
    );

    assert!(
        !decide(
            &hook,
            &principal,
            AuthzOperation::Publish {
                namespace: &namespace,
                track: b"premium/4k",
            }
        )
        .is_allowed(),
        "a track name outside the prefix must be denied"
    );

    assert!(
        !decide(
            &hook,
            &principal,
            AuthzOperation::Subscribe {
                namespace: &namespace,
                track: b"premium/4k",
            }
        )
        .is_allowed(),
        "the track predicate must still gate SUBSCRIBE"
    );
}

#[test]
fn client_setup_ignores_the_track_predicate() {
    let key = generate_key();
    let hook = hook(vec![AuthPublicKey::es256(key.pem)]);

    let token = CatToken::new()
        .with_issuer("test-issuer")
        .with_audience(vec!["test-relay".to_string()])
        .with_subject("test-subject")
        .with_expiration(in_seconds(3600))
        .with_moqt_scope(
            MoqtScopeBuilder::new()
                .action(MoqtAction::ClientSetup)
                .action(MoqtAction::PublishNamespace)
                .action(MoqtAction::Publish)
                .namespace_prefix(b"sports")
                .track_prefix(b"live/")
                .build(),
        );
    let encoded = encode_token(&token, &key.signer).unwrap();

    assert!(present(&hook, &[auth_token(encoded)])
        .is_allowed());
}

#[test]
fn tokens_carrying_unenforceable_restrictions_are_refused() {
    let key = generate_key();
    let hook = hook(vec![AuthPublicKey::es256(key.pem)]);

    let base = || {
        CatToken::new()
            .with_issuer("test-issuer")
            .with_audience(vec!["test-relay".to_string()])
            .with_subject("test-subject")
            .with_expiration(in_seconds(3600))
            .with_moqt_scope(
                MoqtScopeBuilder::new()
                    .publisher()
                    .namespace_prefix(b"sports")
                    .track_prefix(b"")
                    .build(),
            )
            .with_moqt_scope(
                MoqtScopeBuilder::new()
                    .action(MoqtAction::ClientSetup)
                    .build(),
            )
    };

    for token in [
        base()
            .with_replay_protection(cat_token::ReplayProtection::Prohibited),
        base().with_geohash("9q8yy"),
    ] {
        let encoded = encode_token(&token, &key.signer).unwrap();
        let decision = present(&hook, &[auth_token(encoded)]);

        assert!(
            !decision.is_allowed(),
            "a token with an unenforceable restriction must be refused"
        );
    }

    let token = base();
    let encoded = encode_token(&token, &key.signer).unwrap();
    assert!(present(&hook, &[auth_token(encoded)])
        .is_allowed());
}

#[test]
fn subscribe_namespace_does_not_imply_subscribe() {
    let key = generate_key();
    let hook = hook(vec![AuthPublicKey::es256(key.pem)]);

    let token = CatToken::new()
        .with_issuer("test-issuer")
        .with_audience(vec!["test-relay".to_string()])
        .with_subject("test-subject")
        .with_expiration(in_seconds(3600))
        .with_moqt_scope(
            MoqtScopeBuilder::new()
                .action(MoqtAction::ClientSetup)
                .action(MoqtAction::SubscribeNamespace)
                .namespace_prefix(b"sports")
                .build(),
        );
    let encoded = encode_token(&token, &key.signer).unwrap();
    let principal = principal_for(&hook, encoded);

    let prefix = ns("sports");
    let namespace = ns("sports/football");

    assert!(
        decide(
            &hook,
            &principal,
            AuthzOperation::SubscribeNamespace { prefix: &prefix }
        )
        .is_allowed(),
        "the prefix subscription itself is granted"
    );

    assert!(
        !decide(
            &hook,
            &principal,
            AuthzOperation::Subscribe {
                namespace: &namespace,
                track: b"video",
            }
        )
        .is_allowed(),
        "delivery of a track under that prefix is not"
    );

    let restricted = principal_for(&hook, track_scoped_token(&key.signer, b"preview-"));

    assert!(decide(
        &hook,
        &restricted,
        AuthzOperation::SubscribeNamespace { prefix: &prefix }
    )
    .is_allowed());
    assert!(decide(
        &hook,
        &restricted,
        AuthzOperation::Subscribe {
            namespace: &namespace,
            track: b"preview-clip",
        }
    )
    .is_allowed());
    assert!(
        !decide(
            &hook,
            &restricted,
            AuthzOperation::Subscribe {
                namespace: &namespace,
                track: b"premium-4k",
            }
        )
        .is_allowed(),
        "a track outside the grant must not be deliverable via the prefix"
    );
}

#[test]
fn a_sender_constrained_token_is_refused() {
        let key = generate_key();
    let hook = hook(vec![AuthPublicKey::es256(key.pem)]);

    let mut token = base_token();
    token.dpop.cnf = Some(ConfirmationClaim {
        jkt: vec![0xab; 32],
        ckt: None,
    });

    let encoded = encode_token(&token, &key.signer).unwrap();
    let decision = present(&hook, &[auth_token(encoded)]);

    assert!(
        !decision.is_allowed(),
        "a DPoP-bound token must not be honoured as a bearer token"
    );
}

#[test]
fn restrictive_claims_are_refused_whatever_shape_they_take() {
    let key = generate_key();
    let hook = hook(vec![AuthPublicKey::es256(key.pem)]);

    let smuggled = [
        (
            8,
            ciborium::Value::Map(vec![(
                ciborium::Value::Integer(1.into()),
                ciborium::Value::Integer(2.into()),
            )]),
        ),
        (
            8,
            ciborium::Value::Map(vec![(
                ciborium::Value::Integer(3.into()),
                ciborium::Value::Text("thumbprint".to_string()),
            )]),
        ),
        (8, ciborium::Value::Bytes(vec![0x01, 0x02])),
        (308, ciborium::Value::Integer(1.into())),
        (312, ciborium::Value::Text("3".to_string())),
        (319, ciborium::Value::Bytes(vec![0xaa])),
        (321, ciborium::Value::Bool(true)),
        (326, ciborium::Value::Array(vec![])),
        (9999, ciborium::Value::Integer(1.into())),
    ];

    for (claim_key, value) in smuggled {
        let encoded = mint_with_extra_claim(&key.signer, claim_key, value.clone());

        let decision = present(&hook, &[auth_token(encoded)]);

        assert!(
            !decision.is_allowed(),
            "claim {claim_key} encoded as {value:?} must be refused"
        );
    }
}

#[test]
fn a_load_bearing_claim_in_an_unsupported_encoding_is_refused() {
    let key = generate_key();
    let hook = hook(vec![AuthPublicKey::es256(key.pem)]);

    let future = (now_unix() + 3600) as f64;
    let unsupported = [
        (5, ciborium::Value::Float(future)),
        (5, ciborium::Value::Text(future.to_string())),
        (328, ciborium::Value::Text("300".to_string())),
        (328, ciborium::Value::Bool(true)),
        (328, ciborium::Value::Integer(300.into())),
    ];

    for (claim_key, value) in unsupported {
        let encoded = mint_with_extra_claim(&key.signer, claim_key, value.clone());
        let decision = present(&hook, &[auth_token(encoded)]);

        assert!(
            !decision.is_allowed(),
            "claim {claim_key} as {value:?} was dropped by the decoder and \
             must not be treated as absent"
        );
    }
}

#[test]
fn a_duplicated_claim_is_refused() {
    let key = generate_key();
    let hook = hook(vec![AuthPublicKey::es256(key.pem)]);

    for (claim_key, value) in [
        (1, ciborium::Value::Text("attacker".to_string())),
        (3, ciborium::Value::Integer(1.into())),
        (4, ciborium::Value::Integer((now_unix() + 60).into())),
        (327, ciborium::Value::Array(vec![])),
    ] {
        let encoded = mint_with_extra_claim(&key.signer, claim_key, value.clone());
        let decision = present(&hook, &[auth_token(encoded)]);

        assert!(
            !decision.is_allowed(),
            "a duplicated claim {claim_key} must be refused"
        );
    }
}

#[test]
fn a_not_yet_valid_token_is_refused() {
    let key = generate_key();
    let hook = hook(vec![AuthPublicKey::es256(key.pem)]);

    let mut token = base_token();
    token.core.nbf = Some(now_unix() + 3600);
    let encoded = encode_token(&token, &key.signer).unwrap();
    assert!(!present(&hook, &[auth_token(encoded)])
        .is_allowed());

    let encoded = mint_with_extra_claim(
        &key.signer,
        5,
        ciborium::Value::Float((now_unix() + 3600) as f64),
    );
    assert!(!present(&hook, &[auth_token(encoded)])
        .is_allowed());
}

#[test]
fn permitted_claims_are_accepted() {
    let key = generate_key();
    let hook = hook(vec![AuthPublicKey::es256(key.pem)]);

    let mut token = base_token();
    token.core.cti = Some(b"token-id".to_vec());
    token.informational.iat = Some(now_unix());
    token.cat.catv = Some(1);
    token.request.catr = Some(
        cat_token::CatRenewal::automatic()
            .with_expadd(600),
    );
    token.informational.catifdata = Some(vec!["data".to_string()]);

    let encoded = encode_token(&token, &key.signer).unwrap();
    assert!(present(&hook, &[auth_token(encoded)])
        .is_allowed());
}

#[test]
fn an_implausible_not_before_is_refused() {
    let key = generate_key();
    let hook = hook(vec![AuthPublicKey::es256(key.pem)]);

    for nbf in [
        i64::MIN,
        i64::MIN / 2,
        now_unix() - 10 * MAX_TOKEN_LIFETIME_SECS,
    ] {
        let mut token = CatToken::new()
            .with_issuer("test-issuer")
            .with_audience(vec!["test-relay".to_string()])
            .with_subject("test-subject")
            .with_expiration(in_seconds(3600))
            .with_moqt_scope(
                MoqtScopeBuilder::new()
                    .publisher()
                    .namespace_prefix(b"sports")
                    .track_prefix(b"")
                    .build(),
            )
            .with_moqt_scope(
                MoqtScopeBuilder::new()
                    .action(MoqtAction::ClientSetup)
                    .build(),
            );
        token.core.nbf = Some(nbf);

        let encoded = encode_token(&token, &key.signer).unwrap();
        let decision = present(&hook, &[auth_token(encoded)]);
        assert!(!decision.is_allowed(), "nbf {nbf} must be refused");
    }
}

#[test]
fn a_past_not_before_is_valid_but_total_lifetime_is_bounded() {
    let key = generate_key();
    let hook = hook(vec![AuthPublicKey::es256(key.pem)]);
    let now = now_unix();

    let mut live = base_token();
    live.core.nbf = Some(now - 3600);
    live.core.exp = Some(now + 3600);
    let encoded = encode_token(&live, &key.signer).unwrap();
    assert!(present(&hook, &[auth_token(encoded)])
        .is_allowed());

    let mut token = base_token();
    token.core.nbf = Some(now - MAX_TOKEN_LIFETIME_SECS + 60);
    token.core.exp = Some(now + MAX_TOKEN_LIFETIME_SECS - 60);

    let encoded = encode_token(&token, &key.signer).unwrap();
    let decision = present(&hook, &[auth_token(encoded)]);

    assert!(matches!(
        decision.deny_reason(),
        Some(DenyReason::TokenInvalid)
    ));
}

#[test]
fn signature_verifications_are_budgeted_per_session() {
    let generated: Vec<TestKey> = (0..MAX_SCOPE_AUTH_KEYS).map(|_| generate_key()).collect();
    let keys = generated
        .iter()
        .map(|key| AuthPublicKey::es256(key.pem.clone()))
        .collect();
    let hook = hook(keys);

    let attacker = generate_key();
    let mut tokens: Vec<AuthToken> = (0..MAX_SETUP_TOKENS)
        .map(|_| auth_token(publisher_token(&attacker.signer, &[b"sports"])))
        .collect();
    tokens.push(auth_token(publisher_token(
        &generated[0].signer,
        &[b"sports"],
    )));

    let decision = present(&hook, &tokens);
    assert!(
        !decision.is_allowed(),
        "a valid token after budget exhaustion must be unreachable"
    );
}

#[test]
fn the_budget_admits_the_honest_worst_case() {
    let generated: Vec<TestKey> = (0..MAX_SCOPE_AUTH_KEYS).map(|_| generate_key()).collect();
    let keys: Vec<AuthPublicKey> = generated
        .iter()
        .map(|key| AuthPublicKey::es256(key.pem.clone()))
        .collect();
    let hook = hook(keys);

    let token = publisher_token(&generated[MAX_SCOPE_AUTH_KEYS - 1].signer, &[b"sports"]);
    assert!(
        present(&hook, &[auth_token(token)])
            .is_allowed(),
        "one token against a full key set must fit the budget"
    );

    let elsewhere = generate_key();
    let tokens = vec![
        auth_token(publisher_token(&elsewhere.signer, &[b"sports"])),
        auth_token(publisher_token(
            &generated[MAX_SCOPE_AUTH_KEYS - 1].signer,
            &[b"sports"],
        )),
    ];
    assert!(
        present(&hook, &tokens)
            .is_allowed(),
        "two tokens against a full key set must fit the budget"
    );
}

#[test]
fn a_later_token_is_tried_when_an_earlier_one_fails() {
    let configured = generate_key();
    let other = generate_key();
    let hook = hook(vec![AuthPublicKey::es256(configured.pem)]);

    let unusable = auth_token(publisher_token(&other.signer, &[b"sports"]));
    let usable = auth_token(publisher_token(&configured.signer, &[b"sports"]));

    let decision = present(&hook, &[unusable, usable]);

    assert!(
        decision.is_allowed(),
        "the second token should have been tried"
    );
}

#[test]
fn subscribe_namespace_is_authorized_against_the_prefix() {
    let key = generate_key();
    let hook = hook(vec![AuthPublicKey::es256(key.pem)]);
    let principal = principal_for(&hook, subscriber_token(&key.signer, &[b"sports"]));

    let granted = ns("sports");
    assert!(decide(
        &hook,
        &principal,
        AuthzOperation::SubscribeNamespace { prefix: &granted }
    )
    .is_allowed());

    let other = ns("news");
    assert!(!decide(
        &hook,
        &principal,
        AuthzOperation::SubscribeNamespace { prefix: &other }
    )
    .is_allowed());
}

#[test]
fn a_namespace_below_the_granted_prefix_is_announceable() {
    let key = generate_key();
    let hook = hook(vec![AuthPublicKey::es256(key.pem)]);
    let principal = principal_for(&hook, subscriber_token(&key.signer, &[b"sports"]));

    for path in ["sports", "sports/football", "sports/football/match-42"] {
        let namespace = ns(path);
        assert!(
            decide(
                &hook,
                &principal,
                AuthzOperation::SubscribeNamespace { prefix: &namespace }
            )
            .is_allowed(),
            "{path} is under the granted prefix and must be announceable"
        );
    }

    let outside = ns("news/politics");
    assert!(
        !decide(
            &hook,
            &principal,
            AuthzOperation::SubscribeNamespace { prefix: &outside }
        )
        .is_allowed(),
        "a namespace outside the grant must not be announced"
    );
}

#[test]
fn a_nil_terminated_scope_hides_deeper_namespaces() {
    let key = generate_key();
    let hook = hook(vec![AuthPublicKey::es256(key.pem)]);

    let token = CatToken::new()
        .with_issuer("test-issuer")
        .with_audience(vec!["test-relay".to_string()])
        .with_subject("test-subject")
        .with_expiration(in_seconds(3600))
        .with_moqt_scope(
            MoqtScopeBuilder::new()
                .subscriber()
                .action(MoqtAction::ClientSetup)
                .namespace_exact(b"sports")
                .namespace_nil()
                .build(),
        );
    let encoded = encode_token(&token, &key.signer).unwrap();
    let principal = principal_for(&hook, encoded);

    let granted = ns("sports");
    assert!(
        decide(
            &hook,
            &principal,
            AuthzOperation::SubscribeNamespace { prefix: &granted }
        )
        .is_allowed(),
        "the exact namespace is granted"
    );

    let deeper = ns("sports/football");
    assert!(
        !decide(
            &hook,
            &principal,
            AuthzOperation::SubscribeNamespace { prefix: &deeper }
        )
        .is_allowed(),
        "a nil terminator must hide deeper namespaces from announcement"
    );
}

#[test]
fn a_token_expiring_mid_session_stops_authorizing_requests() {
    let key = generate_key();
    let hook = hook(vec![AuthPublicKey::es256(key.pem)]);

    let live = principal_for(&hook, publisher_token(&key.signer, &[b"sports"]));
    let namespace = ns("sports/football");

    assert!(decide(
        &hook,
        &live,
        AuthzOperation::PublishNamespace {
            namespace: &namespace
        }
    )
    .is_allowed());

    let expires_at = now_unix() - live.clock_skew - 60;
    let expired = CatPrincipal { expires_at, ..live };

    let decision = decide(
        &hook,
        &expired,
        AuthzOperation::PublishNamespace {
            namespace: &namespace,
        },
    );
    assert!(
        matches!(decision.deny_reason(), Some(DenyReason::TokenExpired)),
        "expected expiry, got {:?}",
        decision.deny_reason()
    );
}

#[test]
fn expiry_respects_the_clock_skew_tolerance() {
    let key = generate_key();
    let hook = hook(vec![AuthPublicKey::es256(key.pem)]);

    let live = principal_for(&hook, publisher_token(&key.signer, &[b"sports"]));
    let namespace = ns("sports/football");

    let expires_at = now_unix() - live.clock_skew / 2;
    let within_skew = CatPrincipal { expires_at, ..live };

    assert!(
        decide(
            &hook,
            &within_skew,
            AuthzOperation::PublishNamespace {
                namespace: &namespace
            }
        )
        .is_allowed(),
        "a token inside the skew window must still authorize"
    );
}

#[test]
fn a_token_without_an_expiry_is_refused() {
    let key = generate_key();
    let hook = hook(vec![AuthPublicKey::es256(key.pem)]);

    let token = CatToken::new()
        .with_issuer("test-issuer")
        .with_audience(vec!["test-relay".to_string()])
        .with_subject("test-subject")
        .with_moqt_scope(
            MoqtScopeBuilder::new()
                .publisher()
                .namespace_prefix(b"sports")
                .track_prefix(b"")
                .build(),
        )
        .with_moqt_scope(
            MoqtScopeBuilder::new()
                .action(MoqtAction::ClientSetup)
                .build(),
        );
    assert!(token.core.exp.is_none(), "fixture must omit exp");

    let encoded = encode_token(&token, &key.signer).unwrap();
    let decision = present(&hook, &[auth_token(encoded)]);

    assert!(matches!(
        decision.deny_reason(),
        Some(DenyReason::TokenInvalid)
    ));
}

#[test]
fn an_implausibly_distant_expiry_is_refused() {
    let key = generate_key();
    let hook = hook(vec![AuthPublicKey::es256(key.pem)]);

    for expires_in in [MAX_TOKEN_LIFETIME_SECS + 3600, 100 * 365 * 24 * 60 * 60] {
        let token = mint(&key.signer, &[b"sports"], true, None, expires_in);
        let decision = present(&hook, &[auth_token(token)]);

        assert!(
            !decision.is_allowed(),
            "expiry {expires_in}s away must be refused"
        );
    }

    let token = mint(
        &key.signer,
        &[b"sports"],
        true,
        None,
        MAX_TOKEN_LIFETIME_SECS - 60,
    );
    assert!(present(&hook, &[auth_token(token)])
        .is_allowed());
}

#[test]
fn clock_skew_is_clamped() {
    let key = generate_key();
    let config = ScopeAuthConfig::new(vec![AuthPublicKey::es256(key.pem)])
        .with_clock_skew(u64::MAX);

    let hook = CatAuthHook::new(&config, None).expect("hook builds");
    assert_eq!(hook.clock_skew(), MAX_CLOCK_SKEW_SECS);
}

#[test]
fn a_token_within_its_lifetime_keeps_authorizing() {
    let key = generate_key();
    let hook = hook(vec![AuthPublicKey::es256(key.pem)]);

    let live = principal_for(&hook, publisher_token(&key.signer, &[b"sports"]));
    let namespace = ns("sports/football");

    assert!(decide(
        &hook,
        &live,
        AuthzOperation::PublishNamespace {
            namespace: &namespace
        }
    )
    .is_allowed());
}

#[test]
fn a_principal_from_another_hook_is_a_fault_not_an_allow() {
    let key = generate_key();
    let hook = hook(vec![AuthPublicKey::es256(key.pem)]);

    let namespace = ns("sports/football");
    let operation = AuthzOperation::PublishNamespace { namespace: &namespace };

    let err = hook
        .on_request(None, &operation, Some(now_unix()))
        .expect_err("a foreign principal is a fault");
    assert!(matches!(err, AuthError::Backend(_)), "{err:?}");
}

#[test]
fn authorization_does_not_depend_on_the_relay_scope_string() {
    let key = generate_key();
    let hook = hook(vec![AuthPublicKey::es256(key.pem.clone())]);
    let principal = principal_for(&hook, publisher_token(&key.signer, &[b"sports"]));

    let namespace = ns("sports/football");
    let operation = AuthzOperation::PublishNamespace { namespace: &namespace };
    let elsewhere = CatAuthHook::new(
        &config(vec![AuthPublicKey::es256(key.pem)]),
        Some("a-completely-different-scope".to_string()),
    )
    .expect("hook builds");

    let denial = elsewhere.on_request(Some(&principal), &operation, Some(now_unix())).unwrap();
    assert!(denial.is_none());
}

#[test]
fn cat_errors_map_onto_deny_reasons() {
    assert!(matches!(
        map_cat_error(CatError::TokenExpired),
        DenyReason::TokenExpired
    ));
    assert!(matches!(
        map_cat_error(CatError::TokenNotYetValid),
        DenyReason::TokenExpired
    ));
    assert!(matches!(
        map_cat_error(CatError::InvalidIssuer),
        DenyReason::IssuerUnknown
    ));
    assert!(matches!(
        map_cat_error(CatError::SignatureVerificationFailed),
        DenyReason::TokenInvalid
    ));
    assert!(matches!(
        map_cat_error(CatError::InvalidTokenFormat),
        DenyReason::TokenMalformed
    ));
    assert!(matches!(
        map_cat_error(CatError::ReplayAttackDetected),
        DenyReason::TokenReplayed
    ));
    assert!(matches!(
        map_cat_error(CatError::MoqtActionNotAuthorized("x".into())),
        DenyReason::ScopeMismatch
    ));
}
