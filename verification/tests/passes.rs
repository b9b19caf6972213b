use cat_token::{
    encode_token, CatError, CatTokenBuilder, CryptographicAlgorithm, MoqtAction, MoqtScopeBuilder,
};
use moq_relay::auth::access_token::TokenKey;
use moq_relay::auth::c4m::{C4MAuthHook, C4MConfig, C4M_TOKEN_TYPE};
use blind_rsa_signatures::{Deterministic, PublicKey, Sha384, PSS};
use moq_relay::auth::types::{AuthBlob, AuthHook, AuthzOperation, DenyReason, SessionContext};
use moq_relay::namespace::TrackNamespace;
use moq_relay::privacypass::challenge::{
    ChallengeRegistry, ChallengeScope, MoqActionValue, TokenChallenge,
};
use moq_relay::privacypass::error::error_code;
use moq_relay::privacypass::hook::{
    parse_moq_scope, PrivacyPassAuthHook, TOKEN_TYPE_BLIND_RSA, TOKEN_TYPE_PBRS,
};
use moq_relay::privacypass::keys::{
    rsa_key_from_der, select_issuer_keys, DirectoryError, DirectoryKey,
};
use moq_relay::privacypass::stores::{
    find_public_key, issuer_public_key, public_key_from_spki_der, select_public_keys, IssuerTokenKey, LoadError,
    PublicKeyStore, ReplayCache, StoreError,
};
use moq_relay::privacypass::token::{decode_public_token, PublicToken, TokenDecodeError, TOKEN_LEN};
use moq_relay::privacypass::wire::{
    setup_challenge_reason, MoqAuthChallenge, MoqAuthChallengeError,
};
use base64::engine::general_purpose::{STANDARD, URL_SAFE_NO_PAD};
use base64::Engine;
use rsa::pkcs8::EncodePublicKey;
use rsa::pss::SigningKey;
use rsa::signature::{RandomizedSigner, SignatureEncoding};
use rsa::{BigUint, RsaPrivateKey};

const FIRST_PRIME: &str = "cd4d446a86afde85a01ccca7a608c53ec71dc98d5e03cd4ed3ca4b092ae974fa389b0d7778d051611fe2437cf41cd29d5eacef32b2e947d499cd1b5742fceef50c0f4b067473bb29e123f23826ac1dcf9e37aed776651f3019782a7412cc6402aa4ec23314d6375b7f8f45a3f405565175c368e8089d0280a86c7035c601c919";
const SECOND_PRIME: &str = "f2279a9a0cb844dddd14ef309f1907ac45a5fc55ae2165299e21f35c56ae679426f2b7f550890dc491a9ec67d4f84e9eee8404f46bd86e1e810ddf094bbd1ca74d8fb8c680ebe56e01f675f38f12375f051f3910edc0de89cd2219fa72d5671cc0cdc7d174b466db262b7565fb9af15e4775d1048c82de77b66b0b01dab92e8b";

fn signing_key() -> RsaPrivateKey {
    let p = BigUint::parse_bytes(FIRST_PRIME.as_bytes(), 16).unwrap();
    let q = BigUint::parse_bytes(SECOND_PRIME.as_bytes(), 16).unwrap();
    RsaPrivateKey::from_p_q(p, q, BigUint::from(65537u32)).unwrap()
}

fn plain_spki() -> Vec<u8> {
    signing_key().to_public_key().to_public_key_der().unwrap().as_bytes().to_vec()
}

fn pss_spki() -> Vec<u8> {
    PublicKey::<Sha384, PSS, Deterministic>::from_der(&plain_spki()).unwrap().to_spki().unwrap()
}

fn signed_token(token_type: u16) -> Vec<u8> {
    let mut token = token_type.to_be_bytes().to_vec();
    token.extend(vec![1u8; 32]);
    token.extend(vec![2u8; 32]);
    token.extend(vec![3u8; 32]);
    let signer = SigningKey::<sha2::Sha384>::new_with_salt_len(signing_key(), 0);
    let signature = signer.sign_with_rng(&mut rand::thread_rng(), &token);
    token.extend(signature.to_vec());
    assert_eq!(token.len(), TOKEN_LEN);
    token
}

fn ns(path: &str) -> TrackNamespace {
    TrackNamespace::new(path.split('/').map(|f| f.as_bytes().to_vec()).collect())
}

#[test]
fn namespace_prefix_matches_on_tuple_boundaries() {
    let scope = ChallengeScope::subscribe_namespace_prefix(&ns("sports/live"));
    let ok = ns("sports/live/soccer");
    let wrong = ns("sports/livestream");

    assert!(scope.allows(&AuthzOperation::Subscribe { namespace: &ok, track: b"video" }));
    assert!(!scope.allows(&AuthzOperation::Subscribe { namespace: &wrong, track: b"video" }));
}

#[test]
fn scope_origin_info_is_draft_binary() {
    let scope = ChallengeScope::publish_namespace_prefix(&ns("clock"));
    let encoded = scope.encode_origin_info();
    assert_eq!(usize::from(encoded[0]), encoded.len() - 1);
    assert_eq!(encoded[1], 2);
    assert_eq!(encoded[2], MoqActionValue::PublishNamespace.to_u8());
    assert_eq!(encoded[3], MoqActionValue::Publish.to_u8());
    assert_eq!(
        scope.authorization_info().to_text(),
        "MoQAuthorizationInfo { scopes: [MoQAuthScope { actions: [PublishNamespace, Publish], \
         namespace: Prefix([[99, 108, 111, 99, 107]]), track: Prefix([]) }] }"
    );
}

#[test]
fn auth_challenge_round_trips_raw_reason_bytes() {
    let challenge = TokenChallenge {
        token_type: 2,
        issuer_name: b"demo-pat.issuer.cloudflare.com".to_vec(),
        redemption_context: Vec::new(),
        origin_info: b"moq-demo".to_vec(),
    };
    let auth = MoqAuthChallenge::new(vec![challenge]).unwrap();
    let encoded = auth.encode_for_reason_phrase().unwrap();
    let decoded = MoqAuthChallenge::decode_from_reason_phrase(&encoded).unwrap();
    assert_eq!(decoded.challenges().len(), 1);
    let challenge = &decoded.challenges()[0];
    assert_eq!(challenge.token_type, 2);
    assert_eq!(challenge.issuer_name, b"demo-pat.issuer.cloudflare.com");
    assert!(challenge.redemption_context.is_empty());
    assert_eq!(challenge.origin_info, b"moq-demo");
}

#[test]
fn challenges_have_one_form() {
    let list = MoqAuthChallenge::new(vec![TokenChallenge {
        token_type: 2,
        issuer_name: b"is".to_vec(),
        redemption_context: Vec::new(),
        origin_info: b"moq".to_vec(),
    }])
    .unwrap();
    let encoded = list.encode_for_reason_phrase().unwrap();
    assert_eq!(encoded, [0, 12, 0, 2, 0, 2, b'i', b's', 0, 0, 3, b'm', b'o', b'q']);

    assert!(matches!(MoqAuthChallenge::new(Vec::new()), Err(MoqAuthChallengeError::Empty)));
    assert!(matches!(
        MoqAuthChallenge::decode_from_reason_phrase(&[0, 0]),
        Err(MoqAuthChallengeError::Empty)
    ));
    let mut longer = encoded.clone();
    longer.push(0);
    assert!(matches!(
        MoqAuthChallenge::decode_from_reason_phrase(&longer),
        Err(MoqAuthChallengeError::Decode)
    ));
    assert!(matches!(
        MoqAuthChallenge::decode_from_reason_phrase(&encoded[..8]),
        Err(MoqAuthChallengeError::Decode)
    ));
    let large = MoqAuthChallenge::new(vec![TokenChallenge {
        token_type: 2,
        issuer_name: Vec::new(),
        redemption_context: Vec::new(),
        origin_info: vec![0; 0xffff],
    }])
    .unwrap();
    assert!(matches!(large.encode_for_reason_phrase(), Err(MoqAuthChallengeError::Encode)));
}

#[test]
fn a_peer_without_a_token_is_sent_a_challenge() {
    let reason = setup_challenge_reason("issuer.example").unwrap();
    let bytes = URL_SAFE_NO_PAD.decode(reason).unwrap();
    let decoded = MoqAuthChallenge::decode_from_reason_phrase(&bytes).unwrap();
    let challenge = &decoded.challenges()[0];
    assert_eq!(challenge.issuer_name, b"issuer.example");
    assert_eq!(challenge.origin_info, ChallengeScope::setup().encode_origin_info());
    assert!(ChallengeScope::setup().allows_setup());
}

#[test]
fn challenges_last_their_time() {
    let mut registry = ChallengeRegistry::new(1_000);
    registry.insert(b"digest", ChallengeScope::setup(), 500);
    assert!(registry.get(b"other", 600).is_none());
    assert!(registry.get(b"digest", 1_499).unwrap().allows_setup());
    assert!(registry.get(b"digest", 1_501).is_none());
    assert!(registry.get(b"digest", 600).is_none());
}

#[test]
fn reasons_have_numbers() {
    assert_eq!(error_code(&DenyReason::TokenMissing), 0x100);
    assert_eq!(error_code(&DenyReason::TokenInvalid), 0x101);
    assert_eq!(error_code(&DenyReason::TokenExpired), 0x102);
    assert_eq!(error_code(&DenyReason::TokenReplayed), 0x103);
    assert_eq!(error_code(&DenyReason::ScopeMismatch), 0x104);
    assert_eq!(error_code(&DenyReason::IssuerUnknown), 0x105);
    assert_eq!(error_code(&DenyReason::TokenMalformed), 0x106);
}

#[test]
fn tokens_are_read_field_by_field() {
    let bytes = signed_token(2);
    let token = decode_public_token(&bytes).unwrap();
    assert_eq!(token.nonce, vec![1; 32]);
    assert_eq!(token.challenge_digest, vec![2; 32]);
    assert_eq!(token.token_key_id, vec![3; 32]);
    assert_eq!(token.authenticator, bytes[98..]);
    assert_eq!(token.authenticator_input(), bytes[..98]);
    assert!(PublicToken::decode(&bytes[..353]).is_none());
    assert_eq!(PublicToken::decode(&bytes).unwrap().1, TOKEN_LEN);

    let mut longer = bytes.clone();
    longer.push(0);
    assert!(matches!(decode_public_token(&longer), Err(TokenDecodeError::Malformed)));
    let mut other = bytes;
    other[1] = 9;
    assert!(matches!(decode_public_token(&other), Err(TokenDecodeError::UnsupportedType)));
}

fn session() -> SessionContext {
    SessionContext { session_id: 1, connection_path: None, peer: "127.0.0.1:4443".to_string() }
}

fn reason_of(hook: &PrivacyPassAuthHook, tokens: &[AuthBlob]) -> Option<String> {
    let decision = hook.on_setup(&session(), tokens).unwrap();
    match decision.verdict {
        moq_relay::auth::types::Verdict::Allow => None,
        moq_relay::auth::types::Verdict::Deny(reason) => Some(reason.to_text()),
    }
}

#[test]
fn a_signed_token_is_admitted() {
    let key = rsa_key_from_der(&plain_spki()).unwrap();
    let hook = PrivacyPassAuthHook::new(vec![key], Vec::new()).with_setup_required(true);
    let token = signed_token(2);
    let blob = |value: Vec<u8>| AuthBlob { token_type: TOKEN_TYPE_BLIND_RSA, token_value: value };

    let decision = hook.on_setup(&session(), &[blob(token.clone())]).unwrap();
    assert!(decision.is_allowed());
    assert_eq!(decision.principal.as_deref(), Some("privacy-pass"));

    let mut forged = token.clone();
    forged[40] ^= 1;
    assert_eq!(reason_of(&hook, &[blob(forged)]), Some(DenyReason::TokenInvalid.to_text()));
    assert_eq!(
        reason_of(&hook, &[blob(token[..100].to_vec())]),
        Some(DenyReason::TokenMalformed.to_text())
    );
    assert_eq!(reason_of(&hook, &[]), Some(DenyReason::TokenMissing.to_text()));
    let open = PrivacyPassAuthHook::new(Vec::new(), Vec::new()).with_setup_required(false);
    assert_eq!(reason_of(&open, &[]), None);
    assert_eq!(reason_of(&open, &[blob(token)]), Some(DenyReason::TokenInvalid.to_text()));
}

#[test]
fn partially_blind_tokens_wait_for_derived_keys() {
    let mut token = signed_token(0xda7a);
    token.extend([0, 8, 0, 1, 0, 4]);
    token.extend(b"room");
    let hook = PrivacyPassAuthHook::new(Vec::new(), vec![pss_spki()]);
    let blob = AuthBlob { token_type: TOKEN_TYPE_PBRS, token_value: token.clone() };
    assert!(hook.on_setup(&session(), &[blob]).is_none());
    assert_eq!(
        PrivacyPassAuthHook::extensions(&token).unwrap(),
        [0, 8, 0, 1, 0, 4, b'r', b'o', b'o', b'm']
    );

    let redemption = PrivacyPassAuthHook::verify_pbrs(&token, &vec![None, Some(plain_spki())]);
    assert!(redemption.decision.is_allowed());
    assert_eq!(redemption.decision.principal.as_deref(), Some("privacy-pass-pbrs"));
    assert_eq!(redemption.scope.as_deref(), Some("room"));

    let redemption = PrivacyPassAuthHook::verify_pbrs(&token, &vec![None]);
    assert!(!redemption.decision.is_allowed());
    assert!(redemption.scope.is_none());
}

#[test]
fn scopes_are_read_out_of_extensions() {
    assert_eq!(parse_moq_scope(&[0, 6, 0, 1, 0, 2, b'h', b'i']).as_deref(), Some("hi"));
    assert_eq!(
        parse_moq_scope(&[0, 11, 0, 2, 0, 1, 9, 0, 1, 0, 2, b'h', b'i']).as_deref(),
        Some("hi")
    );
    assert_eq!(parse_moq_scope(&[0, 6, 0, 1, 0, 2, 0xff, 0xff]), None);
    assert_eq!(parse_moq_scope(&[0, 4, 0, 1, 0, 2, b'h', b'i']), None);
    assert_eq!(parse_moq_scope(&[0]), None);
    assert_eq!(parse_moq_scope(&[0, 9, 0, 1]), None);
}

#[test]
fn keys_with_parameters_of_their_own_are_read() {
    let plain = rsa_key_from_der(&plain_spki()).unwrap();
    let with_parameters = rsa_key_from_der(&pss_spki()).unwrap();
    assert_eq!(plain.modulus, with_parameters.modulus);
    assert_eq!(plain.exponent, vec![1, 0, 1]);
    assert_eq!(with_parameters.exponent, vec![1, 0, 1]);
    assert_eq!(plain.modulus.len(), 256);
    assert!(rsa_key_from_der(b"no key").is_none());
}

fn entry(token_type: u64, token_key: &str) -> DirectoryKey {
    DirectoryKey {
        token_type,
        token_key: Some(token_key.to_string()),
        parses_as_pbrs: true,
    }
}

#[test]
fn directories_give_keys() {
    let url = URL_SAFE_NO_PAD.encode(pss_spki());
    let padded = STANDARD.encode(plain_spki());
    let keys = select_issuer_keys(&vec![
        entry(TOKEN_TYPE_BLIND_RSA, &url),
        DirectoryKey { token_type: TOKEN_TYPE_BLIND_RSA, token_key: None, parses_as_pbrs: false },
        entry(TOKEN_TYPE_BLIND_RSA, &padded),
        entry(TOKEN_TYPE_PBRS, &url),
        entry(7, &url),
    ])
    .unwrap();
    assert_eq!(keys.blind_rsa_keys.len(), 2);
    assert_eq!(keys.blind_rsa_keys[0].modulus, keys.blind_rsa_keys[1].modulus);
    assert_eq!(keys.pbrs_keys, vec![pss_spki()]);

    assert!(matches!(
        select_issuer_keys(&vec![entry(TOKEN_TYPE_BLIND_RSA, "***")]),
        Err(DirectoryError::NotBase64)
    ));
    assert!(matches!(
        select_issuer_keys(&vec![entry(TOKEN_TYPE_BLIND_RSA, "bm8")]),
        Err(DirectoryError::NotSpki)
    ));
    assert!(matches!(select_issuer_keys(&vec![entry(7, &url)]), Err(DirectoryError::NoKeys)));
    let elliptic = p256::ecdsa::SigningKey::random(&mut rand::thread_rng());
    let elliptic = p256::pkcs8::EncodePublicKey::to_public_key_der(elliptic.verifying_key());
    let elliptic = URL_SAFE_NO_PAD.encode(elliptic.unwrap().as_bytes());
    assert!(matches!(
        select_issuer_keys(&vec![entry(TOKEN_TYPE_BLIND_RSA, &elliptic)]),
        Err(DirectoryError::NotRsa)
    ));
    let unparsed = DirectoryKey { parses_as_pbrs: false, ..entry(TOKEN_TYPE_PBRS, &url) };
    assert!(matches!(select_issuer_keys(&vec![unparsed]), Err(DirectoryError::NotPbrs)));
    let unparsed = DirectoryKey { parses_as_pbrs: false, ..entry(TOKEN_TYPE_BLIND_RSA, &url) };
    assert!(select_issuer_keys(&vec![unparsed]).is_ok());
}

#[test]
fn public_keys_are_stored_by_identifier() {
    let key = public_key_from_spki_der(&pss_spki()).unwrap();
    assert_eq!(key.der, pss_spki());
    assert!(matches!(public_key_from_spki_der(&plain_spki()), Err(StoreError::InvalidPublicKey)));

    let mut store = PublicKeyStore::new();
    assert!(store.get(7).is_empty());
    store.insert(7, key);
    assert_eq!(store.get(7)[0].der, pss_spki());
    assert!(store.get(8).is_empty());
    assert!(store.remove(7));
    assert!(!store.remove(7));

    let key = || public_key_from_spki_der(&pss_spki()).unwrap();
    assert!(matches!(store.insert_public_key(None, key()), Err(StoreError::InvalidPublicKey)));
    assert!(store.insert_public_key(Some(9), key()).is_ok());
    assert_eq!(store.get(9).len(), 1);
}

#[test]
fn directories_give_public_keys() {
    let key = |token_type: u16, token_key: String| IssuerTokenKey { token_type, token_key };
    let url = URL_SAFE_NO_PAD.encode(pss_spki());
    let directory = vec![key(1, "x".to_string()), key(2, url.clone())];
    let keys = select_public_keys(&directory).unwrap();
    assert_eq!(keys.len(), 1);
    assert_eq!(keys[0].der, pss_spki());
    assert_eq!(find_public_key(&directory).unwrap().token_key, url);

    assert!(matches!(
        select_public_keys(&vec![key(2, "***".to_string())]),
        Err(LoadError::NotBase64)
    ));
    assert!(matches!(
        select_public_keys(&vec![key(2, "bm8".to_string())]),
        Err(LoadError::InvalidPublicKey)
    ));
    assert!(matches!(select_public_keys(&vec![key(1, url)]), Err(LoadError::NoKeys)));
}

#[test]
fn clients_ask_with_the_first_public_key() {
    let key = |token_type: u16, token_key: &str| IssuerTokenKey {
        token_type,
        token_key: token_key.to_string(),
    };
    let good = URL_SAFE_NO_PAD.encode(pss_spki());
    let directory = vec![key(1, "***"), key(2, &good), key(2, "***")];
    assert_eq!(issuer_public_key(&directory).unwrap().der, pss_spki());
    assert!(matches!(select_public_keys(&directory), Err(LoadError::NotBase64)));

    assert!(matches!(
        issuer_public_key(&vec![key(2, "***"), key(2, &good)]),
        Err(LoadError::NotBase64)
    ));
    assert!(matches!(
        issuer_public_key(&vec![key(2, "bm8"), key(2, &good)]),
        Err(LoadError::InvalidPublicKey)
    ));
    assert!(matches!(issuer_public_key(&vec![key(1, &good)]), Err(LoadError::NoKeys)));

    let directory = vec![key(2, &good)];
    assert_eq!(
        issuer_public_key(&directory).unwrap().der,
        select_public_keys(&directory).unwrap()[0].der
    );
}

#[test]
fn nonces_are_used_once() {
    let mut cache = ReplayCache::new();
    assert!(cache.reserve(b"n1"));
    assert!(!cache.reserve(b"n1"));
    assert!(cache.reserve(b"n2"));
    cache.release(b"n1");
    assert!(cache.reserve(b"n1"));
    cache.commit(b"n1");
    cache.release(b"n1");
    assert!(!cache.reserve(b"n1"));
}

/// Signs with PS256.
struct Ps256Signer;

impl CryptographicAlgorithm for Ps256Signer {
    fn sign(&self, data: &[u8]) -> Result<Vec<u8>, CatError> {
        let signer = SigningKey::<sha2::Sha256>::new(signing_key());
        Ok(signer.sign_with_rng(&mut rand::thread_rng(), data).to_vec())
    }

    fn verify(&self, _data: &[u8], _signature: &[u8]) -> Result<(), CatError> {
        Ok(())
    }

    fn algorithm_id(&self) -> i64 {
        cat_token::ALG_PS256
    }
}

#[test]
fn rsa_keys_verify_access_tokens() {
    let scope = MoqtScopeBuilder::new().action(MoqtAction::ClientSetup).build();
    let token = CatTokenBuilder::new().subject("peer").expires_in(3600).moqt_scope(scope).build();
    let blob = |token_value| vec![AuthBlob { token_type: C4M_TOKEN_TYPE, token_value }];
    let ctx = SessionContext {
        session_id: 1,
        connection_path: None,
        peer: "127.0.0.1:4443".to_string(),
    };
    let pem = signing_key().to_public_key().to_public_key_pem(Default::default()).unwrap();
    let hook = C4MAuthHook::new(C4MConfig::new(TokenKey::Ps256(pem)));
    let signed = encode_token(&token, &Ps256Signer).unwrap();
    let decision = hook.on_setup(&ctx, &blob(signed.clone())).unwrap();
    assert!(decision.is_allowed());
    assert_eq!(decision.principal.as_deref(), Some("peer"));

    let mut tampered = signed;
    *tampered.last_mut().unwrap() ^= 1;
    assert!(!hook.on_setup(&ctx, &blob(tampered)).unwrap().is_allowed());

    let unreadable = C4MAuthHook::new(C4MConfig::new(TokenKey::Ps256("no key".to_string())));
    let signed = encode_token(&token, &Ps256Signer).unwrap();
    assert!(!unreadable.on_setup(&ctx, &blob(signed)).unwrap().is_allowed());
}
