//! The hook that redeems Privacy Pass tokens.

use vstd::prelude::*;
use vstd::utf8;
use crate::auth::cose::{self, text_from_utf8};
use crate::auth::types::{
    self, AuthBlob, AuthBlobView, AuthDecision, AuthDecisionView, AuthHook, DenyReason,
    DenyReasonView, RequestContext, SessionContext,
};
use crate::bytes;
use crate::privacypass::framing::{self, read_u16, slice_of};
use crate::privacypass::keys::{self, rsa_key_from_der, RsaKey, RsaKeyView};
use crate::privacypass::token::{self, PublicToken, TOKEN_LEN};
use crate::privacypass::wire;

verus! {

/// The token type of tokens with blind signatures.
pub const TOKEN_TYPE_BLIND_RSA: u64 = 0x0002;

/// The token type of tokens with partially blind signatures.
pub const TOKEN_TYPE_PBRS: u64 = 0xda7a;

/// The type of the extension that holds the scope of a token.
pub const SCOPE_EXTENSION: u16 = 0x0001;

/// Whether a token type is one of Privacy Pass.
pub open spec fn is_pass_type(token_type: u64) -> bool {
    token_type == TOKEN_TYPE_BLIND_RSA || token_type == TOKEN_TYPE_PBRS
}

/// The place of the first Privacy Pass token.
pub open spec fn first_pass(tokens: Seq<AuthBlobView>, n: int) -> Option<int>
    decreases n,
{
    if n <= 0 {
        None
    } else {
        match first_pass(tokens, n - 1) {
            Some(i) => Some(i),
            None => if is_pass_type(tokens[n - 1].token_type) {
                Some(n - 1)
            } else {
                None
            },
        }
    }
}

/// The first Privacy Pass token, if there is one.
pub open spec fn pass_in(tokens: Seq<AuthBlobView>) -> Option<Seq<u8>> {
    match first_pass(tokens, tokens.len() as int) {
        Some(i) => Some(tokens[i].token_value),
        None => None,
    }
}

proof fn lemma_first_pass_stays(tokens: Seq<AuthBlobView>, m: int, n: int)
    requires
        0 <= m <= n,
        first_pass(tokens, m) is Some,
    ensures
        first_pass(tokens, n) == first_pass(tokens, m),
    decreases n,
{
    if m < n {
        lemma_first_pass_stays(tokens, m, n - 1);
    }
}

/// The first Privacy Pass token, if there is one.
pub fn find_pass<'a>(tokens: &'a [AuthBlob]) -> (r: Option<&'a AuthBlob>)
    ensures
        match r {
            Some(blob) => pass_in(types::blobs_view(tokens@)) == Some(blob.token_value@),
            None => pass_in(types::blobs_view(tokens@)) is None,
        },
{
    let ghost all = types::blobs_view(tokens@);
    let n: usize = tokens.len();
    let mut i: usize = 0;
    while i < n
        invariant
            i <= n,
            n == tokens@.len(),
            all == types::blobs_view(tokens@),
            first_pass(all, i as int) is None,
        decreases n - i,
    {
        assert(all[i as int] == tokens@[i as int]@);
        if tokens[i].token_type == TOKEN_TYPE_BLIND_RSA || tokens[i].token_type
            == TOKEN_TYPE_PBRS {
            proof {
                lemma_first_pass_stays(all, i + 1, n as int);
            }
            return Some(&tokens[i]);
        }
        i += 1;
    }
    None
}

/// The scope that the extensions hold from `at` on. They end at `end`.
pub open spec fn scope_from(extensions: Seq<u8>, at: int, end: int) -> Option<Seq<char>>
    decreases end - at,
{
    if at < 0 || at + 4 > end {
        None
    } else {
        let data_at = at + 4;
        let data_end = data_at + framing::u16_at(extensions, at + 2);
        if data_end > end {
            None
        } else {
            let data = extensions.subrange(data_at, data_end);
            if framing::u16_at(extensions, at) == SCOPE_EXTENSION && utf8::valid_utf8(data) {
                Some(utf8::decode_utf8(data))
            } else {
                scope_from(extensions, data_end, end)
            }
        }
    }
}

/// The scope that extensions hold: a length, then extensions one after the other, each a type, a
/// length and data.
pub open spec fn scope_in(extensions: Seq<u8>) -> Option<Seq<char>> {
    if extensions.len() < 2 || extensions.len() < 2 + framing::u16_at(extensions, 0) {
        None
    } else {
        scope_from(extensions, 2, 2 + framing::u16_at(extensions, 0) as int)
    }
}

/// The scope that extensions hold. Extensions of other types, and scopes that are no text, are
/// passed over.
pub fn parse_moq_scope(extensions: &[u8]) -> (r: Option<String>)
    ensures
        cose::text_view(r) == scope_in(extensions@),
{
    if extensions.len() < 2 {
        return None;
    }
    let total: usize = read_u16(extensions, 0) as usize;
    if extensions.len() < 2 + total {
        return None;
    }
    let end: usize = 2 + total;
    let mut at: usize = 2;
    while at + 4 <= end
        invariant
            end <= extensions@.len() <= usize::MAX,
            at <= end <= 0x10001,
            scope_in(extensions@) == scope_from(extensions@, at as int, end as int),
        decreases end - at,
    {
        let extension_type: u16 = read_u16(extensions, at);
        let size: usize = read_u16(extensions, at + 2) as usize;
        let data_at: usize = at + 4;
        if size > end - data_at {
            return None;
        }
        if extension_type == SCOPE_EXTENSION {
            if let Some(text) = text_from_utf8(slice_of(extensions, data_at, data_at + size)) {
                return Some(text);
            }
        }
        at = data_at + size;
    }
    None
}

/// The hook that redeems Privacy Pass tokens.
#[derive(Debug)]
pub struct PrivacyPassAuthHook {
    blind_rsa_keys: Vec<RsaKey>,
    pbrs_keys: Vec<Vec<u8>>,
    setup_required: bool,
}

/// The hook that redeems Privacy Pass tokens: the keys of the issuers, and whether a session needs
/// a token.
#[verifier::ext_equal]
pub struct PrivacyPassHookView {
    pub blind_rsa_keys: Seq<RsaKeyView>,
    pub pbrs_keys: Seq<Seq<u8>>,
    pub setup_required: bool,
}

impl View for PrivacyPassAuthHook {
    type V = PrivacyPassHookView;

    closed spec fn view(&self) -> PrivacyPassHookView {
        PrivacyPassHookView {
            blind_rsa_keys: keys::keys_view(self.blind_rsa_keys@),
            pbrs_keys: bytes::tuple_view(self.pbrs_keys@),
            setup_required: self.setup_required,
        }
    }
}

/// One of the keys signed a token.
pub open spec fn signed_by_one(signers: Seq<RsaKeyView>, data: Seq<u8>) -> bool {
    exists|i: int|
        0 <= i < signers.len() && (#[trigger] signers[i]).verifies(
            token::token_in(data).signed(),
            token::token_in(data).authenticator,
        )
}

/// A derived key, if it is one, signed a token.
pub open spec fn derived_key_signed(derived: Option<Seq<u8>>, data: Seq<u8>) -> bool {
    match derived {
        Some(der) => match keys::rsa_key_in(der) {
            Some(key) => key.verifies(
                token::token_in(data).signed(),
                token::token_in(data).authenticator,
            ),
            None => false,
        },
        None => false,
    }
}

/// The contents of the keys that were derived. A derivation that failed is `None`.
pub open spec fn derived_view(derived: Seq<Option<Vec<u8>>>) -> Seq<Option<Seq<u8>>> {
    derived.map_values(|der: Option<Vec<u8>>| wire::bytes_view(der))
}

/// A decision that denies.
pub open spec fn denied(reason: DenyReasonView) -> AuthDecisionView {
    AuthDecisionView { denial: Some(reason), principal: None }
}

/// A decision that allows.
pub open spec fn allowed_as(principal: Seq<char>) -> AuthDecisionView {
    AuthDecisionView { denial: None, principal: Some(principal) }
}

/// The decision on a token with a blind signature.
pub open spec fn blind_decision(signers: Seq<RsaKeyView>, data: Seq<u8>) -> AuthDecisionView {
    if data.len() < TOKEN_LEN {
        denied(DenyReasonView::TokenMalformed)
    } else if signed_by_one(signers, data) {
        allowed_as("privacy-pass"@)
    } else {
        denied(DenyReasonView::TokenInvalid)
    }
}

/// The decision on a token with a partially blind signature, with the keys that were derived for
/// its extensions.
pub open spec fn pbrs_decision(data: Seq<u8>, derived: Seq<Option<Seq<u8>>>) -> AuthDecisionView {
    if data.len() <= TOKEN_LEN {
        denied(DenyReasonView::TokenMalformed)
    } else if exists|i: int|
        0 <= i < derived.len() && derived_key_signed(#[trigger] derived[i], data) {
        allowed_as("privacy-pass-pbrs"@)
    } else {
        denied(DenyReasonView::TokenInvalid)
    }
}

/// The decision on a token. `None` if keys have to be derived for it.
pub open spec fn token_decision(signers: Seq<RsaKeyView>, data: Seq<u8>) -> Option<
    AuthDecisionView,
> {
    if data.len() < 2 {
        Some(denied(DenyReasonView::TokenMalformed))
    } else if framing::u16_at(data, 0) == TOKEN_TYPE_BLIND_RSA {
        Some(blind_decision(signers, data))
    } else if framing::u16_at(data, 0) == TOKEN_TYPE_PBRS {
        if data.len() <= TOKEN_LEN {
            Some(denied(DenyReasonView::TokenMalformed))
        } else {
            None
        }
    } else {
        Some(denied(DenyReasonView::TokenMalformed))
    }
}

impl PrivacyPassHookView {
    /// The decision on a session. `None` if keys have to be derived for its token.
    pub open spec fn setup_decision(self, tokens: Seq<AuthBlobView>) -> Option<AuthDecisionView> {
        match pass_in(tokens) {
            Some(data) => token_decision(self.blind_rsa_keys, data),
            None => if self.setup_required {
                Some(denied(DenyReasonView::TokenMissing))
            } else {
                Some(AuthDecisionView { denial: None, principal: None })
            },
        }
    }

    /// The decision on a request. `None` if keys have to be derived for its token.
    pub open spec fn request_decision(self, tokens: Seq<AuthBlobView>) -> Option<
        AuthDecisionView,
    > {
        match pass_in(tokens) {
            Some(data) => token_decision(self.blind_rsa_keys, data),
            None => Some(AuthDecisionView { denial: None, principal: None }),
        }
    }
}

/// The contents of a decision that may be missing.
pub open spec fn decision_view(decision: Option<AuthDecision>) -> Option<AuthDecisionView> {
    match decision {
        Some(decision) => Some(decision@),
        None => None,
    }
}

/// What redeeming a token with a partially blind signature gave.
#[derive(Debug)]
pub struct Redemption {
    pub decision: AuthDecision,
    /// The scope of a token that was accepted.
    pub scope: Option<String>,
}

impl PrivacyPassAuthHook {
    /// A hook for the keys of issuers. Sessions need a token.
    pub fn new(blind_rsa_keys: Vec<RsaKey>, pbrs_keys: Vec<Vec<u8>>) -> (r: Self)
        ensures
            r@ == (PrivacyPassHookView {
                blind_rsa_keys: keys::keys_view(blind_rsa_keys@),
                pbrs_keys: bytes::tuple_view(pbrs_keys@),
                setup_required: true,
            }),
    {
        PrivacyPassAuthHook { blind_rsa_keys, pbrs_keys, setup_required: true }
    }

    /// The hook with sessions needing a token or not.
    pub fn with_setup_required(self, required: bool) -> (r: Self)
        ensures
            r@ == (PrivacyPassHookView { setup_required: required, ..self@ }),
    {
        PrivacyPassAuthHook {
            blind_rsa_keys: self.blind_rsa_keys,
            pbrs_keys: self.pbrs_keys,
            setup_required: required,
        }
    }

    /// Replaces the keys of the issuers.
    pub fn update_keys(&mut self, blind_rsa_keys: Vec<RsaKey>, pbrs_keys: Vec<Vec<u8>>)
        ensures
            final(self)@ == (PrivacyPassHookView {
                blind_rsa_keys: keys::keys_view(blind_rsa_keys@),
                pbrs_keys: bytes::tuple_view(pbrs_keys@),
                ..old(self)@
            }),
    {
        self.blind_rsa_keys = blind_rsa_keys;
        self.pbrs_keys = pbrs_keys;
    }

    /// The encoded keys for partially blind signatures.
    pub fn pbrs_keys(&self) -> (r: &Vec<Vec<u8>>)
        ensures
            bytes::tuple_view(r@) == self@.pbrs_keys,
    {
        &self.pbrs_keys
    }

    /// Decides on a token. `None` if keys have to be derived for it.
    pub fn verify_token(&self, token_bytes: &[u8]) -> (r: Option<AuthDecision>)
        ensures
            decision_view(r) == token_decision(self@.blind_rsa_keys, token_bytes@),
    {
        if token_bytes.len() < 2 {
            return Some(AuthDecision::deny(DenyReason::TokenMalformed));
        }
        let token_type: u64 = read_u16(token_bytes, 0) as u64;
        if token_type == TOKEN_TYPE_BLIND_RSA {
            Some(self.verify_blind_rsa(token_bytes))
        } else if token_type == TOKEN_TYPE_PBRS {
            if token_bytes.len() <= TOKEN_LEN {
                Some(AuthDecision::deny(DenyReason::TokenMalformed))
            } else {
                None
            }
        } else {
            Some(AuthDecision::deny(DenyReason::TokenMalformed))
        }
    }

    /// Decides on a token with a blind signature.
    pub fn verify_blind_rsa(&self, token_bytes: &[u8]) -> (r: AuthDecision)
        ensures
            r@ == blind_decision(self@.blind_rsa_keys, token_bytes@),
    {
        let token = match PublicToken::decode(token_bytes) {
            Some((token, _)) => token,
            None => {
                return AuthDecision::deny(DenyReason::TokenMalformed);
            },
        };
        let signed = token.authenticator_input();
        let ghost signers = self@.blind_rsa_keys;
        let mut i: usize = 0;
        while i < self.blind_rsa_keys.len()
            invariant
                i <= self.blind_rsa_keys@.len(),
                signers == keys::keys_view(self.blind_rsa_keys@),
                signers == self@.blind_rsa_keys,
                token_bytes@.len() >= TOKEN_LEN,
                token@ == token::token_in(token_bytes@),
                signed@ == token@.signed(),
                forall|k: int|
                    0 <= k < i ==> !(#[trigger] signers[k]).verifies(
                        signed@,
                        token@.authenticator,
                    ),
            decreases self.blind_rsa_keys@.len() - i,
        {
            assert(signers[i as int] == self.blind_rsa_keys@[i as int]@);
            if self.blind_rsa_keys[i].verify(signed.as_slice(), token.authenticator.as_slice()) {
                return AuthDecision::allow().with_principal(Some("privacy-pass".to_owned()));
            }
            i += 1;
        }
        AuthDecision::deny(DenyReason::TokenInvalid)
    }

    /// The extensions of a token with a partially blind signature. Keys are derived for them.
    pub fn extensions(token_bytes: &[u8]) -> (r: Option<Vec<u8>>)
        ensures
            match r {
                Some(extensions) => token_bytes@.len() > TOKEN_LEN && extensions@
                    == token_bytes@.skip(TOKEN_LEN as int),
                None => token_bytes@.len() <= TOKEN_LEN,
            },
    {
        if token_bytes.len() <= TOKEN_LEN {
            return None;
        }
        Some(slice_of(token_bytes, TOKEN_LEN, token_bytes.len()))
    }

    /// Decides on a token with a partially blind signature, with the keys that were derived for
    /// its extensions. A derivation that failed is `None`.
    pub fn verify_pbrs(token_bytes: &[u8], derived: &Vec<Option<Vec<u8>>>) -> (r: Redemption)
        ensures
            r.decision@ == pbrs_decision(token_bytes@, derived_view(derived@)),
            cose::text_view(r.scope) == (if r.decision@.denial is None {
                scope_in(token_bytes@.skip(TOKEN_LEN as int))
            } else {
                None
            }),
    {
        let extensions = match Self::extensions(token_bytes) {
            Some(extensions) => extensions,
            None => {
                return Redemption {
                    decision: AuthDecision::deny(DenyReason::TokenMalformed),
                    scope: None,
                };
            },
        };
        let token = match PublicToken::decode(token_bytes) {
            Some((token, _)) => token,
            None => {
                return Redemption {
                    decision: AuthDecision::deny(DenyReason::TokenMalformed),
                    scope: None,
                };
            },
        };
        let signed = token.authenticator_input();
        let ghost all = derived_view(derived@);
        let mut i: usize = 0;
        while i < derived.len()
            invariant
                i <= derived@.len(),
                all == derived_view(derived@),
                token_bytes@.len() > TOKEN_LEN,
                extensions@ == token_bytes@.skip(TOKEN_LEN as int),
                token@ == token::token_in(token_bytes@),
                signed@ == token@.signed(),
                forall|k: int|
                    0 <= k < i ==> !derived_key_signed(#[trigger] all[k], token_bytes@),
            decreases derived@.len() - i,
        {
            assert(all[i as int] == wire::bytes_view(derived@[i as int]));
            if let Some(der) = &derived[i] {
                if let Some(key) = rsa_key_from_der(der.as_slice()) {
                    if key.verify(signed.as_slice(), token.authenticator.as_slice()) {
                        assert(derived_key_signed(all[i as int], token_bytes@));
                        return Redemption {
                            decision: AuthDecision::allow().with_principal(
                                Some("privacy-pass-pbrs".to_owned()),
                            ),
                            scope: parse_moq_scope(extensions.as_slice()),
                        };
                    }
                }
            }
            i += 1;
        }
        Redemption { decision: AuthDecision::deny(DenyReason::TokenInvalid), scope: None }
    }
}

impl AuthHook for PrivacyPassAuthHook {
    fn on_setup(&self, _ctx: &SessionContext, tokens: &[AuthBlob]) -> (r: Option<AuthDecision>)
        ensures
            decision_view(r) == self@.setup_decision(types::blobs_view(tokens@)),
    {
        match find_pass(tokens) {
            Some(blob) => self.verify_token(blob.token_value.as_slice()),
            None => if self.setup_required {
                Some(AuthDecision::deny(DenyReason::TokenMissing))
            } else {
                Some(AuthDecision::allow())
            },
        }
    }

    fn on_request(&self, _ctx: &RequestContext<'_>, tokens: &[AuthBlob]) -> (r: Option<
        AuthDecision,
    >)
        ensures
            decision_view(r) == self@.request_decision(types::blobs_view(tokens@)),
    {
        match find_pass(tokens) {
            Some(blob) => self.verify_token(blob.token_value.as_slice()),
            None => Some(AuthDecision::allow()),
        }
    }
}

/// A token is accepted only if one of the keys signed all that stands before its signature.
pub proof fn law_accepted_token_is_signed(signers: Seq<RsaKeyView>, data: Seq<u8>)
    requires
        token_decision(signers, data) is Some,
        token_decision(signers, data)->0.denial is None,
    ensures
        data.len() >= TOKEN_LEN,
        exists|i: int|
            0 <= i < signers.len() && (#[trigger] signers[i]).verifies(
                data.subrange(0, 98),
                data.subrange(98, 354),
            ),
{
    token::law_signature_covers_the_rest(data);
    let i = choose|i: int|
        0 <= i < signers.len() && (#[trigger] signers[i]).verifies(
            token::token_in(data).signed(),
            token::token_in(data).authenticator,
        );
    assert(signers[i].verifies(data.subrange(0, 98), data.subrange(98, 354)));
}

/// A hook without keys accepts no token.
pub proof fn law_no_keys_no_access(data: Seq<u8>, derived: Seq<Option<Seq<u8>>>)
    requires
        derived.len() == 0,
    ensures
        match token_decision(seq![], data) {
            Some(decision) => decision.denial is Some,
            None => true,
        },
        pbrs_decision(data, derived).denial is Some,
{
}

/// Of the tokens of a peer the first of one of the two types of Privacy Pass is looked at.
pub proof fn law_first_pass_counts(tokens: Seq<AuthBlobView>, i: int)
    requires
        0 <= i <= tokens.len(),
        forall|j: int|
            0 <= j < i ==> (#[trigger] tokens[j]).token_type != 0x0002 && tokens[j].token_type
                != 0xda7a,
    ensures
        i < tokens.len() && (tokens[i].token_type == 0x0002 || tokens[i].token_type == 0xda7a)
            ==> pass_in(tokens) == Some(tokens[i].token_value),
        i == tokens.len() ==> pass_in(tokens) is None,
{
    lemma_no_pass(tokens, i);
    if i < tokens.len() && is_pass_type(tokens[i].token_type) {
        assert(first_pass(tokens, i + 1) == Some(i));
        lemma_first_pass_stays(tokens, i + 1, tokens.len() as int);
    }
}

proof fn lemma_no_pass(tokens: Seq<AuthBlobView>, n: int)
    requires
        0 <= n <= tokens.len(),
        forall|j: int| 0 <= j < n ==> !is_pass_type((#[trigger] tokens[j]).token_type),
    ensures
        first_pass(tokens, n) is None,
    decreases n,
{
    if n > 0 {
        lemma_no_pass(tokens, n - 1);
    }
}

/// An extension of another type is passed over, and the scope is read from the first extension of
/// its type.
pub proof fn law_scope_is_read_from_its_extension(
    before: Seq<u8>,
    kind: u16,
    data: Seq<u8>,
    after: Seq<u8>,
    scope: Seq<char>,
)
    requires
        data.len() <= 0xffff,
    ensures
        ({
            let extension = framing::be16(kind as nat) + framing::framed16(data);
            let whole = before + extension + after;
            let at = before.len() as int;
            let next = at + 4 + data.len();
            &&& kind == 1 && data == utf8::encode_utf8(scope) ==> scope_from(
                whole,
                at,
                whole.len() as int,
            ) == Some(scope)
            &&& kind != 1 ==> scope_from(whole, at, whole.len() as int) == scope_from(
                whole,
                next,
                whole.len() as int,
            )
        }),
        scope_from(before, before.len() as int, before.len() as int) is None,
{
    let extension = framing::be16(kind as nat) + framing::framed16(data);
    let whole = before + extension + after;
    let at = before.len() as int;
    assert(whole.subrange(at, at + 2) =~= framing::be16(kind as nat));
    framing::lemma_be16_reads_back(kind as nat, whole, at);
    assert(whole.subrange(at + 2, at + 4) =~= framing::be16(data.len()));
    framing::lemma_be16_reads_back(data.len(), whole, at + 2);
    assert(whole.subrange(at + 4, at + 4 + data.len()) =~= data);
    utf8::encode_utf8_valid_utf8(scope);
    utf8::encode_utf8_decode_utf8(scope);
}

/// The extensions of a token stand behind their length. What stands behind them is not read, and
/// where there is less than the length says nothing is.
pub proof fn law_extensions_end_where_their_length_says(extensions: Seq<u8>, after: Seq<u8>)
    requires
        extensions.len() <= 0xffff,
    ensures
        scope_in(framing::framed16(extensions) + after) == scope_from(
            framing::framed16(extensions) + after,
            2,
            2 + extensions.len() as int,
        ),
        extensions.len() > 0 ==> scope_in(framing::framed16(extensions).drop_last()) is None,
{
    let whole = framing::framed16(extensions) + after;
    assert(whole.subrange(0, 2) =~= framing::be16(extensions.len()));
    framing::lemma_be16_reads_back(extensions.len(), whole, 0);
    if extensions.len() > 0 {
        let short = framing::framed16(extensions).drop_last();
        assert(short.subrange(0, 2) =~= framing::be16(extensions.len()));
        framing::lemma_be16_reads_back(extensions.len(), short, 0);
    }
}

/// A token with a blind signature is let in exactly if it is whole and one of the keys signed it,
/// and a token with a partially blind one if one of the keys that were derived for it did.
pub proof fn law_signed_tokens_are_let_in(
    signers: Seq<RsaKeyView>,
    data: Seq<u8>,
    derived: Seq<Option<Seq<u8>>>,
)
    requires
        data.len() > 354,
    ensures
        blind_decision(signers, data).denial is None <==> exists|i: int|
            0 <= i < signers.len() && (#[trigger] signers[i]).verifies(
                data.subrange(0, 98),
                data.subrange(98, 354),
            ),
        blind_decision(signers, data).denial is Some ==> blind_decision(signers, data).denial == Some(
            DenyReasonView::TokenInvalid,
        ),
        pbrs_decision(data, derived).denial is None <==> exists|i: int|
            0 <= i < derived.len() && ((#[trigger] derived[i]) matches Some(der)
                && keys::rsa_key_in(der) is Some && keys::rsa_key_in(der)->0.verifies(
                data.subrange(0, 98),
                data.subrange(98, 354),
            )),
        pbrs_decision(data, derived).denial is Some ==> pbrs_decision(data, derived).denial == Some(
            DenyReasonView::TokenInvalid,
        ),
{
    token::law_signature_covers_the_rest(data);
    let t = token::token_in(data);
    if signed_by_one(signers, data) {
        let i = choose|i: int|
            0 <= i < signers.len() && (#[trigger] signers[i]).verifies(t.signed(), t.authenticator);
        assert(signers[i].verifies(data.subrange(0, 98), data.subrange(98, 354)));
    }
    if exists|i: int|
        0 <= i < signers.len() && (#[trigger] signers[i]).verifies(
            data.subrange(0, 98),
            data.subrange(98, 354),
        ) {
        let i = choose|i: int|
            0 <= i < signers.len() && (#[trigger] signers[i]).verifies(
                data.subrange(0, 98),
                data.subrange(98, 354),
            );
        assert(signers[i].verifies(t.signed(), t.authenticator));
    }
    if exists|i: int| 0 <= i < derived.len() && derived_key_signed(#[trigger] derived[i], data) {
        let i = choose|i: int|
            0 <= i < derived.len() && derived_key_signed(#[trigger] derived[i], data);
        assert(derived[i] is Some);
    }
    if exists|i: int|
        0 <= i < derived.len() && ((#[trigger] derived[i]) matches Some(der) && keys::rsa_key_in(
            der,
        ) is Some && keys::rsa_key_in(der)->0.verifies(
            data.subrange(0, 98),
            data.subrange(98, 354),
        )) {
        let i = choose|i: int|
            0 <= i < derived.len() && ((#[trigger] derived[i]) matches Some(der)
                && keys::rsa_key_in(der) is Some && keys::rsa_key_in(der)->0.verifies(
                data.subrange(0, 98),
                data.subrange(98, 354),
            ));
        assert(derived_key_signed(derived[i], data));
    }
}

/// A token is judged by the type that its first two bytes tell. One that is cut short, or of
/// another type, is malformed, and keys are derived only for a whole token of the second type.
pub proof fn law_tokens_are_judged_by_their_type(signers: Seq<RsaKeyView>, data: Seq<u8>)
    ensures
        ({
            let whole = data.len() >= 354;
            let kind = data[0] * 256 + data[1];
            let malformed = token_decision(signers, data) == Some(
                AuthDecisionView {
                    denial: Some(DenyReasonView::TokenMalformed),
                    principal: None,
                },
            );
            &&& data.len() < 2 ==> malformed
            &&& data.len() >= 2 && kind != 0x0002 && kind != 0xda7a ==> malformed
            &&& data.len() >= 2 && !whole ==> malformed
            &&& whole && kind == 0x0002 ==> token_decision(signers, data) == Some(
                blind_decision(signers, data),
            )
            &&& token_decision(signers, data) is None <==> data.len() > 354 && kind == 0xda7a
        }),
{
}

/// A peer without a token may make requests, and may set up a session where none is asked for. The
/// token of one that has one decides.
pub proof fn law_token_is_asked_for_at_setup(
    hook: PrivacyPassHookView,
    tokens: Seq<AuthBlobView>,
)
    ensures
        pass_in(tokens) is None ==> {
            &&& hook.request_decision(tokens) matches Some(decision) && decision.denial is None
            &&& hook.setup_decision(tokens) is Some
            &&& hook.setup_decision(tokens)->0.denial is None <==> !hook.setup_required
            &&& hook.setup_required ==> hook.setup_decision(tokens)->0.denial == Some(
                DenyReasonView::TokenMissing,
            )
        },
        pass_in(tokens) matches Some(data) ==> hook.setup_decision(tokens) == token_decision(
            hook.blind_rsa_keys,
            data,
        ) && hook.request_decision(tokens) == token_decision(hook.blind_rsa_keys, data),
{
}

/// A peer that is let in by a token is known by the sort of its token, and one that is denied is
/// not known.
pub proof fn law_peers_are_known_by_their_token(
    signers: Seq<RsaKeyView>,
    data: Seq<u8>,
    derived: Seq<Option<Seq<u8>>>,
)
    ensures
        blind_decision(signers, data).denial is None ==> blind_decision(signers, data).principal
            == Some("privacy-pass"@),
        pbrs_decision(data, derived).denial is None ==> pbrs_decision(data, derived).principal
            == Some("privacy-pass-pbrs"@),
        blind_decision(signers, data).denial is Some ==> blind_decision(
            signers,
            data,
        ).principal is None,
        pbrs_decision(data, derived).denial is Some ==> pbrs_decision(
            data,
            derived,
        ).principal is None,
{
}

} // verus!
