//! Challenges as a reason phrase carries them.

use vstd::prelude::*;
use base64::engine::general_purpose::URL_SAFE_NO_PAD;
use base64::Engine;
use tls_codec::{Deserialize, Serialize, TlsByteVecU16};
use crate::bytes::put_bytes;
use crate::privacypass::challenge::{self, ChallengeScope, TokenChallenge, TokenChallengeView};
use crate::privacypass::framing::{
    self, put_u16, put_vec_u16, put_vec_u8, read_u16, read_vec_u16, read_vec_u8,
};

verus! {

/// `tls_codec::TlsByteVecU16::tls_serialize_detached` writes the length in two bytes, high byte
/// first, and the bytes after it.
#[verifier::external_body]
fn tls_frame(bytes: Vec<u8>) -> (r: Option<Vec<u8>>)
    requires
        bytes@.len() <= 0xffff,
    ensures
        r is Some,
        r matches Some(framed) ==> framed@ == framing::framed16(bytes@),
{
    TlsByteVecU16::from(bytes).tls_serialize_detached().ok()
}

/// `tls_codec::TlsByteVecU16::tls_deserialize` reads a length of two bytes, high byte first, and
/// as many bytes after it, and fails if there are too few. The second part of the result is the
/// number of bytes that are left.
#[verifier::external_body]
fn tls_unframe(bytes: &[u8]) -> (r: Option<(Vec<u8>, usize)>)
    ensures
        r is Some <==> framing::unframed16(bytes@, 0) is Some,
        r matches Some(read) ==> framing::unframed16(bytes@, 0) == Some(read.0@),
        r matches Some(read) ==> read.1 == bytes@.len() - 2 - read.0@.len(),
{
    let mut rest = bytes;
    let read = TlsByteVecU16::tls_deserialize(&mut rest).ok()?;
    Some((read.into_vec(), rest.len()))
}

/// The text that base64 makes of bytes, with the alphabet for URLs and without padding.
pub uninterp spec fn url_base64(bytes: Seq<u8>) -> Seq<char>;

/// The bytes that a text stands for in base64, with the alphabet for URLs and without padding.
pub uninterp spec fn url_base64_decoded(text: Seq<char>) -> Option<Seq<u8>>;

/// The contents of bytes that may be missing.
pub open spec fn bytes_view(bytes: Option<Vec<u8>>) -> Option<Seq<u8>> {
    match bytes {
        Some(bytes) => Some(bytes@),
        None => None,
    }
}

/// `base64::Engine::encode` with `URL_SAFE_NO_PAD`: base64 with the alphabet for URLs and without
/// padding. The text decodes to the bytes again.
#[verifier::external_body]
fn url_base64_of(bytes: &[u8]) -> (r: String)
    requires
        bytes@.len() <= 0x10001,
    ensures
        r@ == url_base64(bytes@),
        url_base64_decoded(r@) == Some(bytes@),
{
    URL_SAFE_NO_PAD.encode(bytes)
}

/// `base64::Engine::decode` with `URL_SAFE_NO_PAD`: the bytes that a text stands for in base64,
/// with the alphabet for URLs and without padding, if it is such a text.
#[verifier::external_body]
pub(crate) fn url_base64_bytes(text: &String) -> (r: Option<Vec<u8>>)
    ensures
        bytes_view(r) == url_base64_decoded(text@),
{
    URL_SAFE_NO_PAD.decode(text).ok()
}

impl TokenChallengeView {
    /// The challenge can be written down.
    pub open spec fn encodable(self) -> bool {
        &&& self.issuer_name.len() <= 0xffff
        &&& self.redemption_context.len() <= 0xff
        &&& self.origin_info.len() <= 0xffff
    }

    /// The challenge as it is written down.
    pub open spec fn encoded(self) -> Seq<u8> {
        framing::be16(self.token_type as nat) + framing::framed16(self.issuer_name)
            + framing::framed8(self.redemption_context) + framing::framed16(self.origin_info)
    }

    /// How many bytes the challenge takes.
    pub open spec fn encoded_len(self) -> nat {
        7 + self.issuer_name.len() + self.redemption_context.len() + self.origin_info.len()
    }
}

/// The challenge that starts at `at`, if it ends in time.
pub open spec fn challenge_at(bytes: Seq<u8>, at: int) -> Option<TokenChallengeView> {
    if at + 2 > bytes.len() {
        None
    } else {
        match framing::unframed16(bytes, at + 2) {
            None => None,
            Some(issuer_name) => {
                let context_at = at + 4 + issuer_name.len();
                match framing::unframed8(bytes, context_at) {
                    None => None,
                    Some(redemption_context) => {
                        let origin_at = context_at + 1 + redemption_context.len();
                        match framing::unframed16(bytes, origin_at) {
                            None => None,
                            Some(origin_info) => Some(
                                TokenChallengeView {
                                    token_type: framing::u16_at(bytes, at) as u16,
                                    issuer_name,
                                    redemption_context,
                                    origin_info,
                                },
                            ),
                        }
                    },
                }
            },
        }
    }
}

/// The challenges that stand one after the other from `at` on, up to the end.
pub open spec fn challenges_from(bytes: Seq<u8>, at: int) -> Option<Seq<TokenChallengeView>>
    decreases
            if at < bytes.len() {
                bytes.len() - at
            } else {
                0
            },
{
    if at >= bytes.len() {
        Some(seq![])
    } else {
        match challenge_at(bytes, at) {
            None => None,
            Some(first) => match challenges_from(bytes, at + first.encoded_len()) {
                None => None,
                Some(rest) => Some(seq![first] + rest),
            },
        }
    }
}

/// Challenges one after the other.
pub open spec fn challenges_bytes(challenges: Seq<TokenChallengeView>) -> Seq<u8>
    decreases challenges.len(),
{
    if challenges.len() == 0 {
        seq![]
    } else {
        challenges_bytes(challenges.drop_last()) + challenges.last().encoded()
    }
}

/// The contents of a list of challenges.
pub open spec fn challenges_view(challenges: Seq<TokenChallenge>) -> Seq<TokenChallengeView> {
    challenges.map_values(|challenge: TokenChallenge| challenge@)
}

impl TokenChallenge {
    /// The challenge as it is written down. `None` if a part is too long for its length.
    pub fn serialize(&self) -> (r: Option<Vec<u8>>)
        ensures
            match r {
                Some(bytes) => self@.encodable() && bytes@ == self@.encoded(),
                None => !self@.encodable(),
            },
    {
        if self.issuer_name.len() > 0xffff || self.redemption_context.len() > 0xff
            || self.origin_info.len() > 0xffff {
            return None;
        }
        let mut out: Vec<u8> = Vec::new();
        put_u16(&mut out, self.token_type);
        put_vec_u16(&mut out, self.issuer_name.as_slice());
        put_vec_u8(&mut out, self.redemption_context.as_slice());
        put_vec_u16(&mut out, self.origin_info.as_slice());
        assert(out@ =~= self@.encoded());
        Some(out)
    }

    /// The challenge that starts at `at`, if it ends in time.
    pub fn deserialize_at(bytes: &[u8], at: usize) -> (r: Option<Self>)
        requires
            at <= bytes@.len(),
        ensures
            match r {
                Some(challenge) => challenge_at(bytes@, at as int) == Some(challenge@),
                None => challenge_at(bytes@, at as int) is None,
            },
    {
        if bytes.len() - at < 2 {
            return None;
        }
        let token_type: u16 = read_u16(bytes, at);
        let issuer_name = read_vec_u16(bytes, at + 2)?;
        let context_at: usize = at + 4 + issuer_name.len();
        let redemption_context = read_vec_u8(bytes, context_at)?;
        let origin_at: usize = context_at + 1 + redemption_context.len();
        let origin_info = read_vec_u16(bytes, origin_at)?;
        Some(TokenChallenge { token_type, issuer_name, redemption_context, origin_info })
    }
}

/// A list of challenges, of which there is at least one.
#[derive(Debug)]
pub struct MoqAuthChallenge {
    challenges: Vec<TokenChallenge>,
}

/// What is wrong with a list of challenges.
#[derive(Debug, Clone, Copy, PartialEq, Eq, Structural)]
pub enum MoqAuthChallengeError {
    /// The list is empty.
    Empty,
    /// The list could not be encoded.
    Encode,
    /// The list could not be decoded.
    Decode,
}

impl View for MoqAuthChallenge {
    type V = Seq<TokenChallengeView>;

    closed spec fn view(&self) -> Seq<TokenChallengeView> {
        challenges_view(self.challenges@)
    }
}

/// Every challenge can be written down, and so can all of them together.
pub open spec fn all_encodable(challenges: Seq<TokenChallengeView>) -> bool {
    &&& forall|i: int| 0 <= i < challenges.len() ==> (#[trigger] challenges[i]).encodable()
    &&& challenges_bytes(challenges).len() <= 0xffff
}

/// The list of challenges that a reason phrase holds.
pub open spec fn decoded_phrase(bytes: Seq<u8>) -> Result<
    Seq<TokenChallengeView>,
    MoqAuthChallengeError,
> {
    match framing::unframed16(bytes, 0) {
        None => Err(MoqAuthChallengeError::Decode),
        Some(raw) => if bytes.len() != 2 + raw.len() {
            Err(MoqAuthChallengeError::Decode)
        } else {
            match challenges_from(raw, 0) {
                None => Err(MoqAuthChallengeError::Decode),
                Some(challenges) => if challenges.len() == 0 {
                    Err(MoqAuthChallengeError::Empty)
                } else {
                    Ok(challenges)
                },
            }
        },
    }
}

proof fn lemma_challenges_grow(challenges: Seq<TokenChallengeView>, m: int)
    requires
        0 <= m <= challenges.len(),
    ensures
        challenges_bytes(challenges.take(m)).len() <= challenges_bytes(challenges).len(),
    decreases challenges.len() - m,
{
    if m < challenges.len() {
        lemma_challenges_grow(challenges, m + 1);
        assert(challenges.take(m + 1).drop_last() =~= challenges.take(m));
    } else {
        assert(challenges.take(m) =~= challenges);
    }
}

impl MoqAuthChallenge {
    /// A list of challenges. It must not be empty.
    pub fn new(challenges: Vec<TokenChallenge>) -> (r: Result<Self, MoqAuthChallengeError>)
        ensures
            match r {
                Ok(list) => challenges@.len() > 0 && list@ == challenges_view(challenges@),
                Err(e) => challenges@.len() == 0 && e == MoqAuthChallengeError::Empty,
            },
    {
        if challenges.len() == 0 {
            return Err(MoqAuthChallengeError::Empty);
        }
        Ok(MoqAuthChallenge { challenges })
    }

    /// The challenges.
    pub fn challenges(&self) -> (r: &[TokenChallenge])
        ensures
            challenges_view(r@) == self@,
    {
        self.challenges.as_slice()
    }

    /// The bytes that the reason phrase carries. They are not text that a person can read.
    pub fn encode_for_reason_phrase(&self) -> (r: Result<Vec<u8>, MoqAuthChallengeError>)
        ensures
            match r {
                Ok(bytes) => all_encodable(self@) && bytes@ == framing::framed16(
                    challenges_bytes(self@),
                ),
                Err(e) => !all_encodable(self@) && e == MoqAuthChallengeError::Encode,
            },
    {
        let mut encoded: Vec<u8> = Vec::new();
        let mut i: usize = 0;
        assert(self@.take(0) =~= seq![]);
        while i < self.challenges.len()
            invariant
                i <= self.challenges@.len(),
                self@.len() == self.challenges@.len(),
                encoded@ == challenges_bytes(self@.take(i as int)),
                encoded@.len() <= 0xffff,
                forall|k: int| 0 <= k < i ==> (#[trigger] self@[k]).encodable(),
            decreases self.challenges@.len() - i,
        {
            assert(self@[i as int] == self.challenges@[i as int]@);
            match self.challenges[i].serialize() {
                Some(bytes) => {
                    proof {
                        let next = self@.take(i + 1);
                        assert(next.drop_last() =~= self@.take(i as int));
                        assert(next.last() == self@[i as int]);
                        lemma_challenges_grow(self@, i + 1);
                    }
                    if bytes.len() > 0xffff - encoded.len() {
                        return Err(MoqAuthChallengeError::Encode);
                    }
                    put_bytes(&mut encoded, bytes.as_slice());
                },
                None => {
                    return Err(MoqAuthChallengeError::Encode);
                },
            }
            i += 1;
        }
        assert(self@.take(i as int) =~= self@);
        match tls_frame(encoded) {
            Some(framed) => Ok(framed),
            None => Err(MoqAuthChallengeError::Encode),
        }
    }

    /// The list of challenges that the bytes of a reason phrase hold.
    pub fn decode_from_reason_phrase(bytes: &[u8]) -> (r: Result<Self, MoqAuthChallengeError>)
        ensures
            match r {
                Ok(list) => decoded_phrase(bytes@) == Ok::<
                    Seq<TokenChallengeView>,
                    MoqAuthChallengeError,
                >(list@),
                Err(e) => decoded_phrase(bytes@) == Err::<
                    Seq<TokenChallengeView>,
                    MoqAuthChallengeError,
                >(e),
            },
    {
        let (raw, left) = match tls_unframe(bytes) {
            Some(read) => read,
            None => {
                return Err(MoqAuthChallengeError::Decode);
            },
        };
        if left != 0 {
            return Err(MoqAuthChallengeError::Decode);
        }
        let mut challenges: Vec<TokenChallenge> = Vec::new();
        let mut at: usize = 0;
        let ghost whole = challenges_from(raw@, 0);
        while at < raw.len()
            invariant
                at <= raw@.len(),
                framing::unframed16(bytes@, 0) == Some(raw@),
                bytes@.len() == 2 + raw@.len(),
                whole == challenges_from(raw@, 0),
                match challenges_from(raw@, at as int) {
                    Some(rest) => whole == Some(challenges_view(challenges@) + rest),
                    None => whole is None,
                },
            decreases raw@.len() - at,
        {
            let ghost before = challenges_view(challenges@);
            match TokenChallenge::deserialize_at(raw.as_slice(), at) {
                Some(challenge) => {
                    let ghost first = challenge@;
                    let size: usize = 7 + challenge.issuer_name.len()
                        + challenge.redemption_context.len() + challenge.origin_info.len();
                    challenges.push(challenge);
                    proof {
                        assert(challenges_view(challenges@) =~= before.push(first));
                        match challenges_from(raw@, at + size) {
                            Some(rest) => {
                                assert(before + (seq![first] + rest) =~= challenges_view(
                                    challenges@,
                                ) + rest);
                            },
                            None => {},
                        }
                    }
                    at += size;
                },
                None => {
                    return Err(MoqAuthChallengeError::Decode);
                },
            }
        }
        assert(challenges_view(challenges@) + seq![] =~= challenges_view(challenges@));
        MoqAuthChallenge::new(challenges)
    }
}

/// The text that a peer is sent which has to bring a token to set up a session. Decoded, it is the
/// challenge again.
pub fn setup_challenge_reason(issuer_name: &str) -> (r: Result<String, MoqAuthChallengeError>)
    ensures
        match r {
            Ok(reason) => setup_challenge(issuer_name@).encodable() && setup_challenge(
                issuer_name@,
            ).encoded_len() <= 0xffff && reason@ == url_base64(
                framing::framed16(setup_challenge(issuer_name@).encoded()),
            ) && url_base64_decoded(reason@) == Some(
                framing::framed16(setup_challenge(issuer_name@).encoded()),
            ),
            Err(e) => setup_challenge(issuer_name@).encoded_len() > 0xffff && e
                == MoqAuthChallengeError::Encode,
        },
{
    if issuer_name.as_bytes().len() > 0xffff {
        return Err(MoqAuthChallengeError::Encode);
    }
    let scope = ChallengeScope::setup();
    proof {
        lemma_setup_scope_fits();
    }
    let challenge = scope.token_challenge(issuer_name);
    let ghost only = seq![challenge@];
    let mut challenges: Vec<TokenChallenge> = Vec::new();
    challenges.push(challenge);
    assert(challenges_view(challenges@) =~= only);
    proof {
        reveal_with_fuel(challenges_bytes, 2);
        assert(only.drop_last() =~= seq![]);
        assert(only.last() == only[0]);
        assert(challenges_bytes(only) =~= only[0].encoded());
    }
    match MoqAuthChallenge::new(challenges) {
        Ok(list) => match list.encode_for_reason_phrase() {
            Ok(bytes) => Ok(url_base64_of(bytes.as_slice())),
            Err(e) => {
                assert(list@[0] == only[0]);
                Err(e)
            },
        },
        Err(e) => Err(e),
    }
}

/// The challenge for a token to set up a session.
pub open spec fn setup_challenge(issuer_name: Seq<char>) -> TokenChallengeView {
    TokenChallengeView {
        token_type: 2,
        issuer_name: vstd::utf8::encode_utf8(issuer_name),
        redemption_context: seq![],
        origin_info: seq![8u8, 1, 0, 1, 0, 0, 1, 0, 0],
    }
}

proof fn lemma_setup_scope_fits()
    ensures
        challenge::ChallengeScopeView::under(challenge::MoqAction::Setup, seq![]).fits(),
        framing::framed8(
            challenge::scopes_bytes(
                challenge::ChallengeScopeView::under(challenge::MoqAction::Setup, seq![]).info(),
            ),
        ) == seq![8u8, 1, 0, 1, 0, 0, 1, 0, 0],
{
    let scope = challenge::ChallengeScopeView::under(challenge::MoqAction::Setup, seq![]);
    let info = scope.info();
    reveal_with_fuel(challenge::scopes_bytes, 2);
    assert(info.drop_last() =~= seq![]);
    assert(info.last() == info[0]);
    assert(challenge::tuple_bytes(Seq::<Seq<u8>>::empty()) =~= seq![]);
    assert(challenge::action_bytes(info[0].actions) =~= seq![0u8]);
    assert(challenge::scopes_bytes(info) =~= seq![1u8, 0, 1, 0, 0, 1, 0, 0]);
}

/// A challenge reads back, whatever stands around it.
proof fn lemma_challenge_reads_back(
    before: Seq<u8>,
    challenge: TokenChallengeView,
    after: Seq<u8>,
)
    requires
        challenge.encodable(),
    ensures
        challenge_at(before + challenge.encoded() + after, before.len() as int) == Some(challenge),
        challenge.encoded().len() == challenge.encoded_len(),
{
    let whole = before + challenge.encoded() + after;
    let at = before.len() as int;
    let kind = framing::be16(challenge.token_type as nat);
    let issuer = framing::framed16(challenge.issuer_name);
    let context = framing::framed8(challenge.redemption_context);
    let origin = framing::framed16(challenge.origin_info);
    assert(whole.subrange(at, at + 2) =~= kind);
    framing::lemma_be16_reads_back(challenge.token_type as nat, whole, at);
    assert(whole =~= (before + kind) + issuer + (context + origin + after));
    framing::lemma_framed16_reads_back(
        before + kind,
        challenge.issuer_name,
        context + origin + after,
    );
    assert(whole =~= (before + kind + issuer) + context + (origin + after));
    framing::lemma_framed8_reads_back(
        before + kind + issuer,
        challenge.redemption_context,
        origin + after,
    );
    assert(whole =~= (before + kind + issuer + context) + origin + after);
    framing::lemma_framed16_reads_back(
        before + kind + issuer + context,
        challenge.origin_info,
        after,
    );
}

proof fn lemma_challenges_read_back(challenges: Seq<TokenChallengeView>, m: int)
    requires
        forall|i: int| 0 <= i < challenges.len() ==> (#[trigger] challenges[i]).encodable(),
        0 <= m <= challenges.len(),
    ensures
        challenges_bytes(challenges.take(m)).len() <= challenges_bytes(challenges).len(),
        challenges_from(
            challenges_bytes(challenges),
            challenges_bytes(challenges.take(m)).len() as int,
        ) == Some(challenges.skip(m)),
    decreases challenges.len() - m,
{
    let whole = challenges_bytes(challenges);
    if m == challenges.len() {
        assert(challenges.take(m) =~= challenges);
        assert(challenges.skip(m) =~= seq![]);
    } else {
        lemma_challenges_read_back(challenges, m + 1);
        let next = challenges.take(m + 1);
        let first = challenges[m];
        let before = challenges_bytes(challenges.take(m));
        assert(challenges_bytes(next) == before + first.encoded()) by {
            assert(next.drop_last() =~= challenges.take(m));
            assert(next.last() == first);
        }
        assert(challenge_at(whole, before.len() as int) == Some(first)
            && challenges_bytes(next).len() == before.len() + first.encoded_len()
            && challenges_bytes(next).len() <= whole.len()) by {
            lemma_challenges_split(challenges, m + 1);
            lemma_rest_follows(whole, challenges_bytes(next));
            let after = whole.skip(challenges_bytes(next).len() as int);
            lemma_challenge_reads_back(before, first, after);
        }
        lemma_one_more_is_read(whole, before.len() as int, first, challenges.skip(m + 1));
        assert(challenges.skip(m) =~= seq![first] + challenges.skip(m + 1));
    }
}

proof fn lemma_one_more_is_read(
    bytes: Seq<u8>,
    at: int,
    first: TokenChallengeView,
    rest: Seq<TokenChallengeView>,
)
    requires
        at < bytes.len(),
        challenge_at(bytes, at) == Some(first),
        challenges_from(bytes, at + first.encoded_len()) == Some(rest),
    ensures
        challenges_from(bytes, at) == Some(seq![first] + rest),
{
}

proof fn lemma_rest_follows(whole: Seq<u8>, front: Seq<u8>)
    requires
        front.is_prefix_of(whole),
    ensures
        whole == front + whole.skip(front.len() as int),
{
    assert(whole =~= front + whole.skip(front.len() as int));
}

/// The first challenges are written first.
proof fn lemma_challenges_split(challenges: Seq<TokenChallengeView>, m: int)
    requires
        0 <= m <= challenges.len(),
    ensures
        challenges_bytes(challenges.take(m)).is_prefix_of(challenges_bytes(challenges)),
    decreases challenges.len() - m,
{
    if m < challenges.len() {
        lemma_challenges_split(challenges, m + 1);
        let next = challenges.take(m + 1);
        assert(next.drop_last() =~= challenges.take(m));
        assert(challenges_bytes(challenges.take(m)).is_prefix_of(challenges_bytes(next)));
    } else {
        assert(challenges.take(m) =~= challenges);
    }
}

proof fn lemma_frame_reads_back(raw: Seq<u8>)
    requires
        raw.len() <= 0xffff,
    ensures
        framing::unframed16(framing::framed16(raw), 0) == Some(raw),
        framing::framed16(raw).len() == 2 + raw.len(),
{
    let phrase = framing::framed16(raw);
    assert(Seq::<u8>::empty() + phrase + Seq::<u8>::empty() =~= phrase);
    framing::lemma_framed16_reads_back(Seq::<u8>::empty(), raw, Seq::<u8>::empty());
}

proof fn lemma_list_reads_back(challenges: Seq<TokenChallengeView>)
    requires
        all_encodable(challenges),
    ensures
        challenges_from(challenges_bytes(challenges), 0) == Some(challenges),
{
    lemma_challenges_read_back(challenges, 0);
    assert(challenges.take(0).len() == 0);
    assert(challenges_bytes(challenges.take(0)).len() == 0);
    assert(challenges.skip(0) =~= challenges);
}

/// A list of challenges that is written into a reason phrase reads back.
pub proof fn law_reason_phrase_round_trip(challenges: Seq<TokenChallengeView>)
    requires
        all_encodable(challenges),
        challenges.len() > 0,
    ensures
        decoded_phrase(framing::framed16(challenges_bytes(challenges))) == Ok::<
            Seq<TokenChallengeView>,
            MoqAuthChallengeError,
        >(challenges),
{
    lemma_frame_reads_back(challenges_bytes(challenges));
    lemma_list_reads_back(challenges);
}

proof fn lemma_alone(bytes: Seq<u8>)
    ensures
        Seq::<u8>::empty() + bytes + Seq::<u8>::empty() == bytes,
{
    assert(Seq::<u8>::empty() + bytes + Seq::<u8>::empty() =~= bytes);
}

/// The parts of a challenge stand one after the other: its type, the name of the issuer, the context
/// and the scope that is asked for, each behind its length.
pub proof fn law_parts_of_a_challenge_stand_in_order(challenge: TokenChallengeView)
    requires
        challenge.encodable(),
    ensures
        ({
            let bytes = challenge.encoded();
            let context_at = 4 + challenge.issuer_name.len() as int;
            let origin_at = context_at + 1 + challenge.redemption_context.len();
            &&& bytes[0] * 256 + bytes[1] == challenge.token_type
            &&& framing::unframed16(bytes, 2) == Some(challenge.issuer_name)
            &&& framing::unframed8(bytes, context_at) == Some(challenge.redemption_context)
            &&& framing::unframed16(bytes, origin_at) == Some(challenge.origin_info)
            &&& bytes.len() == origin_at + 2 + challenge.origin_info.len()
            &&& bytes.len() == challenge.encoded_len()
        }),
{
    let bytes = challenge.encoded();
    lemma_challenge_reads_back(Seq::empty(), challenge, Seq::empty());
    lemma_alone(bytes);
    framing::law_high_byte_comes_first(0, bytes, 0);
}

/// A challenge that is read is written as the bytes that it was read from.
pub proof fn law_read_challenge_writes_back(bytes: Seq<u8>, at: int)
    requires
        0 <= at,
        challenge_at(bytes, at) is Some,
    ensures
        ({
            let challenge = challenge_at(bytes, at)->0;
            &&& challenge.encodable()
            &&& at + challenge.encoded_len() <= bytes.len()
            &&& challenge.encoded() == bytes.subrange(at, at + challenge.encoded_len())
        }),
{
    let challenge = challenge_at(bytes, at)->0;
    let context_at = at + 4 + challenge.issuer_name.len();
    let origin_at = context_at + 1 + challenge.redemption_context.len();
    framing::law_high_byte_comes_first(0, bytes, at);
    framing::law_as_much_is_read_as_the_length_says(bytes, at + 2);
    framing::law_as_much_is_read_as_the_length_says(bytes, context_at);
    framing::law_as_much_is_read_as_the_length_says(bytes, origin_at);
    assert(bytes.subrange(at, at + challenge.encoded_len()) =~= bytes.subrange(at, at + 2)
        + bytes.subrange(at + 2, context_at) + bytes.subrange(context_at, origin_at)
        + bytes.subrange(origin_at, at + challenge.encoded_len()));
}

/// What a reason phrase is read as writes that phrase. One with too few or too many bytes, or with
/// no challenge, is refused.
pub proof fn law_read_phrase_writes_back(bytes: Seq<u8>)
    ensures
        decoded_phrase(bytes) matches Ok(challenges) ==> challenges.len() > 0 && framing::framed16(
            challenges_bytes(challenges),
        ) == bytes,
        bytes.len() < 2 || bytes.len() != 2 + bytes[0] * 256 + bytes[1] ==> decoded_phrase(bytes)
            == Err::<Seq<TokenChallengeView>, MoqAuthChallengeError>(MoqAuthChallengeError::Decode),
        bytes == seq![0u8, 0u8] ==> decoded_phrase(bytes) == Err::<
            Seq<TokenChallengeView>,
            MoqAuthChallengeError,
        >(MoqAuthChallengeError::Empty),
{
    framing::law_as_much_is_read_as_the_length_says(bytes, 0);
    match framing::unframed16(bytes, 0) {
        Some(raw) => {
            if bytes.len() == 2 + raw.len() && challenges_from(raw, 0) is Some {
                lemma_read_challenges_write_back(raw, 0);
                assert(raw.skip(0) =~= raw);
                assert(bytes.subrange(0, (2 + raw.len()) as int) =~= bytes);
            }
        },
        None => {},
    }
}

proof fn lemma_read_challenges_write_back(bytes: Seq<u8>, at: int)
    requires
        0 <= at <= bytes.len(),
        challenges_from(bytes, at) is Some,
    ensures
        challenges_bytes(challenges_from(bytes, at)->0) == bytes.skip(at),
    decreases bytes.len() - at,
{
    if at < bytes.len() {
        let first = challenge_at(bytes, at)->0;
        law_read_challenge_writes_back(bytes, at);
        let next = at + first.encoded_len();
        let rest = challenges_from(bytes, next)->0;
        lemma_read_challenges_write_back(bytes, next);
        lemma_first_challenge_leads(first, rest);
        assert(bytes.skip(at) =~= bytes.subrange(at, next) + bytes.skip(next));
    } else {
        assert(bytes.skip(at) =~= seq![]);
    }
}

proof fn lemma_first_challenge_leads(first: TokenChallengeView, rest: Seq<TokenChallengeView>)
    ensures
        challenges_bytes(seq![first] + rest) == first.encoded() + challenges_bytes(rest),
    decreases rest.len(),
{
    let all = seq![first] + rest;
    if rest.len() == 0 {
        assert(all.drop_last() =~= Seq::<TokenChallengeView>::empty());
        assert(rest =~= Seq::<TokenChallengeView>::empty());
        assert(challenges_bytes(Seq::empty()) =~= Seq::<u8>::empty());
        assert(all.last() == first);
        assert(challenges_bytes(all) =~= first.encoded() + challenges_bytes(rest));
    } else {
        lemma_first_challenge_leads(first, rest.drop_last());
        assert(all.drop_last() =~= seq![first] + rest.drop_last());
        assert(challenges_bytes(all) =~= first.encoded() + challenges_bytes(rest));
    }
}

/// A peer that has to bring a token to set up a session is asked for one of the issuer, for setting
/// up sessions and nothing else.
pub proof fn law_setup_asks_for_setup(issuer_name: Seq<char>)
    ensures
        setup_challenge(issuer_name).origin_info == framing::framed8(
            challenge::scopes_bytes(
                challenge::ChallengeScopeView::under(challenge::MoqAction::Setup, seq![]).info(),
            ),
        ),
        setup_challenge(issuer_name).token_type == 2,
        setup_challenge(issuer_name).redemption_context.len() == 0,
        vstd::utf8::decode_utf8(setup_challenge(issuer_name).issuer_name) == issuer_name,
{
    lemma_setup_scope_fits();
    vstd::utf8::encode_utf8_decode_utf8(issuer_name);
}

} // verus!
