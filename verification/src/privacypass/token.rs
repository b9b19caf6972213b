//! Publicly verifiable tokens.

use vstd::prelude::*;
use crate::bytes::put_bytes;
use crate::privacypass::framing::{self, put_u16, read_u16, slice_of};

verus! {

/// How many bytes a token takes.
pub const TOKEN_LEN: usize = 354;

/// The type of a publicly verifiable token.
pub const PUBLIC_TOKEN_TYPE: u16 = 2;

/// A token: its type, a nonce, the digest of the challenge, the identifier of the key that signed
/// it, and the signature.
#[derive(Debug)]
pub struct PublicToken {
    pub token_type: u16,
    pub nonce: Vec<u8>,
    pub challenge_digest: Vec<u8>,
    pub token_key_id: Vec<u8>,
    pub authenticator: Vec<u8>,
}

/// A token.
#[verifier::ext_equal]
pub struct PublicTokenView {
    pub token_type: u16,
    pub nonce: Seq<u8>,
    pub challenge_digest: Seq<u8>,
    pub token_key_id: Seq<u8>,
    pub authenticator: Seq<u8>,
}

impl View for PublicToken {
    type V = PublicTokenView;

    open spec fn view(&self) -> PublicTokenView {
        PublicTokenView {
            token_type: self.token_type,
            nonce: self.nonce@,
            challenge_digest: self.challenge_digest@,
            token_key_id: self.token_key_id@,
            authenticator: self.authenticator@,
        }
    }
}

/// The token at the start of `data`.
pub open spec fn token_in(data: Seq<u8>) -> PublicTokenView {
    PublicTokenView {
        token_type: framing::u16_at(data, 0) as u16,
        nonce: data.subrange(2, 34),
        challenge_digest: data.subrange(34, 66),
        token_key_id: data.subrange(66, 98),
        authenticator: data.subrange(98, 354),
    }
}

impl PublicTokenView {
    /// What the signature of the token is over.
    pub open spec fn signed(self) -> Seq<u8> {
        framing::be16(self.token_type as nat) + self.nonce + self.challenge_digest
            + self.token_key_id
    }
}

impl PublicToken {
    /// Reads the token at the start of `data`, and tells where it ends. `None` if the data is too
    /// short.
    pub fn decode(data: &[u8]) -> (r: Option<(Self, usize)>)
        ensures
            match r {
                Some((token, end)) => data@.len() >= TOKEN_LEN && token@ == token_in(data@) && end
                    == TOKEN_LEN,
                None => data@.len() < TOKEN_LEN,
            },
    {
        if data.len() < TOKEN_LEN {
            return None;
        }
        let token = PublicToken {
            token_type: read_u16(data, 0),
            nonce: slice_of(data, 2, 34),
            challenge_digest: slice_of(data, 34, 66),
            token_key_id: slice_of(data, 66, 98),
            authenticator: slice_of(data, 98, 354),
        };
        Some((token, TOKEN_LEN))
    }

    /// What the signature of the token is over.
    pub fn authenticator_input(&self) -> (r: Vec<u8>)
        ensures
            r@ == self@.signed(),
    {
        let mut input: Vec<u8> = Vec::new();
        put_u16(&mut input, self.token_type);
        put_bytes(&mut input, self.nonce.as_slice());
        put_bytes(&mut input, self.challenge_digest.as_slice());
        put_bytes(&mut input, self.token_key_id.as_slice());
        assert(input@ =~= self@.signed());
        input
    }
}

/// Why bytes are not a token.
#[derive(Debug, Clone, Copy, PartialEq, Eq, Structural)]
pub enum TokenDecodeError {
    /// The token is malformed.
    Malformed,
    /// The token has an unsupported type.
    UnsupportedType,
}

/// Reads a publicly verifiable token that fills `bytes`.
pub fn decode_public_token(bytes: &[u8]) -> (r: Result<PublicToken, TokenDecodeError>)
    ensures
        match r {
            Ok(token) => bytes@.len() == TOKEN_LEN && token@ == token_in(bytes@)
                && token.token_type == PUBLIC_TOKEN_TYPE,
            Err(TokenDecodeError::Malformed) => bytes@.len() != TOKEN_LEN,
            Err(TokenDecodeError::UnsupportedType) => bytes@.len() == TOKEN_LEN && token_in(
                bytes@,
            ).token_type != PUBLIC_TOKEN_TYPE,
        },
{
    match PublicToken::decode(bytes) {
        Some((token, end)) => {
            if bytes.len() != end {
                return Err(TokenDecodeError::Malformed);
            }
            if token.token_type != PUBLIC_TOKEN_TYPE {
                return Err(TokenDecodeError::UnsupportedType);
            }
            Ok(token)
        },
        None => Err(TokenDecodeError::Malformed),
    }
}

/// The signature of a token is over all that stands before it.
pub proof fn law_signature_covers_the_rest(data: Seq<u8>)
    requires
        data.len() >= TOKEN_LEN,
    ensures
        token_in(data).signed() == data.subrange(0, 98),
{
    assert(token_in(data).signed() =~= data.subrange(0, 98));
}

/// The parts of a token are all of it, one after the other: its type, the nonce, the digest of the
/// challenge and the identifier of the key, of 32 bytes each, and the signature.
pub proof fn law_parts_are_all_of_a_token(data: Seq<u8>)
    requires
        data.len() >= 354,
    ensures
        ({
            let token = token_in(data);
            &&& token.nonce.len() == 32 && token.challenge_digest.len() == 32
                && token.token_key_id.len() == 32 && token.authenticator.len() == 256
            &&& token.token_type == data[0] * 256 + data[1]
            &&& data.take(354) == data.take(2) + token.nonce + token.challenge_digest
                + token.token_key_id + token.authenticator
            &&& token.signed() + token.authenticator == data.take(354)
        }),
{
    let token = token_in(data);
    law_signature_covers_the_rest(data);
    assert(data.take(354) =~= data.take(2) + token.nonce + token.challenge_digest
        + token.token_key_id + token.authenticator);
    assert(token.signed() + token.authenticator =~= data.take(354));
}

} // verus!
