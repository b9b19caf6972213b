//! RSA keys of issuers.

use vstd::prelude::*;
use base64::engine::general_purpose::STANDARD;
use base64::Engine;
use rsa::pkcs1::DecodeRsaPublicKey;
use rsa::pkcs8::DecodePublicKey;
use rsa::pss::{Signature, VerifyingKey};
use rsa::signature::Verifier;
use rsa::traits::PublicKeyParts;
use rsa::{BigUint, RsaPublicKey};
use sha2::Sha384;
use spki::SubjectPublicKeyInfoRef;
use crate::privacypass::hook::{TOKEN_TYPE_BLIND_RSA, TOKEN_TYPE_PBRS};
use crate::privacypass::wire::{self, url_base64_bytes};

verus! {

/// An RSA public key: modulus and exponent, high byte first.
#[derive(Debug)]
pub struct RsaKey {
    pub modulus: Vec<u8>,
    pub exponent: Vec<u8>,
}

/// An RSA public key.
#[verifier::ext_equal]
pub struct RsaKeyView {
    pub modulus: Seq<u8>,
    pub exponent: Seq<u8>,
}

impl View for RsaKey {
    type V = RsaKeyView;

    open spec fn view(&self) -> RsaKeyView {
        RsaKeyView { modulus: self.modulus@, exponent: self.exponent@ }
    }
}

/// The contents of a key that may be missing.
pub open spec fn key_view(key: Option<RsaKey>) -> Option<RsaKeyView> {
    match key {
        Some(key) => Some(key@),
        None => None,
    }
}

/// The contents of a list of keys.
pub open spec fn keys_view(keys: Seq<RsaKey>) -> Seq<RsaKeyView> {
    keys.map_values(|key: RsaKey| key@)
}

/// The RSA key that a DER-encoded SubjectPublicKeyInfo of algorithm `rsaEncryption` holds.
pub uninterp spec fn rsa_in_spki(der: Seq<u8>) -> Option<RsaKeyView>;

/// The RSA key that a DER-encoded PKCS#1 structure holds.
pub uninterp spec fn rsa_in_pkcs1(der: Seq<u8>) -> Option<RsaKeyView>;

/// The bytes of the key that a DER-encoded SubjectPublicKeyInfo of any algorithm holds.
pub uninterp spec fn spki_key_bytes(der: Seq<u8>) -> Option<Seq<u8>>;

/// The bytes that a text stands for in base64, with the common alphabet and with padding.
pub uninterp spec fn base64_decoded(text: Seq<char>) -> Option<Seq<u8>>;

/// The signature of a message verifies under a key, by RSASSA-PSS with SHA-384 and salts of a
/// length.
pub uninterp spec fn pss_verified(
    modulus: Seq<u8>,
    exponent: Seq<u8>,
    salt_len: nat,
    message: Seq<u8>,
    signature: Seq<u8>,
) -> bool;

/// `rsa::RsaPublicKey::from_public_key_der`: the RSA key in a DER-encoded SubjectPublicKeyInfo.
#[verifier::external_body]
fn key_from_spki(der: &[u8]) -> (r: Option<RsaKey>)
    ensures
        key_view(r) == rsa_in_spki(der@),
{
    let key = RsaPublicKey::from_public_key_der(der).ok()?;
    Some(RsaKey { modulus: key.n().to_bytes_be(), exponent: key.e().to_bytes_be() })
}

/// `rsa::RsaPublicKey::from_pkcs1_der`: the RSA key in a DER-encoded PKCS#1 structure.
#[verifier::external_body]
fn key_from_pkcs1(der: &[u8]) -> (r: Option<RsaKey>)
    ensures
        key_view(r) == rsa_in_pkcs1(der@),
{
    let key = RsaPublicKey::from_pkcs1_der(der).ok()?;
    Some(RsaKey { modulus: key.n().to_bytes_be(), exponent: key.e().to_bytes_be() })
}

/// `spki::SubjectPublicKeyInfoRef::try_from`: the bytes of the key in a DER-encoded
/// SubjectPublicKeyInfo.
#[verifier::external_body]
fn key_bytes_of_spki(der: &[u8]) -> (r: Option<Vec<u8>>)
    ensures
        wire::bytes_view(r) == spki_key_bytes(der@),
{
    let info = SubjectPublicKeyInfoRef::try_from(der).ok()?;
    Some(info.subject_public_key.raw_bytes().to_vec())
}

/// `base64::Engine::decode` with `STANDARD`: the bytes that a text stands for in base64, with the
/// common alphabet and with padding, if it is such a text.
#[verifier::external_body]
fn base64_bytes(text: &String) -> (r: Option<Vec<u8>>)
    ensures
        wire::bytes_view(r) == base64_decoded(text@),
{
    STANDARD.decode(text).ok()
}

/// `rsa::pss::VerifyingKey::verify` with SHA-384: whether a signature verifies under a key. A
/// modulus and an exponent that are no key verify nothing. Longer salts are left out, since the
/// crate adds to their length.
#[verifier::external_body]
fn pss_verify(
    modulus: &[u8],
    exponent: &[u8],
    salt_len: usize,
    message: &[u8],
    signature: &[u8],
) -> (r: bool)
    requires
        salt_len <= 0xffff,
    ensures
        r == pss_verified(modulus@, exponent@, salt_len as nat, message@, signature@),
{
    let (n, e) = (BigUint::from_bytes_be(modulus), BigUint::from_bytes_be(exponent));
    match (RsaPublicKey::new(n, e), Signature::try_from(signature)) {
        (Ok(key), Ok(signature)) => VerifyingKey::<Sha384>::new_with_salt_len(key, salt_len)
            .verify(message, &signature)
            .is_ok(),
        _ => false,
    }
}

impl RsaKeyView {
    /// A signature of a message verifies under the key. Salts are empty.
    pub open spec fn verifies(self, message: Seq<u8>, signature: Seq<u8>) -> bool {
        pss_verified(self.modulus, self.exponent, 0, message, signature)
    }
}

impl RsaKey {
    /// Whether a signature of a message verifies under the key. Salts are empty.
    pub fn verify(&self, message: &[u8], signature: &[u8]) -> (r: bool)
        ensures
            r == self@.verifies(message@, signature@),
    {
        pss_verify(self.modulus.as_slice(), self.exponent.as_slice(), 0, message, signature)
    }
}

/// The RSA key that a DER-encoded SubjectPublicKeyInfo holds. The algorithm may also be one for
/// RSA signatures with parameters of their own.
pub open spec fn rsa_key_in(der: Seq<u8>) -> Option<RsaKeyView> {
    match rsa_in_spki(der) {
        Some(key) => Some(key),
        None => match spki_key_bytes(der) {
            Some(bytes) => rsa_in_pkcs1(bytes),
            None => None,
        },
    }
}

/// The RSA key that a DER-encoded SubjectPublicKeyInfo holds.
pub fn rsa_key_from_der(der: &[u8]) -> (r: Option<RsaKey>)
    ensures
        key_view(r) == rsa_key_in(der@),
{
    match key_from_spki(der) {
        Some(key) => Some(key),
        None => match key_bytes_of_spki(der) {
            Some(bytes) => key_from_pkcs1(bytes.as_slice()),
            None => None,
        },
    }
}

/// One key of an issuer's directory. Keys that are no text are `None`.
#[derive(Debug)]
pub struct DirectoryKey {
    pub token_type: u64,
    pub token_key: Option<String>,
    /// Whether the bytes of the key are a key for partially blind signatures, which the caller
    /// tells. It counts for keys of that type alone.
    pub parses_as_pbrs: bool,
}

/// One key of an issuer's directory.
#[verifier::ext_equal]
pub struct DirectoryKeyView {
    pub token_type: u64,
    pub token_key: Option<Seq<char>>,
    pub parses_as_pbrs: bool,
}

impl View for DirectoryKey {
    type V = DirectoryKeyView;

    open spec fn view(&self) -> DirectoryKeyView {
        DirectoryKeyView {
            token_type: self.token_type,
            token_key: crate::auth::cose::text_view(self.token_key),
            parses_as_pbrs: self.parses_as_pbrs,
        }
    }
}

/// The contents of a directory.
pub open spec fn directory_view(keys: Seq<DirectoryKey>) -> Seq<DirectoryKeyView> {
    keys.map_values(|key: DirectoryKey| key@)
}

/// The keys of an issuer: keys for blind signatures, and the encoded keys for partially blind
/// ones.
#[derive(Debug)]
pub struct IssuerKeys {
    pub blind_rsa_keys: Vec<RsaKey>,
    pub pbrs_keys: Vec<Vec<u8>>,
}

/// The keys of an issuer.
#[verifier::ext_equal]
pub struct IssuerKeysView {
    pub blind_rsa_keys: Seq<RsaKeyView>,
    pub pbrs_keys: Seq<Seq<u8>>,
}

impl View for IssuerKeys {
    type V = IssuerKeysView;

    open spec fn view(&self) -> IssuerKeysView {
        IssuerKeysView {
            blind_rsa_keys: keys_view(self.blind_rsa_keys@),
            pbrs_keys: crate::bytes::tuple_view(self.pbrs_keys@),
        }
    }
}

/// Why the keys of an issuer cannot be used.
#[derive(Debug, Clone, Copy, PartialEq, Eq, Structural)]
pub enum DirectoryError {
    /// A key is not base64.
    NotBase64,
    /// A key is no SubjectPublicKeyInfo.
    NotSpki,
    /// A SubjectPublicKeyInfo holds no RSA key.
    NotRsa,
    /// A key is none for partially blind signatures.
    NotPbrs,
    /// There is no key of a known type.
    NoKeys,
}

/// The bytes of a key in a directory.
pub open spec fn key_bytes_in(text: Seq<char>) -> Option<Seq<u8>> {
    match wire::url_base64_decoded(text) {
        Some(bytes) => Some(bytes),
        None => base64_decoded(text),
    }
}

/// The keys that one more key of a directory gives.
pub open spec fn with_key(keys: IssuerKeysView, key: DirectoryKeyView) -> Result<
    IssuerKeysView,
    DirectoryError,
> {
    match key.token_key {
        None => Ok(keys),
        Some(text) => match key_bytes_in(text) {
            None => Err(DirectoryError::NotBase64),
            Some(bytes) => if key.token_type == TOKEN_TYPE_BLIND_RSA {
                match rsa_key_in(bytes) {
                    Some(key) => Ok(
                        IssuerKeysView { blind_rsa_keys: keys.blind_rsa_keys.push(key), ..keys },
                    ),
                    None => if spki_key_bytes(bytes) is None {
                        Err(DirectoryError::NotSpki)
                    } else {
                        Err(DirectoryError::NotRsa)
                    },
                }
            } else if key.token_type == TOKEN_TYPE_PBRS {
                if key.parses_as_pbrs {
                    Ok(IssuerKeysView { pbrs_keys: keys.pbrs_keys.push(bytes), ..keys })
                } else {
                    Err(DirectoryError::NotPbrs)
                }
            } else {
                Ok(keys)
            },
        },
    }
}

/// The keys that the first `n` keys of a directory give.
pub open spec fn keys_of(directory: Seq<DirectoryKeyView>, n: int) -> Result<
    IssuerKeysView,
    DirectoryError,
>
    decreases n,
{
    if n <= 0 {
        Ok(IssuerKeysView { blind_rsa_keys: seq![], pbrs_keys: seq![] })
    } else {
        match keys_of(directory, n - 1) {
            Ok(keys) => with_key(keys, directory[n - 1]),
            Err(e) => Err(e),
        }
    }
}

/// The keys that a directory gives. There must be one.
pub open spec fn selected_keys(directory: Seq<DirectoryKeyView>) -> Result<
    IssuerKeysView,
    DirectoryError,
> {
    match keys_of(directory, directory.len() as int) {
        Ok(keys) => if keys.blind_rsa_keys.len() == 0 && keys.pbrs_keys.len() == 0 {
            Err(DirectoryError::NoKeys)
        } else {
            Ok(keys)
        },
        Err(e) => Err(e),
    }
}

/// The contents of a result that holds keys.
pub open spec fn selection_view(r: Result<IssuerKeys, DirectoryError>) -> Result<
    IssuerKeysView,
    DirectoryError,
> {
    match r {
        Ok(keys) => Ok(keys@),
        Err(e) => Err(e),
    }
}

proof fn lemma_failure_stays(directory: Seq<DirectoryKeyView>, m: int, n: int)
    requires
        0 <= m <= n,
        keys_of(directory, m) is Err,
    ensures
        keys_of(directory, n) == keys_of(directory, m),
    decreases n,
{
    if m < n {
        lemma_failure_stays(directory, m, n - 1);
    }
}

/// The bytes of a key in a directory.
pub fn key_bytes(text: &String) -> (r: Option<Vec<u8>>)
    ensures
        wire::bytes_view(r) == key_bytes_in(text@),
{
    match url_base64_bytes(text) {
        Some(bytes) => Some(bytes),
        None => base64_bytes(text),
    }
}

/// Adds one more key of a directory.
fn add_key(keys: &mut IssuerKeys, key: &DirectoryKey) -> (r: Result<(), DirectoryError>)
    ensures
        match r {
            Ok(_) => with_key(old(keys)@, key@) == Ok::<IssuerKeysView, DirectoryError>(
                final(keys)@,
            ),
            Err(e) => with_key(old(keys)@, key@) == Err::<IssuerKeysView, DirectoryError>(e),
        },
{
    let text = match &key.token_key {
        Some(text) => text,
        None => {
            return Ok(());
        },
    };
    let bytes = match key_bytes(text) {
        Some(bytes) => bytes,
        None => {
            return Err(DirectoryError::NotBase64);
        },
    };
    if key.token_type == TOKEN_TYPE_BLIND_RSA {
        match rsa_key_from_der(bytes.as_slice()) {
            Some(rsa_key) => {
                keys.blind_rsa_keys.push(rsa_key);
                assert(keys_view(keys.blind_rsa_keys@) =~= old(keys)@.blind_rsa_keys.push(
                    rsa_key@,
                ));
            },
            None => {
                if key_bytes_of_spki(bytes.as_slice()).is_none() {
                    return Err(DirectoryError::NotSpki);
                }
                return Err(DirectoryError::NotRsa);
            },
        }
    } else if key.token_type == TOKEN_TYPE_PBRS {
        if !key.parses_as_pbrs {
            return Err(DirectoryError::NotPbrs);
        }
        let ghost content = bytes@;
        keys.pbrs_keys.push(bytes);
        assert(crate::bytes::tuple_view(keys.pbrs_keys@) =~= old(keys)@.pbrs_keys.push(content));
    }
    Ok(())
}

/// The keys of an issuer's directory. Keys of other types are passed over.
pub fn select_issuer_keys(directory: &Vec<DirectoryKey>) -> (r: Result<IssuerKeys, DirectoryError>)
    ensures
        selection_view(r) == selected_keys(directory_view(directory@)),
{
    let ghost all = directory_view(directory@);
    let n: usize = directory.len();
    let mut keys = IssuerKeys { blind_rsa_keys: Vec::new(), pbrs_keys: Vec::new() };
    assert(keys@ =~= (IssuerKeysView { blind_rsa_keys: seq![], pbrs_keys: seq![] }));
    let mut i: usize = 0;
    while i < n
        invariant
            i <= n,
            n == directory@.len(),
            all == directory_view(directory@),
            keys_of(all, i as int) == Ok::<IssuerKeysView, DirectoryError>(keys@),
        decreases n - i,
    {
        assert(all[i as int] == directory@[i as int]@);
        match add_key(&mut keys, &directory[i]) {
            Ok(_) => {},
            Err(e) => {
                proof {
                    lemma_failure_stays(all, i + 1, n as int);
                }
                return Err(e);
            },
        }
        i += 1;
    }
    if keys.blind_rsa_keys.len() == 0 && keys.pbrs_keys.len() == 0 {
        return Err(DirectoryError::NoKeys);
    }
    Ok(keys)
}

/// Every key of a directory that has one of the two types is selected, in its form, and every key
/// that is selected stands in the directory.
pub proof fn law_listed_keys_are_selected(
    directory: Seq<DirectoryKeyView>,
    n: int,
    i: int,
    text: Seq<char>,
)
    requires
        0 <= i < n <= directory.len(),
        keys_of(directory, n) is Ok,
        directory[i].token_key == Some(text),
    ensures
        key_bytes_in(text) is Some,
        directory[i].token_type == TOKEN_TYPE_BLIND_RSA ==> rsa_key_in(key_bytes_in(text)->0) is Some
            && keys_of(directory, n)->Ok_0.blind_rsa_keys.contains(
            rsa_key_in(key_bytes_in(text)->0)->0,
        ),
        directory[i].token_type == TOKEN_TYPE_PBRS ==> directory[i].parses_as_pbrs && keys_of(
            directory,
            n,
        )->Ok_0.pbrs_keys.contains(key_bytes_in(text)->0),
    decreases n,
{
    let before = keys_of(directory, n - 1)->Ok_0;
    let after = keys_of(directory, n)->Ok_0;
    let bytes = key_bytes_in(text)->0;
    if i == n - 1 {
        if directory[i].token_type == TOKEN_TYPE_BLIND_RSA {
            assert(after.blind_rsa_keys[before.blind_rsa_keys.len() as int] == rsa_key_in(bytes)->0);
        } else if directory[i].token_type == TOKEN_TYPE_PBRS {
            assert(after.pbrs_keys[before.pbrs_keys.len() as int] == bytes);
        }
    } else {
        law_listed_keys_are_selected(directory, n - 1, i, text);
        assert(before.blind_rsa_keys.is_prefix_of(after.blind_rsa_keys)) by {
            assert(after.blind_rsa_keys.subrange(0, before.blind_rsa_keys.len() as int)
                =~= before.blind_rsa_keys);
        }
        assert(before.pbrs_keys.is_prefix_of(after.pbrs_keys)) by {
            assert(after.pbrs_keys.subrange(0, before.pbrs_keys.len() as int) =~= before.pbrs_keys);
        }
        if directory[i].token_type == TOKEN_TYPE_BLIND_RSA {
            let k = before.blind_rsa_keys.index_of(rsa_key_in(bytes)->0);
            assert(after.blind_rsa_keys[k] == rsa_key_in(bytes)->0);
        } else if directory[i].token_type == TOKEN_TYPE_PBRS {
            let k = before.pbrs_keys.index_of(bytes);
            assert(after.pbrs_keys[k] == bytes);
        }
    }
}

/// A key that is selected stands in the directory under its type.
pub proof fn law_selected_keys_are_listed(directory: Seq<DirectoryKeyView>, n: int, k: int)
    requires
        0 <= n <= directory.len(),
        keys_of(directory, n) is Ok,
        0 <= k,
    ensures
        k < keys_of(directory, n)->Ok_0.blind_rsa_keys.len() ==> exists|i: int|
            0 <= i < n && (#[trigger] directory[i]).token_type == TOKEN_TYPE_BLIND_RSA
                && directory[i].token_key is Some && key_bytes_in(directory[i].token_key->0) is Some
                && rsa_key_in(key_bytes_in(directory[i].token_key->0)->0) == Some(
                keys_of(directory, n)->Ok_0.blind_rsa_keys[k],
            ),
        k < keys_of(directory, n)->Ok_0.pbrs_keys.len() ==> exists|i: int|
            0 <= i < n && (#[trigger] directory[i]).token_type == TOKEN_TYPE_PBRS
                && directory[i].token_key is Some && key_bytes_in(directory[i].token_key->0) == Some(
                keys_of(directory, n)->Ok_0.pbrs_keys[k],
            ),
    decreases n,
{
    if n > 0 {
        law_selected_keys_are_listed(directory, n - 1, k);
        let before = keys_of(directory, n - 1)->Ok_0;
        let after = keys_of(directory, n)->Ok_0;
        let last = directory[n - 1];
        if k < after.blind_rsa_keys.len() && k >= before.blind_rsa_keys.len() {
            assert(last.token_type == TOKEN_TYPE_BLIND_RSA);
        }
        if k < after.pbrs_keys.len() && k >= before.pbrs_keys.len() {
            assert(last.token_type == TOKEN_TYPE_PBRS);
        }
    }
}

/// A directory that gives no key is refused, and so is one with a key that cannot be used. Any other
/// is taken.
pub proof fn law_directory_has_to_give_a_key(directory: Seq<DirectoryKeyView>)
    ensures
        selected_keys(directory) matches Ok(keys) ==> keys.blind_rsa_keys.len()
            + keys.pbrs_keys.len() > 0 && keys_of(directory, directory.len() as int) == Ok::<
            IssuerKeysView,
            DirectoryError,
        >(keys),
        keys_of(directory, directory.len() as int) is Err ==> selected_keys(directory) == keys_of(
            directory,
            directory.len() as int,
        ),
        keys_of(directory, directory.len() as int) matches Ok(keys) ==> (selected_keys(
            directory,
        ) is Ok <==> keys.blind_rsa_keys.len() + keys.pbrs_keys.len() > 0),
{
}

/// A key of a directory is one in either alphabet of Base64; the one for addresses goes first.
pub proof fn law_keys_are_read_in_either_alphabet(text: Seq<char>)
    ensures
        key_bytes_in(text) is Some <==> wire::url_base64_decoded(text) is Some || base64_decoded(
            text,
        ) is Some,
        wire::url_base64_decoded(text) is Some ==> key_bytes_in(text) == wire::url_base64_decoded(
            text,
        ),
        wire::url_base64_decoded(text) is None ==> key_bytes_in(text) == base64_decoded(text),
{
}

/// What one key of a directory does: one without a key, or of a type that is not known, changes
/// nothing, and one of a known type is added or is an error.
pub proof fn law_one_key_adds_at_most_one(keys: IssuerKeysView, key: DirectoryKeyView)
    ensures
        key.token_key is None ==> with_key(keys, key) == Ok::<IssuerKeysView, DirectoryError>(keys),
        with_key(keys, key) matches Ok(after) ==> {
            &&& keys.blind_rsa_keys.is_prefix_of(after.blind_rsa_keys)
            &&& keys.pbrs_keys.is_prefix_of(after.pbrs_keys)
            &&& after.blind_rsa_keys.len() + after.pbrs_keys.len() <= keys.blind_rsa_keys.len()
                + keys.pbrs_keys.len() + 1
            &&& key.token_type != TOKEN_TYPE_BLIND_RSA && key.token_type != TOKEN_TYPE_PBRS ==> after
                == keys
        },
        with_key(keys, key) is Err ==> key.token_key is Some && (key_bytes_in(
            key.token_key->0,
        ) is None || key.token_type == TOKEN_TYPE_BLIND_RSA || key.token_type == TOKEN_TYPE_PBRS),
{
    assert(keys.blind_rsa_keys.subrange(0, keys.blind_rsa_keys.len() as int)
        =~= keys.blind_rsa_keys);
    assert(keys.pbrs_keys.subrange(0, keys.pbrs_keys.len() as int) =~= keys.pbrs_keys);
    match with_key(keys, key) {
        Ok(after) => {
            assert(after.blind_rsa_keys.subrange(0, keys.blind_rsa_keys.len() as int)
                =~= keys.blind_rsa_keys);
            assert(after.pbrs_keys.subrange(0, keys.pbrs_keys.len() as int) =~= keys.pbrs_keys);
        },
        Err(_) => {},
    }
}

} // verus!
