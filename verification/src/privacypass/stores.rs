//! Keys of issuers, and the nonces of tokens that were seen.

use vstd::prelude::*;
use std::collections::HashMap;
use blind_rsa_signatures::{Deterministic, PublicKey, Sha384, PSS};
use crate::bytes::{bytes_eq, copy_bytes};
use crate::privacypass::token::PUBLIC_TOKEN_TYPE;
use crate::privacypass::wire::{self, url_base64_bytes};

verus! {

broadcast use vstd::std_specs::hash::group_hash_axioms;

/// Why a key is not stored.
#[derive(Debug, Clone, Copy, PartialEq, Eq, Structural)]
pub enum StoreError {
    /// The key is no public key.
    InvalidPublicKey,
}

/// A DER-encoded SubjectPublicKeyInfo holds a key for blind signatures with SHA-384 and PSS.
pub uninterp spec fn is_blind_key(der: Seq<u8>) -> bool;

/// `blind_rsa_signatures::PublicKey::from_spki`: whether a DER-encoded SubjectPublicKeyInfo holds a
/// key for blind signatures with SHA-384 and PSS.
#[verifier::external_body]
fn parses_as_blind_key(der: &[u8]) -> (r: bool)
    ensures
        r == is_blind_key(der@),
{
    PublicKey::<Sha384, PSS, Deterministic>::from_spki(der).is_ok()
}

/// A key for blind signatures, as a DER-encoded SubjectPublicKeyInfo.
#[derive(Debug)]
pub struct BlindKey {
    pub der: Vec<u8>,
}

/// The key that a DER-encoded SubjectPublicKeyInfo holds.
pub fn public_key_from_spki_der(der: &[u8]) -> (r: Result<BlindKey, StoreError>)
    ensures
        match r {
            Ok(key) => is_blind_key(der@) && key.der@ == der@,
            Err(e) => !is_blind_key(der@) && e == StoreError::InvalidPublicKey,
        },
{
    if parses_as_blind_key(der) {
        Ok(BlindKey { der: copy_bytes(der) })
    } else {
        Err(StoreError::InvalidPublicKey)
    }
}

/// The keys of issuers, by the shortened identifiers of the keys. Keys can share an identifier.
pub struct PublicKeyStore {
    keys: HashMap<u8, Vec<BlindKey>>,
}

/// The contents of a list of keys.
pub open spec fn blind_keys_view(keys: Seq<BlindKey>) -> Seq<Seq<u8>> {
    keys.map_values(|key: BlindKey| key.der@)
}

impl View for PublicKeyStore {
    type V = Map<u8, Seq<Seq<u8>>>;

    closed spec fn view(&self) -> Map<u8, Seq<Seq<u8>>> {
        self.keys@.map_values(|keys: Vec<BlindKey>| blind_keys_view(keys@))
    }
}

/// The keys under an identifier.
pub open spec fn keys_under(store: Map<u8, Seq<Seq<u8>>>, key_id: u8) -> Seq<Seq<u8>> {
    if store.dom().contains(key_id) {
        store[key_id]
    } else {
        seq![]
    }
}

impl PublicKeyStore {
    /// A store without keys.
    pub fn new() -> (r: Self)
        ensures
            r@ == Map::<u8, Seq<Seq<u8>>>::empty(),
    {
        let r = PublicKeyStore { keys: HashMap::new() };
        assert(r@ =~= Map::<u8, Seq<Seq<u8>>>::empty());
        r
    }

    /// Adds a key under an identifier.
    pub fn insert(&mut self, key_id: u8, key: BlindKey)
        ensures
            final(self)@ == old(self)@.insert(key_id, keys_under(old(self)@, key_id).push(key.der@)),
    {
        let ghost before = keys_under(self@, key_id);
        let mut keys = match self.keys.remove(&key_id) {
            Some(keys) => keys,
            None => Vec::new(),
        };
        assert(blind_keys_view(keys@) =~= before);
        keys.push(key);
        assert(blind_keys_view(keys@) =~= before.push(key.der@));
        self.keys.insert(key_id, keys);
        assert(self@ =~= old(self)@.insert(key_id, before.push(key.der@)));
    }

    /// Adds a key under its own identifier. `key_id` is the identifier that was made for the key,
    /// or `None` if none could be.
    pub fn insert_public_key(&mut self, key_id: Option<u8>, key: BlindKey) -> (r: Result<
        (),
        StoreError,
    >)
        ensures
            match key_id {
                Some(key_id) => r == Ok::<(), StoreError>(()) && final(self)@ == old(self)@.insert(
                    key_id,
                    keys_under(old(self)@, key_id).push(key.der@),
                ),
                None => r == Err::<(), StoreError>(StoreError::InvalidPublicKey) && final(self)@
                    == old(self)@,
            },
    {
        match key_id {
            Some(key_id) => {
                self.insert(key_id, key);
                Ok(())
            },
            None => Err(StoreError::InvalidPublicKey),
        }
    }

    /// The keys under an identifier.
    pub fn get(&self, key_id: u8) -> (r: Vec<BlindKey>)
        ensures
            blind_keys_view(r@) == keys_under(self@, key_id),
    {
        let mut out: Vec<BlindKey> = Vec::new();
        match self.keys.get(&key_id) {
            Some(keys) => {
                let mut i: usize = 0;
                while i < keys.len()
                    invariant
                        i <= keys@.len(),
                        blind_keys_view(out@) =~= blind_keys_view(keys@).take(i as int),
                    decreases keys@.len() - i,
                {
                    let ghost before = blind_keys_view(out@);
                    let copy = BlindKey { der: copy_bytes(keys[i].der.as_slice()) };
                    out.push(copy);
                    assert(blind_keys_view(out@) =~= before.push(copy.der@));
                    assert(blind_keys_view(keys@)[i as int] == copy.der@);
                    i += 1;
                }
                assert(blind_keys_view(out@) =~= blind_keys_view(keys@));
            },
            None => {
                assert(blind_keys_view(out@) =~= keys_under(self@, key_id));
            },
        }
        out
    }

    /// Drops the keys under an identifier. Tells whether there were any.
    pub fn remove(&mut self, key_id: u8) -> (r: bool)
        ensures
            r == old(self)@.dom().contains(key_id),
            final(self)@ == old(self)@.remove(key_id),
    {
        let removed = self.keys.remove(&key_id).is_some();
        assert(self@ =~= old(self)@.remove(key_id));
        removed
    }
}

/// One key of an issuer's directory.
#[derive(Debug)]
pub struct IssuerTokenKey {
    pub token_type: u16,
    pub token_key: String,
}

/// Why the public keys of an issuer cannot be used.
#[derive(Debug, Clone, Copy, PartialEq, Eq, Structural)]
pub enum LoadError {
    /// A key is not base64.
    NotBase64,
    /// A key is no public key.
    InvalidPublicKey,
    /// There is no key for publicly verifiable tokens.
    NoKeys,
}

/// The keys for publicly verifiable tokens among the first `n` of a directory.
pub open spec fn public_keys_of(directory: Seq<IssuerTokenKey>, n: int) -> Result<
    Seq<Seq<u8>>,
    LoadError,
>
    decreases n,
{
    if n <= 0 {
        Ok(seq![])
    } else {
        match public_keys_of(directory, n - 1) {
            Ok(keys) => if directory[n - 1].token_type != PUBLIC_TOKEN_TYPE {
                Ok(keys)
            } else {
                match wire::url_base64_decoded(directory[n - 1].token_key@) {
                    Some(der) => if is_blind_key(der) {
                        Ok(keys.push(der))
                    } else {
                        Err(LoadError::InvalidPublicKey)
                    },
                    None => Err(LoadError::NotBase64),
                }
            },
            Err(e) => Err(e),
        }
    }
}

/// The keys for publicly verifiable tokens in a directory. There must be one.
pub open spec fn public_keys_in(directory: Seq<IssuerTokenKey>) -> Result<
    Seq<Seq<u8>>,
    LoadError,
> {
    match public_keys_of(directory, directory.len() as int) {
        Ok(keys) => if keys.len() == 0 {
            Err(LoadError::NoKeys)
        } else {
            Ok(keys)
        },
        Err(e) => Err(e),
    }
}

proof fn lemma_load_failure_stays(directory: Seq<IssuerTokenKey>, m: int, n: int)
    requires
        0 <= m <= n,
        public_keys_of(directory, m) is Err,
    ensures
        public_keys_of(directory, n) == public_keys_of(directory, m),
    decreases n,
{
    if m < n {
        lemma_load_failure_stays(directory, m, n - 1);
    }
}

/// The keys for publicly verifiable tokens in an issuer's directory.
pub fn select_public_keys(directory: &Vec<IssuerTokenKey>) -> (r: Result<Vec<BlindKey>, LoadError>)
    ensures
        match r {
            Ok(keys) => public_keys_in(directory@) == Ok::<Seq<Seq<u8>>, LoadError>(
                blind_keys_view(keys@),
            ),
            Err(e) => public_keys_in(directory@) == Err::<Seq<Seq<u8>>, LoadError>(e),
        },
{
    let n: usize = directory.len();
    let mut keys: Vec<BlindKey> = Vec::new();
    assert(blind_keys_view(keys@) =~= seq![]);
    let mut i: usize = 0;
    while i < n
        invariant
            i <= n,
            n == directory@.len(),
            public_keys_of(directory@, i as int) == Ok::<Seq<Seq<u8>>, LoadError>(
                blind_keys_view(keys@),
            ),
        decreases n - i,
    {
        if directory[i].token_type == PUBLIC_TOKEN_TYPE {
            let der = match url_base64_bytes(&directory[i].token_key) {
                Some(der) => der,
                None => {
                    proof {
                        lemma_load_failure_stays(directory@, i + 1, n as int);
                    }
                    return Err(LoadError::NotBase64);
                },
            };
            match public_key_from_spki_der(der.as_slice()) {
                Ok(key) => {
                    let ghost before = blind_keys_view(keys@);
                    keys.push(key);
                    assert(blind_keys_view(keys@) =~= before.push(key.der@));
                },
                Err(_) => {
                    proof {
                        lemma_load_failure_stays(directory@, i + 1, n as int);
                    }
                    return Err(LoadError::InvalidPublicKey);
                },
            }
        }
        i += 1;
    }
    if keys.len() == 0 {
        return Err(LoadError::NoKeys);
    }
    Ok(keys)
}

/// The place of the first key for publicly verifiable tokens among the first `n` of a directory.
pub open spec fn first_public_key(directory: Seq<IssuerTokenKey>, n: int) -> Option<int>
    decreases n,
{
    if n <= 0 {
        None
    } else {
        match first_public_key(directory, n - 1) {
            Some(i) => Some(i),
            None => if directory[n - 1].token_type == PUBLIC_TOKEN_TYPE {
                Some(n - 1)
            } else {
                None
            },
        }
    }
}

proof fn lemma_first_public_key_stays(directory: Seq<IssuerTokenKey>, m: int, n: int)
    requires
        0 <= m <= n,
        first_public_key(directory, m) is Some,
    ensures
        first_public_key(directory, n) == first_public_key(directory, m),
    decreases n,
{
    if m < n {
        lemma_first_public_key_stays(directory, m, n - 1);
    }
}

/// The first key for publicly verifiable tokens in an issuer's directory.
pub fn find_public_key(directory: &Vec<IssuerTokenKey>) -> (r: Option<&IssuerTokenKey>)
    ensures
        match r {
            Some(key) => first_public_key(directory@, directory@.len() as int) is Some && *key
                == directory@[first_public_key(directory@, directory@.len() as int)->0],
            None => first_public_key(directory@, directory@.len() as int) is None,
        },
{
    let n: usize = directory.len();
    let mut i: usize = 0;
    while i < n
        invariant
            i <= n,
            n == directory@.len(),
            first_public_key(directory@, i as int) is None,
        decreases n - i,
    {
        if directory[i].token_type == PUBLIC_TOKEN_TYPE {
            proof {
                lemma_first_public_key_stays(directory@, i + 1, n as int);
            }
            return Some(&directory[i]);
        }
        i += 1;
    }
    None
}

/// The key that a client asks an issuer for a token with: the first one for publicly verifiable
/// tokens in the issuer's directory.
pub open spec fn issuer_key_in(directory: Seq<IssuerTokenKey>) -> Result<Seq<u8>, LoadError> {
    match first_public_key(directory, directory.len() as int) {
        None => Err(LoadError::NoKeys),
        Some(i) => match wire::url_base64_decoded(directory[i].token_key@) {
            None => Err(LoadError::NotBase64),
            Some(der) => if is_blind_key(der) {
                Ok(der)
            } else {
                Err(LoadError::InvalidPublicKey)
            },
        },
    }
}

/// The key that a client asks an issuer for a token with. Keys that stand after it in the directory
/// are not looked at.
pub fn issuer_public_key(directory: &Vec<IssuerTokenKey>) -> (r: Result<BlindKey, LoadError>)
    ensures
        match r {
            Ok(key) => issuer_key_in(directory@) == Ok::<Seq<u8>, LoadError>(key.der@),
            Err(e) => issuer_key_in(directory@) == Err::<Seq<u8>, LoadError>(e),
        },
{
    let entry = match find_public_key(directory) {
        Some(entry) => entry,
        None => {
            return Err(LoadError::NoKeys);
        },
    };
    let der = match url_base64_bytes(&entry.token_key) {
        Some(der) => der,
        None => {
            return Err(LoadError::NotBase64);
        },
    };
    match public_key_from_spki_der(der.as_slice()) {
        Ok(key) => Ok(key),
        Err(_) => Err(LoadError::InvalidPublicKey),
    }
}

proof fn lemma_client_key_leads(directory: Seq<IssuerTokenKey>, n: int)
    requires
        0 <= n <= directory.len(),
        public_keys_of(directory, n) is Ok,
    ensures
        first_public_key(directory, n) is None <==> public_keys_of(directory, n)->Ok_0.len() == 0,
        first_public_key(directory, n) matches Some(i) ==> 0 <= i < n
            && wire::url_base64_decoded(directory[i].token_key@) == Some(
            public_keys_of(directory, n)->Ok_0[0],
        ) && is_blind_key(public_keys_of(directory, n)->Ok_0[0]),
    decreases n,
{
    if n > 0 {
        lemma_client_key_leads(directory, n - 1);
    }
}

/// A client asks for tokens with the first of the keys that a relay loads from the same directory.
pub proof fn law_client_asks_with_first_loaded_key(directory: Seq<IssuerTokenKey>)
    requires
        public_keys_in(directory) is Ok,
    ensures
        public_keys_in(directory)->Ok_0.len() > 0,
        issuer_key_in(directory) == Ok::<Seq<u8>, LoadError>(public_keys_in(directory)->Ok_0[0]),
{
    lemma_client_key_leads(directory, directory.len() as int);
}

/// What became of the nonce of a token.
#[derive(Debug, Clone, Copy, PartialEq, Eq, Structural)]
pub enum NonceState {
    Reserved,
    Committed,
}

#[derive(Debug)]
struct NonceEntry {
    nonce: Vec<u8>,
    state: NonceState,
}

/// The nonces of tokens that are being redeemed or have been.
#[derive(Debug)]
pub struct ReplayCache {
    nonces: Vec<NonceEntry>,
}

/// No nonce occurs twice.
closed spec fn distinct(entries: Seq<NonceEntry>) -> bool {
    forall|i: int, j: int|
        0 <= i < j < entries.len() ==> (#[trigger] entries[i]).nonce@ != (
        #[trigger] entries[j]).nonce@
}

/// The entry at `i` is of a nonce.
closed spec fn entry_of(entries: Seq<NonceEntry>, nonce: Seq<u8>, i: int) -> bool {
    0 <= i < entries.len() && entries[i].nonce@ == nonce
}

/// The states of nonces.
closed spec fn states(entries: Seq<NonceEntry>) -> Map<Seq<u8>, NonceState> {
    Map::new(
        |nonce: Seq<u8>| exists|i: int| entry_of(entries, nonce, i),
        |nonce: Seq<u8>| entries[choose|i: int| entry_of(entries, nonce, i)].state,
    )
}

impl View for ReplayCache {
    type V = Map<Seq<u8>, NonceState>;

    closed spec fn view(&self) -> Map<Seq<u8>, NonceState> {
        states(self.nonces@)
    }
}

proof fn lemma_state(entries: Seq<NonceEntry>, i: int)
    requires
        distinct(entries),
        0 <= i < entries.len(),
    ensures
        states(entries).dom().contains(entries[i].nonce@),
        states(entries)[entries[i].nonce@] == entries[i].state,
{
    assert(entry_of(entries, entries[i].nonce@, i));
}

/// Nonces are kept whose entries are kept.
proof fn lemma_states_agree(a: Seq<NonceEntry>, b: Seq<NonceEntry>, except: Seq<u8>)
    requires
        distinct(a),
        distinct(b),
        forall|n: Seq<u8>, i: int|
            n != except && #[trigger] entry_of(a, n, i) ==> exists|j: int|
                entry_of(b, n, j) && b[j].state == a[i].state,
        forall|n: Seq<u8>, i: int|
            n != except && #[trigger] entry_of(b, n, i) ==> exists|j: int| entry_of(a, n, j),
    ensures
        states(a).remove(except) =~= states(b).remove(except),
{
    assert forall|n: Seq<u8>| n != except && states(a).dom().contains(n) implies states(
        b,
    ).dom().contains(n) && states(a)[n] == states(b)[n] by {
        let i = choose|i: int| entry_of(a, n, i);
        let j = choose|j: int| entry_of(b, n, j) && b[j].state == a[i].state;
        lemma_state(a, i);
        lemma_state(b, j);
    }
    assert forall|n: Seq<u8>| n != except && states(b).dom().contains(n) implies states(
        a,
    ).dom().contains(n) by {
        let i = choose|i: int| entry_of(b, n, i);
        let j = choose|j: int| entry_of(a, n, j);
        lemma_state(a, j);
    }
}

/// The cache with a nonce reserved, if nothing is known of it.
pub open spec fn reserved(cache: Map<Seq<u8>, NonceState>, nonce: Seq<u8>) -> Map<
    Seq<u8>,
    NonceState,
> {
    if cache.dom().contains(nonce) {
        cache
    } else {
        cache.insert(nonce, NonceState::Reserved)
    }
}

/// The cache with a nonce used up, if it was reserved.
pub open spec fn committed(cache: Map<Seq<u8>, NonceState>, nonce: Seq<u8>) -> Map<
    Seq<u8>,
    NonceState,
> {
    if cache.dom().contains(nonce) {
        cache.insert(nonce, NonceState::Committed)
    } else {
        cache
    }
}

/// The cache with a nonce given back, if it was reserved and not used up.
pub open spec fn released(cache: Map<Seq<u8>, NonceState>, nonce: Seq<u8>) -> Map<
    Seq<u8>,
    NonceState,
> {
    if cache.dom().contains(nonce) && cache[nonce] == NonceState::Reserved {
        cache.remove(nonce)
    } else {
        cache
    }
}

impl ReplayCache {
    /// No nonce occurs twice.
    pub closed spec fn wf(&self) -> bool {
        distinct(self.nonces@)
    }

    /// A cache that knows no nonce.
    pub fn new() -> (r: Self)
        ensures
            r.wf(),
            r@ == Map::<Seq<u8>, NonceState>::empty(),
    {
        let r = ReplayCache { nonces: Vec::new() };
        assert(r@ =~= Map::<Seq<u8>, NonceState>::empty());
        r
    }

    fn find(&self, nonce: &[u8]) -> (r: Option<usize>)
        requires
            self.wf(),
        ensures
            match r {
                Some(i) => i < self.nonces@.len() && self.nonces@[i as int].nonce@ == nonce@
                    && self@.dom().contains(nonce@) && self@[nonce@]
                    == self.nonces@[i as int].state,
                None => !self@.dom().contains(nonce@),
            },
    {
        let mut i: usize = 0;
        while i < self.nonces.len()
            invariant
                i <= self.nonces@.len(),
                self.wf(),
                forall|k: int| 0 <= k < i ==> (#[trigger] self.nonces@[k]).nonce@ != nonce@,
            decreases self.nonces@.len() - i,
        {
            if bytes_eq(self.nonces[i].nonce.as_slice(), nonce) {
                proof {
                    lemma_state(self.nonces@, i as int);
                }
                return Some(i);
            }
            i += 1;
        }
        None
    }

    /// Reserves a nonce. Tells whether nothing was known of it.
    pub fn reserve(&mut self, nonce: &[u8]) -> (r: bool)
        requires
            old(self).wf(),
        ensures
            final(self).wf(),
            r == !old(self)@.dom().contains(nonce@),
            final(self)@ == reserved(old(self)@, nonce@),
    {
        if self.find(nonce).is_some() {
            return false;
        }
        let ghost before = self.nonces@;
        let entry = NonceEntry { nonce: copy_bytes(nonce), state: NonceState::Reserved };
        self.nonces.push(entry);
        proof {
            let after = self.nonces@;
            assert forall|i: int| 0 <= i < before.len() implies (
            #[trigger] after[i]).nonce@ != nonce@ by {
                assert(entry_of(before, before[i].nonce@, i));
            }
            assert(distinct(after));
            assert forall|n: Seq<u8>, i: int|
                n != nonce@ && #[trigger] entry_of(before, n, i) implies exists|j: int|
                entry_of(after, n, j) && after[j].state == before[i].state by {
                assert(entry_of(after, n, i));
            }
            assert forall|n: Seq<u8>, i: int|
                n != nonce@ && #[trigger] entry_of(after, n, i) implies exists|j: int|
                entry_of(before, n, j) by {
                assert(entry_of(before, n, i));
            }
            lemma_states_agree(before, after, nonce@);
            lemma_state(after, before.len() as int);
            assert(states(after) =~= states(after).remove(nonce@).insert(
                nonce@,
                NonceState::Reserved,
            ));
            assert(states(before).remove(nonce@) =~= states(before));
        }
        true
    }

    /// Uses up a nonce that was reserved.
    pub fn commit(&mut self, nonce: &[u8])
        requires
            old(self).wf(),
        ensures
            final(self).wf(),
            final(self)@ == committed(old(self)@, nonce@),
    {
        if let Some(at) = self.find(nonce) {
            let ghost before = self.nonces@;
            let entry = NonceEntry { nonce: copy_bytes(nonce), state: NonceState::Committed };
            self.nonces.set(at, entry);
            proof {
                let after = self.nonces@;
                assert forall|i: int| 0 <= i < before.len() implies (
                #[trigger] after[i]).nonce@ == before[i].nonce@ by {}
                assert(distinct(after));
                assert forall|n: Seq<u8>, i: int|
                    n != nonce@ && #[trigger] entry_of(before, n, i) implies exists|j: int|
                    entry_of(after, n, j) && after[j].state == before[i].state by {
                    assert(entry_of(after, n, i));
                }
                assert forall|n: Seq<u8>, i: int|
                    n != nonce@ && #[trigger] entry_of(after, n, i) implies exists|j: int|
                    entry_of(before, n, j) by {
                    assert(entry_of(before, n, i));
                }
                lemma_states_agree(before, after, nonce@);
                lemma_state(after, at as int);
                assert(states(after) =~= states(after).remove(nonce@).insert(
                    nonce@,
                    NonceState::Committed,
                ));
                assert(states(before).insert(nonce@, NonceState::Committed) =~= states(
                    before,
                ).remove(nonce@).insert(nonce@, NonceState::Committed));
            }
        }
    }

    /// Gives back a nonce that was reserved and not used up.
    pub fn release(&mut self, nonce: &[u8])
        requires
            old(self).wf(),
        ensures
            final(self).wf(),
            final(self)@ == released(old(self)@, nonce@),
    {
        if let Some(at) = self.find(nonce) {
            if self.nonces[at].state == NonceState::Reserved {
                let ghost before = self.nonces@;
                let _ = self.nonces.remove(at);
                proof {
                    let after = self.nonces@;
                    assert(after =~= before.remove(at as int));
                    assert(distinct(after));
                    assert forall|n: Seq<u8>, i: int|
                        n != nonce@ && #[trigger] entry_of(before, n, i) implies exists|j: int|
                        entry_of(after, n, j) && after[j].state == before[i].state by {
                        let j = if i < at {
                            i
                        } else {
                            i - 1
                        };
                        assert(after[j] == before[i]);
                        assert(entry_of(after, n, j));
                    }
                    assert forall|n: Seq<u8>, i: int| #[trigger] entry_of(after, n, i) implies n
                        != nonce@ && exists|j: int| entry_of(before, n, j) by {
                        let j = if i < at {
                            i
                        } else {
                            i + 1
                        };
                        assert(after[i] == before[j]);
                        assert(entry_of(before, n, j));
                    }
                    lemma_states_agree(before, after, nonce@);
                    assert(states(after).remove(nonce@) =~= states(after));
                }
            }
        }
    }
}

/// A nonce can be reserved once: it is refused after it was reserved, and after it was used up.
pub proof fn law_nonce_is_reserved_once(cache: Map<Seq<u8>, NonceState>, nonce: Seq<u8>)
    ensures
        reserved(cache, nonce).dom().contains(nonce),
        committed(reserved(cache, nonce), nonce).dom().contains(nonce),
        released(committed(reserved(cache, nonce), nonce), nonce).dom().contains(nonce),
{
}

/// Giving back a nonce undoes its reservation.
pub proof fn law_release_undoes_reserve(cache: Map<Seq<u8>, NonceState>, nonce: Seq<u8>)
    requires
        !cache.dom().contains(nonce),
    ensures
        released(reserved(cache, nonce), nonce) == cache,
{
    assert(released(reserved(cache, nonce), nonce) =~= cache);
}

/// A key that is added is found, behind the keys that were there.
pub proof fn law_added_key_is_found(
    store: Map<u8, Seq<Seq<u8>>>,
    key_id: u8,
    key: Seq<u8>,
    other: u8,
)
    ensures
        keys_under(store.insert(key_id, keys_under(store, key_id).push(key)), other) == (if other
            == key_id {
            keys_under(store, key_id).push(key)
        } else {
            keys_under(store, other)
        }),
{
}

/// A relay loads every key for publicly verifiable tokens that a directory lists, and no other.
pub proof fn law_listed_public_keys_are_loaded(directory: Seq<IssuerTokenKey>, n: int, i: int)
    requires
        0 <= i < n <= directory.len(),
        public_keys_of(directory, n) is Ok,
        directory[i].token_type == PUBLIC_TOKEN_TYPE,
    ensures
        wire::url_base64_decoded(directory[i].token_key@) matches Some(der) && is_blind_key(der)
            && public_keys_of(directory, n)->Ok_0.contains(der),
    decreases n,
{
    let before = public_keys_of(directory, n - 1)->Ok_0;
    let after = public_keys_of(directory, n)->Ok_0;
    let der = wire::url_base64_decoded(directory[i].token_key@)->0;
    if i == n - 1 {
        assert(after[before.len() as int] == der);
    } else {
        law_listed_public_keys_are_loaded(directory, n - 1, i);
        let k = before.index_of(der);
        assert(after[k] == der);
    }
}

/// A key that is loaded is listed for publicly verifiable tokens.
pub proof fn law_loaded_keys_are_listed(directory: Seq<IssuerTokenKey>, n: int, k: int)
    requires
        0 <= n <= directory.len(),
        public_keys_of(directory, n) is Ok,
        0 <= k < public_keys_of(directory, n)->Ok_0.len(),
    ensures
        exists|i: int|
            0 <= i < n && (#[trigger] directory[i]).token_type == PUBLIC_TOKEN_TYPE
                && wire::url_base64_decoded(directory[i].token_key@) == Some(
                public_keys_of(directory, n)->Ok_0[k],
            ),
    decreases n,
{
    if n > 0 {
        let before = public_keys_of(directory, n - 1)->Ok_0;
        if k < before.len() {
            law_loaded_keys_are_listed(directory, n - 1, k);
        } else {
            assert(directory[n - 1].token_type == PUBLIC_TOKEN_TYPE);
        }
    }
}

/// A directory without keys for publicly verifiable tokens is refused, by relays and by clients.
pub proof fn law_directory_without_public_keys_is_refused(directory: Seq<IssuerTokenKey>)
    requires
        forall|i: int|
            0 <= i < directory.len() ==> (#[trigger] directory[i]).token_type != PUBLIC_TOKEN_TYPE,
    ensures
        public_keys_in(directory) == Err::<Seq<Seq<u8>>, LoadError>(LoadError::NoKeys),
        issuer_key_in(directory) == Err::<Seq<u8>, LoadError>(LoadError::NoKeys),
{
    lemma_no_public_keys(directory, directory.len() as int);
}

proof fn lemma_no_public_keys(directory: Seq<IssuerTokenKey>, n: int)
    requires
        0 <= n <= directory.len(),
        forall|i: int|
            0 <= i < n ==> (#[trigger] directory[i]).token_type != PUBLIC_TOKEN_TYPE,
    ensures
        public_keys_of(directory, n) == Ok::<Seq<Seq<u8>>, LoadError>(seq![]),
        first_public_key(directory, n) is None,
    decreases n,
{
    if n > 0 {
        lemma_no_public_keys(directory, n - 1);
    }
}

/// A client asks with the first key for publicly verifiable tokens that is listed, whatever stands
/// behind it.
pub proof fn law_client_asks_with_first_listed_key(directory: Seq<IssuerTokenKey>, i: int)
    requires
        0 <= i < directory.len(),
        directory[i].token_type == PUBLIC_TOKEN_TYPE,
        forall|j: int|
            0 <= j < i ==> (#[trigger] directory[j]).token_type != PUBLIC_TOKEN_TYPE,
    ensures
        match wire::url_base64_decoded(directory[i].token_key@) {
            Some(der) => issuer_key_in(directory) == if is_blind_key(der) {
                Ok::<Seq<u8>, LoadError>(der)
            } else {
                Err(LoadError::InvalidPublicKey)
            },
            None => issuer_key_in(directory) == Err::<Seq<u8>, LoadError>(LoadError::NotBase64),
        },
{
    lemma_no_public_keys(directory, i);
    assert(first_public_key(directory, i + 1) == Some(i));
    lemma_first_public_key_stays(directory, i + 1, directory.len() as int);
}

/// A nonce is reserved if nothing is known of it, used up if it was reserved, and given back only
/// before it is used up. Other nonces are not touched.
pub proof fn law_nonces_take_their_course(
    cache: Map<Seq<u8>, NonceState>,
    nonce: Seq<u8>,
    other: Seq<u8>,
)
    requires
        other != nonce,
    ensures
        !cache.dom().contains(nonce) ==> reserved(cache, nonce)[nonce] == NonceState::Reserved
            && committed(cache, nonce) == cache && released(cache, nonce) == cache,
        cache.dom().contains(nonce) ==> reserved(cache, nonce) == cache && committed(
            cache,
            nonce,
        )[nonce] == NonceState::Committed,
        cache.dom().contains(nonce) && cache[nonce] == NonceState::Committed ==> released(
            cache,
            nonce,
        ) == cache,
        cache.dom().contains(nonce) && cache[nonce] == NonceState::Reserved ==> !released(
            cache,
            nonce,
        ).dom().contains(nonce),
        forall|after: Map<Seq<u8>, NonceState>|
            #![trigger after.dom()]
            after == reserved(cache, nonce) || after == committed(cache, nonce) || after == released(
                cache,
                nonce,
            ) ==> after.dom().contains(other) == cache.dom().contains(other) && (
            cache.dom().contains(other) ==> after[other] == cache[other]),
{
}

} // verus!
