//! What is read of a signed token before and beside its verification: the protected header and
//! the keys of its claims.

use ciborium::Value;
use vstd::prelude::*;
use vstd::utf8;
use crate::bytes::copy_bytes;
use crate::text;

verus! {

/// A value inside a CBOR array or map, as far as it is looked at.
#[derive(Debug)]
pub enum CborItem {
    Integer(i128),
    Bytes(Vec<u8>),
    Text(String),
    Other,
}

/// A CBOR value, as far as it is looked at.
#[derive(Debug)]
pub enum Cbor {
    /// An array with a tag.
    TaggedArray(u64, Vec<CborItem>),
    Entries(Vec<(CborItem, CborItem)>),
    Other,
}

/// A value inside a CBOR array or map.
#[verifier::ext_equal]
pub enum CborItemView {
    Integer(i128),
    Bytes(Seq<u8>),
    Text(Seq<char>),
    Other,
}

/// A CBOR value.
#[verifier::ext_equal]
pub enum CborView {
    TaggedArray(u64, Seq<CborItemView>),
    Entries(Seq<(CborItemView, CborItemView)>),
    Other,
}

impl View for CborItem {
    type V = CborItemView;

    open spec fn view(&self) -> CborItemView {
        match self {
            CborItem::Integer(i) => CborItemView::Integer(*i),
            CborItem::Bytes(b) => CborItemView::Bytes(b@),
            CborItem::Text(t) => CborItemView::Text(t@),
            CborItem::Other => CborItemView::Other,
        }
    }
}

impl View for Cbor {
    type V = CborView;

    open spec fn view(&self) -> CborView {
        match self {
            Cbor::TaggedArray(tag, items) => CborView::TaggedArray(
                *tag,
                items@.map_values(|item: CborItem| item@),
            ),
            Cbor::Entries(entries) => CborView::Entries(
                entries@.map_values(|entry: (CborItem, CborItem)| (entry.0@, entry.1@)),
            ),
            Cbor::Other => CborView::Other,
        }
    }
}

/// The contents of an optional CBOR value.
pub open spec fn cbor_view(value: Option<Cbor>) -> Option<CborView> {
    match value {
        Some(value) => Some(value@),
        None => None,
    }
}

/// The CBOR value at the start of these bytes, as `ciborium::de::from_reader` reads it.
pub uninterp spec fn cbor_parsed(bytes: Seq<u8>) -> Option<CborView>;

/// `ciborium::de::from_reader` reads the CBOR value at the start of the bytes; none if they
/// hold no value. The value is handed out two levels deep.
#[verifier::external_body]
fn read_cbor(bytes: &[u8]) -> (r: Option<Cbor>)
    ensures
        cbor_view(r) == cbor_parsed(bytes@),
{
    let leaf = |v| match v {
        Value::Integer(i) => CborItem::Integer(i.into()),
        Value::Bytes(b) => CborItem::Bytes(b),
        Value::Text(t) => CborItem::Text(t),
        _ => CborItem::Other,
    };
    Some(match ciborium::de::from_reader(bytes).ok()? {
        Value::Tag(tag, inner) => match *inner {
            Value::Array(a) => Cbor::TaggedArray(tag, a.into_iter().map(leaf).collect()),
            _ => Cbor::Other,
        },
        Value::Map(m) => Cbor::Entries(m.into_iter().map(|e| (leaf(e.0), leaf(e.1))).collect()),
        _ => Cbor::Other,
    })
}

/// `std::string::String::from_utf8` makes text of bytes that are valid UTF-8.
#[verifier::external_body]
pub(crate) fn text_from_utf8(bytes: Vec<u8>) -> (r: Option<String>)
    ensures
        r is Some <==> utf8::valid_utf8(bytes@),
        r matches Some(t) ==> t@ == utf8::decode_utf8(bytes@),
{
    String::from_utf8(bytes).ok()
}

/// The protected header and the payload of a COSE_Sign1 or COSE_Mac0 value.
pub open spec fn parts_in(value: Option<CborView>) -> Option<(Seq<u8>, Seq<u8>)> {
    match value {
        Some(CborView::TaggedArray(tag, items)) => if (tag == 17 || tag == 18) && items.len() == 4 {
            match (items[0], items[2]) {
                (CborItemView::Bytes(header), CborItemView::Bytes(payload)) => Some(
                    (header, payload),
                ),
                _ => None,
            }
        } else {
            None
        },
        _ => None,
    }
}

/// The contents of the two parts.
pub open spec fn parts_view(parts: Option<(Vec<u8>, Vec<u8>)>) -> Option<(Seq<u8>, Seq<u8>)> {
    match parts {
        Some(parts) => Some((parts.0@, parts.1@)),
        None => None,
    }
}

/// The protected header and the payload of a COSE_Sign1 or COSE_Mac0 value.
pub fn sign1_parts(value: &Option<Cbor>) -> (r: Option<(Vec<u8>, Vec<u8>)>)
    ensures
        parts_view(r) == parts_in(cbor_view(*value)),
{
    match value {
        Some(Cbor::TaggedArray(tag, items)) => {
            if *tag != 17 && *tag != 18 {
                return None;
            }
            if items.len() != 4 {
                return None;
            }
            match (&items[0], &items[2]) {
                (CborItem::Bytes(header), CborItem::Bytes(payload)) => Some(
                    (copy_bytes(header.as_slice()), copy_bytes(payload.as_slice())),
                ),
                _ => None,
            }
        },
        _ => None,
    }
}

/// The protected header and the payload of a token.
pub open spec fn token_parts(token: Seq<u8>) -> Option<(Seq<u8>, Seq<u8>)> {
    parts_in(cbor_parsed(token))
}

/// The payload of a token.
pub open spec fn token_payload(token: Seq<u8>) -> Seq<u8> {
    match token_parts(token) {
        Some((_, payload)) => payload,
        None => Seq::empty(),
    }
}

/// The protected header and the payload of a token.
pub fn cose_parts(token: &[u8]) -> (r: Option<(Vec<u8>, Vec<u8>)>)
    ensures
        parts_view(r) == token_parts(token@),
{
    let value = read_cbor(token);
    sign1_parts(&value)
}

/// The key identifier that one header entry holds: its label is 4, and its value is text, or
/// bytes that are text.
pub open spec fn entry_kid(entry: (CborItemView, CborItemView)) -> Option<Seq<char>> {
    if entry.0 != CborItemView::Integer(4) {
        None
    } else {
        match entry.1 {
            CborItemView::Text(kid) => Some(kid),
            CborItemView::Bytes(kid) => if utf8::valid_utf8(kid) {
                Some(utf8::decode_utf8(kid))
            } else {
                None
            },
            _ => None,
        }
    }
}

/// The first key identifier among the header entries.
pub open spec fn first_kid(entries: Seq<(CborItemView, CborItemView)>) -> Option<Seq<char>>
    decreases entries.len(),
{
    if entries.len() == 0 {
        None
    } else {
        match entry_kid(entries[0]) {
            Some(kid) => Some(kid),
            None => first_kid(entries.drop_first()),
        }
    }
}

/// The key identifier that a header holds.
pub open spec fn kid_in(header: Option<CborView>) -> Option<Seq<char>> {
    match header {
        Some(CborView::Entries(entries)) => first_kid(entries),
        _ => None,
    }
}

/// The contents of an optional text.
pub open spec fn text_view(text: Option<String>) -> Option<Seq<char>> {
    match text {
        Some(text) => Some(text@),
        None => None,
    }
}

/// The key identifier that a header holds.
pub fn read_kid(header: &Option<Cbor>) -> (r: Option<String>)
    ensures
        text_view(r) == kid_in(cbor_view(*header)),
{
    match header {
        Some(Cbor::Entries(entries)) => {
            let ghost all = cbor_view(*header)->0->Entries_0;
            assert(all.skip(0) =~= all);
            let mut i: usize = 0;
            while i < entries.len()
                invariant
                    i <= entries@.len(),
                    all == entries@.map_values(
                        |entry: (CborItem, CborItem)| (entry.0@, entry.1@),
                    ),
                    cbor_view(*header) == Some(CborView::Entries(all)),
                    first_kid(all.skip(i as int)) == first_kid(all),
                decreases entries@.len() - i,
            {
                assert(all.skip(i as int).drop_first() =~= all.skip(i + 1));
                assert(all.skip(i as int)[0] == (entries@[i as int].0@, entries@[i as int].1@));
                if let CborItem::Integer(label) = &entries[i].0 {
                    if *label == 4 {
                        match &entries[i].1 {
                            CborItem::Text(kid) => {
                                return Some(kid.clone());
                            },
                            CborItem::Bytes(kid) => {
                                let kid = text_from_utf8(copy_bytes(kid.as_slice()));
                                if kid.is_some() {
                                    return kid;
                                }
                            },
                            _ => {},
                        }
                    }
                }
                i += 1;
            }
            None
        },
        _ => None,
    }
}

/// The key identifier in a token's protected header. It is a hint only: whatever is not
/// usable counts as no identifier.
pub open spec fn token_kid(token: Seq<u8>) -> Option<Seq<char>> {
    match token_parts(token) {
        Some((header, _)) => kid_in(cbor_parsed(header)),
        None => None,
    }
}

/// The key identifier in a token's protected header.
pub fn header_kid(token: &[u8]) -> (r: Option<String>)
    ensures
        text_view(r) == token_kid(token@),
{
    match cose_parts(token) {
        Some((header, _)) => {
            let value = read_cbor(header.as_slice());
            read_kid(&value)
        },
        None => None,
    }
}

/// A header has an entry with the label 2.
pub open spec fn critical_in(header: Option<CborView>) -> bool {
    match header {
        Some(CborView::Entries(entries)) => exists|i: int|
            0 <= i < entries.len() && (#[trigger] entries[i]).0 == CborItemView::Integer(2),
        _ => false,
    }
}

/// Whether a header declares a critical extension.
pub fn declares_critical(header: &Option<Cbor>) -> (r: bool)
    ensures
        r == critical_in(cbor_view(*header)),
{
    match header {
        Some(Cbor::Entries(entries)) => {
            let ghost all = cbor_view(*header)->0->Entries_0;
            let mut i: usize = 0;
            while i < entries.len()
                invariant
                    i <= entries@.len(),
                    all == entries@.map_values(
                        |entry: (CborItem, CborItem)| (entry.0@, entry.1@),
                    ),
                    cbor_view(*header) == Some(CborView::Entries(all)),
                    forall|k: int|
                        0 <= k < i ==> (#[trigger] all[k]).0 != CborItemView::Integer(2),
                decreases entries@.len() - i,
            {
                assert(all[i as int] == (entries@[i as int].0@, entries@[i as int].1@));
                if let CborItem::Integer(label) = &entries[i].0 {
                    if *label == 2 {
                        return true;
                    }
                }
                i += 1;
            }
            false
        },
        _ => false,
    }
}

/// The protected header of a token declares a critical extension.
pub open spec fn token_critical(token: Seq<u8>) -> bool {
    match token_parts(token) {
        Some((header, _)) => critical_in(cbor_parsed(header)),
        None => false,
    }
}

/// Whether the protected header of a token declares a critical extension.
pub fn has_critical_header(token: &[u8]) -> (r: bool)
    ensures
        r == token_critical(token@),
{
    match cose_parts(token) {
        Some((header, _)) => {
            let value = read_cbor(header.as_slice());
            declares_critical(&value)
        },
        None => false,
    }
}

/// The claim is one that is enforced or can safely be ignored.
pub open spec fn is_permitted(key: int) -> bool {
    ||| 1 <= key <= 7
    ||| key == 310
    ||| key == 320
    ||| key == 323
    ||| key == 327
    ||| key == 328
}

/// Whether a claim is one that is enforced or can safely be ignored.
fn claim_permitted(key: i64) -> (r: bool)
    ensures
        r == is_permitted(key as int),
{
    (1 <= key && key <= 7) || key == 310 || key == 320 || key == 323 || key == 327 || key == 328
}

/// The name of a claim, or its number.
pub open spec fn claim_label(key: int) -> Seq<char> {
    if key == 8 {
        "cnf"@
    } else if key == 282 {
        "geohash"@
    } else if key == 308 {
        "catreplay"@
    } else if key == 309 {
        "catpor"@
    } else if key == 311 {
        "catnip"@
    } else if key == 312 {
        "catu"@
    } else if key == 313 {
        "catm"@
    } else if key == 314 {
        "catalpn"@
    } else if key == 315 {
        "cath"@
    } else if key == 316 {
        "catgeoiso3166"@
    } else if key == 317 {
        "catgeocoord"@
    } else if key == 318 {
        "catgeoalt"@
    } else if key == 319 {
        "cattpk"@
    } else if key == 321 {
        "catdpop"@
    } else if key == 322 {
        "catif"@
    } else if key == 324 {
        "or"@
    } else if key == 325 {
        "nor"@
    } else if key == 326 {
        "and"@
    } else {
        "claim "@ + text::signed_decimal(key)
    }
}

/// The name of a claim, or its number.
pub fn claim_name(key: i64) -> (r: String)
    ensures
        r@ == claim_label(key as int),
{
    let name = match key {
        8 => "cnf",
        282 => "geohash",
        308 => "catreplay",
        309 => "catpor",
        311 => "catnip",
        312 => "catu",
        313 => "catm",
        314 => "catalpn",
        315 => "cath",
        316 => "catgeoiso3166",
        317 => "catgeocoord",
        318 => "catgeoalt",
        319 => "cattpk",
        321 => "catdpop",
        322 => "catif",
        324 => "or",
        325 => "nor",
        326 => "and",
        _ => {
            let mut out = "claim ".to_owned();
            text::push_signed_decimal(&mut out, key);
            return out;
        },
    };
    name.to_owned()
}

/// What is wrong with the claim at `i`: its key is no integer or out of range, it is not
/// permitted, or it was there before.
pub open spec fn claim_fault(entries: Seq<(CborItemView, CborItemView)>, i: int) -> Option<
    Seq<char>,
> {
    match entries[i].0 {
        CborItemView::Integer(label) => if label < i64::MIN || i64::MAX < label {
            Some("claim out of range"@)
        } else if !is_permitted(label as int) {
            Some(claim_label(label as int))
        } else if exists|k: int|
            0 <= k < i && (#[trigger] entries[k]).0 == CborItemView::Integer(label) {
            Some("duplicate claim: "@ + claim_label(label as int))
        } else {
            None
        },
        _ => Some("non-integer claim key"@),
    }
}

/// What is wrong with the first of the first `n` claims that something is wrong with.
pub open spec fn first_claim_fault(
    entries: Seq<(CborItemView, CborItemView)>,
    n: int,
) -> Option<Seq<char>>
    decreases n,
{
    if n <= 0 {
        None
    } else {
        match first_claim_fault(entries, n - 1) {
            Some(fault) => Some(fault),
            None => claim_fault(entries, n - 1),
        }
    }
}

/// What is wrong with the claims of a payload.
pub open spec fn payload_fault(payload: Option<CborView>) -> Option<Seq<char>> {
    match payload {
        Some(CborView::Entries(entries)) => first_claim_fault(entries, entries.len() as int),
        _ => Some("unreadable payload"@),
    }
}

proof fn lemma_first_fault_stays(
    entries: Seq<(CborItemView, CborItemView)>,
    m: int,
    n: int,
)
    requires
        0 <= m <= n,
        first_claim_fault(entries, m) is Some,
    ensures
        first_claim_fault(entries, n) == first_claim_fault(entries, m),
    decreases n,
{
    if m < n {
        lemma_first_fault_stays(entries, m, n - 1);
    }
}

/// What is wrong with the claims of a payload, if anything is.
pub fn check_claims(payload: &Option<Cbor>) -> (r: Option<String>)
    ensures
        text_view(r) == payload_fault(cbor_view(*payload)),
{
    match payload {
        Some(Cbor::Entries(entries)) => {
            let ghost all = cbor_view(*payload)->0->Entries_0;
            let mut present: Vec<i64> = Vec::new();
            let mut i: usize = 0;
            while i < entries.len()
                invariant
                    i <= entries@.len(),
                    all == entries@.map_values(
                        |entry: (CborItem, CborItem)| (entry.0@, entry.1@),
                    ),
                    cbor_view(*payload) == Some(CborView::Entries(all)),
                    first_claim_fault(all, i as int) is None,
                    present@.len() == i,
                    forall|k: int|
                        0 <= k < i ==> (#[trigger] all[k]).0 == CborItemView::Integer(
                            present@[k] as i128,
                        ),
                decreases entries@.len() - i,
            {
                assert(all[i as int] == (entries@[i as int].0@, entries@[i as int].1@));
                let fault: Option<String> = match &entries[i].0 {
                    CborItem::Integer(label) => {
                        if *label < (i64::MIN as i128) || *label > (i64::MAX as i128) {
                            Some("claim out of range".to_owned())
                        } else {
                            let key: i64 = *label as i64;
                            if !claim_permitted(key) {
                                Some(claim_name(key))
                            } else if is_present(&present, key) {
                                proof {
                                    let k = choose|k: int|
                                        0 <= k < present@.len() && present@[k] == key;
                                    assert(all[k].0 == CborItemView::Integer(*label));
                                }
                                let mut out = "duplicate claim: ".to_owned();
                                out.append(claim_name(key).as_str());
                                Some(out)
                            } else {
                                proof {
                                    assert forall|k: int| 0 <= k < i implies (
                                    #[trigger] all[k]).0 != CborItemView::Integer(*label) by {
                                        assert(present@[k] != key);
                                    }
                                }
                                present.push(key);
                                None
                            }
                        }
                    },
                    _ => Some("non-integer claim key".to_owned()),
                };
                assert(text_view(fault) == claim_fault(all, i as int));
                if fault.is_some() {
                    proof {
                        lemma_first_fault_stays(all, i + 1, all.len() as int);
                    }
                    return fault;
                }
                i += 1;
            }
            None
        },
        _ => Some("unreadable payload".to_owned()),
    }
}

/// Whether a key was there before.
fn is_present(present: &Vec<i64>, key: i64) -> (r: bool)
    ensures
        r == present@.contains(key),
{
    let mut i: usize = 0;
    while i < present.len()
        invariant
            i <= present@.len(),
            forall|k: int| 0 <= k < i ==> #[trigger] present@[k] != key,
        decreases present@.len() - i,
    {
        if present[i] == key {
            return true;
        }
        i += 1;
    }
    false
}

/// A payload has a claim with this key.
pub open spec fn has_claim(payload: Option<CborView>, key: i64) -> bool {
    match payload {
        Some(CborView::Entries(entries)) => exists|k: int|
            0 <= k < entries.len() && (#[trigger] entries[k]).0 == CborItemView::Integer(
                key as i128,
            ),
        _ => false,
    }
}

/// Whether a payload has a claim with this key, whatever its value is.
pub fn find_claim(payload: &Option<Cbor>, key: i64) -> (r: bool)
    ensures
        r == has_claim(cbor_view(*payload), key),
{
    match payload {
        Some(Cbor::Entries(entries)) => {
            let ghost all = cbor_view(*payload)->0->Entries_0;
            let mut i: usize = 0;
            while i < entries.len()
                invariant
                    i <= entries@.len(),
                    all == entries@.map_values(
                        |entry: (CborItem, CborItem)| (entry.0@, entry.1@),
                    ),
                    cbor_view(*payload) == Some(CborView::Entries(all)),
                    forall|k: int|
                        0 <= k < i ==> (#[trigger] all[k]).0 != CborItemView::Integer(key as i128),
                decreases entries@.len() - i,
            {
                assert(all[i as int] == (entries@[i as int].0@, entries@[i as int].1@));
                if let CborItem::Integer(label) = &entries[i].0 {
                    if *label == key as i128 {
                        return true;
                    }
                }
                i += 1;
            }
            false
        },
        _ => false,
    }
}

/// A token has a claim with this key.
pub open spec fn token_has_claim(token: Seq<u8>, key: i64) -> bool {
    match token_parts(token) {
        Some((_, payload)) => has_claim(cbor_parsed(payload), key),
        None => false,
    }
}

/// Whether a token has a claim with this key. The claims are read off the payload itself, so that
/// a claim counts whatever its value is.
pub fn token_claims_key(token: &[u8], key: i64) -> (r: bool)
    ensures
        r == token_has_claim(token@, key),
{
    match cose_parts(token) {
        Some((_, payload)) => {
            let value = read_cbor(payload.as_slice());
            find_claim(&value, key)
        },
        None => false,
    }
}

/// What in a token's claims cannot be enforced.
pub open spec fn token_fault(token: Seq<u8>) -> Option<Seq<char>> {
    match token_parts(token) {
        Some((_, payload)) => payload_fault(cbor_parsed(payload)),
        None => Some("unreadable payload"@),
    }
}

/// What in a token's claims cannot be enforced, if anything. The claims are read off the
/// payload itself, so that no claim is overlooked.
pub fn unenforceable_claim(raw_token: &[u8]) -> (r: Option<String>)
    ensures
        text_view(r) == token_fault(raw_token@),
{
    match cose_parts(raw_token) {
        Some((_, payload)) => {
            let value = read_cbor(payload.as_slice());
            check_claims(&value)
        },
        None => Some("unreadable payload".to_owned()),
    }
}

/// Claims that nothing is wrong with are all permitted, and none is there twice.
pub proof fn law_accepted_claims_are_permitted(
    entries: Seq<(CborItemView, CborItemView)>,
    i: int,
    j: int,
)
    requires
        payload_fault(Some(CborView::Entries(entries))) is None,
        0 <= i < entries.len(),
    ensures
        entries[i].0 matches CborItemView::Integer(key) && is_permitted(key as int),
        0 <= j < i ==> entries[j].0 != entries[i].0,
    decreases i,
{
    if first_claim_fault(entries, i + 1) is Some {
        lemma_first_fault_stays(entries, i + 1, entries.len() as int);
    }
    if claim_fault(entries, i) is Some {
        lemma_fault_is_first(entries, i);
    }
    if 0 <= j < i {
        law_accepted_claims_are_permitted(entries, j, j);
    }
}

proof fn lemma_fault_is_first(entries: Seq<(CborItemView, CborItemView)>, i: int)
    requires
        0 <= i < entries.len(),
        claim_fault(entries, i) is Some,
    ensures
        first_claim_fault(entries, i + 1) is Some,
{
}

/// A signed or authenticated token has four parts, the first of which is its header and the third
/// its payload. Nothing else is read as a token.
pub proof fn law_tokens_have_four_parts(tag: u64, items: Seq<CborItemView>)
    ensures
        parts_in(Some(CborView::TaggedArray(tag, items))) is Some <==> (tag == 17 || tag == 18)
            && items.len() == 4 && items[0] is Bytes && items[2] is Bytes,
        parts_in(Some(CborView::TaggedArray(tag, items))) matches Some((header, payload))
            ==> items[0] == CborItemView::Bytes(header) && items[2] == CborItemView::Bytes(payload),
        parts_in(Some(CborView::Other)) is None && parts_in(None) is None,
{
}

/// The identifier of a key is the first that stands in the header under its label, as text or as
/// bytes that are text.
pub proof fn law_first_usable_identifier_counts(
    entries: Seq<(CborItemView, CborItemView)>,
    i: int,
    kid: Seq<char>,
)
    requires
        0 <= i < entries.len(),
        entries[i].0 == CborItemView::Integer(4),
        entries[i].1 == CborItemView::Text(kid) || entries[i].1 == CborItemView::Bytes(
            utf8::encode_utf8(kid),
        ),
        forall|j: int| 0 <= j < i ==> (#[trigger] entries[j]).0 != CborItemView::Integer(4),
    ensures
        kid_in(Some(CborView::Entries(entries))) == Some(kid),
    decreases i,
{
    utf8::encode_utf8_valid_utf8(kid);
    utf8::encode_utf8_decode_utf8(kid);
    if i > 0 {
        assert(entries[0].0 != CborItemView::Integer(4));
        let rest = entries.drop_first();
        assert(rest[i - 1] == entries[i]);
        assert forall|j: int| 0 <= j < i - 1 implies (#[trigger] rest[j]).0
            != CborItemView::Integer(4) by {
            assert(rest[j] == entries[j + 1]);
        }
        law_first_usable_identifier_counts(rest, i - 1, kid);
    }
}

/// A header without an entry under the label of identifiers names no key.
pub proof fn law_header_without_identifier_names_no_key(
    entries: Seq<(CborItemView, CborItemView)>,
)
    requires
        forall|j: int| 0 <= j < entries.len() ==> (#[trigger] entries[j]).0 != CborItemView::Integer(4),
    ensures
        kid_in(Some(CborView::Entries(entries))) is None,
    decreases entries.len(),
{
    if entries.len() > 0 {
        let rest = entries.drop_first();
        assert(entries[0].0 != CborItemView::Integer(4));
        assert forall|j: int| 0 <= j < rest.len() implies (#[trigger] rest[j]).0
            != CborItemView::Integer(4) by {
            assert(rest[j] == entries[j + 1]);
        }
        law_header_without_identifier_names_no_key(rest);
    }
}

/// The standard claims, the one for the version, and those that are enforced are permitted. Of the
/// other claims of access tokens none is, and each of them is told by its name.
pub proof fn law_other_claims_are_told_by_name(key: int)
    ensures
        is_permitted(key) <==> seq![1int, 2, 3, 4, 5, 6, 7, 310, 320, 323, 327, 328].contains(key),
        308 <= key <= 328 && !is_permitted(key) ==> claim_label(key) != "claim "@
            + text::signed_decimal(key),
        key > 328 || key < 0 ==> claim_label(key) == "claim "@ + text::signed_decimal(key),
{
    let permitted = seq![1int, 2, 3, 4, 5, 6, 7, 310, 320, 323, 327, 328];
    assert(permitted[0] == 1 && permitted[1] == 2 && permitted[2] == 3 && permitted[3] == 4
        && permitted[4] == 5 && permitted[5] == 6 && permitted[6] == 7 && permitted[7] == 310
        && permitted[8] == 320 && permitted[9] == 323 && permitted[10] == 327 && permitted[11]
        == 328);
    if permitted.contains(key) {
        let i = permitted.index_of(key);
        assert(permitted[i] == key);
    }
    reveal_strlit("claim ");
    assert(("claim "@ + text::signed_decimal(key))[1] == 'l');
    reveal_strlit("catreplay");
    reveal_strlit("catpor");
    reveal_strlit("catnip");
    reveal_strlit("catu");
    reveal_strlit("catm");
    reveal_strlit("catalpn");
    reveal_strlit("cath");
    reveal_strlit("catgeoiso3166");
    reveal_strlit("catgeocoord");
    reveal_strlit("catgeoalt");
    reveal_strlit("cattpk");
    reveal_strlit("catdpop");
    reveal_strlit("catif");
    reveal_strlit("or");
    reveal_strlit("nor");
    reveal_strlit("and");
    if 308 <= key <= 328 && !is_permitted(key) {
        assert(claim_label(key)[1] != 'l');
    }
}

/// Claims with permitted keys that are all different are accepted.
pub proof fn law_permitted_claims_are_accepted(entries: Seq<(CborItemView, CborItemView)>, n: int)
    requires
        0 <= n <= entries.len(),
        forall|i: int|
            0 <= i < entries.len() ==> ((#[trigger] entries[i]).0 matches CborItemView::Integer(key)
                && is_permitted(key as int)),
        forall|i: int, j: int|
            0 <= j < i < entries.len() ==> (#[trigger] entries[j]).0 != (#[trigger] entries[i]).0,
    ensures
        first_claim_fault(entries, n) is None,
        n == entries.len() ==> payload_fault(Some(CborView::Entries(entries))) is None,
    decreases n,
{
    if n > 0 {
        law_permitted_claims_are_accepted(entries, n - 1);
        assert(entries[n - 1].0 matches CborItemView::Integer(key) && is_permitted(key as int));
        assert(claim_fault(entries, n - 1) is None);
    }
}

/// A payload that is no map of claims cannot be enforced.
pub proof fn law_unreadable_payload_is_a_fault(payload: Option<CborView>)
    requires
        payload is None || !(payload->0 is Entries),
    ensures
        payload_fault(payload) is Some,
        !has_claim(payload, 0),
{
}

} // verus!
