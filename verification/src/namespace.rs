//! Track namespaces: tuples of byte strings that name groups of tracks.

use vstd::prelude::*;
use crate::bytes::{bytes_eq, copy_bytes};

verus! {

/// One field of a namespace tuple.
#[derive(Debug, PartialEq, Eq, Hash)]
pub struct TupleField {
    pub value: Vec<u8>,
}

/// A track namespace: a tuple of byte strings.
#[derive(Debug, PartialEq, Eq, Hash)]
pub struct TrackNamespace {
    pub fields: Vec<TupleField>,
}

impl View for TupleField {
    type V = Seq<u8>;

    open spec fn view(&self) -> Seq<u8> {
        self.value@
    }
}

impl View for TrackNamespace {
    type V = Seq<Seq<u8>>;

    open spec fn view(&self) -> Seq<Seq<u8>> {
        self.fields@.map_values(|field: TupleField| field@)
    }
}

impl Clone for TupleField {
    fn clone(&self) -> (r: Self)
        ensures
            r@ == self@,
    {
        TupleField { value: copy_bytes(self.value.as_slice()) }
    }
}

impl Clone for TrackNamespace {
    fn clone(&self) -> (r: Self)
        ensures
            r@ == self@,
    {
        let mut fields: Vec<TupleField> = Vec::new();
        let mut i: usize = 0;
        while i < self.fields.len()
            invariant
                i <= self.fields@.len(),
                fields@.len() == i,
                forall|k: int| 0 <= k < i ==> (#[trigger] fields@[k])@ == self.fields@[k]@,
            decreases self.fields@.len() - i,
        {
            fields.push(self.fields[i].clone());
            i += 1;
        }
        let r = TrackNamespace { fields };
        assert(r@ =~= self@);
        r
    }
}

/// `ns` lies under `prefix`: its first fields are the fields of `prefix`.
pub open spec fn is_under(ns: Seq<Seq<u8>>, prefix: Seq<Seq<u8>>) -> bool {
    prefix.is_prefix_of(ns)
}

impl TrackNamespace {
    /// The namespace with these fields.
    pub fn new(tuple: Vec<Vec<u8>>) -> (r: Self)
        ensures
            r@ == crate::bytes::tuple_view(tuple@),
    {
        let mut fields: Vec<TupleField> = Vec::new();
        let mut i: usize = 0;
        while i < tuple.len()
            invariant
                i <= tuple@.len(),
                fields@.len() == i,
                forall|k: int| 0 <= k < i ==> (#[trigger] fields@[k])@ == tuple@[k]@,
            decreases tuple@.len() - i,
        {
            fields.push(TupleField { value: copy_bytes(tuple[i].as_slice()) });
            i += 1;
        }
        let r = TrackNamespace { fields };
        assert(r@ =~= crate::bytes::tuple_view(tuple@));
        r
    }

    /// The number of fields.
    pub fn len(&self) -> (r: usize)
        ensures
            r == self@.len(),
    {
        self.fields.len()
    }

    /// The fields as a tuple of byte strings.
    pub fn to_tuple(&self) -> (r: Vec<Vec<u8>>)
        ensures
            crate::bytes::tuple_view(r@) == self@,
    {
        let mut out: Vec<Vec<u8>> = Vec::new();
        let mut i: usize = 0;
        while i < self.fields.len()
            invariant
                i <= self.fields@.len(),
                out@.len() == i,
                forall|k: int| 0 <= k < i ==> (#[trigger] out@[k])@ == self.fields@[k]@,
            decreases self.fields@.len() - i,
        {
            out.push(copy_bytes(self.fields[i].value.as_slice()));
            i += 1;
        }
        assert(crate::bytes::tuple_view(out@) =~= self@);
        out
    }

    /// Whether this namespace lies under `prefix`.
    pub fn has_prefix(&self, prefix: &TrackNamespace) -> (r: bool)
        ensures
            r == is_under(self@, prefix@),
    {
        if prefix.fields.len() > self.fields.len() {
            return false;
        }
        let mut i: usize = 0;
        while i < prefix.fields.len()
            invariant
                i <= prefix.fields@.len(),
                prefix.fields@.len() <= self.fields@.len(),
                forall|k: int| 0 <= k < i ==> #[trigger] prefix@[k] == self@[k],
            decreases prefix.fields@.len() - i,
        {
            if !bytes_eq(prefix.fields[i].value.as_slice(), self.fields[i].value.as_slice()) {
                assert(prefix@[i as int] != self@[i as int]);
                assert(self@.subrange(0, prefix@.len() as int)[i as int] == self@[i as int]);
                return false;
            }
            i += 1;
        }
        assert(prefix@ =~= self@.subrange(0, prefix@.len() as int));
        true
    }

    /// Whether both namespaces hold the same fields.
    pub fn same_as(&self, other: &TrackNamespace) -> (r: bool)
        ensures
            r == (self@ == other@),
    {
        if self.fields.len() != other.fields.len() {
            assert(self@.len() != other@.len());
            return false;
        }
        let r = self.has_prefix(other);
        assert(self@.subrange(0, other@.len() as int) =~= self@);
        r
    }
}

/// A namespace lies under a prefix if its first fields are those of the prefix, field by field.
pub proof fn law_first_fields_are_the_prefix(ns: Seq<Seq<u8>>, prefix: Seq<Seq<u8>>)
    ensures
        is_under(ns, prefix) <==> prefix.len() <= ns.len() && forall|i: int|
            0 <= i < prefix.len() ==> #[trigger] prefix[i] == ns[i],
        is_under(ns, ns) && is_under(ns, Seq::empty()),
{
    let first = ns.take(prefix.len() as int);
    if prefix.len() <= ns.len() {
        assert(forall|i: int| 0 <= i < prefix.len() ==> #[trigger] first[i] == ns[i]);
        if forall|i: int| 0 <= i < prefix.len() ==> #[trigger] prefix[i] == ns[i] {
            assert(prefix =~= first);
        }
        if prefix.is_prefix_of(ns) {
            assert forall|i: int| 0 <= i < prefix.len() implies #[trigger] prefix[i] == ns[i] by {
                assert(prefix == ns.subrange(0, prefix.len() as int));
                assert(ns.subrange(0, prefix.len() as int)[i] == ns[i]);
            }
        }
    }
    assert(ns.subrange(0, ns.len() as int) =~= ns);
    assert(ns.subrange(0, 0) =~= Seq::<Seq<u8>>::empty());
}

} // verus!
