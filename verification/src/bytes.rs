//! Byte strings and tuples of byte strings.

use vstd::prelude::*;

verus! {

/// The contents of a tuple of byte strings.
pub open spec fn tuple_view(tuple: Seq<Vec<u8>>) -> Seq<Seq<u8>> {
    tuple.map_values(|field: Vec<u8>| field@)
}

/// `part` occurs in `whole` starting at `at`.
pub open spec fn occurs_at<T>(whole: Seq<T>, part: Seq<T>, at: int) -> bool {
    &&& 0 <= at
    &&& at + part.len() <= whole.len()
    &&& whole.subrange(at, at + part.len()) == part
}

/// `whole` starts with `part`.
pub open spec fn starts_with<T>(whole: Seq<T>, part: Seq<T>) -> bool {
    occurs_at(whole, part, 0)
}

/// `whole` ends with `part`.
pub open spec fn ends_with<T>(whole: Seq<T>, part: Seq<T>) -> bool {
    occurs_at(whole, part, whole.len() - part.len())
}

/// `part` occurs somewhere in `whole`.
pub open spec fn contains_run<T>(whole: Seq<T>, part: Seq<T>) -> bool {
    exists|at: int| #[trigger] occurs_at(whole, part, at)
}

/// Whether two byte strings are equal.
pub fn bytes_eq(a: &[u8], b: &[u8]) -> (r: bool)
    ensures
        r == (a@ == b@),
{
    if a.len() != b.len() {
        return false;
    }
    let mut i: usize = 0;
    while i < a.len()
        invariant
            i <= a@.len(),
            a@.len() == b@.len(),
            a@.subrange(0, i as int) == b@.subrange(0, i as int),
        decreases a@.len() - i,
    {
        if a[i] != b[i] {
            return false;
        }
        assert(a@.subrange(0, i + 1) =~= a@.subrange(0, i as int).push(a@[i as int]));
        assert(b@.subrange(0, i + 1) =~= b@.subrange(0, i as int).push(b@[i as int]));
        i += 1;
    }
    assert(a@.subrange(0, i as int) =~= a@);
    assert(b@.subrange(0, i as int) =~= b@);
    true
}

/// Appends a byte string.
pub fn put_bytes(out: &mut Vec<u8>, bytes: &[u8])
    ensures
        final(out)@ == old(out)@ + bytes@,
{
    let mut i: usize = 0;
    while i < bytes.len()
        invariant
            i <= bytes@.len(),
            out@ == old(out)@ + bytes@.take(i as int),
        decreases bytes@.len() - i,
    {
        out.push(bytes[i]);
        assert(bytes@.take(i + 1) =~= bytes@.take(i as int).push(bytes@[i as int]));
        assert(out@ =~= old(out)@ + bytes@.take(i + 1));
        i += 1;
    }
    assert(bytes@.take(i as int) =~= bytes@);
}

/// A copy of a byte string.
pub fn copy_bytes(a: &[u8]) -> (r: Vec<u8>)
    ensures
        r@ == a@,
{
    let mut out: Vec<u8> = Vec::new();
    let mut i: usize = 0;
    while i < a.len()
        invariant
            i <= a@.len(),
            out@ == a@.subrange(0, i as int),
        decreases a@.len() - i,
    {
        out.push(a[i]);
        i += 1;
        assert(a@.subrange(0, i as int) =~= a@.subrange(0, i - 1).push(a@[i - 1]));
    }
    assert(a@.subrange(0, i as int) =~= a@);
    out
}

/// Whether `part` occurs in `whole` starting at `at`.
pub fn bytes_occur_at(whole: &[u8], part: &[u8], at: usize) -> (r: bool)
    ensures
        r == occurs_at(whole@, part@, at as int),
{
    if at > whole.len() || part.len() > whole.len() - at {
        return false;
    }
    let mut i: usize = 0;
    while i < part.len()
        invariant
            i <= part@.len(),
            at + part@.len() <= whole@.len() <= usize::MAX,
            forall|k: int| 0 <= k < i ==> whole@[at + k] == part@[k],
        decreases part@.len() - i,
    {
        if whole[at + i] != part[i] {
            assert(whole@.subrange(at as int, at + part@.len())[i as int] == whole@[at + i]);
            return false;
        }
        i += 1;
    }
    assert(whole@.subrange(at as int, at + part@.len()) =~= part@);
    true
}

/// Whether two tuples hold equal fields.
pub fn tuples_equal(a: &[Vec<u8>], b: &[Vec<u8>]) -> (r: bool)
    ensures
        r == (tuple_view(a@) == tuple_view(b@)),
{
    if a.len() != b.len() {
        assert(tuple_view(a@).len() != tuple_view(b@).len());
        return false;
    }
    assert(tuple_view(a@).subrange(0, b@.len() as int) =~= tuple_view(a@));
    tuple_occurs_at(a, b, 0)
}

/// Whether the fields of `part` stand in `whole` starting at `at`.
pub fn tuple_occurs_at(whole: &[Vec<u8>], part: &[Vec<u8>], at: usize) -> (r: bool)
    ensures
        r == occurs_at(tuple_view(whole@), tuple_view(part@), at as int),
{
    if at > whole.len() || part.len() > whole.len() - at {
        return false;
    }
    let mut i: usize = 0;
    while i < part.len()
        invariant
            i <= part@.len(),
            at + part@.len() <= whole@.len() <= usize::MAX,
            forall|k: int| 0 <= k < i ==> tuple_view(whole@)[at + k] == #[trigger] tuple_view(part@)[k],
        decreases part@.len() - i,
    {
        if !bytes_eq(whole[at + i].as_slice(), part[i].as_slice()) {
            assert(tuple_view(whole@).subrange(at as int, at + part@.len())[i as int]
                == tuple_view(whole@)[at + i]);
            assert(tuple_view(part@)[i as int] == part@[i as int]@);
            return false;
        }
        i += 1;
    }
    assert(tuple_view(whole@).subrange(at as int, at + part@.len()) =~= tuple_view(part@));
    true
}

/// Whether `part` occurs somewhere in `whole`.
pub fn bytes_contain(whole: &[u8], part: &[u8]) -> (r: bool)
    ensures
        r == contains_run(whole@, part@),
{
    let mut at: usize = 0;
    while at < whole.len()
        invariant
            at <= whole@.len(),
            forall|k: int| 0 <= k < at ==> !#[trigger] occurs_at(whole@, part@, k),
        decreases whole@.len() - at,
    {
        if bytes_occur_at(whole, part, at) {
            return true;
        }
        at += 1;
    }
    bytes_occur_at(whole, part, at)
}

/// Whether the fields of `part` stand next to each other somewhere in `whole`.
pub fn tuple_contains(whole: &[Vec<u8>], part: &[Vec<u8>]) -> (r: bool)
    ensures
        r == contains_run(tuple_view(whole@), tuple_view(part@)),
{
    let mut at: usize = 0;
    while at < whole.len()
        invariant
            at <= whole@.len(),
            forall|k: int|
                0 <= k < at ==> !#[trigger] occurs_at(tuple_view(whole@), tuple_view(part@), k),
        decreases whole@.len() - at,
    {
        if tuple_occurs_at(whole, part, at) {
            return true;
        }
        at += 1;
    }
    tuple_occurs_at(whole, part, at)
}

/// A copy of a tuple of byte strings.
pub fn copy_tuple(a: &[Vec<u8>]) -> (r: Vec<Vec<u8>>)
    ensures
        tuple_view(r@) == tuple_view(a@),
{
    let mut out: Vec<Vec<u8>> = Vec::new();
    let mut i: usize = 0;
    while i < a.len()
        invariant
            i <= a@.len(),
            out@.len() == i,
            forall|k: int| 0 <= k < i ==> (#[trigger] out@[k])@ == a@[k]@,
        decreases a@.len() - i,
    {
        out.push(copy_bytes(a[i].as_slice()));
        i += 1;
    }
    assert(tuple_view(out@) =~= tuple_view(a@));
    out
}

/// A part that occurs has all its values in the whole, one after the other from that place on.
pub proof fn law_parts_occur_value_by_value<T>(whole: Seq<T>, part: Seq<T>, at: int)
    ensures
        occurs_at(whole, part, at) <==> 0 <= at && at + part.len() <= whole.len() && forall|i: int|
            0 <= i < part.len() ==> #[trigger] part[i] == whole[at + i],
{
    if 0 <= at && at + part.len() <= whole.len() {
        let run = whole.subrange(at, at + part.len());
        assert(forall|i: int| 0 <= i < part.len() ==> #[trigger] run[i] == whole[at + i]);
        if forall|i: int| 0 <= i < part.len() ==> #[trigger] part[i] == whole[at + i] {
            assert(run =~= part);
        }
        if run == part {
            assert forall|i: int| 0 <= i < part.len() implies #[trigger] part[i] == whole[at
                + i] by {
                assert(run[i] == part[i]);
            }
        }
    }
}

/// What stands between two parts is contained, what stands first starts the whole, and what stands
/// last ends it. Nothing else starts or ends it.
pub proof fn law_parts_of_a_whole_are_found<T>(before: Seq<T>, part: Seq<T>, after: Seq<T>)
    ensures
        contains_run(before + part + after, part),
        starts_with(part + after, part),
        ends_with(before + part, part),
        starts_with(after, part) <==> part.is_prefix_of(after),
        ends_with(after, part) <==> part.is_suffix_of(after),
        contains_run(after, part) ==> exists|a: Seq<T>, b: Seq<T>| after == #[trigger] (a + part + b),
{
    let whole = before + part + after;
    assert(whole.subrange(before.len() as int, (before.len() + part.len()) as int) =~= part);
    assert(occurs_at(whole, part, before.len() as int));
    assert((part + after).subrange(0, part.len() as int) =~= part);
    let ended = before + part;
    assert(ended.subrange(ended.len() - part.len(), ended.len() - part.len() + part.len()) =~= part);
    if contains_run(after, part) {
        let at = choose|at: int| #[trigger] occurs_at(after, part, at);
        let a = after.subrange(0, at);
        let b = after.subrange(at + part.len(), after.len() as int);
        assert(after =~= a + part + b);
    }
}

} // verus!
