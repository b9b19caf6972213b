//! Byte strings behind their length, as challenges and tokens carry them.

use vstd::prelude::*;
use crate::bytes::{copy_bytes, put_bytes};

verus! {

/// A number of two bytes, high byte first.
pub open spec fn be16(n: nat) -> Seq<u8> {
    seq![(n / 256) as u8, (n % 256) as u8]
}

/// The number that two bytes stand for, high byte first.
pub open spec fn u16_at(bytes: Seq<u8>, at: int) -> nat {
    (bytes[at] as nat) * 256 + bytes[at + 1] as nat
}

/// A byte string behind a length of one byte.
pub open spec fn framed8(bytes: Seq<u8>) -> Seq<u8> {
    seq![bytes.len() as u8] + bytes
}

/// A byte string behind a length of two bytes.
pub open spec fn framed16(bytes: Seq<u8>) -> Seq<u8> {
    be16(bytes.len()) + bytes
}

/// The byte string behind a length of one byte that starts at `at`, if it ends in time.
pub open spec fn unframed8(bytes: Seq<u8>, at: int) -> Option<Seq<u8>> {
    if at + 1 <= bytes.len() && at + 1 + bytes[at] <= bytes.len() {
        Some(bytes.subrange(at + 1, at + 1 + bytes[at]))
    } else {
        None
    }
}

/// The byte string behind a length of two bytes that starts at `at`, if it ends in time.
pub open spec fn unframed16(bytes: Seq<u8>, at: int) -> Option<Seq<u8>> {
    if at + 2 <= bytes.len() && at + 2 + u16_at(bytes, at) <= bytes.len() {
        Some(bytes.subrange(at + 2, at + 2 + u16_at(bytes, at)))
    } else {
        None
    }
}

/// Two bytes of a number stand for the number.
pub proof fn lemma_be16_reads_back(n: nat, bytes: Seq<u8>, at: int)
    requires
        n <= 0xffff,
        0 <= at,
        at + 2 <= bytes.len(),
        bytes.subrange(at, at + 2) == be16(n),
    ensures
        u16_at(bytes, at) == n,
{
    assert(bytes[at] == bytes.subrange(at, at + 2)[0]);
    assert(bytes[at + 1] == bytes.subrange(at, at + 2)[1]);
}

/// A byte string behind its length of two bytes reads back, whatever stands around it.
pub proof fn lemma_framed16_reads_back(before: Seq<u8>, bytes: Seq<u8>, after: Seq<u8>)
    requires
        bytes.len() <= 0xffff,
    ensures
        unframed16(before + framed16(bytes) + after, before.len() as int) == Some(bytes),
{
    let whole = before + framed16(bytes) + after;
    let at = before.len() as int;
    assert(whole.subrange(at, at + 2) =~= be16(bytes.len()));
    lemma_be16_reads_back(bytes.len(), whole, at);
    assert(whole.subrange(at + 2, at + 2 + bytes.len()) =~= bytes);
}

/// A byte string behind its length of one byte reads back, whatever stands around it.
pub proof fn lemma_framed8_reads_back(before: Seq<u8>, bytes: Seq<u8>, after: Seq<u8>)
    requires
        bytes.len() <= 0xff,
    ensures
        unframed8(before + framed8(bytes) + after, before.len() as int) == Some(bytes),
{
    let whole = before + framed8(bytes) + after;
    let at = before.len() as int;
    assert(whole[at] == bytes.len());
    assert(whole.subrange(at + 1, at + 1 + bytes.len()) =~= bytes);
}

/// Appends a number of two bytes, high byte first.
pub fn put_u16(out: &mut Vec<u8>, n: u16)
    ensures
        final(out)@ == old(out)@ + be16(n as nat),
{
    out.push((n / 256) as u8);
    out.push((n % 256) as u8);
    assert(out@ =~= old(out)@ + be16(n as nat));
}

/// Appends a byte string behind a length of one byte.
pub fn put_vec_u8(out: &mut Vec<u8>, bytes: &[u8])
    requires
        bytes@.len() <= 0xff,
    ensures
        final(out)@ == old(out)@ + framed8(bytes@),
{
    out.push(bytes.len() as u8);
    put_bytes(out, bytes);
    assert(out@ =~= old(out)@ + framed8(bytes@));
}

/// Appends a byte string behind a length of two bytes.
pub fn put_vec_u16(out: &mut Vec<u8>, bytes: &[u8])
    requires
        bytes@.len() <= 0xffff,
    ensures
        final(out)@ == old(out)@ + framed16(bytes@),
{
    put_u16(out, bytes.len() as u16);
    put_bytes(out, bytes);
    assert(out@ =~= old(out)@ + framed16(bytes@));
}

/// The bytes from `from` up to `to`.
pub fn slice_of(bytes: &[u8], from: usize, to: usize) -> (r: Vec<u8>)
    requires
        from <= to <= bytes@.len(),
    ensures
        r@ == bytes@.subrange(from as int, to as int),
{
    copy_bytes(vstd::slice::slice_subrange(bytes, from, to))
}

/// The number that two bytes stand for, high byte first.
pub fn read_u16(bytes: &[u8], at: usize) -> (r: u16)
    requires
        at + 2 <= bytes@.len(),
    ensures
        r == u16_at(bytes@, at as int),
{
    (bytes[at] as u16) * 256 + bytes[at + 1] as u16
}

/// The byte string behind a length of one byte that starts at `at`, if it ends in time.
pub fn read_vec_u8(bytes: &[u8], at: usize) -> (r: Option<Vec<u8>>)
    requires
        at <= bytes@.len(),
    ensures
        match r {
            Some(inner) => unframed8(bytes@, at as int) == Some(inner@),
            None => unframed8(bytes@, at as int) is None,
        },
{
    if bytes.len() - at < 1 {
        return None;
    }
    let n: usize = bytes[at] as usize;
    if bytes.len() - at - 1 < n {
        return None;
    }
    Some(slice_of(bytes, at + 1, at + 1 + n))
}

/// The byte string behind a length of two bytes that starts at `at`, if it ends in time.
pub fn read_vec_u16(bytes: &[u8], at: usize) -> (r: Option<Vec<u8>>)
    requires
        at <= bytes@.len(),
    ensures
        match r {
            Some(inner) => unframed16(bytes@, at as int) == Some(inner@),
            None => unframed16(bytes@, at as int) is None,
        },
{
    if bytes.len() - at < 2 {
        return None;
    }
    let n: usize = read_u16(bytes, at) as usize;
    if bytes.len() - at - 2 < n {
        return None;
    }
    Some(slice_of(bytes, at + 2, at + 2 + n))
}

/// A number of two bytes has its high byte first.
pub proof fn law_high_byte_comes_first(n: nat, bytes: Seq<u8>, at: int)
    requires
        n <= 0xffff,
        0 <= at,
        at + 2 <= bytes.len(),
    ensures
        be16(n).len() == 2,
        be16(n)[0] * 256 + be16(n)[1] == n,
        u16_at(bytes, at) == bytes[at] * 256 + bytes[at + 1],
        u16_at(bytes, at) <= 0xffff,
        be16(u16_at(bytes, at)) == bytes.subrange(at, at + 2),
{
    let n = u16_at(bytes, at);
    assert(n / 256 == bytes[at] && n % 256 == bytes[at + 1]);
    assert(be16(n) =~= bytes.subrange(at, at + 2));
}

/// A byte string stands behind its length.
pub proof fn law_length_stands_before_the_bytes(bytes: Seq<u8>)
    ensures
        bytes.len() <= 0xff ==> framed8(bytes).len() == 1 + bytes.len() && framed8(bytes)[0]
            == bytes.len() && framed8(bytes).skip(1) == bytes,
        bytes.len() <= 0xffff ==> framed16(bytes).len() == 2 + bytes.len() && framed16(bytes)[0] * 256
            + framed16(bytes)[1] == bytes.len() && framed16(bytes).skip(2) == bytes,
{
    if bytes.len() <= 0xff {
        assert(framed8(bytes).skip(1) =~= bytes);
    }
    if bytes.len() <= 0xffff {
        assert(framed16(bytes).skip(2) =~= bytes);
    }
}

/// What is read behind a length is as long as it says, and is read exactly if there is as much.
pub proof fn law_as_much_is_read_as_the_length_says(bytes: Seq<u8>, at: int)
    requires
        0 <= at,
    ensures
        match unframed8(bytes, at) {
            Some(read) => at + 1 + read.len() <= bytes.len() && read.len() == bytes[at] && framed8(
                read,
            ) == bytes.subrange(at, at + 1 + read.len()),
            None => at >= bytes.len() || at + 1 + bytes[at] > bytes.len(),
        },
        match unframed16(bytes, at) {
            Some(read) => at + 2 + read.len() <= bytes.len() && read.len() == bytes[at] * 256
                + bytes[at + 1] && framed16(read) == bytes.subrange(at, at + 2 + read.len()),
            None => at + 2 > bytes.len() || at + 2 + bytes[at] * 256 + bytes[at + 1] > bytes.len(),
        },
{
    match unframed8(bytes, at) {
        Some(read) => {
            assert(framed8(read) =~= bytes.subrange(at, at + 1 + read.len()));
        },
        None => {},
    }
    match unframed16(bytes, at) {
        Some(read) => {
            law_high_byte_comes_first(0, bytes, at);
            let number = be16(u16_at(bytes, at));
            assert(number[0] == bytes.subrange(at, at + 2)[0]);
            assert(number[1] == bytes.subrange(at, at + 2)[1]);
            assert(framed16(read) =~= bytes.subrange(at, at + 2 + read.len()));
        },
        None => {},
    }
}

} // verus!
