//! Byte cursors over `bytes::Bytes` and `bytes::BytesMut`.
//!
//! The sprite formats are read through a `Bytes` cursor and written through a
//! `BytesMut`. Both types are opaque to the verifier: what a cursor still
//! holds is modelled by [`unread`], what a writer holds so far by [`written`].
//! Every function in this file whose body is not verified says so in its doc
//! comment, together with the method of the `bytes` crate that it stands for.

use bytes::{Buf, BufMut, Bytes, BytesMut};
use vstd::prelude::*;

verus! {

/// `bytes::Bytes`, a type that the verifier knows by name only.
#[verifier::external_type_specification]
#[verifier::external_body]
pub struct ExBytes(bytes::Bytes);

/// `bytes::BytesMut`, a type that the verifier knows by name only.
#[verifier::external_type_specification]
#[verifier::external_body]
pub struct ExBytesMut(bytes::BytesMut);

/// The bytes of a `Bytes` cursor that have not been read yet, in order.
pub uninterp spec fn unread(buffer: Bytes) -> Seq<u8>;

/// The bytes that a `BytesMut` holds, in the order they were written.
pub uninterp spec fn written(buffer: BytesMut) -> Seq<u8>;

/// The value of a little-endian 16-bit field whose bytes start `s`.
pub open spec fn le16(s: Seq<u8>) -> int
    recommends
        s.len() >= 2,
{
    s[0] as int + 256 * (s[1] as int)
}

/// The value of a little-endian 32-bit field whose bytes start `s`.
pub open spec fn le32(s: Seq<u8>) -> int
    recommends
        s.len() >= 4,
{
    s[0] as int + 256 * (s[1] as int) + 65536 * (s[2] as int) + 16777216 * (s[3] as int)
}

/// The value of a big-endian 16-bit field whose bytes start `s`.
pub open spec fn be16(s: Seq<u8>) -> int
    recommends
        s.len() >= 2,
{
    256 * (s[0] as int) + s[1] as int
}

/// The value of a big-endian 32-bit field whose bytes start `s`.
pub open spec fn be32(s: Seq<u8>) -> int
    recommends
        s.len() >= 4,
{
    16777216 * (s[0] as int) + 65536 * (s[1] as int) + 256 * (s[2] as int) + s[3] as int
}

/// The two bytes of `v` as a little-endian field.
pub open spec fn le16_bytes(v: int) -> Seq<u8> {
    seq![(v % 256) as u8, ((v / 256) % 256) as u8]
}

/// The four bytes of `v` as a little-endian field.
pub open spec fn le32_bytes(v: int) -> Seq<u8> {
    seq![
        (v % 256) as u8,
        ((v / 256) % 256) as u8,
        ((v / 65536) % 256) as u8,
        ((v / 16777216) % 256) as u8,
    ]
}

/// The two bytes of `v` as a big-endian field.
pub open spec fn be16_bytes(v: int) -> Seq<u8> {
    seq![((v / 256) % 256) as u8, (v % 256) as u8]
}

/// The four bytes of `v` as a big-endian field.
pub open spec fn be32_bytes(v: int) -> Seq<u8> {
    seq![
        ((v / 16777216) % 256) as u8,
        ((v / 65536) % 256) as u8,
        ((v / 256) % 256) as u8,
        (v % 256) as u8,
    ]
}

/// A 16-bit field read back from its little-endian bytes is unchanged, whatever follows them.
pub proof fn lemma_le16_roundtrip(v: int, rest: Seq<u8>)
    requires
        0 <= v < 65536,
    ensures
        le16_bytes(v).len() == 2,
        le16(le16_bytes(v) + rest) == v,
{
    let b = le16_bytes(v) + rest;
    assert(b[0] == le16_bytes(v)[0]);
    assert(b[1] == le16_bytes(v)[1]);
}

/// A 32-bit field read back from its little-endian bytes is unchanged, whatever follows them.
#[verifier::rlimit(40)]
pub proof fn lemma_le32_roundtrip(v: int, rest: Seq<u8>)
    requires
        0 <= v < 4294967296,
    ensures
        le32_bytes(v).len() == 4,
        le32(le32_bytes(v) + rest) == v,
{
    let b = le32_bytes(v) + rest;
    assert(b[0] == le32_bytes(v)[0]);
    assert(b[1] == le32_bytes(v)[1]);
    assert(b[2] == le32_bytes(v)[2]);
    assert(b[3] == le32_bytes(v)[3]);
}

/// A 16-bit little-endian field is read back from wherever its bytes stand.
#[verifier::rlimit(40)]
pub proof fn lemma_le16_at(whole: Seq<u8>, at: int, v: int)
    requires
        0 <= v < 65536,
        0 <= at,
        at + 2 <= whole.len(),
        whole.subrange(at, at + 2) == le16_bytes(v),
    ensures
        le16(whole.skip(at)) == v,
{
    let part = whole.subrange(at, at + 2);
    assert(whole.skip(at)[0] == part[0]);
    assert(whole.skip(at)[1] == part[1]);
}

/// A 32-bit little-endian field is read back from wherever its bytes stand.
#[verifier::rlimit(40)]
pub proof fn lemma_le32_at(whole: Seq<u8>, at: int, v: int)
    requires
        0 <= v < 4294967296,
        0 <= at,
        at + 4 <= whole.len(),
        whole.subrange(at, at + 4) == le32_bytes(v),
    ensures
        le32(whole.skip(at)) == v,
{
    let part = whole.subrange(at, at + 4);
    assert(whole.skip(at)[0] == part[0]);
    assert(whole.skip(at)[1] == part[1]);
    assert(whole.skip(at)[2] == part[2]);
    assert(whole.skip(at)[3] == part[3]);
}

/// A 16-bit field is read back from wherever its bytes stand.
#[verifier::rlimit(40)]
pub proof fn lemma_field16_at(whole: Seq<u8>, at: int, v: int, order: ByteOrder)
    requires
        0 <= v < 65536,
        0 <= at,
        at + 2 <= whole.len(),
        whole.subrange(at, at + 2) == field16_bytes(v, order),
    ensures
        field16(whole.skip(at), order) == v,
{
    let part = whole.subrange(at, at + 2);
    assert(whole.skip(at)[0] == part[0]);
    assert(whole.skip(at)[1] == part[1]);
}

/// A 32-bit field is read back from wherever its bytes stand.
#[verifier::rlimit(40)]
pub proof fn lemma_field32_at(whole: Seq<u8>, at: int, v: int, order: ByteOrder)
    requires
        0 <= v < 4294967296,
        0 <= at,
        at + 4 <= whole.len(),
        whole.subrange(at, at + 4) == field32_bytes(v, order),
    ensures
        field32(whole.skip(at), order) == v,
{
    let part = whole.subrange(at, at + 4);
    assert(whole.skip(at)[0] == part[0]);
    assert(whole.skip(at)[1] == part[1]);
    assert(whole.skip(at)[2] == part[2]);
    assert(whole.skip(at)[3] == part[3]);
}

/// Not verified: `Bytes::copy_from_slice`. The cursor it returns holds a copy
/// of `data`, none of it read.
#[verifier::external_body]
pub(crate) fn cursor_over(data: &[u8]) -> (buffer: Bytes)
    ensures
        unread(buffer) == data@,
{
    Bytes::copy_from_slice(data)
}

/// Not verified: `Clone` for `Bytes`. The copy shares the memory of the
/// original and has the same bytes left to read.
#[verifier::external_body]
pub(crate) fn share(buffer: &Bytes) -> (copy: Bytes)
    ensures
        unread(copy) == unread(*buffer),
{
    buffer.clone()
}

/// Not verified: `Buf::remaining` on `Bytes`, the number of unread bytes.
#[verifier::external_body]
pub(crate) fn remaining(buffer: &Bytes) -> (count: usize)
    ensures
        count == unread(*buffer).len(),
{
    buffer.remaining()
}

/// Not verified: `Buf::advance` on `Bytes`. It drops the next `count` unread
/// bytes, and panics when fewer are left.
#[verifier::external_body]
pub(crate) fn advance(buffer: &mut Bytes, count: usize)
    requires
        count <= unread(*old(buffer)).len(),
    ensures
        unread(*final(buffer)) == unread(*old(buffer)).skip(count as int),
{
    buffer.advance(count)
}

/// Not verified: `Buf::get_u8` on `Bytes`. It hands out the next unread byte,
/// and panics when none is left.
#[verifier::external_body]
pub(crate) fn get_u8(buffer: &mut Bytes) -> (value: u8)
    requires
        unread(*old(buffer)).len() >= 1,
    ensures
        value == unread(*old(buffer))[0],
        unread(*final(buffer)) == unread(*old(buffer)).skip(1),
{
    buffer.get_u8()
}

/// Not verified: `Buf::get_u16_le` on `Bytes`. It reads the next two bytes as
/// a little-endian integer, and panics when fewer are left.
#[verifier::external_body]
pub(crate) fn get_u16_le(buffer: &mut Bytes) -> (value: u16)
    requires
        unread(*old(buffer)).len() >= 2,
    ensures
        value == le16(unread(*old(buffer))),
        unread(*final(buffer)) == unread(*old(buffer)).skip(2),
{
    buffer.get_u16_le()
}

/// Not verified: `Buf::get_u32_le` on `Bytes`. It reads the next four bytes as
/// a little-endian integer, and panics when fewer are left.
#[verifier::external_body]
pub(crate) fn get_u32_le(buffer: &mut Bytes) -> (value: u32)
    requires
        unread(*old(buffer)).len() >= 4,
    ensures
        value == le32(unread(*old(buffer))),
        unread(*final(buffer)) == unread(*old(buffer)).skip(4),
{
    buffer.get_u32_le()
}

/// Not verified: `Buf::get_u16` on `Bytes`. It reads the next two bytes as a
/// big-endian integer, and panics when fewer are left.
#[verifier::external_body]
pub(crate) fn get_u16_be(buffer: &mut Bytes) -> (value: u16)
    requires
        unread(*old(buffer)).len() >= 2,
    ensures
        value == be16(unread(*old(buffer))),
        unread(*final(buffer)) == unread(*old(buffer)).skip(2),
{
    buffer.get_u16()
}

/// Not verified: `Buf::get_u32` on `Bytes`. It reads the next four bytes as a
/// big-endian integer, and panics when fewer are left.
#[verifier::external_body]
pub(crate) fn get_u32_be(buffer: &mut Bytes) -> (value: u32)
    requires
        unread(*old(buffer)).len() >= 4,
    ensures
        value == be32(unread(*old(buffer))),
        unread(*final(buffer)) == unread(*old(buffer)).skip(4),
{
    buffer.get_u32()
}

/// Not verified: `BytesMut::new`, an empty writer.
#[verifier::external_body]
pub(crate) fn writer() -> (buffer: BytesMut)
    ensures
        written(buffer) == Seq::<u8>::empty(),
{
    BytesMut::new()
}

/// Not verified: `BytesMut::len`, the number of bytes written.
#[verifier::external_body]
pub(crate) fn written_len(buffer: &BytesMut) -> (count: usize)
    ensures
        count == written(*buffer).len(),
{
    buffer.len()
}

/// Not verified: `BufMut::put_u8` on `BytesMut`. It appends one byte. The
/// crate lets a `BytesMut` grow to `isize::MAX` bytes and panics beyond.
#[verifier::external_body]
pub(crate) fn put_u8(buffer: &mut BytesMut, value: u8)
    requires
        written(*old(buffer)).len() + 1 <= isize::MAX,
    ensures
        written(*final(buffer)) == written(*old(buffer)).push(value),
{
    buffer.put_u8(value)
}

/// Not verified: `BufMut::put_u16_le` on `BytesMut`. It appends the two
/// little-endian bytes of `value`, and panics beyond `isize::MAX` bytes.
#[verifier::external_body]
pub(crate) fn put_u16_le(buffer: &mut BytesMut, value: u16)
    requires
        written(*old(buffer)).len() + 2 <= isize::MAX,
    ensures
        written(*final(buffer)) == written(*old(buffer)) + le16_bytes(value as int),
{
    buffer.put_u16_le(value)
}

/// Not verified: `BufMut::put_u32_le` on `BytesMut`. It appends the four
/// little-endian bytes of `value`, and panics beyond `isize::MAX` bytes.
#[verifier::external_body]
pub(crate) fn put_u32_le(buffer: &mut BytesMut, value: u32)
    requires
        written(*old(buffer)).len() + 4 <= isize::MAX,
    ensures
        written(*final(buffer)) == written(*old(buffer)) + le32_bytes(value as int),
{
    buffer.put_u32_le(value)
}

/// Not verified: `BufMut::put_u16` on `BytesMut`. It appends the two
/// big-endian bytes of `value`, and panics beyond `isize::MAX` bytes.
#[verifier::external_body]
pub(crate) fn put_u16_be(buffer: &mut BytesMut, value: u16)
    requires
        written(*old(buffer)).len() + 2 <= isize::MAX,
    ensures
        written(*final(buffer)) == written(*old(buffer)) + be16_bytes(value as int),
{
    buffer.put_u16(value)
}

/// Not verified: `BufMut::put_u32` on `BytesMut`. It appends the four
/// big-endian bytes of `value`, and panics beyond `isize::MAX` bytes.
#[verifier::external_body]
pub(crate) fn put_u32_be(buffer: &mut BytesMut, value: u32)
    requires
        written(*old(buffer)).len() + 4 <= isize::MAX,
    ensures
        written(*final(buffer)) == written(*old(buffer)) + be32_bytes(value as int),
{
    buffer.put_u32(value)
}

/// Not verified: `BytesMut::unsplit`. It appends all of `tail` to `buffer`,
/// and panics when the two together pass `isize::MAX` bytes.
#[verifier::external_body]
pub(crate) fn unsplit(buffer: &mut BytesMut, tail: BytesMut)
    requires
        written(*old(buffer)).len() + written(tail).len() <= isize::MAX,
    ensures
        written(*final(buffer)) == written(*old(buffer)) + written(tail),
{
    buffer.unsplit(tail)
}

/// Not verified: `BytesMut::freeze`. The cursor it returns holds what was
/// written, none of it read.
#[verifier::external_body]
pub(crate) fn freeze(buffer: BytesMut) -> (frozen: Bytes)
    ensures
        unread(frozen) == written(buffer),
{
    buffer.freeze()
}

/// The order in which a format stores the bytes of its integers.
#[derive(Debug, Copy, Clone, PartialEq, Eq, Structural)]
pub enum ByteOrder {
    Little,
    Big,
}

/// The value of a 16-bit field whose bytes start `s`.
pub open spec fn field16(s: Seq<u8>, order: ByteOrder) -> int {
    match order {
        ByteOrder::Little => le16(s),
        ByteOrder::Big => be16(s),
    }
}

/// The value of a 32-bit field whose bytes start `s`.
pub open spec fn field32(s: Seq<u8>, order: ByteOrder) -> int {
    match order {
        ByteOrder::Little => le32(s),
        ByteOrder::Big => be32(s),
    }
}

/// The two bytes of a 16-bit field.
pub open spec fn field16_bytes(v: int, order: ByteOrder) -> Seq<u8> {
    match order {
        ByteOrder::Little => le16_bytes(v),
        ByteOrder::Big => be16_bytes(v),
    }
}

/// The four bytes of a 32-bit field.
pub open spec fn field32_bytes(v: int, order: ByteOrder) -> Seq<u8> {
    match order {
        ByteOrder::Little => le32_bytes(v),
        ByteOrder::Big => be32_bytes(v),
    }
}

/// Reads a 16-bit field in the given byte order.
pub(crate) fn get_u16(buffer: &mut Bytes, order: ByteOrder) -> (value: u16)
    requires
        unread(*old(buffer)).len() >= 2,
    ensures
        value == field16(unread(*old(buffer)), order),
        unread(*final(buffer)) == unread(*old(buffer)).skip(2),
{
    match order {
        ByteOrder::Little => get_u16_le(buffer),
        ByteOrder::Big => get_u16_be(buffer),
    }
}

/// Reads a 32-bit field in the given byte order.
pub(crate) fn get_u32(buffer: &mut Bytes, order: ByteOrder) -> (value: u32)
    requires
        unread(*old(buffer)).len() >= 4,
    ensures
        value == field32(unread(*old(buffer)), order),
        unread(*final(buffer)) == unread(*old(buffer)).skip(4),
{
    match order {
        ByteOrder::Little => get_u32_le(buffer),
        ByteOrder::Big => get_u32_be(buffer),
    }
}

/// Writes a 16-bit field in the given byte order.
pub(crate) fn put_u16(buffer: &mut BytesMut, value: u16, order: ByteOrder)
    requires
        written(*old(buffer)).len() + 2 <= isize::MAX,
    ensures
        written(*final(buffer)) == written(*old(buffer)) + field16_bytes(value as int, order),
        field16_bytes(value as int, order).len() == 2,
{
    match order {
        ByteOrder::Little => put_u16_le(buffer, value),
        ByteOrder::Big => put_u16_be(buffer, value),
    }
}

/// Writes a 32-bit field in the given byte order.
pub(crate) fn put_u32(buffer: &mut BytesMut, value: u32, order: ByteOrder)
    requires
        written(*old(buffer)).len() + 4 <= isize::MAX,
    ensures
        written(*final(buffer)) == written(*old(buffer)) + field32_bytes(value as int, order),
        field32_bytes(value as int, order).len() == 4,
{
    match order {
        ByteOrder::Little => put_u32_le(buffer, value),
        ByteOrder::Big => put_u32_be(buffer, value),
    }
}

} // verus!
