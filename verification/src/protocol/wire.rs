//! Big-endian integers on the wire, and the byte buffers they are written to
//! and read from.

use bytes::Buf;
use bytes::BufMut;
use bytes::BytesMut;
use vstd::prelude::*;

verus! {

/// The two bytes of `v`, most significant first.
pub open spec fn u16_be(v: u16) -> Seq<u8> {
    seq![(v / 0x100) as u8, (v % 0x100) as u8]
}

/// The four bytes of `v`, most significant first.
pub open spec fn u32_be(v: u32) -> Seq<u8> {
    seq![
        (v / 0x100_0000) as u8,
        (v / 0x1_0000 % 0x100) as u8,
        (v / 0x100 % 0x100) as u8,
        (v % 0x100) as u8,
    ]
}

/// The number that the first two bytes of `b` spell, most significant first.
pub open spec fn be_u16(b: Seq<u8>) -> u16
    recommends
        b.len() >= 2,
{
    (b[0] as int * 0x100 + b[1] as int) as u16
}

/// The number that the first four bytes of `b` spell, most significant first.
pub open spec fn be_u32(b: Seq<u8>) -> u32
    recommends
        b.len() >= 4,
{
    (b[0] as int * 0x100_0000 + b[1] as int * 0x1_0000 + b[2] as int * 0x100 + b[3] as int) as u32
}

/// Reading back what was written gives the number that was written.
pub proof fn lemma_u32_be_round_trip(v: u32)
    ensures
        u32_be(v).len() == 4,
        be_u32(u32_be(v)) == v,
{
}

/// Writing what was read gives the four bytes that were read.
pub proof fn lemma_be_u32_round_trip(b: Seq<u8>)
    requires
        b.len() == 4,
    ensures
        u32_be(be_u32(b)) == b,
{
    let b0 = b[0] as int;
    let b1 = b[1] as int;
    let b2 = b[2] as int;
    let b3 = b[3] as int;
    let v = b0 * 0x100_0000 + b1 * 0x1_0000 + b2 * 0x100 + b3;
    assert(0 <= v <= 0xffff_ffff);
    assert(be_u32(b) as int == v);
    assert(v / 0x100_0000 == b0 && v / 0x1_0000 % 0x100 == b1 && v / 0x100 % 0x100 == b2 && v
        % 0x100 == b3) by (nonlinear_arith)
        requires
            v == b0 * 0x100_0000 + b1 * 0x1_0000 + b2 * 0x100 + b3,
            0 <= b0 < 256,
            0 <= b1 < 256,
            0 <= b2 < 256,
            0 <= b3 < 256,
    ;
    assert(u32_be(be_u32(b)) =~= b);
}

/// Reading back what was written gives the number that was written.
pub proof fn lemma_u16_be_round_trip(v: u16)
    ensures
        u16_be(v).len() == 2,
        be_u16(u16_be(v)) == v,
{
}

/// Writing what was read gives the two bytes that were read.
pub proof fn lemma_be_u16_round_trip(b: Seq<u8>)
    requires
        b.len() == 2,
    ensures
        u16_be(be_u16(b)) == b,
{
    assert(u16_be(be_u16(b)) =~= b);
}

/// `bytes::BufMut::put_u8` on a `Vec<u8>`: appends the byte.
#[verifier::external_body]
pub(crate) fn put_u8(buf: &mut Vec<u8>, v: u8)
    ensures
        final(buf)@ == old(buf)@.push(v),
{
    buf.put_u8(v)
}

/// `bytes::BufMut::put_u16` on a `Vec<u8>`: appends the two bytes of `v`,
/// most significant first.
#[verifier::external_body]
pub(crate) fn put_u16(buf: &mut Vec<u8>, v: u16)
    ensures
        final(buf)@ == old(buf)@ + u16_be(v),
{
    buf.put_u16(v)
}

/// `bytes::BufMut::put_u32` on a `Vec<u8>`: appends the four bytes of `v`,
/// most significant first.
#[verifier::external_body]
pub(crate) fn put_u32(buf: &mut Vec<u8>, v: u32)
    ensures
        final(buf)@ == old(buf)@ + u32_be(v),
{
    buf.put_u32(v)
}

#[verifier::external_type_specification]
#[verifier::external_body]
pub struct ExBytesMut(BytesMut);

/// The bytes that a `BytesMut` holds and has not yet handed out, in order.
pub uninterp spec fn unread(buf: BytesMut) -> Seq<u8>;

/// `BytesMut::new`: a buffer that holds nothing.
#[verifier::external_body]
pub(crate) fn buffer_new() -> (buf: BytesMut)
    ensures
        unread(buf) == Seq::<u8>::empty(),
{
    BytesMut::new()
}

/// `BytesMut::from(&[u8])`: a buffer that holds a copy of `src`.
#[verifier::external_body]
pub(crate) fn buffer_from(src: &[u8]) -> (buf: BytesMut)
    ensures
        unread(buf) == src@,
{
    BytesMut::from(src)
}

/// `BytesMut::len`: the number of bytes not yet handed out.
#[verifier::external_body]
pub(crate) fn buffer_len(buf: &BytesMut) -> (n: usize)
    ensures
        n == unread(*buf).len(),
{
    buf.len()
}

/// `BytesMut::extend_from_slice`: appends a copy of `src`.
#[verifier::external_body]
pub(crate) fn buffer_extend(buf: &mut BytesMut, src: &[u8])
    ensures
        unread(*final(buf)) == unread(*old(buf)) + src@,
{
    buf.extend_from_slice(src)
}

/// `bytes::Buf::advance` on a `BytesMut`: drops the first `cnt` bytes.
#[verifier::external_body]
pub(crate) fn buffer_advance(buf: &mut BytesMut, cnt: usize)
    requires
        cnt <= unread(*old(buf)).len(),
    ensures
        unread(*final(buf)) == unread(*old(buf)).skip(cnt as int),
{
    buf.advance(cnt)
}

/// The slice that a `BytesMut` dereferences to, cut to its first `n` bytes
/// and copied with `to_vec`. The buffer is left as it was.
#[verifier::external_body]
pub(crate) fn buffer_prefix(buf: &BytesMut, n: usize) -> (bytes: Vec<u8>)
    requires
        n <= unread(*buf).len(),
    ensures
        bytes@ == unread(*buf).take(n as int),
{
    buf[..n].to_vec()
}

/// `bytes::Buf::get_u8` on a `BytesMut`: hands out the first byte.
#[verifier::external_body]
pub(crate) fn get_u8(buf: &mut BytesMut) -> (v: u8)
    requires
        unread(*old(buf)).len() >= 1,
    ensures
        v == unread(*old(buf))[0],
        unread(*final(buf)) == unread(*old(buf)).skip(1),
{
    buf.get_u8()
}

/// `bytes::Buf::get_u16` on a `BytesMut`: hands out the first two bytes as a
/// number, most significant first.
#[verifier::external_body]
pub(crate) fn get_u16(buf: &mut BytesMut) -> (v: u16)
    requires
        unread(*old(buf)).len() >= 2,
    ensures
        v == be_u16(unread(*old(buf))),
        unread(*final(buf)) == unread(*old(buf)).skip(2),
{
    buf.get_u16()
}

/// `bytes::Buf::get_u32` on a `BytesMut`: hands out the first four bytes as a
/// number, most significant first.
#[verifier::external_body]
pub(crate) fn get_u32(buf: &mut BytesMut) -> (v: u32)
    requires
        unread(*old(buf)).len() >= 4,
    ensures
        v == be_u32(unread(*old(buf))),
        unread(*final(buf)) == unread(*old(buf)).skip(4),
{
    buf.get_u32()
}

/// `bytes::Buf::copy_to_slice` on a `BytesMut`, into an array of `N` bytes:
/// hands out the first `N` bytes.
#[verifier::external_body]
pub(crate) fn get_array<const N: usize>(buf: &mut BytesMut) -> (out: [u8; N])
    requires
        unread(*old(buf)).len() >= N,
    ensures
        out@ == unread(*old(buf)).take(N as int),
        unread(*final(buf)) == unread(*old(buf)).skip(N as int),
{
    let mut out = [0u8; N];
    buf.copy_to_slice(&mut out);
    out
}

} // verus!
