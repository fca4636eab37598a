//! Byte buffers and fixed-width integers read from byte slices.
use vstd::prelude::*;
use byteorder::ByteOrder;
use smallvec::SmallVec;

use crate::INLINE_DATA_SIZE;

verus! {

/// A byte buffer that keeps up to `INLINE_DATA_SIZE` bytes inline: the
/// payload of a patch record. It holds a `smallvec::SmallVec`.
#[verifier::external_body]
#[derive(PartialEq, Eq, Debug)]
pub struct InlineBytes {
    inner: SmallVec<[u8; INLINE_DATA_SIZE]>,
}

/// The bytes that an [`InlineBytes`] holds, in order.
pub uninterp spec fn inline_bytes_contents(v: InlineBytes) -> Seq<u8>;

impl View for InlineBytes {
    type V = Seq<u8>;

    open spec fn view(&self) -> Seq<u8> {
        inline_bytes_contents(*self)
    }
}

impl Clone for InlineBytes {
    /// Calls `SmallVec::clone`, which copies the bytes.
    #[verifier::external_body]
    fn clone(&self) -> (r: Self)
        ensures
            inline_bytes_contents(r) == inline_bytes_contents(*self),
    {
        InlineBytes { inner: self.inner.clone() }
    }
}

impl InlineBytes {
    /// Calls `SmallVec::new`: an empty buffer.
    #[verifier::external_body]
    pub fn new() -> (r: InlineBytes)
        ensures
            inline_bytes_contents(r) == Seq::<u8>::empty(),
    {
        InlineBytes { inner: SmallVec::new() }
    }

    /// Calls `SmallVec::with_capacity`: an empty buffer with room for `n`
    /// bytes.
    #[verifier::external_body]
    pub fn with_capacity(n: usize) -> (r: InlineBytes)
        ensures
            inline_bytes_contents(r) == Seq::<u8>::empty(),
    {
        InlineBytes { inner: SmallVec::with_capacity(n) }
    }

    /// Calls `SmallVec::from_slice`: a buffer holding a copy of `bytes`.
    #[verifier::external_body]
    pub fn from_slice(bytes: &[u8]) -> (r: InlineBytes)
        ensures
            inline_bytes_contents(r) == bytes@,
    {
        InlineBytes { inner: SmallVec::from_slice(bytes) }
    }

    /// Calls `SmallVec::push`, which appends `value`. It panics when the
    /// length would pass `usize::MAX`, which `requires` leaves out.
    #[verifier::external_body]
    pub fn push(&mut self, value: u8)
        requires
            inline_bytes_contents(*old(self)).len() < usize::MAX,
        ensures
            inline_bytes_contents(*final(self)) == inline_bytes_contents(*old(self)).push(value),
    {
        self.inner.push(value)
    }

    /// Calls `SmallVec::pop`, which removes and returns the last byte.
    #[verifier::external_body]
    pub fn pop(&mut self) -> (r: Option<u8>)
        ensures
            inline_bytes_contents(*old(self)).len() > 0 ==> {
                &&& r == Some(inline_bytes_contents(*old(self)).last())
                &&& inline_bytes_contents(*final(self)) == inline_bytes_contents(
                    *old(self),
                ).drop_last()
            },
            inline_bytes_contents(*old(self)).len() == 0 ==> {
                &&& r is None
                &&& inline_bytes_contents(*final(self)) == inline_bytes_contents(*old(self))
            },
    {
        self.inner.pop()
    }

    /// Calls `SmallVec::len`: the number of bytes held.
    #[verifier::external_body]
    pub fn len(&self) -> (r: usize)
        ensures
            r == inline_bytes_contents(*self).len(),
    {
        self.inner.len()
    }

    /// Calls `SmallVec::as_slice`: the bytes held.
    #[verifier::external_body]
    pub fn as_slice(&self) -> (r: &[u8])
        ensures
            r@ == inline_bytes_contents(*self),
    {
        self.inner.as_slice()
    }
}

/// The big-endian 16-bit integer at `i`.
pub open spec fn u16_be(s: Seq<u8>, i: int) -> int {
    s[i] * 256 + s[i + 1]
}

/// The big-endian 24-bit integer at `i`.
pub open spec fn u24_be(s: Seq<u8>, i: int) -> int {
    s[i] * 65536 + s[i + 1] * 256 + s[i + 2]
}

/// The little-endian 32-bit integer at `i`.
pub open spec fn u32_le(s: Seq<u8>, i: int) -> int {
    s[i] + s[i + 1] * 256 + s[i + 2] * 65536 + s[i + 3] * 16777216
}

/// Calls `byteorder::BigEndian::read_u16`: the first two bytes of `buf`,
/// big-endian. It panics on a shorter `buf`, which `requires` leaves out.
#[verifier::external_body]
fn big_endian_u16(buf: &[u8]) -> (r: u16)
    requires
        buf@.len() >= 2,
    ensures
        r == u16_be(buf@, 0),
{
    byteorder::BigEndian::read_u16(buf)
}

/// Calls `byteorder::BigEndian::read_u24`: the first three bytes of `buf`,
/// big-endian. It panics on a shorter `buf`, which `requires` leaves out.
#[verifier::external_body]
fn big_endian_u24(buf: &[u8]) -> (r: u32)
    requires
        buf@.len() >= 3,
    ensures
        r == u24_be(buf@, 0),
{
    byteorder::BigEndian::read_u24(buf)
}

/// Calls `byteorder::LittleEndian::read_u32`: the first four bytes of `buf`,
/// little-endian. It panics on a shorter `buf`, which `requires` leaves out.
#[verifier::external_body]
fn little_endian_u32(buf: &[u8]) -> (r: u32)
    requires
        buf@.len() >= 4,
    ensures
        r == u32_le(buf@, 0),
{
    byteorder::LittleEndian::read_u32(buf)
}

/// The big-endian 16-bit integer at `pos`.
pub fn read_u16_be(data: &[u8], pos: usize) -> (r: u16)
    requires
        pos + 2 <= data@.len(),
    ensures
        r == u16_be(data@, pos as int),
{
    big_endian_u16(&data[pos..data.len()])
}

/// The big-endian 24-bit integer at `pos`.
pub fn read_u24_be(data: &[u8], pos: usize) -> (r: u32)
    requires
        pos + 3 <= data@.len(),
    ensures
        r == u24_be(data@, pos as int),
{
    big_endian_u24(&data[pos..data.len()])
}

/// The little-endian 32-bit integer at `pos`.
pub fn read_u32_le(data: &[u8], pos: usize) -> (r: u32)
    requires
        pos + 4 <= data@.len(),
    ensures
        r == u32_le(data@, pos as int),
{
    little_endian_u32(&data[pos..data.len()])
}

} // verus!
