//! Short and extended device addresses, stored little endian on the air.

use vstd::prelude::*;

verus! {

use vstd::bytes::{
    lemma_auto_spec_u16_to_from_le_bytes,
    lemma_auto_spec_u64_to_from_le_bytes,
    spec_u16_from_le_bytes,
    spec_u16_to_le_bytes,
    spec_u64_from_le_bytes,
    spec_u64_to_le_bytes,
    u16_from_le_bytes,
    u16_to_le_bytes,
    u64_from_le_bytes,
    u64_to_le_bytes,
};

/// Why a buffer could not be decoded.
#[derive(Clone, Copy, Debug, PartialEq, Eq, Hash, Structural)]
pub enum DecodeError {
    /// The buffer ends before the element does.
    NotEnoughBytes,
}

/// The buffer `before` with `bytes` written over it from position `pos` on.
pub open spec fn written(before: Seq<u8>, pos: int, bytes: Seq<u8>) -> Seq<u8> {
    before.take(pos) + bytes + before.skip(pos + bytes.len())
}

/// Writing `x` at `pos` and then `y` right after it is writing `x + y` at
/// `pos`.
pub proof fn lemma_written_twice(s: Seq<u8>, pos: int, x: Seq<u8>, y: Seq<u8>)
    requires
        0 <= pos,
        pos + x.len() + y.len() <= s.len(),
    ensures
        written(s, pos, x).len() == s.len(),
        written(written(s, pos, x), pos + x.len(), y) == written(s, pos, x + y),
{
    assert(written(written(s, pos, x), pos + x.len(), y) =~= written(s, pos, x + y));
}

/// Copies `src` into `buf` from position `pos` on.
pub(crate) fn copy_into(buf: &mut [u8], pos: usize, src: &Vec<u8>)
    requires
        pos + src@.len() <= old(buf)@.len(),
    ensures
        final(buf)@ == written(old(buf)@, pos as int, src@),
{
    let ghost start = buf@;
    assert(start.len() == buf.len());
    let mut i: usize = 0;
    while i < src.len()
        invariant
            pos + src@.len() <= start.len() <= usize::MAX,
            i <= src@.len(),
            buf@ == written(start, pos as int, src@.take(i as int)),
        decreases src@.len() - i,
    {
        buf[pos + i] = src[i];
        i = i + 1;
        assert(buf@ =~= written(start, pos as int, src@.take(i as int)));
    }
    assert(src@.take(i as int) =~= src@);
}

/// A 16-bit short address.
#[derive(Clone, Copy, Debug, PartialEq, Eq, Hash, Structural)]
pub struct ShortAddress(pub u16);

/// A 64-bit extended address.
#[derive(Clone, Copy, Debug, PartialEq, Eq, Hash, Structural)]
pub struct ExtendedAddress(pub u64);

impl ShortAddress {
    /// Its two bytes, low byte first.
    pub open spec fn bytes(self) -> Seq<u8> {
        spec_u16_to_le_bytes(self.0)
    }

    /// The address held by the first two bytes of `s`.
    pub open spec fn from_bytes(s: Seq<u8>) -> ShortAddress {
        ShortAddress(spec_u16_from_le_bytes(s.take(2)))
    }

    /// The broadcast address, `0xffff`.
    pub fn broadcast() -> (a: Self)
        ensures
            a.0 == 0xffff,
    {
        ShortAddress(0xffff)
    }

    /// Decodes a short address from the start of `buf`; returns it and the
    /// number of bytes used.
    pub fn decode(buf: &[u8]) -> (r: Result<(Self, usize), DecodeError>)
        ensures
            buf@.len() < 2 ==> r == Err::<(Self, usize), DecodeError>(DecodeError::NotEnoughBytes),
            buf@.len() >= 2 ==> r == Ok::<(Self, usize), DecodeError>(
                (Self::from_bytes(buf@), 2),
            ),
    {
        if buf.len() < 2 {
            return Err(DecodeError::NotEnoughBytes);
        }
        let head = vstd::slice::slice_subrange(buf, 0, 2);
        assert(head@ == buf@.take(2));
        Ok((ShortAddress(u16_from_le_bytes(head)), 2))
    }

    /// Writes the address at position `pos` of `buf`.
    pub(crate) fn encode_at(&self, buf: &mut [u8], pos: usize)
        requires
            pos + 2 <= old(buf)@.len(),
        ensures
            final(buf)@ == written(old(buf)@, pos as int, self.bytes()),
    {
        let bytes = u16_to_le_bytes(self.0);
        copy_into(buf, pos, &bytes);
    }

    /// Encodes the address into the start of `buf`; returns the number of
    /// bytes written.
    pub fn encode(&self, buf: &mut [u8]) -> (n: usize)
        requires
            old(buf)@.len() >= 2,
        ensures
            n == 2,
            final(buf)@ == written(old(buf)@, 0, self.bytes()),
    {
        self.encode_at(buf, 0);
        2
    }
}

impl ExtendedAddress {
    /// Its eight bytes, lowest byte first.
    pub open spec fn bytes(self) -> Seq<u8> {
        spec_u64_to_le_bytes(self.0)
    }

    /// The address held by the first eight bytes of `s`.
    pub open spec fn from_bytes(s: Seq<u8>) -> ExtendedAddress {
        ExtendedAddress(spec_u64_from_le_bytes(s.take(8)))
    }

    /// The broadcast address, all bits set.
    pub fn broadcast() -> (a: Self)
        ensures
            a.0 == 0xffff_ffff_ffff_ffff,
    {
        ExtendedAddress(0xffff_ffff_ffff_ffff)
    }

    /// Decodes an extended address from the start of `buf`; returns it and
    /// the number of bytes used.
    pub fn decode(buf: &[u8]) -> (r: Result<(Self, usize), DecodeError>)
        ensures
            buf@.len() < 8 ==> r == Err::<(Self, usize), DecodeError>(DecodeError::NotEnoughBytes),
            buf@.len() >= 8 ==> r == Ok::<(Self, usize), DecodeError>(
                (Self::from_bytes(buf@), 8),
            ),
    {
        if buf.len() < 8 {
            return Err(DecodeError::NotEnoughBytes);
        }
        let head = vstd::slice::slice_subrange(buf, 0, 8);
        assert(head@ == buf@.take(8));
        Ok((ExtendedAddress(u64_from_le_bytes(head)), 8))
    }

    /// Writes the address at position `pos` of `buf`.
    pub(crate) fn encode_at(&self, buf: &mut [u8], pos: usize)
        requires
            pos + 8 <= old(buf)@.len(),
        ensures
            final(buf)@ == written(old(buf)@, pos as int, self.bytes()),
    {
        let bytes = u64_to_le_bytes(self.0);
        copy_into(buf, pos, &bytes);
    }

    /// Encodes the address into the start of `buf`; returns the number of
    /// bytes written.
    pub fn encode(&self, buf: &mut [u8]) -> (n: usize)
        requires
            old(buf)@.len() >= 8,
        ensures
            n == 8,
            final(buf)@ == written(old(buf)@, 0, self.bytes()),
    {
        self.encode_at(buf, 0);
        8
    }
}

/// Decoding what an encoding wrote gives the address back, and the bytes of a
/// decoded address are the bytes it was decoded from.
pub proof fn short_address_roundtrip(a: ShortAddress, s: Seq<u8>)
    ensures
        a.bytes().len() == 2,
        ShortAddress::from_bytes(a.bytes()) == a,
        s.len() >= 2 ==> ShortAddress::from_bytes(s).bytes() == s.take(2),
{
    lemma_auto_spec_u16_to_from_le_bytes();
    assert(a.bytes().take(2) =~= a.bytes());
    if s.len() >= 2 {
        assert(s.take(2).len() == 2);
    }
}

/// Decoding what an encoding wrote gives the address back, and the bytes of a
/// decoded address are the bytes it was decoded from.
pub proof fn extended_address_roundtrip(a: ExtendedAddress, s: Seq<u8>)
    ensures
        a.bytes().len() == 8,
        ExtendedAddress::from_bytes(a.bytes()) == a,
        s.len() >= 8 ==> ExtendedAddress::from_bytes(s).bytes() == s.take(8),
{
    lemma_auto_spec_u64_to_from_le_bytes();
    assert(a.bytes().take(8) =~= a.bytes());
    if s.len() >= 8 {
        assert(s.take(8).len() == 8);
    }
}

} // verus!
