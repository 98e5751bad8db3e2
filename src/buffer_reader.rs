//! A cursor that reads little-endian integers and strings from a byte buffer.
use vstd::prelude::*;
use vstd::slice::{slice_subrange, slice_to_vec};
use vstd::utf8::{decode_utf8, valid_utf8};

use crate::endian::{
    le_value,
    lemma_le_value_bound,
    lemma_pow256_monotonic,
    lemma_pow256_values,
    pow256,
};
use crate::error::CodecError;
use crate::text::string_from_utf8;

verus! {

/// Reads a byte buffer front to back. The cursor starts at 0; every read
/// checks that the bytes it needs are there and fails with `OutOfBounds`,
/// leaving the reader unchanged, when they are not.
pub struct BufferReader {
    pub buffer: Vec<u8>,
    offset: usize,
}

impl BufferReader {
    /// The bytes being read.
    pub closed spec fn bytes(&self) -> Seq<u8> {
        self.buffer@
    }

    /// Position of the next byte to be read.
    pub closed spec fn cursor(&self) -> nat {
        self.offset as nat
    }

    /// Whether `n` bytes remain from the cursor on.
    pub open spec fn has(&self, n: nat) -> bool {
        self.cursor() + n <= self.bytes().len()
    }

    /// The `n` bytes from the cursor on.
    pub open spec fn ahead(&self, n: nat) -> Seq<u8> {
        self.bytes().subrange(self.cursor() as int, (self.cursor() + n) as int)
    }

    /// The reader after `n` more bytes have been consumed.
    pub open spec fn advanced(&self, next: &Self, n: nat) -> bool {
        &&& next.bytes() == self.bytes()
        &&& next.cursor() == self.cursor() + n
    }

    pub fn new(buffer: Vec<u8>) -> (r: Self)
        ensures
            r.bytes() == buffer@,
            r.cursor() == 0,
    {
        BufferReader { buffer, offset: 0 }
    }

    /// Whether `n` bytes remain, without overflow.
    fn check(&self, n: usize) -> (r: bool)
        ensures
            r == self.has(n as nat),
    {
        self.offset <= self.buffer.len() && self.buffer.len() - self.offset >= n
    }

    /// Reads `n` bytes as a little-endian number.
    fn read_le(&mut self, n: usize) -> (r: Result<u64, CodecError>)
        requires
            n <= 8,
        ensures
            old(self).has(n as nat) ==> (r matches Ok(v) && v as nat == le_value(
                old(self).ahead(n as nat),
            ) && old(self).advanced(final(self), n as nat)),
            !old(self).has(n as nat) ==> r == Err::<u64, CodecError>(CodecError::OutOfBounds)
                && *final(self) == *old(self),
    {
        if !self.check(n) {
            return Err(CodecError::OutOfBounds);
        }
        let o = self.offset;
        let len = self.buffer.len();
        let ghost b = self.buffer@;
        let mut acc: u64 = 0;
        let mut i: usize = n;
        proof {
            assert(b.subrange(o + n, o + n) =~= Seq::<u8>::empty());
            lemma_pow256_values();
        }
        while i > 0
            invariant
                i <= n <= 8,
                o + n <= b.len() == len,
                b == self.buffer@,
                acc as nat == le_value(b.subrange(o + i, o + n)),
                pow256(7) == 0x100_0000_0000_0000,
            decreases i,
        {
            i = i - 1;
            proof {
                lemma_le_value_bound(b.subrange(o + i + 1, o + n));
                lemma_pow256_monotonic((n - i - 1) as nat, 7);
                assert(b.subrange(o + i, o + n).drop_first() =~= b.subrange(o + i + 1, o + n));
            }
            acc = acc * 256 + self.buffer[o + i] as u64;
        }
        self.offset = o + n;
        Ok(acc)
    }

    pub fn read_u8(&mut self) -> (r: Result<u8, CodecError>)
        ensures
            old(self).has(1) ==> (r matches Ok(v) && v as nat == le_value(old(self).ahead(1))
                && old(self).advanced(final(self), 1)),
            !old(self).has(1) ==> r == Err::<u8, CodecError>(CodecError::OutOfBounds)
                && *final(self) == *old(self),
    {
        proof {
            lemma_pow256_values();
            lemma_le_value_bound(old(self).ahead(1));
        }
        match self.read_le(1) {
            Ok(v) => Ok(v as u8),
            Err(e) => Err(e),
        }
    }

    pub fn read_u16(&mut self) -> (r: Result<u16, CodecError>)
        ensures
            old(self).has(2) ==> (r matches Ok(v) && v as nat == le_value(old(self).ahead(2))
                && old(self).advanced(final(self), 2)),
            !old(self).has(2) ==> r == Err::<u16, CodecError>(CodecError::OutOfBounds)
                && *final(self) == *old(self),
    {
        proof {
            lemma_pow256_values();
            lemma_le_value_bound(old(self).ahead(2));
        }
        match self.read_le(2) {
            Ok(v) => Ok(v as u16),
            Err(e) => Err(e),
        }
    }

    pub fn read_u32(&mut self) -> (r: Result<u32, CodecError>)
        ensures
            old(self).has(4) ==> (r matches Ok(v) && v as nat == le_value(old(self).ahead(4))
                && old(self).advanced(final(self), 4)),
            !old(self).has(4) ==> r == Err::<u32, CodecError>(CodecError::OutOfBounds)
                && *final(self) == *old(self),
    {
        proof {
            lemma_pow256_values();
            lemma_le_value_bound(old(self).ahead(4));
        }
        match self.read_le(4) {
            Ok(v) => Ok(v as u32),
            Err(e) => Err(e),
        }
    }

    pub fn read_u64(&mut self) -> (r: Result<u64, CodecError>)
        ensures
            old(self).has(8) ==> (r matches Ok(v) && v as nat == le_value(old(self).ahead(8))
                && old(self).advanced(final(self), 8)),
            !old(self).has(8) ==> r == Err::<u64, CodecError>(CodecError::OutOfBounds)
                && *final(self) == *old(self),
    {
        self.read_le(8)
    }

    /// A copy of the next `length` bytes.
    pub fn read_u8_array(&mut self, length: usize) -> (r: Result<Vec<u8>, CodecError>)
        ensures
            old(self).has(length as nat) ==> (r matches Ok(v) && v@ == old(self).ahead(
                length as nat,
            ) && old(self).advanced(final(self), length as nat)),
            !old(self).has(length as nat) ==> r == Err::<Vec<u8>, CodecError>(
                CodecError::OutOfBounds,
            ) && *final(self) == *old(self),
    {
        if !self.check(length) {
            return Err(CodecError::OutOfBounds);
        }
        let o = self.offset;
        let len = self.buffer.len();
        let bytes = slice_to_vec(slice_subrange(self.buffer.as_slice(), o, o + length));
        self.offset = o + length;
        Ok(bytes)
    }

    /// The next `byte_length` bytes as a UTF-8 string. Once the bytes are
    /// there they are consumed, whether or not they are valid UTF-8.
    pub fn read_string(&mut self, byte_length: usize) -> (r: Result<String, CodecError>)
        ensures
            !old(self).has(byte_length as nat) ==> r == Err::<String, CodecError>(
                CodecError::OutOfBounds,
            ) && *final(self) == *old(self),
            old(self).has(byte_length as nat) ==> old(self).advanced(
                final(self),
                byte_length as nat,
            ),
            old(self).has(byte_length as nat) && valid_utf8(old(self).ahead(byte_length as nat))
                ==> (r matches Ok(s) && s@ == decode_utf8(old(self).ahead(byte_length as nat))),
            old(self).has(byte_length as nat) && !valid_utf8(old(self).ahead(byte_length as nat))
                ==> r == Err::<String, CodecError>(CodecError::InvalidEncoding),
    {
        let bytes = match self.read_u8_array(byte_length) {
            Ok(b) => b,
            Err(e) => return Err(e),
        };
        match string_from_utf8(bytes) {
            Some(s) => Ok(s),
            None => Err(CodecError::InvalidEncoding),
        }
    }

    /// Moves the cursor `bytes` forward without reading. The cursor may pass
    /// the end of the buffer; the next read then fails.
    pub fn skip(&mut self, bytes: usize)
        requires
            old(self).cursor() + bytes <= usize::MAX,
        ensures
            old(self).advanced(final(self), bytes as nat),
    {
        self.offset = self.offset + bytes;
    }
}

} // verus!
