//! A growable buffer that integers and byte strings are appended to.
use vstd::prelude::*;

use crate::endian::le_bytes;

verus! {

/// Builds a byte sequence by appending little-endian integers and byte strings.
pub struct BufferWriter {
    pub buffer: Vec<u8>,
}

impl BufferWriter {
    /// An empty writer; `byte_length` is the expected final size, used only to
    /// reserve room.
    pub fn new(byte_length: usize) -> (r: Self)
        ensures
            r.buffer@ == Seq::<u8>::empty(),
    {
        BufferWriter { buffer: Vec::with_capacity(byte_length) }
    }

    /// Appends the bytes of `u8_array` and leaves it empty: they are moved,
    /// not copied.
    pub fn write_u8_array(&mut self, u8_array: &mut Vec<u8>)
        ensures
            final(self).buffer@ == old(self).buffer@ + old(u8_array)@,
            final(u8_array)@ == Seq::<u8>::empty(),
    {
        self.buffer.append(u8_array);
    }

    /// Appends the `n` low bytes of `value`, least significant first.
    fn write_le(&mut self, value: u64, n: usize)
        ensures
            final(self).buffer@ == old(self).buffer@ + le_bytes(value as nat, n as nat),
    {
        let mut v: u64 = value;
        let mut i: usize = 0;
        while i < n
            invariant
                i <= n,
                self.buffer@ + le_bytes(v as nat, (n - i) as nat) == old(self).buffer@ + le_bytes(
                    value as nat,
                    n as nat,
                ),
            decreases n - i,
        {
            let ghost before = self.buffer@;
            assert(le_bytes(v as nat, (n - i) as nat) == seq![(v % 256) as u8] + le_bytes(
                (v / 256) as nat,
                (n - i - 1) as nat,
            ));
            self.buffer.push((v % 256) as u8);
            assert(self.buffer@ + le_bytes((v / 256) as nat, (n - i - 1) as nat) =~= before + (seq![
                (v % 256) as u8,
            ] + le_bytes((v / 256) as nat, (n - i - 1) as nat)));
            v = v / 256;
            i = i + 1;
        }
        assert(le_bytes(v as nat, 0) =~= Seq::<u8>::empty());
        assert(self.buffer@ + Seq::<u8>::empty() =~= self.buffer@);
    }

    pub fn write_u8(&mut self, value: u8)
        ensures
            final(self).buffer@ == old(self).buffer@ + le_bytes(value as nat, 1),
    {
        self.write_le(value as u64, 1);
    }

    pub fn write_u16(&mut self, value: u16)
        ensures
            final(self).buffer@ == old(self).buffer@ + le_bytes(value as nat, 2),
    {
        self.write_le(value as u64, 2);
    }

    pub fn write_u32(&mut self, value: u32)
        ensures
            final(self).buffer@ == old(self).buffer@ + le_bytes(value as nat, 4),
    {
        self.write_le(value as u64, 4);
    }

    pub fn write_u64(&mut self, value: u64)
        ensures
            final(self).buffer@ == old(self).buffer@ + le_bytes(value as nat, 8),
    {
        self.write_le(value, 8);
    }
}

} // verus!
