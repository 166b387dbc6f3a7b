//! Append-only byte writer.

use vstd::bytes::{
    spec_u128_to_le_bytes, spec_u16_to_le_bytes, spec_u32_to_le_bytes, spec_u64_to_le_bytes,
    u128_to_le_bytes, u16_to_le_bytes, u32_to_le_bytes, u64_to_le_bytes,
};
use vstd::prelude::*;

use vstd::string::StringSliceAdditionalSpecFns;
use crate::varint::uleb_bytes;

verus! {

/// Exclusively owned, append-only byte buffer used to build a section's
/// wire form.
pub struct Writer {
    buf: Vec<u8>,
}

impl View for Writer {
    type V = Seq<u8>;

    closed spec fn view(&self) -> Seq<u8> {
        self.buf@
    }
}

impl Writer {
    /// Create a `Writer` over a fresh, empty buffer.
    pub fn new() -> (w: Writer)
        ensures
            w@ == Seq::<u8>::empty(),
    {
        Writer { buf: Vec::new() }
    }

    /// Give up the writer and keep the bytes written so far.
    pub fn into_buffer(self) -> (r: Vec<u8>)
        ensures
            r@ == self@,
    {
        self.buf
    }

    /// Write out `value` in the canonical base-128 variable-length encoding.
    pub fn uleb128(&mut self, value: u128)
        ensures
            final(self)@ == old(self)@ + uleb_bytes(value as nat),
    {
        let mut remaining: u128 = value;
        while remaining >= 0x80
            invariant
                old(self)@ + uleb_bytes(value as nat) == self@ + uleb_bytes(remaining as nat),
            decreases remaining,
        {
            let ghost pre = self@;
            let ghost rem_pre = remaining as nat;
            let byte: u8 = (remaining % 0x80 + 0x80) as u8;
            self.u8(byte);
            remaining = remaining / 0x80;
            assert(uleb_bytes(rem_pre) == seq![byte] + uleb_bytes(remaining as nat));
            assert(pre + uleb_bytes(rem_pre) =~= self@ + uleb_bytes(remaining as nat));
        }
        let ghost pre = self@;
        self.u8(remaining as u8);
        assert(uleb_bytes(remaining as nat) == seq![remaining as u8]);
        assert(pre + uleb_bytes(remaining as nat) =~= self@);
    }

    /// Write out a byte.
    pub fn u8(&mut self, byte: u8)
        ensures
            final(self)@ == old(self)@.push(byte),
    {
        self.buf.push(byte);
    }

    /// Write out a little-endian encoded 2-byte integer.
    pub fn u16(&mut self, int_val: u16)
        ensures
            final(self)@ == old(self)@ + spec_u16_to_le_bytes(int_val),
    {
        let bytes = u16_to_le_bytes(int_val);
        self.bytes(bytes.as_slice());
    }

    /// Write out a little-endian encoded 4-byte integer.
    pub fn u32(&mut self, int_val: u32)
        ensures
            final(self)@ == old(self)@ + spec_u32_to_le_bytes(int_val),
    {
        let bytes = u32_to_le_bytes(int_val);
        self.bytes(bytes.as_slice());
    }

    /// Write out a little-endian encoded 8-byte integer.
    pub fn u64(&mut self, int_val: u64)
        ensures
            final(self)@ == old(self)@ + spec_u64_to_le_bytes(int_val),
    {
        let bytes = u64_to_le_bytes(int_val);
        self.bytes(bytes.as_slice());
    }

    /// Write out a little-endian encoded 16-byte integer.
    pub fn u128(&mut self, int_val: u128)
        ensures
            final(self)@ == old(self)@ + spec_u128_to_le_bytes(int_val),
    {
        let bytes = u128_to_le_bytes(int_val);
        self.bytes(bytes.as_slice());
    }

    /// Write out the bytes of a UTF-8 string slice (without a length prefix).
    pub fn str(&mut self, string: &str)
        ensures
            final(self)@ == old(self)@ + string.spec_bytes(),
    {
        self.bytes(string.as_bytes());
    }

    /// Write out raw bytes.
    pub fn bytes(&mut self, bytes: &[u8])
        ensures
            final(self)@ == old(self)@ + bytes@,
    {
        let mut i: usize = 0;
        while i < bytes.len()
            invariant
                i <= bytes@.len(),
                self@ == old(self)@ + bytes@.take(i as int),
            decreases bytes@.len() - i,
        {
            self.buf.push(bytes[i]);
            i = i + 1;
            assert(old(self)@ + bytes@.take(i as int) =~= self@);
        }
        assert(old(self)@ + bytes@.take(bytes@.len() as int) =~= old(self)@ + bytes@);
    }
}

} // verus!
