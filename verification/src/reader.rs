//! Read-only, bounds-checked cursor over a byte buffer.

use vstd::arithmetic::power2::{lemma2_to64, lemma_pow2_adds, pow2};
use vstd::bytes::{
    spec_u128_from_le_bytes, spec_u16_from_le_bytes, spec_u32_from_le_bytes,
    spec_u64_from_le_bytes, u128_from_le_bytes, u16_from_le_bytes, u32_from_le_bytes,
    u64_from_le_bytes,
};
use vstd::prelude::*;
use vstd::slice::slice_subrange;
use vstd::string::StringSliceAdditionalSpecFns;
use vstd::utf8::{decode_utf8, valid_utf8};

use crate::varint::{uleb32_dec, uleb32_from};

verus! {

/// A position into an immutable byte buffer.  Reads advance the position
/// monotonically; the underlying buffer is never mutated.
pub struct Reader<'a> {
    buf: &'a [u8],
    pos: usize,
}

/// Relies on `core::str::from_utf8`: it succeeds exactly on valid UTF-8
/// input, and then returns the string slice that those bytes spell.
#[verifier::external_body]
fn bytes_to_str<'a>(bytes: &'a [u8]) -> (r: Option<&'a str>)
    ensures
        r is Some <==> valid_utf8(bytes@),
        r is Some ==> r->0@ == decode_utf8(bytes@) && r->0.spec_bytes() == bytes@,
{
    core::str::from_utf8(bytes).ok()
}

impl<'a> Reader<'a> {
    /// The cursor never points past the end of its buffer.
    pub closed spec fn wf(&self) -> bool {
        self.pos <= self.buf@.len()
    }

    /// The bytes not yet consumed.
    pub closed spec fn rem(&self) -> Seq<u8> {
        self.buf@.skip(self.pos as int)
    }

    /// Create a new `Reader` on the provided `buffer`.
    pub fn new(buffer: &'a [u8]) -> (r: Self)
        ensures
            r.wf(),
            r.rem() == buffer@,
    {
        let r = Reader { buf: buffer, pos: 0 };
        proof {
            assert(r.rem() =~= buffer@);
        }
        r
    }

    /// Consume the next `size` bytes, or leave the cursor alone and return
    /// `None` if fewer remain.
    fn subslice(&mut self, size: usize) -> (r: Option<&'a [u8]>)
        requires
            old(self).wf(),
        ensures
            final(self).wf(),
            size <= old(self).rem().len() ==> {
                &&& r is Some
                &&& r->0@ == old(self).rem().take(size as int)
                &&& final(self).rem() == old(self).rem().skip(size as int)
            },
            size > old(self).rem().len() ==> r is None && *final(self) == *old(self),
    {
        if size > self.buf.len() - self.pos {
            return None;
        }
        let s = slice_subrange(self.buf, self.pos, self.pos + size);
        proof {
            assert(s@ =~= self.rem().take(size as int));
            assert(self.buf@.skip((self.pos + size) as int) =~= self.rem().skip(size as int));
        }
        self.pos = self.pos + size;
        Some(s)
    }

    /// Parse the next byte.
    pub fn u8(&mut self) -> (r: Option<u8>)
        requires
            old(self).wf(),
        ensures
            final(self).wf(),
            old(self).rem().len() >= 1 ==> {
                &&& r == Some(old(self).rem()[0])
                &&& final(self).rem() == old(self).rem().skip(1)
            },
            old(self).rem().len() == 0 ==> r is None && *final(self) == *old(self),
    {
        match self.subslice(1) {
            Some(s) => Some(s[0]),
            None => None,
        }
    }

    /// Parse the next little-endian `u16`.
    pub fn u16(&mut self) -> (r: Option<u16>)
        requires
            old(self).wf(),
        ensures
            final(self).wf(),
            old(self).rem().len() >= 2 ==> {
                &&& r == Some(spec_u16_from_le_bytes(old(self).rem().take(2)))
                &&& final(self).rem() == old(self).rem().skip(2)
            },
            old(self).rem().len() < 2 ==> r is None && *final(self) == *old(self),
    {
        match self.subslice(2) {
            Some(s) => Some(u16_from_le_bytes(s)),
            None => None,
        }
    }

    /// Parse the next little-endian `u32`.
    pub fn u32(&mut self) -> (r: Option<u32>)
        requires
            old(self).wf(),
        ensures
            final(self).wf(),
            old(self).rem().len() >= 4 ==> {
                &&& r == Some(spec_u32_from_le_bytes(old(self).rem().take(4)))
                &&& final(self).rem() == old(self).rem().skip(4)
            },
            old(self).rem().len() < 4 ==> r is None && *final(self) == *old(self),
    {
        match self.subslice(4) {
            Some(s) => Some(u32_from_le_bytes(s)),
            None => None,
        }
    }

    /// Parse the next little-endian `u64`.
    pub fn u64(&mut self) -> (r: Option<u64>)
        requires
            old(self).wf(),
        ensures
            final(self).wf(),
            old(self).rem().len() >= 8 ==> {
                &&& r == Some(spec_u64_from_le_bytes(old(self).rem().take(8)))
                &&& final(self).rem() == old(self).rem().skip(8)
            },
            old(self).rem().len() < 8 ==> r is None && *final(self) == *old(self),
    {
        match self.subslice(8) {
            Some(s) => Some(u64_from_le_bytes(s)),
            None => None,
        }
    }

    /// Parse the next little-endian `u128`.
    pub fn u128(&mut self) -> (r: Option<u128>)
        requires
            old(self).wf(),
        ensures
            final(self).wf(),
            old(self).rem().len() >= 16 ==> {
                &&& r == Some(spec_u128_from_le_bytes(old(self).rem().take(16)))
                &&& final(self).rem() == old(self).rem().skip(16)
            },
            old(self).rem().len() < 16 ==> r is None && *final(self) == *old(self),
    {
        match self.subslice(16) {
            Some(s) => Some(u128_from_le_bytes(s)),
            None => None,
        }
    }

    /// Read a number of raw bytes.
    pub fn bytes(&mut self, len: usize) -> (r: Option<&'a [u8]>)
        requires
            old(self).wf(),
        ensures
            final(self).wf(),
            len <= old(self).rem().len() ==> {
                &&& r is Some
                &&& r->0@ == old(self).rem().take(len as int)
                &&& final(self).rem() == old(self).rem().skip(len as int)
            },
            len > old(self).rem().len() ==> r is None && *final(self) == *old(self),
    {
        self.subslice(len)
    }

    /// Parse a UTF-8 string slice of the specified byte length.
    pub fn str(&mut self, len: usize) -> (r: Option<&'a str>)
        requires
            old(self).wf(),
        ensures
            final(self).wf(),
            r is Some <==> len <= old(self).rem().len() && valid_utf8(
                old(self).rem().take(len as int),
            ),
            r is Some ==> {
                &&& r->0@ == decode_utf8(old(self).rem().take(len as int))
                &&& r->0.spec_bytes() == old(self).rem().take(len as int)
                &&& final(self).rem() == old(self).rem().skip(len as int)
            },
    {
        match self.bytes(len) {
            Some(b) => bytes_to_str(b),
            None => None,
        }
    }

    /// Return a `Reader` bounded to exactly the next `len` bytes, advancing
    /// this one past them.
    pub fn reader(&mut self, len: usize) -> (r: Option<Reader<'a>>)
        requires
            old(self).wf(),
        ensures
            final(self).wf(),
            len <= old(self).rem().len() ==> {
                &&& r is Some
                &&& r->0.wf()
                &&& r->0.rem() == old(self).rem().take(len as int)
                &&& final(self).rem() == old(self).rem().skip(len as int)
            },
            len > old(self).rem().len() ==> r is None && *final(self) == *old(self),
    {
        match self.subslice(len) {
            Some(s) => Some(Reader::new(s)),
            None => None,
        }
    }

    /// Return `Some(())` exactly when the end of the buffer is reached.
    pub fn end(&self) -> (r: Option<()>)
        requires
            self.wf(),
        ensures
            r is Some <==> self.rem().len() == 0,
    {
        if self.buf.len() - self.pos == 0 {
            Some(())
        } else {
            None
        }
    }

    /// Parse the next variable-length 32-bit unsigned integer, consuming its
    /// bytes on success.
    pub fn integer(&mut self) -> (r: Option<u32>)
        requires
            old(self).wf(),
        ensures
            final(self).wf(),
            match uleb32_dec(old(self).rem()) {
                Some(pair) => {
                    &&& r == Some(pair.0)
                    &&& final(self).rem() == old(self).rem().skip(pair.1)
                    &&& 0 < pair.1 <= old(self).rem().len()
                },
                None => r is None,
            },
    {
        let ghost rem0 = self.rem();
        let mut acc: u64 = 0;
        let mut pow: u64 = 1;
        let mut shift: u8 = 0;
        let mut count: usize = 0;
        proof {
            lemma2_to64();
        }
        loop
            invariant
                self.wf(),
                count <= 4,
                shift == 7 * count,
                pow == pow2(shift as nat),
                pow <= 0x1000_0000,
                acc < pow,
                rem0 == old(self).rem(),
                count <= rem0.len(),
                self.rem() == rem0.skip(count as int),
                uleb32_from(rem0, 0, 0, 0) == uleb32_from(
                    rem0,
                    count as int,
                    shift as nat,
                    acc as nat,
                ),
            decreases 5 - count,
        {
            proof {
                lemma2_to64();
            }
            let b = match self.u8() {
                Some(b) => b,
                None => {
                    return None;
                },
            };
            assert(b == rem0[count as int]);
            let digit: u64 = (b % 0x80) as u64;
            assert(digit * pow <= 0x7f * 0x1000_0000) by (nonlinear_arith)
                requires
                    digit <= 0x7f,
                    pow <= 0x1000_0000,
            ;
            let acc2: u64 = acc + digit * pow;
            assert(acc2 as nat == acc as nat + pow2(shift as nat) * ((b % 0x80) as nat)) by {
                lemma2_to64();
            }
            if b < 0x80 {
                if acc2 < 0x1_0000_0000 {
                    proof {
                        assert(final(self).rem() =~= rem0.skip(count + 1));
                    }
                    return Some(acc2 as u32);
                } else {
                    return None;
                }
            } else if count < 4 {
                proof {
                    lemma_pow2_adds(shift as nat, 7);
                    lemma2_to64();
                    assert(acc2 < pow * 0x80) by (nonlinear_arith)
                        requires
                            acc < pow,
                            digit <= 0x7f,
                            acc2 == acc + digit * pow,
                    ;
                }
                acc = acc2;
                pow = pow * 0x80;
                count = count + 1;
                shift = shift + 7;
                proof {
                    assert(self.rem() =~= rem0.skip(count as int));
                }
            } else {
                return None;
            }
        }
    }
}

} // verus!
