//! Base-128 variable-length unsigned integer encoding.
//!
//! The canonical encoding emits the value's low seven bits per byte, least
//! significant group first, setting the high bit of every byte except the
//! last.  Decoding targets a 32-bit width: at most five bytes may be
//! consumed, and on the fifth byte any data bit beyond the 32-bit target
//! invalidates the encoding instead of silently truncating.

use vstd::arithmetic::power2::{lemma2_to64, lemma_pow2_adds, pow2};
use vstd::prelude::*;

verus! {

/// Canonical base-128 encoding of `v`, least significant digit group first.
pub open spec fn uleb_bytes(v: nat) -> Seq<u8>
    decreases v,
{
    if v < 0x80 {
        seq![v as u8]
    } else {
        seq![(v % 0x80 + 0x80) as u8] + uleb_bytes(v / 0x80)
    }
}

/// One step of decoding a 32-bit variable-length integer: `i` bytes into
/// `bytes`, with `acc` already accumulated below bit position `shift`.
/// Returns the decoded value and the position just past its last byte.
pub open spec fn uleb32_from(bytes: Seq<u8>, i: int, shift: nat, acc: nat) -> Option<(u32, int)>
    decreases 32 - shift,
{
    if i < 0 || i >= bytes.len() {
        None
    } else {
        let acc2 = acc + pow2(shift) * ((bytes[i] % 0x80) as nat);
        if bytes[i] < 0x80 {
            if acc2 < 0x1_0000_0000 {
                Some((acc2 as u32, i + 1))
            } else {
                None
            }
        } else if shift + 7 < 32 {
            uleb32_from(bytes, i + 1, (shift + 7) as nat, acc2)
        } else {
            None
        }
    }
}

/// Decode a 32-bit variable-length integer from the front of `bytes`.
pub open spec fn uleb32_dec(bytes: Seq<u8>) -> Option<(u32, int)> {
    uleb32_from(bytes, 0, 0, 0)
}

/// The canonical encoding of a value below `pow2(7 * k)` takes at most `k`
/// bytes; in particular any `u32` encodes in at most five bytes.
pub proof fn lemma_uleb_bytes_len(v: nat, k: nat)
    requires
        1 <= k,
        v < pow2(7 * k),
    ensures
        1 <= uleb_bytes(v).len() <= k,
    decreases k,
{
    lemma2_to64();
    if v < 0x80 {
    } else {
        if k == 1 {
            assert(pow2(7) == 0x80);
            assert(false);
        }
        lemma_pow2_adds(7, 7 * (k - 1) as nat);
        assert(pow2(7 * k) == 0x80 * pow2(7 * (k - 1) as nat));
        lemma_uleb_bytes_len(v / 0x80, (k - 1) as nat);
    }
}

/// Decoding a buffer that carries the canonical encoding of `v` at position
/// `i` yields `acc + pow2(shift) * v` exactly when that total fits in 32
/// bits, and fails otherwise; on success the position lands just past the
/// encoding.
pub proof fn lemma_uleb32_dec_canonical(bytes: Seq<u8>, i: int, shift: nat, acc: nat, v: nat)
    requires
        shift % 7 == 0,
        shift <= 28,
        acc < pow2(shift),
        0 <= i,
        i + uleb_bytes(v).len() <= bytes.len(),
        bytes.subrange(i, i + uleb_bytes(v).len() as int) == uleb_bytes(v),
    ensures
        uleb32_from(bytes, i, shift, acc) == if acc + pow2(shift) * v < 0x1_0000_0000 {
            Some(((acc + pow2(shift) * v) as u32, i + uleb_bytes(v).len() as int))
        } else {
            None::<(u32, int)>
        },
    decreases v,
{
    lemma2_to64();
    let enc = uleb_bytes(v);
    assert(bytes[i] == enc[0]) by {
        assert(bytes.subrange(i, i + enc.len() as int)[0] == bytes[i]);
    }
    if v < 0x80 {
        assert(enc[0] == v as u8);
        assert(acc + pow2(shift) * v < pow2(shift) + pow2(shift) * 0x7f) by {
            lemma_mul_le(pow2(shift), v, 0x7f);
        }
        assert(pow2(shift) + pow2(shift) * 0x7f == pow2(shift) * 0x80) by {
            lemma_mul_dist(pow2(shift), 0x7f);
        }
        lemma_pow2_adds(shift, 7);
        assert(pow2(shift) * 0x80 == pow2((shift + 7) as nat));
        if shift <= 21 {
            assert(pow2((shift + 7) as nat) <= pow2(28)) by {
                lemma_pow2_le(shift + 7 as nat, 28);
            }
            assert(acc + pow2(shift) * v < 0x1_0000_0000);
        }
    } else {
        assert(enc == seq![(v % 0x80 + 0x80) as u8] + uleb_bytes(v / 0x80));
        assert(enc[0] == (v % 0x80 + 0x80) as u8);
        assert(bytes[i] >= 0x80);
        assert((bytes[i] % 0x80) as nat == v % 0x80);
        let acc2 = acc + pow2(shift) * (v % 0x80);
        if shift + 7 < 32 {
            let tail = uleb_bytes(v / 0x80);
            assert(bytes.subrange(i + 1, i + 1 + tail.len() as int) == tail) by {
                assert forall|j: int| 0 <= j < tail.len() implies bytes[i + 1 + j] == tail[j] by {
                    assert(bytes.subrange(i, i + enc.len() as int)[j + 1] == bytes[i + 1 + j]);
                    assert(enc[j + 1] == tail[j]);
                }
                assert(bytes.subrange(i + 1, i + 1 + tail.len() as int) =~= tail);
            }
            assert(acc2 < pow2((shift + 7) as nat)) by {
                lemma_mul_le(pow2(shift), (v % 0x80) as nat, 0x7f);
                lemma_mul_dist(pow2(shift), 0x7f);
                lemma_pow2_adds(shift, 7);
            }
            lemma_uleb32_dec_canonical(bytes, i + 1, (shift + 7) as nat, acc2, v / 0x80);
            assert(acc2 + pow2((shift + 7) as nat) * (v / 0x80) == acc + pow2(shift) * v) by {
                lemma_pow2_adds(shift, 7);
                lemma_mul_split(pow2(shift), v);
            }
        } else {
            assert(shift == 28);
            assert(acc + pow2(shift) * v >= pow2(28) * 0x80) by {
                lemma_mul_le(pow2(28), 0x80, v);
            }
            assert(pow2(28) * 0x80 == pow2(35)) by {
                lemma_pow2_adds(28, 7);
            }
            assert(pow2(35) >= 0x1_0000_0000) by {
                lemma_pow2_le(32, 35);
                assert(pow2(32) == 0x1_0000_0000);
            }
        }
    }
}

/// A successful decode lands strictly past its starting position and
/// within the buffer.
pub proof fn lemma_uleb32_from_pos(bytes: Seq<u8>, i: int, shift: nat, acc: nat)
    requires
        0 <= i,
    ensures
        uleb32_from(bytes, i, shift, acc) matches Some(p) ==> i < p.1 <= bytes.len(),
    decreases 32 - shift,
{
    if i < bytes.len() {
        if bytes[i] >= 0x80 && shift + 7 < 32 {
            lemma_uleb32_from_pos(
                bytes,
                i + 1,
                (shift + 7) as nat,
                acc + pow2(shift) * ((bytes[i] % 0x80) as nat),
            );
        }
    }
}

/// A value that fits in 32 bits decodes back from the front of any buffer
/// that starts with its canonical encoding.
pub proof fn lemma_uleb32_dec_prefix(v: nat, rest: Seq<u8>)
    requires
        v < 0x1_0000_0000,
    ensures
        uleb32_dec(uleb_bytes(v) + rest) == Some((v as u32, uleb_bytes(v).len() as int)),
{
    let b = uleb_bytes(v) + rest;
    lemma2_to64();
    assert(b.subrange(0, uleb_bytes(v).len() as int) =~= uleb_bytes(v));
    lemma_uleb32_dec_canonical(b, 0, 0, 0, v);
    assert(pow2(0) * v == v);
}

/// A value too large for 32 bits does not decode from the front of any
/// buffer that starts with its canonical encoding.
pub proof fn lemma_uleb32_dec_prefix_large(v: nat, rest: Seq<u8>)
    requires
        v >= 0x1_0000_0000,
    ensures
        uleb32_dec(uleb_bytes(v) + rest) is None,
{
    let b = uleb_bytes(v) + rest;
    lemma2_to64();
    assert(b.subrange(0, uleb_bytes(v).len() as int) =~= uleb_bytes(v));
    lemma_uleb32_dec_canonical(b, 0, 0, 0, v);
    assert(pow2(0) * v == v);
}

/// Varint agreement, first half: every 32-bit value encodes in at most
/// five bytes, and decoding the encoding returns the original value,
/// consuming exactly the encoding.
pub proof fn lemma_varint_round_trip(v: u32)
    ensures
        1 <= uleb_bytes(v as nat).len() <= 5,
        uleb32_dec(uleb_bytes(v as nat)) == Some((v, uleb_bytes(v as nat).len() as int)),
{
    lemma2_to64();
    assert(v < pow2(35)) by {
        lemma_pow2_le(32, 35);
    }
    lemma_uleb_bytes_len(v as nat, 5);
    assert(uleb_bytes(v as nat) + Seq::<u8>::empty() =~= uleb_bytes(v as nat));
    lemma_uleb32_dec_prefix(v as nat, Seq::empty());
}

/// Varint agreement, second half: a value too large for 32 bits encodes to
/// bytes that a 32-bit-targeted decode rejects.
pub proof fn lemma_varint_rejects_large(v: u64)
    requires
        v >= 0x1_0000_0000,
    ensures
        uleb32_dec(uleb_bytes(v as nat)) is None,
{
    assert(uleb_bytes(v as nat) + Seq::<u8>::empty() =~= uleb_bytes(v as nat));
    lemma_uleb32_dec_prefix_large(v as nat, Seq::empty());
}

/// Decoding reads only the bytes it consumes: on a truncated copy of the
/// buffer the decode returns the same value when its bytes survived the
/// cut, and fails when they did not.
pub proof fn lemma_uleb32_from_prefix(b: Seq<u8>, cut: int, i: int, shift: nat, acc: nat)
    requires
        0 <= i,
        0 <= cut <= b.len(),
    ensures
        uleb32_from(b, i, shift, acc) matches Some(p) ==> if p.1 <= cut {
            uleb32_from(b.take(cut), i, shift, acc) == Some(p)
        } else {
            uleb32_from(b.take(cut), i, shift, acc) is None
        },
    decreases 32 - shift,
{
    if i < b.len() && uleb32_from(b, i, shift, acc) is Some {
        lemma_uleb32_from_pos(b, i, shift, acc);
        if i < cut {
            assert(b.take(cut)[i] == b[i]);
            if b[i] >= 0x80 && shift + 7 < 32 {
                lemma_uleb32_from_prefix(
                    b,
                    cut,
                    i + 1,
                    (shift + 7) as nat,
                    acc + pow2(shift) * ((b[i] % 0x80) as nat),
                );
            }
        }
    }
}

/// Decoding from a buffer that ends in the middle of a canonical encoding
/// fails: every byte before the last carries the continuation bit, so the
/// decoder runs off the end or out of width before producing a value.
pub proof fn lemma_uleb32_dec_truncated(bytes: Seq<u8>, i: int, shift: nat, acc: nat, v: nat)
    requires
        shift % 7 == 0,
        shift <= 28,
        acc < pow2(shift),
        0 <= i <= bytes.len(),
        bytes.len() - i < uleb_bytes(v).len(),
        bytes.skip(i) == uleb_bytes(v).take(bytes.len() - i),
    ensures
        uleb32_from(bytes, i, shift, acc) is None,
    decreases v,
{
    lemma2_to64();
    let enc = uleb_bytes(v);
    if i == bytes.len() {
    } else {
        assert(bytes[i] == enc[0]) by {
            assert(bytes.skip(i)[0] == bytes[i]);
            assert(enc.take(bytes.len() - i)[0] == enc[0]);
        }
        if v < 0x80 {
            assert(enc.len() == 1);
            assert(false);
        }
        assert(enc[0] == (v % 0x80 + 0x80) as u8);
        assert(bytes[i] >= 0x80);
        if shift + 7 < 32 {
            let acc2 = acc + pow2(shift) * ((bytes[i] % 0x80) as nat);
            let tail = uleb_bytes(v / 0x80);
            assert(acc2 < pow2((shift + 7) as nat)) by {
                lemma_mul_le(pow2(shift), (bytes[i] % 0x80) as nat, 0x7f);
                lemma_mul_dist(pow2(shift), 0x7f);
                lemma_pow2_adds(shift, 7);
            }
            assert(bytes.skip(i + 1) == tail.take(bytes.len() - i - 1)) by {
                assert forall|j: int| 0 <= j < bytes.len() - i - 1 implies bytes[i + 1 + j]
                    == tail[j] by {
                    assert(bytes.skip(i)[j + 1] == bytes[i + 1 + j]);
                    assert(enc.take(bytes.len() - i)[j + 1] == enc[j + 1]);
                    assert(enc[j + 1] == tail[j]);
                }
                assert(bytes.skip(i + 1) =~= tail.take(bytes.len() - i - 1));
            }
            lemma_uleb32_dec_truncated(bytes, i + 1, (shift + 7) as nat, acc2, v / 0x80);
        }
    }
}

/// `x * b <= x * c` when `b <= c`.
proof fn lemma_mul_le(x: nat, b: nat, c: nat)
    requires
        b <= c,
    ensures
        x * b <= x * c,
{
    assert(x * b <= x * c) by (nonlinear_arith)
        requires b <= c;
}

/// Distribute: `x + x * c == x * (c + 1)`.
proof fn lemma_mul_dist(x: nat, c: nat)
    ensures
        x + x * c == x * (c + 1),
{
    assert(x + x * c == x * (c + 1)) by (nonlinear_arith);
}

/// Split a value into its low seven bits and the rest:
/// `x * (v % 0x80) + (x * 0x80) * (v / 0x80) == x * v`.
proof fn lemma_mul_split(x: nat, v: nat)
    ensures
        x * (v % 0x80) + (x * 0x80) * (v / 0x80) == x * v,
{
    assert(x * (v % 0x80) + (x * 0x80) * (v / 0x80) == x * v) by (nonlinear_arith);
}

/// `pow2` is monotone.
proof fn lemma_pow2_le(e1: nat, e2: nat)
    requires
        e1 <= e2,
    ensures
        pow2(e1) <= pow2(e2),
{
    if e1 < e2 {
        vstd::arithmetic::power2::lemma_pow2_strictly_increases(e1, e2);
    }
}

} // verus!
