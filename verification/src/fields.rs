//! Field-level codec shared by every section kind: length-prefixed UTF-8
//! names, name vectors, ordered name maps, two-level name maps, and the
//! framed subsection unit `(discriminant, length, payload)`.

use vstd::prelude::*;
use vstd::string::StringSliceAdditionalSpecFns;
use vstd::utf8::{decode_utf8, encode_utf8, valid_utf8};

use crate::error::Error;
use crate::maps::{sorted_insert, strictly_sorted, IndirectNameMap, NameMap};
use crate::reader::Reader;
use crate::varint::{uleb32_dec, uleb_bytes};
use crate::writer::Writer;

verus! {

/// View of a name map: key-sorted `(index, name)` pairs.
pub type NameMapV = Seq<(u32, Seq<char>)>;

/// View of an indirect name map: key-sorted `(index, name map)` pairs.
pub type IndirectV = Seq<(u32, Seq<(u32, Seq<char>)>)>;

/// A count or length that the wire format can carry in a 32-bit
/// variable-length integer.
pub open spec fn fits_u32(n: nat) -> bool {
    n < 0x1_0000_0000
}

/// Shift the consumed-bytes count of a decode outcome by `off`.
pub open spec fn add_off<V>(r: Result<(V, int), Error>, off: int) -> Result<(V, int), Error> {
    match r {
        Ok(p) => Ok((p.0, p.1 + off)),
        Err(e) => Err(e),
    }
}

// ---------------------------------------------------------------------------
// Canonical encodings
// ---------------------------------------------------------------------------
/// A name's UTF-8 bytes fit behind a 32-bit length prefix.
pub open spec fn name_fits(s: Seq<char>) -> bool {
    fits_u32(encode_utf8(s).len())
}

/// Canonical encoding of a name: byte length, then UTF-8 bytes.
pub open spec fn enc_name(s: Seq<char>) -> Seq<u8> {
    uleb_bytes(encode_utf8(s).len()) + encode_utf8(s)
}

/// Every name of the map fits and the entry count fits.
pub open spec fn name_map_fits(m: NameMapV) -> bool {
    &&& fits_u32(m.len() as nat)
    &&& forall|i: int| 0 <= i < m.len() ==> name_fits(#[trigger] m[i].1)
}

/// Encoding of a name map's entries, in key order.
pub open spec fn enc_name_map_entries(m: NameMapV) -> Seq<u8>
    decreases m.len(),
{
    if m.len() == 0 {
        Seq::empty()
    } else {
        uleb_bytes(m[0].0 as nat) + enc_name(m[0].1) + enc_name_map_entries(m.skip(1))
    }
}

/// Canonical encoding of a name map: entry count, then entries.
pub open spec fn enc_name_map(m: NameMapV) -> Seq<u8> {
    uleb_bytes(m.len() as nat) + enc_name_map_entries(m)
}

/// Every nested map of the indirect map fits and the entry count fits.
pub open spec fn indirect_fits(m: IndirectV) -> bool {
    &&& fits_u32(m.len() as nat)
    &&& forall|i: int| 0 <= i < m.len() ==> name_map_fits(#[trigger] m[i].1)
}

/// Encoding of an indirect name map's entries, in key order.
pub open spec fn enc_indirect_entries(m: IndirectV) -> Seq<u8>
    decreases m.len(),
{
    if m.len() == 0 {
        Seq::empty()
    } else {
        uleb_bytes(m[0].0 as nat) + enc_name_map(m[0].1) + enc_indirect_entries(m.skip(1))
    }
}

/// Canonical encoding of an indirect name map: entry count, then entries.
pub open spec fn enc_indirect_map(m: IndirectV) -> Seq<u8> {
    uleb_bytes(m.len() as nat) + enc_indirect_entries(m)
}

/// Every name of the vector fits and the count fits.
pub open spec fn name_vec_fits(v: Seq<Seq<char>>) -> bool {
    &&& fits_u32(v.len() as nat)
    &&& forall|i: int| 0 <= i < v.len() ==> name_fits(#[trigger] v[i])
}

/// Encoding of a vector's names, in order.
pub open spec fn enc_name_vec_entries(v: Seq<Seq<char>>) -> Seq<u8>
    decreases v.len(),
{
    if v.len() == 0 {
        Seq::empty()
    } else {
        enc_name(v[0]) + enc_name_vec_entries(v.skip(1))
    }
}

/// Canonical encoding of a name vector: count, then names.
pub open spec fn enc_name_vec(v: Seq<Seq<char>>) -> Seq<u8> {
    uleb_bytes(v.len() as nat) + enc_name_vec_entries(v)
}

/// Canonical encoding of one framed subsection unit.
pub open spec fn enc_frame(id: u8, payload: Seq<u8>) -> Seq<u8> {
    seq![id] + uleb_bytes(payload.len() as nat) + payload
}

// ---------------------------------------------------------------------------
// Decoding of arbitrary input
// ---------------------------------------------------------------------------
/// Decode a length-prefixed UTF-8 name from the front of `b`.
pub open spec fn dec_name(b: Seq<u8>) -> Result<(Seq<char>, int), Error> {
    match uleb32_dec(b) {
        None => Err(Error::MalformedInteger),
        Some((len, i)) => if i + len <= b.len() {
            if valid_utf8(b.subrange(i, i + len)) {
                Ok((decode_utf8(b.subrange(i, i + len)), i + len))
            } else {
                Err(Error::MalformedString)
            }
        } else {
            Err(Error::MalformedString)
        },
    }
}

/// Decode `count` name-map entries from the front of `b`, inserting each
/// into `acc` (later duplicate keys overwrite earlier ones).
pub open spec fn dec_name_map_entries(b: Seq<u8>, count: nat, acc: NameMapV) -> Result<
    (NameMapV, int),
    Error,
>
    decreases count,
{
    if count == 0 {
        Ok((acc, 0))
    } else {
        match uleb32_dec(b) {
            None => Err(Error::MalformedInteger),
            Some((key, i)) => match dec_name(b.skip(i)) {
                Err(e) => Err(e),
                Ok((s, j)) => add_off(
                    dec_name_map_entries(b.skip(i + j), (count - 1) as nat, sorted_insert(acc, key, s)),
                    i + j,
                ),
            },
        }
    }
}

/// Decode a name map (count, then entries) from the front of `b`.
pub open spec fn dec_name_map(b: Seq<u8>) -> Result<(NameMapV, int), Error> {
    match uleb32_dec(b) {
        None => Err(Error::MalformedInteger),
        Some((count, i)) => add_off(dec_name_map_entries(b.skip(i), count as nat, Seq::empty()), i),
    }
}

/// Decode `count` indirect-map entries from the front of `b`.
pub open spec fn dec_indirect_entries(b: Seq<u8>, count: nat, acc: IndirectV) -> Result<
    (IndirectV, int),
    Error,
>
    decreases count,
{
    if count == 0 {
        Ok((acc, 0))
    } else {
        match uleb32_dec(b) {
            None => Err(Error::MalformedInteger),
            Some((key, i)) => match dec_name_map(b.skip(i)) {
                Err(e) => Err(e),
                Ok((m, j)) => add_off(
                    dec_indirect_entries(b.skip(i + j), (count - 1) as nat, sorted_insert(acc, key, m)),
                    i + j,
                ),
            },
        }
    }
}

/// Decode an indirect name map from the front of `b`.
pub open spec fn dec_indirect_map(b: Seq<u8>) -> Result<(IndirectV, int), Error> {
    match uleb32_dec(b) {
        None => Err(Error::MalformedInteger),
        Some((count, i)) => add_off(dec_indirect_entries(b.skip(i), count as nat, Seq::empty()), i),
    }
}

/// Decode `count` names from the front of `b`, in order.
pub open spec fn dec_name_vec_entries(b: Seq<u8>, count: nat, acc: Seq<Seq<char>>) -> Result<
    (Seq<Seq<char>>, int),
    Error,
>
    decreases count,
{
    if count == 0 {
        Ok((acc, 0))
    } else {
        match dec_name(b) {
            Err(e) => Err(e),
            Ok((s, i)) => add_off(
                dec_name_vec_entries(b.skip(i), (count - 1) as nat, acc.push(s)),
                i,
            ),
        }
    }
}

/// Decode a name vector (count, then names) from the front of `b`.
pub open spec fn dec_name_vec(b: Seq<u8>) -> Result<(Seq<Seq<char>>, int), Error> {
    match uleb32_dec(b) {
        None => Err(Error::MalformedInteger),
        Some((count, i)) => add_off(dec_name_vec_entries(b.skip(i), count as nat, Seq::empty()), i),
    }
}

/// Decode one framed subsection unit from the front of `b`: a discriminant
/// byte, a payload length, and that many payload bytes.
pub open spec fn dec_frame(b: Seq<u8>) -> Result<((u8, Seq<u8>), int), Error> {
    if b.len() == 0 {
        Err(Error::MalformedInteger)
    } else {
        match uleb32_dec(b.skip(1)) {
            None => Err(Error::MalformedInteger),
            Some((len, i)) => if 1 + i + len <= b.len() {
                Ok(((b[0], b.subrange(1 + i, 1 + i + len)), 1 + i + len))
            } else {
                Err(Error::MalformedString)
            },
        }
    }
}

// ---------------------------------------------------------------------------
// Concatenation lemmas for the encoders
// ---------------------------------------------------------------------------
/// Name-map entries encode piecewise.
pub proof fn lemma_enc_name_map_entries_concat(a: NameMapV, b: NameMapV)
    ensures
        enc_name_map_entries(a + b) == enc_name_map_entries(a) + enc_name_map_entries(b),
    decreases a.len(),
{
    if a.len() == 0 {
        assert(a + b =~= b);
        assert(enc_name_map_entries(a) + enc_name_map_entries(b) =~= enc_name_map_entries(b));
    } else {
        assert((a + b).skip(1) =~= a.skip(1) + b);
        lemma_enc_name_map_entries_concat(a.skip(1), b);
        assert((a + b)[0] == a[0]);
        assert(enc_name_map_entries(a + b) =~= enc_name_map_entries(a) + enc_name_map_entries(b));
    }
}

/// Indirect-map entries encode piecewise.
pub proof fn lemma_enc_indirect_entries_concat(a: IndirectV, b: IndirectV)
    ensures
        enc_indirect_entries(a + b) == enc_indirect_entries(a) + enc_indirect_entries(b),
    decreases a.len(),
{
    if a.len() == 0 {
        assert(a + b =~= b);
        assert(enc_indirect_entries(a) + enc_indirect_entries(b) =~= enc_indirect_entries(b));
    } else {
        assert((a + b).skip(1) =~= a.skip(1) + b);
        lemma_enc_indirect_entries_concat(a.skip(1), b);
        assert((a + b)[0] == a[0]);
        assert(enc_indirect_entries(a + b) =~= enc_indirect_entries(a) + enc_indirect_entries(b));
    }
}

/// Name-vector entries encode piecewise.
pub proof fn lemma_enc_name_vec_entries_concat(a: Seq<Seq<char>>, b: Seq<Seq<char>>)
    ensures
        enc_name_vec_entries(a + b) == enc_name_vec_entries(a) + enc_name_vec_entries(b),
    decreases a.len(),
{
    if a.len() == 0 {
        assert(a + b =~= b);
        assert(enc_name_vec_entries(a) + enc_name_vec_entries(b) =~= enc_name_vec_entries(b));
    } else {
        assert((a + b).skip(1) =~= a.skip(1) + b);
        lemma_enc_name_vec_entries_concat(a.skip(1), b);
        assert((a + b)[0] == a[0]);
        assert(enc_name_vec_entries(a + b) =~= enc_name_vec_entries(a) + enc_name_vec_entries(b));
    }
}

/// A single name-map entry encodes to its key then its name.
pub proof fn lemma_enc_name_map_entries_one(e: (u32, Seq<char>))
    ensures
        enc_name_map_entries(seq![e]) == uleb_bytes(e.0 as nat) + enc_name(e.1),
{
    let s = seq![e];
    assert(s.len() == 1);
    assert(s[0] == e);
    assert(s.skip(1) =~= Seq::<(u32, Seq<char>)>::empty());
    assert(enc_name_map_entries(s.skip(1)) == Seq::<u8>::empty());
    assert(enc_name_map_entries(s) == uleb_bytes(e.0 as nat) + enc_name(e.1)
        + enc_name_map_entries(s.skip(1)));
    assert(uleb_bytes(e.0 as nat) + enc_name(e.1) + Seq::<u8>::empty() =~= uleb_bytes(
        e.0 as nat,
    ) + enc_name(e.1));
}

/// A single indirect-map entry encodes to its key then its nested map.
pub proof fn lemma_enc_indirect_entries_one(e: (u32, Seq<(u32, Seq<char>)>))
    ensures
        enc_indirect_entries(seq![e]) == uleb_bytes(e.0 as nat) + enc_name_map(e.1),
{
    let s = seq![e];
    assert(s.len() == 1);
    assert(s[0] == e);
    assert(s.skip(1) =~= Seq::<(u32, Seq<(u32, Seq<char>)>)>::empty());
    assert(enc_indirect_entries(s.skip(1)) == Seq::<u8>::empty());
    assert(enc_indirect_entries(s) == uleb_bytes(e.0 as nat) + enc_name_map(e.1)
        + enc_indirect_entries(s.skip(1)));
    assert(uleb_bytes(e.0 as nat) + enc_name_map(e.1) + Seq::<u8>::empty() =~= uleb_bytes(
        e.0 as nat,
    ) + enc_name_map(e.1));
}

/// A single name-vector entry encodes to that name alone.
pub proof fn lemma_enc_name_vec_entries_one(e: Seq<char>)
    ensures
        enc_name_vec_entries(seq![e]) == enc_name(e),
{
    let s = seq![e];
    assert(s.len() == 1);
    assert(s[0] == e);
    assert(s.skip(1) =~= Seq::<Seq<char>>::empty());
    assert(enc_name_vec_entries(s.skip(1)) == Seq::<u8>::empty());
    assert(enc_name_vec_entries(s) == enc_name(e) + enc_name_vec_entries(s.skip(1)));
    assert(enc_name(e) + Seq::<u8>::empty() =~= enc_name(e));
}

// ---------------------------------------------------------------------------
// Writers
// ---------------------------------------------------------------------------
impl Writer {
    /// Encode a 32-bit unsigned integer in variable-length form.
    pub fn integer(&mut self, int_val: u32)
        ensures
            final(self)@ == old(self)@ + uleb_bytes(int_val as nat),
    {
        self.uleb128(int_val as u128);
    }

    /// Encode a name: byte length prefix, then UTF-8 bytes.
    pub fn name(&mut self, name: &str)
        requires
            name_fits(name@),
        ensures
            final(self)@ == old(self)@ + enc_name(name@),
    {
        let len = name.len();
        self.integer(len as u32);
        self.str(name);
        proof {
            assert(self@ =~= old(self)@ + enc_name(name@));
        }
    }

    /// Encode a name map: entry count, then `(index, name)` pairs in key
    /// order.
    pub fn name_map(&mut self, map: &NameMap)
        requires
            map.wf(),
            name_map_fits(map@),
        ensures
            final(self)@ == old(self)@ + enc_name_map(map@),
    {
        let count = map.len();
        self.integer(count as u32);
        let mut i: usize = 0;
        while i < count
            invariant
                count == map@.len(),
                map.wf(),
                name_map_fits(map@),
                i <= count,
                self@ == old(self)@ + uleb_bytes(count as nat) + enc_name_map_entries(
                    map@.take(i as int),
                ),
            decreases count - i,
        {
            let entry = map.get(i);
            let ghost pre = self@;
            self.integer(entry.0);
            self.name(entry.1.as_str());
            proof {
                assert(map@.take(i + 1) =~= map@.take(i as int) + seq![map@[i as int]]);
                lemma_enc_name_map_entries_concat(map@.take(i as int), seq![map@[i as int]]);
                lemma_enc_name_map_entries_one(map@[i as int]);
                assert(self@ =~= old(self)@ + uleb_bytes(count as nat) + enc_name_map_entries(
                    map@.take(i + 1),
                ));
            }
            i = i + 1;
        }
        proof {
            assert(map@.take(count as int) =~= map@);
            assert(old(self)@ + uleb_bytes(count as nat) + enc_name_map_entries(map@) =~= old(
                self,
            )@ + enc_name_map(map@));
        }
    }

    /// Encode an indirect name map: entry count, then `(index, name map)`
    /// pairs in key order.
    pub fn indirect_name_map(&mut self, map: &IndirectNameMap)
        requires
            map.wf(),
            indirect_fits(map@),
        ensures
            final(self)@ == old(self)@ + enc_indirect_map(map@),
    {
        let count = map.len();
        self.integer(count as u32);
        let mut i: usize = 0;
        while i < count
            invariant
                count == map@.len(),
                map.wf(),
                indirect_fits(map@),
                i <= count,
                self@ == old(self)@ + uleb_bytes(count as nat) + enc_indirect_entries(
                    map@.take(i as int),
                ),
            decreases count - i,
        {
            let entry = map.get(i);
            self.integer(entry.0);
            self.name_map(&entry.1);
            proof {
                assert(map@.take(i + 1) =~= map@.take(i as int) + seq![map@[i as int]]);
                lemma_enc_indirect_entries_concat(map@.take(i as int), seq![map@[i as int]]);
                lemma_enc_indirect_entries_one(map@[i as int]);
                assert(self@ =~= old(self)@ + uleb_bytes(count as nat) + enc_indirect_entries(
                    map@.take(i + 1),
                ));
            }
            i = i + 1;
        }
        proof {
            assert(map@.take(count as int) =~= map@);
            assert(old(self)@ + uleb_bytes(count as nat) + enc_indirect_entries(map@) =~= old(
                self,
            )@ + enc_indirect_map(map@));
        }
    }

    /// Encode a vector of names: count, then names in order.
    pub fn name_vector(&mut self, names: &Vec<String>)
        requires
            name_vec_fits(names.deep_view()),
        ensures
            final(self)@ == old(self)@ + enc_name_vec(names.deep_view()),
    {
        let ghost v = names.deep_view();
        let count = names.len();
        self.integer(count as u32);
        let mut i: usize = 0;
        while i < count
            invariant
                count == v.len(),
                v == names.deep_view(),
                name_vec_fits(v),
                i <= count,
                self@ == old(self)@ + uleb_bytes(count as nat) + enc_name_vec_entries(
                    v.take(i as int),
                ),
            decreases count - i,
        {
            assert(names@[i as int]@ == v[i as int]);
            self.name(names[i].as_str());
            proof {
                assert(v.take(i + 1) =~= v.take(i as int) + seq![v[i as int]]);
                lemma_enc_name_vec_entries_concat(v.take(i as int), seq![v[i as int]]);
                lemma_enc_name_vec_entries_one(v[i as int]);
                assert(self@ =~= old(self)@ + uleb_bytes(count as nat) + enc_name_vec_entries(
                    v.take(i + 1),
                ));
            }
            i = i + 1;
        }
        proof {
            assert(v.take(count as int) =~= v);
            assert(old(self)@ + uleb_bytes(count as nat) + enc_name_vec_entries(v) =~= old(
                self,
            )@ + enc_name_vec(v));
        }
    }

    /// Encode one framed subsection unit: discriminant byte, payload length,
    /// payload bytes.
    pub fn subsection(&mut self, id: u8, data: &[u8])
        requires
            fits_u32(data@.len() as nat),
        ensures
            final(self)@ == old(self)@ + enc_frame(id, data@),
    {
        self.u8(id);
        self.integer(data.len() as u32);
        self.bytes(data);
        proof {
            assert(self@ =~= old(self)@ + enc_frame(id, data@));
        }
    }
}

/// The UTF-8 encoding of a character sequence takes at most four bytes per
/// character; in particular every short string fits behind a 32-bit length
/// prefix.
pub proof fn lemma_encode_utf8_len(s: Seq<char>)
    ensures
        encode_utf8(s).len() <= 4 * s.len(),
    decreases s.len(),
{
    if s.len() > 0 {
        lemma_encode_utf8_len(s.drop_first());
    }
}

/// A decoded name's UTF-8 bytes fit behind a 32-bit length prefix.
pub proof fn lemma_dec_name_fits(b: Seq<u8>)
    ensures
        dec_name(b) matches Ok(p) ==> name_fits(p.0),
{
    match uleb32_dec(b) {
        None => {},
        Some((len, i)) => {
            crate::varint::lemma_uleb32_from_pos(b, 0, 0, 0);
            if i + len <= b.len() && valid_utf8(b.subrange(i, i + len)) {
                vstd::utf8::decode_utf8_encode_utf8(b.subrange(i, i + len));
            }
        },
    }
}

/// Decoded name-map entries keep every name and the entry count within
/// 32-bit bounds.
pub proof fn lemma_dec_name_map_entries_fits(b: Seq<u8>, count: nat, acc: NameMapV)
    requires
        forall|i: int| #![trigger acc[i]] 0 <= i < acc.len() ==> name_fits(acc[i].1),
        acc.len() + count < 0x1_0000_0000,
    ensures
        dec_name_map_entries(b, count, acc) matches Ok(p) ==> {
            &&& forall|i: int| #![trigger p.0[i]] 0 <= i < p.0.len() ==> name_fits(p.0[i].1)
            &&& p.0.len() <= acc.len() + count
        },
    decreases count,
{
    if count > 0 && uleb32_dec(b) is Some {
        let key = (uleb32_dec(b)->0).0;
        let i = (uleb32_dec(b)->0).1;
        if dec_name(b.skip(i)) is Ok {
            let np = dec_name(b.skip(i))->Ok_0;
            lemma_dec_name_fits(b.skip(i));
            crate::maps::lemma_sorted_insert_values(
                acc,
                key,
                np.0,
                |s: Seq<char>| name_fits(s),
            );
            crate::maps::lemma_sorted_insert_len(acc, key, np.0);
            lemma_dec_name_map_entries_fits(
                b.skip(i + np.1),
                (count - 1) as nat,
                sorted_insert(acc, key, np.0),
            );
        }
    }
}

/// A decoded name map is within 32-bit bounds throughout.
pub proof fn lemma_dec_name_map_fits(b: Seq<u8>)
    ensures
        dec_name_map(b) matches Ok(p) ==> name_map_fits(p.0),
{
    if uleb32_dec(b) is Some {
        let count = (uleb32_dec(b)->0).0;
        let i = (uleb32_dec(b)->0).1;
        lemma_dec_name_map_entries_fits(b.skip(i), count as nat, Seq::empty());
    }
}

/// Decoded indirect-map entries keep every nested map and the entry count
/// within 32-bit bounds.
pub proof fn lemma_dec_indirect_entries_fits(b: Seq<u8>, count: nat, acc: IndirectV)
    requires
        forall|i: int| #![trigger acc[i]] 0 <= i < acc.len() ==> name_map_fits(acc[i].1),
        acc.len() + count < 0x1_0000_0000,
    ensures
        dec_indirect_entries(b, count, acc) matches Ok(p) ==> {
            &&& forall|i: int| #![trigger p.0[i]] 0 <= i < p.0.len() ==> name_map_fits(p.0[i].1)
            &&& p.0.len() <= acc.len() + count
        },
    decreases count,
{
    if count > 0 && uleb32_dec(b) is Some {
        let key = (uleb32_dec(b)->0).0;
        let i = (uleb32_dec(b)->0).1;
        if dec_name_map(b.skip(i)) is Ok {
            let np = dec_name_map(b.skip(i))->Ok_0;
            lemma_dec_name_map_fits(b.skip(i));
            crate::maps::lemma_sorted_insert_values(
                acc,
                key,
                np.0,
                |m: NameMapV| name_map_fits(m),
            );
            crate::maps::lemma_sorted_insert_len(acc, key, np.0);
            lemma_dec_indirect_entries_fits(
                b.skip(i + np.1),
                (count - 1) as nat,
                sorted_insert(acc, key, np.0),
            );
        }
    }
}

/// A decoded indirect name map is within 32-bit bounds throughout.
pub proof fn lemma_dec_indirect_map_fits(b: Seq<u8>)
    ensures
        dec_indirect_map(b) matches Ok(p) ==> indirect_fits(p.0),
{
    if uleb32_dec(b) is Some {
        let count = (uleb32_dec(b)->0).0;
        let i = (uleb32_dec(b)->0).1;
        lemma_dec_indirect_entries_fits(b.skip(i), count as nat, Seq::empty());
    }
}

/// Decoded name-vector entries keep every name and the count within 32-bit
/// bounds.
pub proof fn lemma_dec_name_vec_entries_fits(b: Seq<u8>, count: nat, acc: Seq<Seq<char>>)
    requires
        forall|i: int| #![trigger acc[i]] 0 <= i < acc.len() ==> name_fits(acc[i]),
        acc.len() + count < 0x1_0000_0000,
    ensures
        dec_name_vec_entries(b, count, acc) matches Ok(p) ==> {
            &&& forall|i: int| #![trigger p.0[i]] 0 <= i < p.0.len() ==> name_fits(p.0[i])
            &&& p.0.len() <= acc.len() + count
        },
    decreases count,
{
    if count > 0 && dec_name(b) is Ok {
        let np = dec_name(b)->Ok_0;
        lemma_dec_name_fits(b);
        lemma_dec_name_vec_entries_fits(b.skip(np.1), (count - 1) as nat, acc.push(np.0));
    }
}

/// A decoded name vector is within 32-bit bounds throughout.
pub proof fn lemma_dec_name_vec_fits(b: Seq<u8>)
    ensures
        dec_name_vec(b) matches Ok(p) ==> name_vec_fits(p.0),
{
    if uleb32_dec(b) is Some {
        let count = (uleb32_dec(b)->0).0;
        let i = (uleb32_dec(b)->0).1;
        lemma_dec_name_vec_entries_fits(b.skip(i), count as nat, Seq::empty());
    }
}

/// A successfully decoded frame consumes at least its discriminant byte and
/// one length byte, and never more than the buffer holds.
pub proof fn lemma_dec_frame_pos(b: Seq<u8>)
    ensures
        dec_frame(b) matches Ok(p) ==> 1 < p.1 <= b.len(),
{
    if b.len() > 0 {
        crate::varint::lemma_uleb32_from_pos(b.skip(1), 0, 0, 0);
    }
}

// ---------------------------------------------------------------------------
// Round trips: decoding a canonical encoding recovers the value
// ---------------------------------------------------------------------------
/// A name decodes back from the front of any buffer that starts with its
/// canonical encoding.
pub proof fn lemma_dec_name_enc(s: Seq<char>, rest: Seq<u8>)
    requires
        name_fits(s),
    ensures
        dec_name(enc_name(s) + rest) == Ok::<(Seq<char>, int), Error>(
            (s, enc_name(s).len() as int),
        ),
{
    let eb = encode_utf8(s);
    let ul = uleb_bytes(eb.len() as nat);
    let b = enc_name(s) + rest;
    assert(b =~= ul + (eb + rest));
    crate::varint::lemma_uleb32_dec_prefix(eb.len() as nat, eb + rest);
    let l1 = ul.len() as int;
    assert(uleb32_dec(b) == Some((eb.len() as u32, l1)));
    assert(b.subrange(l1, l1 + eb.len() as int) =~= eb);
    vstd::utf8::encode_utf8_valid_utf8(s);
    vstd::utf8::encode_utf8_decode_utf8(s);
}

/// Name-map entries that continue a sorted accumulator decode back to the
/// accumulator followed by those entries.
#[verifier::rlimit(60)]
pub proof fn lemma_dec_name_map_entries_enc(m: NameMapV, acc: NameMapV, rest: Seq<u8>)
    requires
        strictly_sorted(acc),
        strictly_sorted(m),
        crate::maps::keys_below(acc, m),
        name_map_fits(m),
    ensures
        dec_name_map_entries(enc_name_map_entries(m) + rest, m.len() as nat, acc)
            == Ok::<(NameMapV, int), Error>((acc + m, enc_name_map_entries(m).len() as int)),
    decreases m.len(),
{
    if m.len() == 0 {
        assert(acc + m =~= acc);
        assert(enc_name_map_entries(m) + rest =~= rest);
    } else {
        let e1 = uleb_bytes(m[0].0 as nat);
        let e2 = enc_name(m[0].1);
        let e3 = enc_name_map_entries(m.skip(1));
        let b = enc_name_map_entries(m) + rest;
        assert(b =~= e1 + (e2 + (e3 + rest)));
        crate::varint::lemma_uleb32_dec_prefix(m[0].0 as nat, e2 + (e3 + rest));
        let l1 = e1.len() as int;
        assert(uleb32_dec(b) == Some((m[0].0, l1)));
        assert(b.skip(l1) =~= e2 + (e3 + rest));
        assert(name_fits(m[0].1));
        lemma_dec_name_enc(m[0].1, e3 + rest);
        let l2 = e2.len() as int;
        assert(dec_name(b.skip(l1)) == Ok::<(Seq<char>, int), Error>((m[0].1, l2)));
        assert(b.skip(l1 + l2) =~= e3 + rest);
        crate::maps::lemma_sorted_insert_append(acc, m[0].0, m[0].1);
        let acc2 = acc.push(m[0]);
        assert(sorted_insert(acc, m[0].0, m[0].1) == acc2);
        assert(strictly_sorted(acc2)) by {
            assert forall|i1: int, i2: int| 0 <= i1 < i2 < acc2.len() implies acc2[i1].0
                < acc2[i2].0 by {
                if i2 < acc.len() {
                } else {
                    assert(acc2[i2] == m[0]);
                }
            }
        }
        assert(strictly_sorted(m.skip(1)));
        assert(crate::maps::keys_below(acc2, m.skip(1))) by {
            assert forall|i1: int, i2: int|
                0 <= i1 < acc2.len() && 0 <= i2 < m.skip(1).len() implies acc2[i1].0
                < m.skip(1)[i2].0 by {
                assert(m.skip(1)[i2] == m[i2 + 1]);
                if i1 < acc.len() {
                } else {
                    assert(acc2[i1] == m[0]);
                }
            }
        }
        assert(name_map_fits(m.skip(1))) by {
            assert forall|i: int| 0 <= i < m.skip(1).len() implies name_fits(
                #[trigger] m.skip(1)[i].1,
            ) by {
                assert(m.skip(1)[i] == m[i + 1]);
            }
        }
        lemma_dec_name_map_entries_enc(m.skip(1), acc2, rest);
        assert(acc2 + m.skip(1) =~= acc + m);
        lemma_add_off_add(
            dec_name_map_entries(e3 + rest, m.skip(1).len() as nat, acc2),
            0,
            l1 + l2,
        );
    }
}

/// A name map decodes back from the front of any buffer that starts with
/// its canonical encoding.
pub proof fn lemma_dec_name_map_enc(m: NameMapV, rest: Seq<u8>)
    requires
        strictly_sorted(m),
        name_map_fits(m),
    ensures
        dec_name_map(enc_name_map(m) + rest) == Ok::<(NameMapV, int), Error>(
            (m, enc_name_map(m).len() as int),
        ),
{
    let e0 = uleb_bytes(m.len() as nat);
    let e1 = enc_name_map_entries(m);
    let b = enc_name_map(m) + rest;
    assert(b =~= e0 + (e1 + rest));
    crate::varint::lemma_uleb32_dec_prefix(m.len() as nat, e1 + rest);
    let l0 = e0.len() as int;
    assert(uleb32_dec(b) == Some((m.len() as u32, l0)));
    assert(b.skip(l0) =~= e1 + rest);
    lemma_dec_name_map_entries_enc(m, Seq::empty(), rest);
    assert(Seq::<(u32, Seq<char>)>::empty() + m =~= m);
}

/// Indirect-map entries that continue a sorted accumulator decode back to
/// the accumulator followed by those entries.
#[verifier::rlimit(60)]
pub proof fn lemma_dec_indirect_entries_enc(m: IndirectV, acc: IndirectV, rest: Seq<u8>)
    requires
        strictly_sorted(acc),
        strictly_sorted(m),
        crate::maps::keys_below(acc, m),
        indirect_fits(m),
        forall|i: int| 0 <= i < m.len() ==> strictly_sorted(#[trigger] m[i].1),
    ensures
        dec_indirect_entries(enc_indirect_entries(m) + rest, m.len() as nat, acc)
            == Ok::<(IndirectV, int), Error>((acc + m, enc_indirect_entries(m).len() as int)),
    decreases m.len(),
{
    if m.len() == 0 {
        assert(acc + m =~= acc);
        assert(enc_indirect_entries(m) + rest =~= rest);
    } else {
        let e1 = uleb_bytes(m[0].0 as nat);
        let e2 = enc_name_map(m[0].1);
        let e3 = enc_indirect_entries(m.skip(1));
        let b = enc_indirect_entries(m) + rest;
        assert(b =~= e1 + (e2 + (e3 + rest)));
        crate::varint::lemma_uleb32_dec_prefix(m[0].0 as nat, e2 + (e3 + rest));
        let l1 = e1.len() as int;
        assert(uleb32_dec(b) == Some((m[0].0, l1)));
        assert(b.skip(l1) =~= e2 + (e3 + rest));
        assert(name_map_fits(m[0].1) && strictly_sorted(m[0].1));
        lemma_dec_name_map_enc(m[0].1, e3 + rest);
        let l2 = e2.len() as int;
        assert(dec_name_map(b.skip(l1)) == Ok::<(NameMapV, int), Error>((m[0].1, l2)));
        assert(b.skip(l1 + l2) =~= e3 + rest);
        crate::maps::lemma_sorted_insert_append(acc, m[0].0, m[0].1);
        let acc2 = acc.push(m[0]);
        assert(strictly_sorted(acc2)) by {
            assert forall|i1: int, i2: int| 0 <= i1 < i2 < acc2.len() implies acc2[i1].0
                < acc2[i2].0 by {
                if i2 < acc.len() {
                } else {
                    assert(acc2[i2] == m[0]);
                }
            }
        }
        assert(crate::maps::keys_below(acc2, m.skip(1))) by {
            assert forall|i1: int, i2: int|
                0 <= i1 < acc2.len() && 0 <= i2 < m.skip(1).len() implies acc2[i1].0
                < m.skip(1)[i2].0 by {
                assert(m.skip(1)[i2] == m[i2 + 1]);
                if i1 < acc.len() {
                } else {
                    assert(acc2[i1] == m[0]);
                }
            }
        }
        assert(indirect_fits(m.skip(1)) && (forall|i: int|
            0 <= i < m.skip(1).len() ==> strictly_sorted(#[trigger] m.skip(1)[i].1))) by {
            assert forall|i: int| 0 <= i < m.skip(1).len() implies name_map_fits(
                #[trigger] m.skip(1)[i].1,
            ) && strictly_sorted(m.skip(1)[i].1) by {
                assert(m.skip(1)[i] == m[i + 1]);
            }
        }
        lemma_dec_indirect_entries_enc(m.skip(1), acc2, rest);
        assert(acc2 + m.skip(1) =~= acc + m);
        lemma_add_off_add(
            dec_indirect_entries(e3 + rest, m.skip(1).len() as nat, acc2),
            0,
            l1 + l2,
        );
    }
}

/// An indirect name map decodes back from the front of any buffer that
/// starts with its canonical encoding.
pub proof fn lemma_dec_indirect_map_enc(m: IndirectV, rest: Seq<u8>)
    requires
        strictly_sorted(m),
        indirect_fits(m),
        forall|i: int| 0 <= i < m.len() ==> strictly_sorted(#[trigger] m[i].1),
    ensures
        dec_indirect_map(enc_indirect_map(m) + rest) == Ok::<(IndirectV, int), Error>(
            (m, enc_indirect_map(m).len() as int),
        ),
{
    let e0 = uleb_bytes(m.len() as nat);
    let e1 = enc_indirect_entries(m);
    let b = enc_indirect_map(m) + rest;
    assert(b =~= e0 + (e1 + rest));
    crate::varint::lemma_uleb32_dec_prefix(m.len() as nat, e1 + rest);
    let l0 = e0.len() as int;
    assert(uleb32_dec(b) == Some((m.len() as u32, l0)));
    assert(b.skip(l0) =~= e1 + rest);
    lemma_dec_indirect_entries_enc(m, Seq::empty(), rest);
    assert(Seq::<(u32, Seq<(u32, Seq<char>)>)>::empty() + m =~= m);
}

/// Name-vector entries decode back to the accumulator followed by those
/// names.
pub proof fn lemma_dec_name_vec_entries_enc(v: Seq<Seq<char>>, acc: Seq<Seq<char>>, rest: Seq<u8>)
    requires
        name_vec_fits(v),
    ensures
        dec_name_vec_entries(enc_name_vec_entries(v) + rest, v.len() as nat, acc)
            == Ok::<(Seq<Seq<char>>, int), Error>((acc + v, enc_name_vec_entries(v).len() as int)),
    decreases v.len(),
{
    if v.len() == 0 {
        assert(acc + v =~= acc);
        assert(enc_name_vec_entries(v) + rest =~= rest);
    } else {
        let e1 = enc_name(v[0]);
        let e2 = enc_name_vec_entries(v.skip(1));
        let b = enc_name_vec_entries(v) + rest;
        assert(b =~= e1 + (e2 + rest));
        assert(name_fits(v[0]));
        lemma_dec_name_enc(v[0], e2 + rest);
        let l1 = e1.len() as int;
        assert(dec_name(b) == Ok::<(Seq<char>, int), Error>((v[0], l1)));
        assert(b.skip(l1) =~= e2 + rest);
        assert(name_vec_fits(v.skip(1))) by {
            assert forall|i: int| 0 <= i < v.skip(1).len() implies name_fits(
                #[trigger] v.skip(1)[i],
            ) by {
                assert(v.skip(1)[i] == v[i + 1]);
            }
        }
        lemma_dec_name_vec_entries_enc(v.skip(1), acc.push(v[0]), rest);
        assert(acc.push(v[0]) + v.skip(1) =~= acc + v);
        lemma_add_off_add(
            dec_name_vec_entries(e2 + rest, v.skip(1).len() as nat, acc.push(v[0])),
            0,
            l1,
        );
    }
}

/// A name vector decodes back from the front of any buffer that starts
/// with its canonical encoding.
pub proof fn lemma_dec_name_vec_enc(v: Seq<Seq<char>>, rest: Seq<u8>)
    requires
        name_vec_fits(v),
    ensures
        dec_name_vec(enc_name_vec(v) + rest) == Ok::<(Seq<Seq<char>>, int), Error>(
            (v, enc_name_vec(v).len() as int),
        ),
{
    let e0 = uleb_bytes(v.len() as nat);
    let e1 = enc_name_vec_entries(v);
    let b = enc_name_vec(v) + rest;
    assert(b =~= e0 + (e1 + rest));
    crate::varint::lemma_uleb32_dec_prefix(v.len() as nat, e1 + rest);
    let l0 = e0.len() as int;
    assert(uleb32_dec(b) == Some((v.len() as u32, l0)));
    assert(b.skip(l0) =~= e1 + rest);
    lemma_dec_name_vec_entries_enc(v, Seq::empty(), rest);
    assert(Seq::<Seq<char>>::empty() + v =~= v);
}

/// A framed unit decodes back from the front of any buffer that starts
/// with its canonical encoding.
pub proof fn lemma_dec_frame_enc(id: u8, payload: Seq<u8>, rest: Seq<u8>)
    requires
        fits_u32(payload.len() as nat),
    ensures
        dec_frame(enc_frame(id, payload) + rest) == Ok::<((u8, Seq<u8>), int), Error>(
            ((id, payload), enc_frame(id, payload).len() as int),
        ),
{
    let e1 = uleb_bytes(payload.len() as nat);
    let b = enc_frame(id, payload) + rest;
    assert(b =~= seq![id] + (e1 + (payload + rest)));
    assert(b[0] == id);
    assert(b.skip(1) =~= e1 + (payload + rest));
    crate::varint::lemma_uleb32_dec_prefix(payload.len() as nat, payload + rest);
    let l1 = e1.len() as int;
    assert(uleb32_dec(b.skip(1)) == Some((payload.len() as u32, l1)));
    assert(b.subrange(1 + l1, 1 + l1 + payload.len() as int) =~= payload);
}

/// Decoding a name reads only the bytes it consumes: on a truncated copy
/// of the buffer the decode returns the same name when its bytes survived
/// the cut, and fails when they did not.
pub proof fn lemma_dec_name_prefix(b: Seq<u8>, cut: int)
    requires
        0 <= cut <= b.len(),
    ensures
        dec_name(b) matches Ok(p) ==> if p.1 <= cut {
            dec_name(b.take(cut)) == Ok::<(Seq<char>, int), Error>(p)
        } else {
            dec_name(b.take(cut)) is Err
        },
{
    let t = b.take(cut);
    crate::varint::lemma_uleb32_from_prefix(b, cut, 0, 0, 0);
    match uleb32_dec(b) {
        None => {},
        Some((len, i)) => {
            crate::varint::lemma_uleb32_from_pos(b, 0, 0, 0);
            if i + len <= b.len() && i <= cut {
                if i + len <= cut {
                    assert(t.subrange(i, i + len) =~= b.subrange(i, i + len));
                }
            }
        },
    }
}

/// A successful name decode consumes at least one byte and never more
/// than the buffer holds.
pub proof fn lemma_dec_name_pos(b: Seq<u8>)
    ensures
        dec_name(b) matches Ok(p) ==> 0 < p.1 <= b.len(),
{
    crate::varint::lemma_uleb32_from_pos(b, 0, 0, 0);
}

/// Cutting a framed unit anywhere strictly inside it leaves bytes that do
/// not decode as a frame: the length prefix is unreadable or the declared
/// payload no longer fits.
pub proof fn lemma_dec_frame_truncated(id: u8, payload: Seq<u8>, cut: int)
    requires
        fits_u32(payload.len() as nat),
        0 < cut < enc_frame(id, payload).len(),
    ensures
        dec_frame(enc_frame(id, payload).take(cut)) is Err,
{
    let ul = uleb_bytes(payload.len() as nat);
    let b = enc_frame(id, payload);
    let t = b.take(cut);
    assert(t.len() == cut);
    assert(b =~= seq![id] + (ul + payload));
    if cut - 1 < ul.len() {
        vstd::arithmetic::power2::lemma2_to64();
        assert(t.skip(1) =~= ul.take(cut - 1));
        assert(t.skip(1).skip(0) =~= t.skip(1));
        crate::varint::lemma_uleb32_dec_truncated(
            t.skip(1),
            0,
            0,
            0,
            payload.len() as nat,
        );
    } else {
        assert(t.skip(1) =~= ul + payload.take(cut - 1 - ul.len()));
        crate::varint::lemma_uleb32_dec_prefix(
            payload.len() as nat,
            payload.take(cut - 1 - ul.len()),
        );
        assert(uleb32_dec(t.skip(1)) == Some((payload.len() as u32, ul.len() as int)));
        assert(1 + ul.len() + payload.len() > t.len());
    }
}

// ---------------------------------------------------------------------------
// Readers
// ---------------------------------------------------------------------------
/// Skipping twice is skipping the sum.
pub proof fn lemma_skip_skip(b: Seq<u8>, i: int, j: int)
    requires
        0 <= i,
        0 <= j,
        i + j <= b.len(),
    ensures
        b.skip(i).skip(j) == b.skip(i + j),
{
    assert(b.skip(i).skip(j) =~= b.skip(i + j));
}

/// Shifting a decode outcome by zero changes nothing.
pub proof fn lemma_add_off_zero<V>(r: Result<(V, int), Error>)
    ensures
        add_off(r, 0) == r,
{
    match r {
        Ok(p) => {
            assert((p.0, p.1 + 0) == p);
        },
        Err(_) => {},
    }
}

/// Shifting a decode outcome twice is shifting by the sum.
pub proof fn lemma_add_off_add<V>(r: Result<(V, int), Error>, a: int, c: int)
    ensures
        add_off(add_off(r, a), c) == add_off(r, a + c),
{
}

impl<'a> Reader<'a> {
    /// Parse a name: a variable-length byte count, then that many UTF-8
    /// bytes.
    pub fn name(&mut self) -> (r: Result<String, Error>)
        requires
            old(self).wf(),
        ensures
            final(self).wf(),
            match dec_name(old(self).rem()) {
                Ok(p) => {
                    &&& r is Ok
                    &&& r->Ok_0@ == p.0
                    &&& final(self).rem() == old(self).rem().skip(p.1)
                    &&& 0 < p.1 <= old(self).rem().len()
                },
                Err(e) => r is Err && r->Err_0 == e,
            },
    {
        let ghost b = old(self).rem();
        let len = match self.integer() {
            Some(v) => v,
            None => {
                return Err(Error::MalformedInteger);
            },
        };
        let ghost i = (uleb32_dec(b)->0).1;
        match self.str(len as usize) {
            Some(s) => {
                proof {
                    assert(b.skip(i).take(len as int) =~= b.subrange(i, i + len));
                    lemma_skip_skip(b, i, len as int);
                }
                Ok(s.to_owned())
            },
            None => {
                proof {
                    if i + len <= b.len() {
                        assert(b.skip(i).take(len as int) =~= b.subrange(i, i + len));
                    }
                }
                Err(Error::MalformedString)
            },
        }
    }

    /// Parse a vector of names: a count, then that many names in order.
    pub fn name_vector(&mut self) -> (r: Result<Vec<String>, Error>)
        requires
            old(self).wf(),
        ensures
            final(self).wf(),
            match dec_name_vec(old(self).rem()) {
                Ok(p) => {
                    &&& r is Ok
                    &&& r->Ok_0.deep_view() == p.0
                    &&& final(self).rem() == old(self).rem().skip(p.1)
                    &&& 0 < p.1 <= old(self).rem().len()
                },
                Err(e) => r is Err && r->Err_0 == e,
            },
    {
        let ghost b0 = old(self).rem();
        let count = match self.integer() {
            Some(v) => v,
            None => {
                return Err(Error::MalformedInteger);
            },
        };
        let ghost n0 = (uleb32_dec(b0)->0).1;
        let ghost b = b0.skip(n0);
        let mut names: Vec<String> = Vec::new();
        let mut k: u32 = 0;
        let ghost mut done: int = 0;
        proof {
            assert(names.deep_view() =~= Seq::<Seq<char>>::empty());
            assert(b.skip(0) =~= b);
            lemma_add_off_zero(dec_name_vec_entries(b, count as nat, Seq::empty()));
        }
        while k < count
            invariant
                self.wf(),
                k <= count,
                0 <= done <= b.len(),
                b0 == old(self).rem(),
                b == b0.skip(n0),
                0 < n0 <= b0.len(),
                self.rem() == b.skip(done),
                uleb32_dec(b0) == Some((count, n0)),
                dec_name_vec_entries(b, count as nat, Seq::empty()) == add_off(
                    dec_name_vec_entries(b.skip(done), (count - k) as nat, names.deep_view()),
                    done,
                ),
            decreases count - k,
        {
            let ghost cur = b.skip(done);
            let ghost acc = names.deep_view();
            let name = match self.name() {
                Ok(s) => s,
                Err(e) => {
                    return Err(e);
                },
            };
            proof {
                let p = dec_name(cur)->Ok_0;
                lemma_skip_skip(b, done, p.1);
                lemma_add_off_add(
                    dec_name_vec_entries(
                        b.skip(done + p.1),
                        (count - k - 1) as nat,
                        acc.push(p.0),
                    ),
                    p.1,
                    done,
                );
                done = done + p.1;
            }
            names.push(name);
            proof {
                assert(names.deep_view() =~= acc.push(name@));
            }
            k = k + 1;
        }
        proof {
            assert(b.skip(done).len() == b.len() - done);
            lemma_skip_skip(b0, n0, done);
        }
        Ok(names)
    }

    /// Parse a name map: a count, then that many `(index, name)` pairs,
    /// inserted in encounter order (later duplicate keys overwrite).
    pub fn name_map(&mut self) -> (r: Result<NameMap, Error>)
        requires
            old(self).wf(),
        ensures
            final(self).wf(),
            match dec_name_map(old(self).rem()) {
                Ok(p) => {
                    &&& r is Ok
                    &&& r->Ok_0@ == p.0
                    &&& r->Ok_0.wf()
                    &&& final(self).rem() == old(self).rem().skip(p.1)
                    &&& 0 < p.1 <= old(self).rem().len()
                },
                Err(e) => r is Err && r->Err_0 == e,
            },
    {
        let ghost b0 = old(self).rem();
        let count = match self.integer() {
            Some(v) => v,
            None => {
                return Err(Error::MalformedInteger);
            },
        };
        let ghost n0 = (uleb32_dec(b0)->0).1;
        let ghost b = b0.skip(n0);
        let mut map = NameMap::new();
        let mut k: u32 = 0;
        let ghost mut done: int = 0;
        proof {
            assert(b.skip(0) =~= b);
            lemma_add_off_zero(dec_name_map_entries(b, count as nat, Seq::empty()));
        }
        while k < count
            invariant
                self.wf(),
                map.wf(),
                k <= count,
                0 <= done <= b.len(),
                b0 == old(self).rem(),
                b == b0.skip(n0),
                0 < n0 <= b0.len(),
                self.rem() == b.skip(done),
                uleb32_dec(b0) == Some((count, n0)),
                dec_name_map_entries(b, count as nat, Seq::empty()) == add_off(
                    dec_name_map_entries(b.skip(done), (count - k) as nat, map@),
                    done,
                ),
            decreases count - k,
        {
            let ghost cur = b.skip(done);
            let ghost acc = map@;
            let key = match self.integer() {
                Some(v) => v,
                None => {
                    return Err(Error::MalformedInteger);
                },
            };
            let ghost ik = (uleb32_dec(cur)->0).1;
            let name = match self.name() {
                Ok(s) => s,
                Err(e) => {
                    proof {
                        lemma_skip_skip(b, done, ik);
                    }
                    return Err(e);
                },
            };
            proof {
                lemma_skip_skip(b, done, ik);
                let p = dec_name(cur.skip(ik))->Ok_0;
                lemma_skip_skip(b, done, ik + p.1);
                lemma_skip_skip(b, done + ik, p.1);
                lemma_add_off_add(
                    dec_name_map_entries(
                        b.skip(done + ik + p.1),
                        (count - k - 1) as nat,
                        sorted_insert(acc, key, p.0),
                    ),
                    ik + p.1,
                    done,
                );
                done = done + ik + p.1;
            }
            map.insert(key, name);
            k = k + 1;
        }
        proof {
            assert(b.skip(done).len() == b.len() - done);
            lemma_skip_skip(b0, n0, done);
        }
        Ok(map)
    }

    /// Parse an indirect name map: a count, then that many
    /// `(index, name map)` pairs, inserted in encounter order.
    pub fn indirect_name_map(&mut self) -> (r: Result<IndirectNameMap, Error>)
        requires
            old(self).wf(),
        ensures
            final(self).wf(),
            match dec_indirect_map(old(self).rem()) {
                Ok(p) => {
                    &&& r is Ok
                    &&& r->Ok_0@ == p.0
                    &&& r->Ok_0.wf()
                    &&& final(self).rem() == old(self).rem().skip(p.1)
                    &&& 0 < p.1 <= old(self).rem().len()
                },
                Err(e) => r is Err && r->Err_0 == e,
            },
    {
        let ghost b0 = old(self).rem();
        let count = match self.integer() {
            Some(v) => v,
            None => {
                return Err(Error::MalformedInteger);
            },
        };
        let ghost n0 = (uleb32_dec(b0)->0).1;
        let ghost b = b0.skip(n0);
        let mut map = IndirectNameMap::new();
        let mut k: u32 = 0;
        let ghost mut done: int = 0;
        proof {
            assert(b.skip(0) =~= b);
            lemma_add_off_zero(dec_indirect_entries(b, count as nat, Seq::empty()));
        }
        while k < count
            invariant
                self.wf(),
                map.wf(),
                k <= count,
                0 <= done <= b.len(),
                b0 == old(self).rem(),
                b == b0.skip(n0),
                0 < n0 <= b0.len(),
                self.rem() == b.skip(done),
                uleb32_dec(b0) == Some((count, n0)),
                dec_indirect_entries(b, count as nat, Seq::empty()) == add_off(
                    dec_indirect_entries(b.skip(done), (count - k) as nat, map@),
                    done,
                ),
            decreases count - k,
        {
            let ghost cur = b.skip(done);
            let ghost acc = map@;
            let key = match self.integer() {
                Some(v) => v,
                None => {
                    return Err(Error::MalformedInteger);
                },
            };
            let ghost ik = (uleb32_dec(cur)->0).1;
            let inner = match self.name_map() {
                Ok(m) => m,
                Err(e) => {
                    proof {
                        lemma_skip_skip(b, done, ik);
                    }
                    return Err(e);
                },
            };
            proof {
                lemma_skip_skip(b, done, ik);
                let p = dec_name_map(cur.skip(ik))->Ok_0;
                lemma_skip_skip(b, done, ik + p.1);
                lemma_skip_skip(b, done + ik, p.1);
                lemma_add_off_add(
                    dec_indirect_entries(
                        b.skip(done + ik + p.1),
                        (count - k - 1) as nat,
                        sorted_insert(acc, key, p.0),
                    ),
                    ik + p.1,
                    done,
                );
                done = done + ik + p.1;
            }
            map.insert(key, inner);
            k = k + 1;
        }
        proof {
            assert(b.skip(done).len() == b.len() - done);
            lemma_skip_skip(b0, n0, done);
        }
        Ok(map)
    }

    /// Parse one framed subsection unit: its discriminant and a reader
    /// bounded to exactly its payload.
    pub fn subsection(&mut self) -> (r: Result<(u8, Reader<'a>), Error>)
        requires
            old(self).wf(),
        ensures
            final(self).wf(),
            match dec_frame(old(self).rem()) {
                Ok(p) => {
                    &&& r is Ok
                    &&& r->Ok_0.0 == p.0.0
                    &&& r->Ok_0.1.wf()
                    &&& r->Ok_0.1.rem() == p.0.1
                    &&& final(self).rem() == old(self).rem().skip(p.1)
                    &&& 0 < p.1 <= old(self).rem().len()
                },
                Err(e) => r is Err && r->Err_0 == e,
            },
    {
        let ghost b = old(self).rem();
        let id = match self.u8() {
            Some(v) => v,
            None => {
                return Err(Error::MalformedInteger);
            },
        };
        let len = match self.integer() {
            Some(v) => v,
            None => {
                return Err(Error::MalformedInteger);
            },
        };
        let ghost i = (uleb32_dec(b.skip(1))->0).1;
        match self.reader(len as usize) {
            Some(rd) => {
                proof {
                    lemma_skip_skip(b, 1, i);
                    assert(b.skip(1 + i).take(len as int) =~= b.subrange(1 + i, 1 + i + len));
                    lemma_skip_skip(b, 1 + i, len as int);
                }
                Ok((id, rd))
            },
            None => {
                proof {
                    lemma_skip_skip(b, 1, i);
                }
                Err(Error::MalformedString)
            },
        }
    }
}

} // verus!
