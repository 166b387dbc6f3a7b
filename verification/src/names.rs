//! The `name` custom section: debugging names for a module and its items.
//!
//! The section body is an ordered-subsection stream over ten discriminants,
//! one per kind of named item.

use vstd::prelude::*;

use crate::error::Error;
use crate::fields::{
    dec_frame, dec_name, dec_name_map, dec_indirect_map, enc_name, enc_name_map,
    enc_indirect_map, fits_u32, lemma_dec_name_enc, lemma_dec_name_map_enc,
    lemma_dec_indirect_map_enc, name_fits, name_map_fits, indirect_fits, IndirectV, NameMapV,
};
use crate::maps::{strictly_sorted, IndirectNameMap, NameMap};
use crate::reader::Reader;
use crate::stream::{
    dec_stream, enc_stream, lemma_enc_stream_concat, lemma_enc_stream_one,
    lemma_stream_monotonic, lemma_stream_round_trip, prepend, stream_ordered,
};
use crate::writer::Writer;

verus! {

/// One subsection of the `name` section.
#[derive(Clone, PartialEq, Eq, Debug)]
pub enum Name {
    /// Module name.
    Module(String),
    /// Function names.
    Function(NameMap),
    /// Local names per function.
    Local(IndirectNameMap),
    /// Goto/loop label names per function.
    Label(IndirectNameMap),
    /// Type names.
    Type(NameMap),
    /// Table names.
    Table(NameMap),
    /// Memory names.
    Memory(NameMap),
    /// Global names.
    Global(NameMap),
    /// Element names.
    Element(NameMap),
    /// Data names.
    Data(NameMap),
}

/// The mathematical value of one `name` subsection.
pub enum NameV {
    /// Module name.
    Module(Seq<char>),
    /// Function names.
    Function(NameMapV),
    /// Local names per function.
    Local(IndirectV),
    /// Goto/loop label names per function.
    Label(IndirectV),
    /// Type names.
    Type(NameMapV),
    /// Table names.
    Table(NameMapV),
    /// Memory names.
    Memory(NameMapV),
    /// Global names.
    Global(NameMapV),
    /// Element names.
    Element(NameMapV),
    /// Data names.
    Data(NameMapV),
}

impl View for Name {
    type V = NameV;

    open spec fn view(&self) -> NameV {
        match self {
            Name::Module(s) => NameV::Module(s@),
            Name::Function(m) => NameV::Function(m@),
            Name::Local(m) => NameV::Local(m@),
            Name::Label(m) => NameV::Label(m@),
            Name::Type(m) => NameV::Type(m@),
            Name::Table(m) => NameV::Table(m@),
            Name::Memory(m) => NameV::Memory(m@),
            Name::Global(m) => NameV::Global(m@),
            Name::Element(m) => NameV::Element(m@),
            Name::Data(m) => NameV::Data(m@),
        }
    }
}

/// The views of a sequence of subsections.
pub open spec fn names_view(s: Seq<Name>) -> Seq<NameV> {
    Seq::new(s.len(), |i: int| s[i]@)
}

/// The wire discriminant of a subsection.
pub open spec fn name_disc(n: NameV) -> u8 {
    match n {
        NameV::Module(_) => 0,
        NameV::Function(_) => 1,
        NameV::Local(_) => 2,
        NameV::Label(_) => 3,
        NameV::Type(_) => 4,
        NameV::Table(_) => 5,
        NameV::Memory(_) => 6,
        NameV::Global(_) => 7,
        NameV::Element(_) => 8,
        NameV::Data(_) => 9,
    }
}

/// Canonical encoding of one subsection's payload.
pub open spec fn enc_name_payload(n: NameV) -> Seq<u8> {
    match n {
        NameV::Module(s) => enc_name(s),
        NameV::Function(m) => enc_name_map(m),
        NameV::Local(m) => enc_indirect_map(m),
        NameV::Label(m) => enc_indirect_map(m),
        NameV::Type(m) => enc_name_map(m),
        NameV::Table(m) => enc_name_map(m),
        NameV::Memory(m) => enc_name_map(m),
        NameV::Global(m) => enc_name_map(m),
        NameV::Element(m) => enc_name_map(m),
        NameV::Data(m) => enc_name_map(m),
    }
}

/// A subsection value is well formed: its maps are key-sorted and every
/// name and count fits behind a 32-bit length prefix.
pub open spec fn name_v_wf(n: NameV) -> bool {
    match n {
        NameV::Module(s) => name_fits(s),
        NameV::Function(m) => strictly_sorted(m) && name_map_fits(m),
        NameV::Local(m) => strictly_sorted(m) && indirect_fits(m) && (forall|i: int|
            0 <= i < m.len() ==> strictly_sorted(#[trigger] m[i].1)),
        NameV::Label(m) => strictly_sorted(m) && indirect_fits(m) && (forall|i: int|
            0 <= i < m.len() ==> strictly_sorted(#[trigger] m[i].1)),
        NameV::Type(m) => strictly_sorted(m) && name_map_fits(m),
        NameV::Table(m) => strictly_sorted(m) && name_map_fits(m),
        NameV::Memory(m) => strictly_sorted(m) && name_map_fits(m),
        NameV::Global(m) => strictly_sorted(m) && name_map_fits(m),
        NameV::Element(m) => strictly_sorted(m) && name_map_fits(m),
        NameV::Data(m) => strictly_sorted(m) && name_map_fits(m),
    }
}

/// Decode one subsection payload under its discriminant's grammar,
/// rejecting unknown discriminants and unconsumed trailing bytes.
pub open spec fn dec_name_payload(id: u8, p: Seq<u8>) -> Result<NameV, Error> {
    if id == 0 {
        match dec_name(p) {
            Err(e) => Err(e),
            Ok(pair) => if pair.1 == p.len() {
                Ok(NameV::Module(pair.0))
            } else {
                Err(Error::TrailingBytes)
            },
        }
    } else if id == 2 || id == 3 {
        match dec_indirect_map(p) {
            Err(e) => Err(e),
            Ok(pair) => if pair.1 == p.len() {
                if id == 2 {
                    Ok(NameV::Local(pair.0))
                } else {
                    Ok(NameV::Label(pair.0))
                }
            } else {
                Err(Error::TrailingBytes)
            },
        }
    } else if id <= 9 {
        match dec_name_map(p) {
            Err(e) => Err(e),
            Ok(pair) => if pair.1 == p.len() {
                if id == 1 {
                    Ok(NameV::Function(pair.0))
                } else if id == 4 {
                    Ok(NameV::Type(pair.0))
                } else if id == 5 {
                    Ok(NameV::Table(pair.0))
                } else if id == 6 {
                    Ok(NameV::Memory(pair.0))
                } else if id == 7 {
                    Ok(NameV::Global(pair.0))
                } else if id == 8 {
                    Ok(NameV::Element(pair.0))
                } else {
                    Ok(NameV::Data(pair.0))
                }
            } else {
                Err(Error::TrailingBytes)
            },
        }
    } else {
        Err(Error::UnknownDiscriminant)
    }
}

/// Decode a whole `name` section body, requiring strictly increasing
/// discriminants from `min` up.
pub open spec fn dec_names(b: Seq<u8>, min: nat) -> Result<Seq<NameV>, Error> {
    dec_stream(b, min, |id: u8, p: Seq<u8>| dec_name_payload(id, p))
}

/// Canonical encoding of a whole `name` section body.
pub open spec fn enc_names(ns: Seq<NameV>) -> Seq<u8> {
    enc_stream(ns, |n: NameV| name_disc(n), |n: NameV| enc_name_payload(n))
}

/// The subsections' discriminants are strictly increasing.
pub open spec fn names_ordered(ns: Seq<NameV>) -> bool {
    stream_ordered(ns, |n: NameV| name_disc(n))
}

/// Every subsection value is well formed.
pub open spec fn names_values_wf(ns: Seq<NameV>) -> bool {
    forall|i: int| #![trigger ns[i]] 0 <= i < ns.len() ==> name_v_wf(ns[i])
}

/// Every subsection value is well formed and its payload fits in a frame.
pub open spec fn names_wf(ns: Seq<NameV>) -> bool {
    forall|i: int|
        #![trigger ns[i]]
        0 <= i < ns.len() ==> name_v_wf(ns[i]) && fits_u32(enc_name_payload(ns[i]).len() as nat)
}

/// A well-formed subsection's payload decodes back to it.
pub proof fn lemma_dec_name_payload_enc(n: NameV)
    requires
        name_v_wf(n),
    ensures
        dec_name_payload(name_disc(n), enc_name_payload(n)) == Ok::<NameV, Error>(n),
{
    match n {
        NameV::Module(s) => {
            assert(enc_name(s) + Seq::<u8>::empty() =~= enc_name(s));
            lemma_dec_name_enc(s, Seq::empty());
        },
        NameV::Function(m) => {
            assert(enc_name_map(m) + Seq::<u8>::empty() =~= enc_name_map(m));
            lemma_dec_name_map_enc(m, Seq::empty());
        },
        NameV::Local(m) => {
            assert(enc_indirect_map(m) + Seq::<u8>::empty() =~= enc_indirect_map(m));
            lemma_dec_indirect_map_enc(m, Seq::empty());
        },
        NameV::Label(m) => {
            assert(enc_indirect_map(m) + Seq::<u8>::empty() =~= enc_indirect_map(m));
            lemma_dec_indirect_map_enc(m, Seq::empty());
        },
        NameV::Type(m) => {
            assert(enc_name_map(m) + Seq::<u8>::empty() =~= enc_name_map(m));
            lemma_dec_name_map_enc(m, Seq::empty());
        },
        NameV::Table(m) => {
            assert(enc_name_map(m) + Seq::<u8>::empty() =~= enc_name_map(m));
            lemma_dec_name_map_enc(m, Seq::empty());
        },
        NameV::Memory(m) => {
            assert(enc_name_map(m) + Seq::<u8>::empty() =~= enc_name_map(m));
            lemma_dec_name_map_enc(m, Seq::empty());
        },
        NameV::Global(m) => {
            assert(enc_name_map(m) + Seq::<u8>::empty() =~= enc_name_map(m));
            lemma_dec_name_map_enc(m, Seq::empty());
        },
        NameV::Element(m) => {
            assert(enc_name_map(m) + Seq::<u8>::empty() =~= enc_name_map(m));
            lemma_dec_name_map_enc(m, Seq::empty());
        },
        NameV::Data(m) => {
            assert(enc_name_map(m) + Seq::<u8>::empty() =~= enc_name_map(m));
            lemma_dec_name_map_enc(m, Seq::empty());
        },
    }
}

/// A successful payload parse pins the discriminant: the parsed value's
/// variant matches the byte it was parsed under.
pub proof fn lemma_dec_name_payload_disc(id: u8, p: Seq<u8>)
    ensures
        dec_name_payload(id, p) matches Ok(v) ==> name_disc(v) == id,
{
}

/// Round trip for the `name` section body: decoding the canonical encoding
/// of any well-formed, ordered subsection sequence yields that sequence.
pub proof fn lemma_name_section_round_trip(ns: Seq<NameV>)
    requires
        names_wf(ns),
        names_ordered(ns),
    ensures
        dec_names(enc_names(ns), 0) == Ok::<Seq<NameV>, Error>(ns),
{
    let d = |n: NameV| name_disc(n);
    let ep = |n: NameV| enc_name_payload(n);
    let pd = |id: u8, p: Seq<u8>| dec_name_payload(id, p);
    assert forall|i: int| #![trigger ep(ns[i])] 0 <= i < ns.len() implies pd(d(ns[i]), ep(ns[i]))
        == Ok::<NameV, Error>(ns[i]) && fits_u32(ep(ns[i]).len() as nat) by {
        lemma_dec_name_payload_enc(ns[i]);
    }
    lemma_stream_round_trip(ns, 0, d, ep, pd);
}

/// Monotonicity for the `name` section body: whatever decodes successfully
/// has strictly increasing discriminants.
pub proof fn lemma_name_section_monotonic(b: Seq<u8>)
    ensures
        dec_names(b, 0) matches Ok(ns) ==> names_ordered(ns),
{
    let d = |n: NameV| name_disc(n);
    let pd = |id: u8, p: Seq<u8>| dec_name_payload(id, p);
    assert forall|id: u8, p: Seq<u8>|
        ((#[trigger] pd(id, p)) matches Ok(v) ==> d(v) == id) by {
        lemma_dec_name_payload_disc(id, p);
    }
    lemma_stream_monotonic(b, 0, d, pd);
}

/// `cut` falls on a subsection boundary of the encoded `name` section.
pub open spec fn names_boundary(ns: Seq<NameV>, cut: int) -> bool {
    crate::stream::stream_boundary(
        ns,
        |n: NameV| name_disc(n),
        |n: NameV| enc_name_payload(n),
        cut,
    )
}

/// Fail-fast under truncation for the `name` section body: cutting the
/// canonical encoding at a subsection boundary decodes to exactly the
/// complete subsections before the cut; cutting anywhere else makes the
/// whole decode fail.
pub proof fn lemma_name_section_truncation(ns: Seq<NameV>, cut: int)
    requires
        names_wf(ns),
        names_ordered(ns),
        0 <= cut <= enc_names(ns).len(),
    ensures
        forall|k: int|
            0 <= k <= ns.len() && cut == enc_names(#[trigger] ns.take(k)).len() ==> dec_names(
                enc_names(ns).take(cut),
                0,
            ) == Ok::<Seq<NameV>, Error>(ns.take(k)),
        !names_boundary(ns, cut) ==> dec_names(enc_names(ns).take(cut), 0) is Err,
{
    let d = |n: NameV| name_disc(n);
    let ep = |n: NameV| enc_name_payload(n);
    let pd = |id: u8, p: Seq<u8>| dec_name_payload(id, p);
    assert forall|i: int| #![trigger ep(ns[i])] 0 <= i < ns.len() implies pd(d(ns[i]), ep(ns[i]))
        == Ok::<NameV, Error>(ns[i]) && fits_u32(ep(ns[i]).len() as nat) by {
        lemma_dec_name_payload_enc(ns[i]);
    }
    crate::stream::lemma_stream_truncation(ns, 0, d, ep, pd, cut);
}

impl Name {
    /// The wire discriminant of this subsection's kind.
    pub fn discriminant(&self) -> (r: u8)
        ensures
            r == name_disc(self@),
    {
        match self {
            Name::Module(_) => 0,
            Name::Function(_) => 1,
            Name::Local(_) => 2,
            Name::Label(_) => 3,
            Name::Type(_) => 4,
            Name::Table(_) => 5,
            Name::Memory(_) => 6,
            Name::Global(_) => 7,
            Name::Element(_) => 8,
            Name::Data(_) => 9,
        }
    }
}

impl Writer {
    /// Write one subsection's payload (without its frame).
    fn name_payload(&mut self, name: &Name)
        requires
            name_v_wf(name@),
        ensures
            final(self)@ == old(self)@ + enc_name_payload(name@),
    {
        match name {
            Name::Module(s) => self.name(s.as_str()),
            Name::Function(m) => self.name_map(m),
            Name::Local(m) => self.indirect_name_map(m),
            Name::Label(m) => self.indirect_name_map(m),
            Name::Type(m) => self.name_map(m),
            Name::Table(m) => self.name_map(m),
            Name::Memory(m) => self.name_map(m),
            Name::Global(m) => self.name_map(m),
            Name::Element(m) => self.name_map(m),
            Name::Data(m) => self.name_map(m),
        }
    }

    /// Write out a whole `name` section body.  The subsections must come in
    /// strictly increasing discriminant order and every payload must fit
    /// behind its 32-bit length prefix; a violation is a construction-time
    /// contract error, reported without writing anything.
    pub fn names(&mut self, names: &[Name]) -> (r: Result<(), Error>)
        requires
            forall|i: int|
                #![trigger names@[i]]
                0 <= i < names@.len() ==> name_v_wf(names@[i]@),
        ensures
            match r {
                Ok(_) => {
                    &&& names_ordered(names_view(names@))
                    &&& names_wf(names_view(names@))
                    &&& final(self)@ == old(self)@ + enc_names(names_view(names@))
                },
                Err(e) => {
                    &&& e == Error::BuilderContractViolation
                    &&& !(names_ordered(names_view(names@)) && names_wf(names_view(names@)))
                    &&& final(self)@ == old(self)@
                },
            },
    {
        let ghost v = names_view(names@);
        let mut out = Writer::new();
        let mut min: u32 = 0;
        let mut i: usize = 0;
        while i < names.len()
            invariant
                i <= names@.len(),
                v == names_view(names@),
                forall|a: int|
                    #![trigger names@[a]]
                    0 <= a < names@.len() ==> name_v_wf(names@[a]@),
                forall|a: int, b: int|
                    #![trigger v[a], v[b]]
                    0 <= a < b < i ==> name_disc(v[a]) < name_disc(v[b]),
                forall|a: int| #![trigger v[a]] 0 <= a < i ==> name_disc(v[a]) < min,
                forall|a: int|
                    #![trigger v[a]]
                    0 <= a < i ==> fits_u32(enc_name_payload(v[a]).len() as nat),
                i > 0 ==> min == name_disc(v[i - 1]) as u32 + 1,
                min <= 10,
                i == 0 ==> min == 0,
                out@ == enc_names(v.take(i as int)),
            decreases names@.len() - i,
        {
            let name = &names[i];
            assert(name@ == v[i as int]);
            let disc = name.discriminant();
            if (disc as u32) < min {
                proof {
                    assert(i > 0);
                    assert(disc == name_disc(v[i as int]));
                    assert(min == name_disc(v[i as int - 1]) as u32 + 1);
                    assert(name_disc(v[i as int - 1]) >= name_disc(v[i as int]));
                    let dd = |n: NameV| name_disc(n);
                    assert(dd(v[i as int - 1]) >= dd(v[i as int]));
                    assert(!stream_ordered(v, dd));
                }
                return Err(Error::BuilderContractViolation);
            }
            let mut w = Writer::new();
            w.name_payload(name);
            let payload = w.into_buffer();
            if payload.len() > 0xffff_ffff {
                proof {
                    assert(!fits_u32(enc_name_payload(v[i as int]).len() as nat));
                    assert(!names_wf(v));
                }
                return Err(Error::BuilderContractViolation);
            }
            out.subsection(disc, payload.as_slice());
            proof {
                let dd = |n: NameV| name_disc(n);
                let ep = |n: NameV| enc_name_payload(n);
                assert(v.take(i + 1) =~= v.take(i as int) + seq![v[i as int]]);
                lemma_enc_stream_concat(v.take(i as int), seq![v[i as int]], dd, ep);
                lemma_enc_stream_one(v[i as int], dd, ep);
                assert(out@ == enc_names(v.take(i + 1)));
            }
            min = disc as u32 + 1;
            i = i + 1;
        }
        proof {
            assert(v.take(v.len() as int) =~= v);
        }
        let buf = out.into_buffer();
        self.bytes(buf.as_slice());
        Ok(())
    }
}

impl<'a> Reader<'a> {
    /// Parse one subsection payload under discriminant `id` from a bounded
    /// reader, requiring the payload to be consumed entirely.
    fn name_payload(rd: &mut Reader<'a>, id: u8) -> (r: Result<Name, Error>)
        requires
            old(rd).wf(),
        ensures
            final(rd).wf(),
            match dec_name_payload(id, old(rd).rem()) {
                Ok(nv) => r is Ok && r->Ok_0@ == nv && name_v_wf(nv),
                Err(e) => r is Err && r->Err_0 == e,
            },
    {
        let ghost p = old(rd).rem();
        let value: Name = if id == 0 {
            match rd.name() {
                Ok(s) => {
                    proof {
                        crate::fields::lemma_dec_name_fits(p);
                    }
                    Name::Module(s)
                },
                Err(e) => {
                    return Err(e);
                },
            }
        } else if id == 2 || id == 3 {
            match rd.indirect_name_map() {
                Ok(m) => {
                    proof {
                        crate::fields::lemma_dec_indirect_map_fits(p);
                    }
                    if id == 2 {
                        Name::Local(m)
                    } else {
                        Name::Label(m)
                    }
                },
                Err(e) => {
                    return Err(e);
                },
            }
        } else if id <= 9 {
            match rd.name_map() {
                Ok(m) => {
                    proof {
                        crate::fields::lemma_dec_name_map_fits(p);
                    }
                    if id == 1 {
                        Name::Function(m)
                    } else if id == 4 {
                        Name::Type(m)
                    } else if id == 5 {
                        Name::Table(m)
                    } else if id == 6 {
                        Name::Memory(m)
                    } else if id == 7 {
                        Name::Global(m)
                    } else if id == 8 {
                        Name::Element(m)
                    } else {
                        Name::Data(m)
                    }
                },
                Err(e) => {
                    return Err(e);
                },
            }
        } else {
            return Err(Error::UnknownDiscriminant);
        };
        match rd.end() {
            Some(_) => Ok(value),
            None => Err(Error::TrailingBytes),
        }
    }

    /// Parse a whole `name` section body: an ordered-subsection stream over
    /// the ten name kinds.  An empty body is an empty list; any violation
    /// rejects the whole section.
    pub fn names(&mut self) -> (r: Result<Vec<Name>, Error>)
        requires
            old(self).wf(),
        ensures
            final(self).wf(),
            match dec_names(old(self).rem(), 0) {
                Ok(ns) => {
                    &&& r is Ok
                    &&& names_view(r->Ok_0@) == ns
                    &&& names_values_wf(ns)
                    &&& final(self).rem().len() == 0
                },
                Err(e) => r is Err && r->Err_0 == e,
            },
    {
        let ghost b0 = old(self).rem();
        let mut names: Vec<Name> = Vec::new();
        let mut min: u32 = 0;
        proof {
            assert(names_view(names@) =~= Seq::<NameV>::empty());
        }
        while self.end().is_none()
            invariant
                self.wf(),
                b0 == old(self).rem(),
                min <= 10,
                forall|a: int|
                    #![trigger names@[a]]
                    0 <= a < names@.len() ==> name_v_wf(names@[a]@),
                dec_names(b0, 0) == prepend(
                    names_view(names@),
                    dec_names(self.rem(), min as nat),
                ),
            decreases self.rem().len(),
        {
            let ghost cur = self.rem();
            let ghost acc = names_view(names@);
            let (id, mut rd) = match self.subsection() {
                Ok(p) => p,
                Err(e) => {
                    return Err(e);
                },
            };
            if (id as u32) < min {
                return Err(Error::OutOfOrderField);
            }
            let name = match Reader::name_payload(&mut rd, id) {
                Ok(n) => n,
                Err(e) => {
                    return Err(e);
                },
            };
            proof {
                let nv = dec_name_payload(id, (dec_frame(cur)->Ok_0).0.1)->Ok_0;
                let n = (dec_frame(cur)->Ok_0).1;
                let tail_r = dec_names(cur.skip(n), id as nat + 1);
                assert(dec_names(cur, min as nat) == match tail_r {
                    Ok(t) => Ok::<Seq<NameV>, Error>(seq![nv] + t),
                    Err(e) => Err::<Seq<NameV>, Error>(e),
                });
                match tail_r {
                    Ok(t) => {
                        assert(acc + (seq![nv] + t) =~= acc.push(nv) + t);
                    },
                    Err(_) => {},
                }
            }
            names.push(name);
            proof {
                assert(names_view(names@) =~= acc.push(name@));
            }
            min = id as u32 + 1;
        }
        proof {
            assert(dec_names(self.rem(), min as nat) == Ok::<Seq<NameV>, Error>(Seq::empty()));
            assert(names_view(names@) + Seq::<NameV>::empty() =~= names_view(names@));
            assert forall|i: int|
                #![trigger names_view(names@)[i]]
                0 <= i < names_view(names@).len() implies name_v_wf(names_view(names@)[i]) by {
                assert(names_view(names@)[i] == names@[i]@);
            }
        }
        Ok(names)
    }
}

} // verus!
