//! The `producers` custom section: toolchain provenance records.
//!
//! Unlike the other section kinds this is not an ordered-subsection stream:
//! it is a flat count-prefixed list of groups, each a kind tag (one of three
//! fixed strings) and a count-prefixed list of `(name, version)` pairs.

use vstd::prelude::*;

use crate::error::Error;
use crate::fields::{
    add_off, dec_name, enc_name, fits_u32, lemma_dec_name_enc, lemma_dec_name_fits, name_fits,
};
use crate::reader::Reader;
use crate::varint::{uleb32_dec, uleb_bytes};
use crate::writer::Writer;

verus! {

/// Kind of producer group.
#[derive(Clone, Copy, PartialEq, Eq, Structural, Debug)]
pub enum ProducerKind {
    /// Source language list.
    Language,
    /// Individual tool list.
    ProcessedBy,
    /// SDK list.
    Sdk,
}

/// A versioned software name.
#[derive(Clone, PartialEq, Eq, Debug)]
pub struct VersionedSoftware {
    /// Name of the program/application/tool.
    pub name: String,
    /// Version of the program/application/tool.
    pub version: String,
}

/// One producer group: a kind and its versioned entries.
#[derive(Clone, PartialEq, Eq, Debug)]
pub struct Producer {
    /// Kind of the list.
    pub kind: ProducerKind,
    /// List of versioned names.
    pub list: Vec<VersionedSoftware>,
}

/// The mathematical value of one producer group: its kind and its
/// `(name, version)` entries.
pub type ProducerV = (ProducerKind, Seq<(Seq<char>, Seq<char>)>);

impl View for VersionedSoftware {
    type V = (Seq<char>, Seq<char>);

    open spec fn view(&self) -> (Seq<char>, Seq<char>) {
        (self.name@, self.version@)
    }
}

impl View for Producer {
    type V = ProducerV;

    open spec fn view(&self) -> ProducerV {
        (self.kind, Seq::new(self.list@.len(), |i: int| self.list@[i]@))
    }
}

/// The views of a sequence of producer groups.
pub open spec fn producers_view(s: Seq<Producer>) -> Seq<ProducerV> {
    Seq::new(s.len(), |i: int| s[i]@)
}

/// The fixed tag string of a producer kind.
pub open spec fn kind_chars(k: ProducerKind) -> Seq<char> {
    match k {
        ProducerKind::Language => "language"@,
        ProducerKind::ProcessedBy => "processed-by"@,
        ProducerKind::Sdk => "sdk"@,
    }
}

/// The producer kind of a tag string, if it is one of the three.
pub open spec fn kind_of_chars(s: Seq<char>) -> Option<ProducerKind> {
    if s == "language"@ {
        Some(ProducerKind::Language)
    } else if s == "processed-by"@ {
        Some(ProducerKind::ProcessedBy)
    } else if s == "sdk"@ {
        Some(ProducerKind::Sdk)
    } else {
        None
    }
}

/// Every name and count of a producer sequence fits behind a 32-bit prefix.
pub open spec fn producers_wf(ps: Seq<ProducerV>) -> bool {
    &&& fits_u32(ps.len() as nat)
    &&& forall|i: int|
        #![trigger ps[i]]
        0 <= i < ps.len() ==> fits_u32(ps[i].1.len() as nat) && (forall|j: int|
            #![trigger ps[i].1[j]]
            0 <= j < ps[i].1.len() ==> name_fits(ps[i].1[j].0) && name_fits(ps[i].1[j].1))
}

/// Encoding of a group's `(name, version)` entries, in order.
pub open spec fn enc_vs_entries(l: Seq<(Seq<char>, Seq<char>)>) -> Seq<u8>
    decreases l.len(),
{
    if l.len() == 0 {
        Seq::empty()
    } else {
        enc_name(l[0].0) + enc_name(l[0].1) + enc_vs_entries(l.skip(1))
    }
}

/// Canonical encoding of one producer group.
pub open spec fn enc_producer(p: ProducerV) -> Seq<u8> {
    enc_name(kind_chars(p.0)) + uleb_bytes(p.1.len() as nat) + enc_vs_entries(p.1)
}

/// Encoding of the groups of a producers section, in order.
pub open spec fn enc_producer_entries(ps: Seq<ProducerV>) -> Seq<u8>
    decreases ps.len(),
{
    if ps.len() == 0 {
        Seq::empty()
    } else {
        enc_producer(ps[0]) + enc_producer_entries(ps.skip(1))
    }
}

/// Canonical encoding of a whole producers section body.
pub open spec fn enc_producers(ps: Seq<ProducerV>) -> Seq<u8> {
    uleb_bytes(ps.len() as nat) + enc_producer_entries(ps)
}

/// Decode `count` `(name, version)` pairs from the front of `b`.
pub open spec fn dec_vs_entries(b: Seq<u8>, count: nat, acc: Seq<(Seq<char>, Seq<char>)>) -> Result<
    (Seq<(Seq<char>, Seq<char>)>, int),
    Error,
>
    decreases count,
{
    if count == 0 {
        Ok((acc, 0))
    } else {
        match dec_name(b) {
            Err(e) => Err(e),
            Ok((n, i)) => match dec_name(b.skip(i)) {
                Err(e) => Err(e),
                Ok((v, j)) => add_off(
                    dec_vs_entries(b.skip(i + j), (count - 1) as nat, acc.push((n, v))),
                    i + j,
                ),
            },
        }
    }
}

/// Decode `count` producer groups from the front of `b`.  A kind tag
/// outside the three fixed strings rejects the section.
pub open spec fn dec_producer_entries(b: Seq<u8>, count: nat, acc: Seq<ProducerV>) -> Result<
    (Seq<ProducerV>, int),
    Error,
>
    decreases count,
{
    if count == 0 {
        Ok((acc, 0))
    } else {
        match dec_name(b) {
            Err(e) => Err(e),
            Ok((tag, i)) => match kind_of_chars(tag) {
                None => Err(Error::UnknownDiscriminant),
                Some(kind) => match uleb32_dec(b.skip(i)) {
                    None => Err(Error::MalformedInteger),
                    Some((n, j)) => match dec_vs_entries(b.skip(i + j), n as nat, Seq::empty()) {
                        Err(e) => Err(e),
                        Ok((l, k)) => add_off(
                            dec_producer_entries(
                                b.skip(i + j + k),
                                (count - 1) as nat,
                                acc.push((kind, l)),
                            ),
                            i + j + k,
                        ),
                    },
                },
            },
        }
    }
}

/// Decode a whole producers section body from the front of `b`.
pub open spec fn dec_producers(b: Seq<u8>) -> Result<(Seq<ProducerV>, int), Error> {
    match uleb32_dec(b) {
        None => Err(Error::MalformedInteger),
        Some((count, i)) => add_off(dec_producer_entries(b.skip(i), count as nat, Seq::empty()), i),
    }
}

impl ProducerKind {
    /// The fixed tag string of this kind.
    pub fn tag(&self) -> (r: &'static str)
        ensures
            r@ == kind_chars(*self),
    {
        match self {
            ProducerKind::Language => "language",
            ProducerKind::ProcessedBy => "processed-by",
            ProducerKind::Sdk => "sdk",
        }
    }
}

/// A kind's tag string fits behind a length prefix and names exactly that
/// kind.
pub proof fn lemma_kind_tag(k: ProducerKind)
    ensures
        name_fits(kind_chars(k)),
        kind_of_chars(kind_chars(k)) == Some(k),
{
    reveal_strlit("language");
    reveal_strlit("processed-by");
    reveal_strlit("sdk");
    crate::fields::lemma_encode_utf8_len(kind_chars(k));
    assert("language"@.len() == 8);
    assert("processed-by"@.len() == 12);
    assert("sdk"@.len() == 3);
}

/// Decoding `(name, version)` entries reads only the bytes it consumes:
/// on a truncated copy of the buffer the decode returns the same entries
/// when their bytes survived the cut, and fails when they did not.
#[verifier::rlimit(100)]
#[verifier::spinoff_prover]
pub proof fn lemma_dec_vs_entries_prefix(
    b: Seq<u8>,
    cut: int,
    count: nat,
    acc: Seq<(Seq<char>, Seq<char>)>,
)
    requires
        0 <= cut <= b.len(),
    ensures
        dec_vs_entries(b, count, acc) matches Ok(p) ==> if p.1 <= cut {
            dec_vs_entries(b.take(cut), count, acc) == Ok::<
                (Seq<(Seq<char>, Seq<char>)>, int),
                Error,
            >(p)
        } else {
            dec_vs_entries(b.take(cut), count, acc) is Err
        },
    decreases count,
{
    if count > 0 && dec_vs_entries(b, count, acc) is Ok {
        let t = b.take(cut);
        crate::fields::lemma_dec_name_prefix(b, cut);
        crate::fields::lemma_dec_name_pos(b);
        let p1 = dec_name(b)->Ok_0;
        crate::fields::lemma_dec_name_pos(b.skip(p1.1));
        let p2x = dec_name(b.skip(p1.1))->Ok_0;
        lemma_dec_vs_entries_pos(
            b.skip(p1.1 + p2x.1),
            (count - 1) as nat,
            acc.push((p1.0, p2x.0)),
        );
        if p1.1 <= cut {
            assert(dec_name(t) == Ok::<(Seq<char>, int), Error>(p1));
            assert(t.skip(p1.1) =~= b.skip(p1.1).take(cut - p1.1));
            crate::fields::lemma_dec_name_prefix(b.skip(p1.1), cut - p1.1);
            crate::fields::lemma_dec_name_pos(b.skip(p1.1));
            let p2 = dec_name(b.skip(p1.1))->Ok_0;
            if p1.1 + p2.1 <= cut {
                assert(dec_name(t.skip(p1.1)) == Ok::<(Seq<char>, int), Error>(p2));
                assert(t.skip(p1.1 + p2.1) =~= b.skip(p1.1 + p2.1).take(cut - p1.1 - p2.1));
                lemma_dec_vs_entries_prefix(
                    b.skip(p1.1 + p2.1),
                    cut - p1.1 - p2.1,
                    (count - 1) as nat,
                    acc.push((p1.0, p2.0)),
                );
                let inner = dec_vs_entries(
                    b.skip(p1.1 + p2.1),
                    (count - 1) as nat,
                    acc.push((p1.0, p2.0)),
                );
                match inner {
                    Err(_) => {},
                    Ok(p3) => {
                        if p3.1 <= cut - p1.1 - p2.1 {
                            assert(dec_vs_entries(
                                t.skip(p1.1 + p2.1),
                                (count - 1) as nat,
                                acc.push((p1.0, p2.0)),
                            ) == Ok::<(Seq<(Seq<char>, Seq<char>)>, int), Error>(p3));
                        } else {
                            assert(dec_vs_entries(
                                t.skip(p1.1 + p2.1),
                                (count - 1) as nat,
                                acc.push((p1.0, p2.0)),
                            ) is Err);
                        }
                    },
                }
            } else {
                assert(dec_name(t.skip(p1.1)) is Err);
            }
        } else {
            assert(dec_name(t) is Err);
        }
    }
}

/// Decoding producer groups reads only the bytes it consumes: on a
/// truncated copy of the buffer the decode returns the same groups when
/// their bytes survived the cut, and fails when they did not.
#[verifier::rlimit(100)]
#[verifier::spinoff_prover]
pub proof fn lemma_dec_producer_entries_prefix(
    b: Seq<u8>,
    cut: int,
    count: nat,
    acc: Seq<ProducerV>,
)
    requires
        0 <= cut <= b.len(),
    ensures
        dec_producer_entries(b, count, acc) matches Ok(p) ==> if p.1 <= cut {
            dec_producer_entries(b.take(cut), count, acc) == Ok::<(Seq<ProducerV>, int), Error>(p)
        } else {
            dec_producer_entries(b.take(cut), count, acc) is Err
        },
    decreases count,
{
    if count > 0 && dec_producer_entries(b, count, acc) is Ok {
        let t = b.take(cut);
        crate::fields::lemma_dec_name_prefix(b, cut);
        crate::fields::lemma_dec_name_pos(b);
        let p1 = dec_name(b)->Ok_0;
        crate::varint::lemma_uleb32_from_pos(b.skip(p1.1), 0, 0, 0);
        let p2x = uleb32_dec(b.skip(p1.1))->0;
        lemma_dec_vs_entries_pos(b.skip(p1.1 + p2x.1), p2x.0 as nat, Seq::empty());
        let p3x = dec_vs_entries(b.skip(p1.1 + p2x.1), p2x.0 as nat, Seq::empty())->Ok_0;
        lemma_dec_producer_entries_pos(
            b.skip(p1.1 + p2x.1 + p3x.1),
            (count - 1) as nat,
            acc.push((kind_of_chars(p1.0)->0, p3x.0)),
        );
        if p1.1 <= cut {
            assert(t.skip(p1.1) =~= b.skip(p1.1).take(cut - p1.1));
            crate::varint::lemma_uleb32_from_prefix(b.skip(p1.1), cut - p1.1, 0, 0, 0);
            let p2 = uleb32_dec(b.skip(p1.1))->0;
            crate::varint::lemma_uleb32_from_pos(b.skip(p1.1), 0, 0, 0);
            assert(0 < p2.1 <= b.skip(p1.1).len());
            if p1.1 + p2.1 <= cut {
                assert(t.skip(p1.1 + p2.1) =~= b.skip(p1.1 + p2.1).take(cut - p1.1 - p2.1));
                lemma_dec_vs_entries_prefix(
                    b.skip(p1.1 + p2.1),
                    cut - p1.1 - p2.1,
                    p2.0 as nat,
                    Seq::empty(),
                );
                match dec_vs_entries(b.skip(p1.1 + p2.1), p2.0 as nat, Seq::empty()) {
                    Err(_) => {},
                    Ok(p3) => {
                        assert(p3.1 >= 0) by {
                            lemma_dec_vs_entries_pos(
                                b.skip(p1.1 + p2.1),
                                p2.0 as nat,
                                Seq::empty(),
                            );
                        }
                        if p1.1 + p2.1 + p3.1 <= cut {
                            assert(t.skip(p1.1 + p2.1 + p3.1) =~= b.skip(
                                p1.1 + p2.1 + p3.1,
                            ).take(cut - p1.1 - p2.1 - p3.1));
                            lemma_dec_producer_entries_prefix(
                                b.skip(p1.1 + p2.1 + p3.1),
                                cut - p1.1 - p2.1 - p3.1,
                                (count - 1) as nat,
                                acc.push((kind_of_chars(p1.0)->0, p3.0)),
                            );
                        }
                    },
                }
            }
        }
    }
}

/// A successful entries decode never consumes a negative number of bytes.
pub proof fn lemma_dec_vs_entries_pos(b: Seq<u8>, count: nat, acc: Seq<(Seq<char>, Seq<char>)>)
    ensures
        dec_vs_entries(b, count, acc) matches Ok(p) ==> 0 <= p.1 <= b.len(),
    decreases count,
{
    if count > 0 && dec_vs_entries(b, count, acc) is Ok {
        let p1 = dec_name(b)->Ok_0;
        crate::varint::lemma_uleb32_from_pos(b, 0, 0, 0);
        let p2 = dec_name(b.skip(p1.1))->Ok_0;
        crate::varint::lemma_uleb32_from_pos(b.skip(p1.1), 0, 0, 0);
        lemma_dec_vs_entries_pos(b.skip(p1.1 + p2.1), (count - 1) as nat, acc.push((p1.0, p2.0)));
    }
}

/// A successful groups decode never consumes a negative number of bytes.
pub proof fn lemma_dec_producer_entries_pos(b: Seq<u8>, count: nat, acc: Seq<ProducerV>)
    ensures
        dec_producer_entries(b, count, acc) matches Ok(p) ==> 0 <= p.1 <= b.len(),
    decreases count,
{
    if count > 0 && dec_producer_entries(b, count, acc) is Ok {
        crate::fields::lemma_dec_name_pos(b);
        let p1 = dec_name(b)->Ok_0;
        crate::varint::lemma_uleb32_from_pos(b.skip(p1.1), 0, 0, 0);
        let p2 = uleb32_dec(b.skip(p1.1))->0;
        lemma_dec_vs_entries_pos(b.skip(p1.1 + p2.1), p2.0 as nat, Seq::empty());
        let p3 = dec_vs_entries(b.skip(p1.1 + p2.1), p2.0 as nat, Seq::empty())->Ok_0;
        lemma_dec_producer_entries_pos(
            b.skip(p1.1 + p2.1 + p3.1),
            (count - 1) as nat,
            acc.push((kind_of_chars(p1.0)->0, p3.0)),
        );
    }
}

/// Fail-fast under truncation for the producers section body: it is a
/// single count-prefixed unit, so cutting its canonical encoding anywhere
/// before its end makes the whole decode fail.
pub proof fn lemma_producers_truncation(ps: Seq<ProducerV>, cut: int)
    requires
        producers_wf(ps),
        0 <= cut < enc_producers(ps).len(),
    ensures
        dec_producers(enc_producers(ps).take(cut)) is Err,
{
    let b = enc_producers(ps);
    let t = b.take(cut);
    lemma_producers_round_trip(ps, Seq::empty());
    assert(enc_producers(ps) + Seq::<u8>::empty() =~= enc_producers(ps));
    assert(dec_producers(b) == Ok::<(Seq<ProducerV>, int), Error>((ps, b.len() as int)));
    crate::varint::lemma_uleb32_from_prefix(b, cut, 0, 0, 0);
    match uleb32_dec(b) {
        None => {},
        Some((count, i)) => {
            crate::varint::lemma_uleb32_from_pos(b, 0, 0, 0);
            if i <= cut {
                assert(t.skip(i) =~= b.skip(i).take(cut - i));
                lemma_dec_producer_entries_prefix(b.skip(i), cut - i, count as nat, Seq::empty());
            }
        },
    }
}

impl<'a> Reader<'a> {
    /// Parse the `(name, version)` entries of one producer group.
    fn versioned_software(&mut self, count: u32) -> (r: Result<Vec<VersionedSoftware>, Error>)
        requires
            old(self).wf(),
        ensures
            final(self).wf(),
            match dec_vs_entries(old(self).rem(), count as nat, Seq::empty()) {
                Ok(p) => {
                    &&& r is Ok
                    &&& Seq::new(r->Ok_0@.len(), |i: int| r->Ok_0@[i]@) == p.0
                    &&& p.0.len() == count as int
                    &&& forall|j: int|
                        #![trigger p.0[j]]
                        0 <= j < p.0.len() ==> name_fits(p.0[j].0) && name_fits(p.0[j].1)
                    &&& final(self).rem() == old(self).rem().skip(p.1)
                    &&& 0 <= p.1 <= old(self).rem().len()
                },
                Err(e) => r is Err && r->Err_0 == e,
            },
    {
        let ghost b = old(self).rem();
        let mut list: Vec<VersionedSoftware> = Vec::new();
        let mut k: u32 = 0;
        let ghost mut done: int = 0;
        proof {
            assert(Seq::new(list@.len(), |i: int| list@[i]@) =~= Seq::<
                (Seq<char>, Seq<char>),
            >::empty());
            assert(b.skip(0) =~= b);
            crate::fields::lemma_add_off_zero(dec_vs_entries(b, count as nat, Seq::empty()));
        }
        while k < count
            invariant
                self.wf(),
                b == old(self).rem(),
                k <= count,
                0 <= done <= b.len(),
                self.rem() == b.skip(done),
                list@.len() == k,
                forall|j: int|
                    #![trigger list@[j]]
                    0 <= j < list@.len() ==> name_fits(list@[j]@.0) && name_fits(list@[j]@.1),
                dec_vs_entries(b, count as nat, Seq::empty()) == crate::fields::add_off(
                    dec_vs_entries(
                        b.skip(done),
                        (count - k) as nat,
                        Seq::new(list@.len(), |i: int| list@[i]@),
                    ),
                    done,
                ),
            decreases count - k,
        {
            let ghost cur = b.skip(done);
            let ghost acc = Seq::new(list@.len(), |i: int| list@[i]@);
            let name = match self.name() {
                Ok(s) => s,
                Err(e) => {
                    return Err(e);
                },
            };
            let ghost i1 = dec_name(cur)->Ok_0.1;
            let version = match self.name() {
                Ok(s) => s,
                Err(e) => {
                    proof {
                        crate::fields::lemma_skip_skip(b, done, i1);
                    }
                    return Err(e);
                },
            };
            proof {
                crate::fields::lemma_skip_skip(b, done, i1);
                crate::fields::lemma_dec_name_fits(cur);
                crate::fields::lemma_dec_name_fits(cur.skip(i1));
                let p2 = dec_name(cur.skip(i1))->Ok_0;
                crate::fields::lemma_skip_skip(b, done, i1 + p2.1);
                crate::fields::lemma_skip_skip(b, done + i1, p2.1);
                crate::fields::lemma_add_off_add(
                    dec_vs_entries(
                        b.skip(done + i1 + p2.1),
                        (count - k - 1) as nat,
                        acc.push((name@, version@)),
                    ),
                    i1 + p2.1,
                    done,
                );
                done = done + i1 + p2.1;
            }
            list.push(VersionedSoftware { name, version });
            proof {
                assert(Seq::new(list@.len(), |i: int| list@[i]@) =~= acc.push(
                    (list@[list@.len() - 1].name@, list@[list@.len() - 1].version@),
                ));
            }
            k = k + 1;
        }
        proof {
            assert(b.skip(done).len() == b.len() - done);
        }
        Ok(list)
    }

    /// Parse a whole producers section body: a count-prefixed list of
    /// producer groups, each a kind tag and its versioned entries.
    pub fn producers(&mut self) -> (r: Result<Vec<Producer>, Error>)
        requires
            old(self).wf(),
        ensures
            final(self).wf(),
            match dec_producers(old(self).rem()) {
                Ok(p) => {
                    &&& r is Ok
                    &&& producers_view(r->Ok_0@) == p.0
                    &&& producers_wf(p.0)
                    &&& final(self).rem() == old(self).rem().skip(p.1)
                    &&& 0 < p.1 <= old(self).rem().len()
                },
                Err(e) => r is Err && r->Err_0 == e,
            },
    {
        let ghost b0 = old(self).rem();
        let count = match self.integer() {
            Some(v) => v,
            None => {
                return Err(Error::MalformedInteger);
            },
        };
        let ghost n0 = (uleb32_dec(b0)->0).1;
        let ghost b = b0.skip(n0);
        let mut groups: Vec<Producer> = Vec::new();
        let mut k: u32 = 0;
        let ghost mut done: int = 0;
        proof {
            assert(producers_view(groups@) =~= Seq::<ProducerV>::empty());
            assert(b.skip(0) =~= b);
            crate::fields::lemma_add_off_zero(
                dec_producer_entries(b, count as nat, Seq::empty()),
            );
        }
        while k < count
            invariant
                self.wf(),
                b0 == old(self).rem(),
                b == b0.skip(n0),
                0 < n0 <= b0.len(),
                uleb32_dec(b0) == Some((count, n0)),
                k <= count,
                0 <= done <= b.len(),
                self.rem() == b.skip(done),
                producers_wf(producers_view(groups@)),
                groups@.len() == k,
                dec_producer_entries(b, count as nat, Seq::empty()) == crate::fields::add_off(
                    dec_producer_entries(b.skip(done), (count - k) as nat, producers_view(groups@)),
                    done,
                ),
            decreases count - k,
        {
            let ghost cur = b.skip(done);
            let ghost acc = producers_view(groups@);
            let tag = match self.name() {
                Ok(s) => s,
                Err(e) => {
                    return Err(e);
                },
            };
            let ghost i1 = dec_name(cur)->Ok_0.1;
            let kind = if tag == "language".to_owned() {
                ProducerKind::Language
            } else if tag == "processed-by".to_owned() {
                ProducerKind::ProcessedBy
            } else if tag == "sdk".to_owned() {
                ProducerKind::Sdk
            } else {
                proof {
                    assert(kind_of_chars(tag@) is None);
                }
                return Err(Error::UnknownDiscriminant);
            };
            assert(kind_of_chars(tag@) == Some(kind));
            let n = match self.integer() {
                Some(v) => v,
                None => {
                    proof {
                        crate::fields::lemma_skip_skip(b, done, i1);
                    }
                    return Err(Error::MalformedInteger);
                },
            };
            let ghost i2 = (uleb32_dec(cur.skip(i1))->0).1;
            proof {
                crate::fields::lemma_skip_skip(b, done, i1);
                crate::fields::lemma_skip_skip(b, done, i1 + i2);
                crate::fields::lemma_skip_skip(b, done + i1, i2);
            }
            let list = match self.versioned_software(n) {
                Ok(l) => l,
                Err(e) => {
                    return Err(e);
                },
            };
            proof {
                let p3 = dec_vs_entries(cur.skip(i1 + i2), n as nat, Seq::empty())->Ok_0;
                crate::fields::lemma_skip_skip(b, done, i1 + i2 + p3.1);
                crate::fields::lemma_skip_skip(b, done + i1 + i2, p3.1);
                crate::fields::lemma_add_off_add(
                    dec_producer_entries(
                        b.skip(done + i1 + i2 + p3.1),
                        (count - k - 1) as nat,
                        acc.push((kind, p3.0)),
                    ),
                    i1 + i2 + p3.1,
                    done,
                );
                done = done + i1 + i2 + p3.1;
            }
            let producer = Producer { kind, list };
            let ghost pv = producer@;
            proof {
                let p3 = dec_vs_entries(cur.skip(i1 + i2), n as nat, Seq::empty())->Ok_0;
                assert(pv.1 == p3.0);
            }
            groups.push(producer);
            proof {
                assert(producers_view(groups@) =~= acc.push(pv));
                let w = producers_view(groups@);
                assert forall|ii: int| #![trigger w[ii]] 0 <= ii < w.len() implies fits_u32(
                    w[ii].1.len() as nat,
                ) && (forall|jj: int|
                    #![trigger w[ii].1[jj]]
                    0 <= jj < w[ii].1.len() ==> name_fits(w[ii].1[jj].0) && name_fits(
                        w[ii].1[jj].1,
                    )) by {
                    if ii < acc.len() {
                        assert(w[ii] == acc[ii]);
                    } else {
                        assert(w[ii] == pv);
                    }
                }
            }
            k = k + 1;
        }
        proof {
            assert(b.skip(done).len() == b.len() - done);
            crate::fields::lemma_skip_skip(b0, n0, done);
        }
        Ok(groups)
    }
}

impl Writer {
    /// Write out a whole producers section body.
    pub fn producers(&mut self, producers: &[Producer])
        requires
            producers_wf(producers_view(producers@)),
        ensures
            final(self)@ == old(self)@ + enc_producers(producers_view(producers@)),
    {
        let ghost v = producers_view(producers@);
        let count = producers.len();
        self.integer(count as u32);
        let mut i: usize = 0;
        while i < count
            invariant
                count == producers@.len(),
                v == producers_view(producers@),
                producers_wf(v),
                i <= count,
                self@ == old(self)@ + uleb_bytes(count as nat) + enc_producer_entries(
                    v.take(i as int),
                ),
            decreases count - i,
        {
            let producer = &producers[i];
            assert(producer@ == v[i as int]);
            proof {
                lemma_kind_tag(producer.kind);
            }
            self.name(producer.kind.tag());
            let n = producer.list.len();
            self.integer(n as u32);
            let mut j: usize = 0;
            let ghost base = self@;
            while j < n
                invariant
                    n == producer.list@.len(),
                    producer@ == v[i as int],
                    0 <= i < v.len(),
                    producers_wf(v),
                    j <= n,
                    self@ == base + enc_vs_entries(v[i as int].1.take(j as int)),
                decreases n - j,
            {
                let entry = &producer.list[j];
                assert(entry@ == v[i as int].1[j as int]);
                self.name(entry.name.as_str());
                self.name(entry.version.as_str());
                proof {
                    let l = v[i as int].1;
                    assert(l.take(j + 1) =~= l.take(j as int) + seq![l[j as int]]);
                    lemma_enc_vs_entries_concat(l.take(j as int), seq![l[j as int]]);
                    lemma_enc_vs_entries_one(l[j as int]);
                    assert(self@ =~= base + enc_vs_entries(l.take(j + 1)));
                }
                j = j + 1;
            }
            proof {
                let l = v[i as int].1;
                assert(l.take(l.len() as int) =~= l);
                assert(v.take(i + 1) =~= v.take(i as int) + seq![v[i as int]]);
                lemma_enc_producer_entries_concat(v.take(i as int), seq![v[i as int]]);
                lemma_enc_producer_entries_one(v[i as int]);
                assert(self@ =~= old(self)@ + uleb_bytes(count as nat) + enc_producer_entries(
                    v.take(i + 1),
                ));
            }
            i = i + 1;
        }
        proof {
            assert(v.take(count as int) =~= v);
            assert(old(self)@ + uleb_bytes(count as nat) + enc_producer_entries(v) =~= old(
                self,
            )@ + enc_producers(v));
        }
    }
}

/// A single `(name, version)` entry encodes to its two names.
pub proof fn lemma_enc_vs_entries_one(e: (Seq<char>, Seq<char>))
    ensures
        enc_vs_entries(seq![e]) == enc_name(e.0) + enc_name(e.1),
{
    let s = seq![e];
    assert(s.len() == 1);
    assert(s[0] == e);
    assert(s.skip(1) =~= Seq::<(Seq<char>, Seq<char>)>::empty());
    assert(enc_vs_entries(s.skip(1)) == Seq::<u8>::empty());
    assert(enc_vs_entries(s) == enc_name(e.0) + enc_name(e.1) + enc_vs_entries(s.skip(1)));
    assert(enc_name(e.0) + enc_name(e.1) + Seq::<u8>::empty() =~= enc_name(e.0) + enc_name(e.1));
}

/// A single producer group encodes to that group alone.
pub proof fn lemma_enc_producer_entries_one(e: ProducerV)
    ensures
        enc_producer_entries(seq![e]) == enc_producer(e),
{
    let s = seq![e];
    assert(s.len() == 1);
    assert(s[0] == e);
    assert(s.skip(1) =~= Seq::<ProducerV>::empty());
    assert(enc_producer_entries(s.skip(1)) == Seq::<u8>::empty());
    assert(enc_producer_entries(s) == enc_producer(e) + enc_producer_entries(s.skip(1)));
    assert(enc_producer(e) + Seq::<u8>::empty() =~= enc_producer(e));
}

/// `(name, version)` entries encode piecewise.
pub proof fn lemma_enc_vs_entries_concat(a: Seq<(Seq<char>, Seq<char>)>, b: Seq<(Seq<char>, Seq<char>)>)
    ensures
        enc_vs_entries(a + b) == enc_vs_entries(a) + enc_vs_entries(b),
    decreases a.len(),
{
    if a.len() == 0 {
        assert(a + b =~= b);
        assert(enc_vs_entries(a) + enc_vs_entries(b) =~= enc_vs_entries(b));
    } else {
        assert((a + b).skip(1) =~= a.skip(1) + b);
        lemma_enc_vs_entries_concat(a.skip(1), b);
        assert((a + b)[0] == a[0]);
        assert(enc_vs_entries(a + b) =~= enc_vs_entries(a) + enc_vs_entries(b));
    }
}

/// Producer groups encode piecewise.
pub proof fn lemma_enc_producer_entries_concat(a: Seq<ProducerV>, b: Seq<ProducerV>)
    ensures
        enc_producer_entries(a + b) == enc_producer_entries(a) + enc_producer_entries(b),
    decreases a.len(),
{
    if a.len() == 0 {
        assert(a + b =~= b);
        assert(enc_producer_entries(a) + enc_producer_entries(b) =~= enc_producer_entries(b));
    } else {
        assert((a + b).skip(1) =~= a.skip(1) + b);
        lemma_enc_producer_entries_concat(a.skip(1), b);
        assert((a + b)[0] == a[0]);
        assert(enc_producer_entries(a + b) =~= enc_producer_entries(a) + enc_producer_entries(b));
    }
}

// ---------------------------------------------------------------------------
// Round trip
// ---------------------------------------------------------------------------
/// `(name, version)` entries decode back to the accumulator followed by
/// those entries.
#[verifier::rlimit(100)]
#[verifier::spinoff_prover]
pub proof fn lemma_dec_vs_entries_enc(
    l: Seq<(Seq<char>, Seq<char>)>,
    acc: Seq<(Seq<char>, Seq<char>)>,
    rest: Seq<u8>,
)
    requires
        forall|j: int|
            #![trigger l[j]]
            0 <= j < l.len() ==> name_fits(l[j].0) && name_fits(l[j].1),
    ensures
        dec_vs_entries(enc_vs_entries(l) + rest, l.len() as nat, acc) == Ok::<
            (Seq<(Seq<char>, Seq<char>)>, int),
            Error,
        >((acc + l, enc_vs_entries(l).len() as int)),
    decreases l.len(),
{
    if l.len() == 0 {
        assert(acc + l =~= acc);
        assert(enc_vs_entries(l) + rest =~= rest);
    } else {
        let e1 = enc_name(l[0].0);
        let e2 = enc_name(l[0].1);
        let e3 = enc_vs_entries(l.skip(1));
        let b = enc_vs_entries(l) + rest;
        assert(b =~= e1 + (e2 + (e3 + rest)));
        lemma_dec_name_enc(l[0].0, e2 + (e3 + rest));
        let l1 = e1.len() as int;
        assert(b.skip(l1) =~= e2 + (e3 + rest));
        lemma_dec_name_enc(l[0].1, e3 + rest);
        let l2 = e2.len() as int;
        assert(dec_name(b.skip(l1)) == Ok::<(Seq<char>, int), Error>((l[0].1, l2)));
        assert(b.skip(l1 + l2) =~= e3 + rest);
        assert forall|j: int| #![trigger l.skip(1)[j]] 0 <= j < l.skip(1).len() implies name_fits(
            l.skip(1)[j].0,
        ) && name_fits(l.skip(1)[j].1) by {
            assert(l.skip(1)[j] == l[j + 1]);
        }
        lemma_dec_vs_entries_enc(l.skip(1), acc.push(l[0]), rest);
        assert(acc.push(l[0]) + l.skip(1) =~= acc + l);
        crate::fields::lemma_add_off_add(
            dec_vs_entries(e3 + rest, l.skip(1).len() as nat, acc.push(l[0])),
            0,
            l1 + l2,
        );
    }
}

/// Producer groups decode back to the accumulator followed by those groups.
#[verifier::rlimit(100)]
#[verifier::spinoff_prover]
pub proof fn lemma_dec_producer_entries_enc(ps: Seq<ProducerV>, acc: Seq<ProducerV>, rest: Seq<u8>)
    requires
        forall|i: int|
            #![trigger ps[i]]
            0 <= i < ps.len() ==> fits_u32(ps[i].1.len() as nat) && (forall|j: int|
                #![trigger ps[i].1[j]]
                0 <= j < ps[i].1.len() ==> name_fits(ps[i].1[j].0) && name_fits(ps[i].1[j].1)),
    ensures
        dec_producer_entries(enc_producer_entries(ps) + rest, ps.len() as nat, acc) == Ok::<
            (Seq<ProducerV>, int),
            Error,
        >((acc + ps, enc_producer_entries(ps).len() as int)),
    decreases ps.len(),
{
    if ps.len() == 0 {
        assert(acc + ps =~= acc);
        assert(enc_producer_entries(ps) + rest =~= rest);
    } else {
        let p = ps[0];
        let e1 = enc_name(kind_chars(p.0));
        let e2 = uleb_bytes(p.1.len() as nat);
        let e3 = enc_vs_entries(p.1);
        let e4 = enc_producer_entries(ps.skip(1));
        let b = enc_producer_entries(ps) + rest;
        assert(b =~= e1 + (e2 + (e3 + (e4 + rest))));
        lemma_kind_tag(p.0);
        lemma_dec_name_enc(kind_chars(p.0), e2 + (e3 + (e4 + rest)));
        let l1 = e1.len() as int;
        assert(b.skip(l1) =~= e2 + (e3 + (e4 + rest)));
        crate::varint::lemma_uleb32_dec_prefix(p.1.len() as nat, e3 + (e4 + rest));
        let l2 = e2.len() as int;
        assert(uleb32_dec(b.skip(l1)) == Some((p.1.len() as u32, l2)));
        assert(b.skip(l1 + l2) =~= e3 + (e4 + rest));
        lemma_dec_vs_entries_enc(p.1, Seq::empty(), e4 + rest);
        assert(Seq::<(Seq<char>, Seq<char>)>::empty() + p.1 =~= p.1);
        let l3 = e3.len() as int;
        assert(b.skip(l1 + l2 + l3) =~= e4 + rest);
        assert forall|i: int| #![trigger ps.skip(1)[i]] 0 <= i < ps.skip(1).len() implies fits_u32(
            ps.skip(1)[i].1.len() as nat,
        ) && (forall|j: int|
            #![trigger ps.skip(1)[i].1[j]]
            0 <= j < ps.skip(1)[i].1.len() ==> name_fits(ps.skip(1)[i].1[j].0) && name_fits(
                ps.skip(1)[i].1[j].1,
            )) by {
            assert(ps.skip(1)[i] == ps[i + 1]);
        }
        lemma_dec_producer_entries_enc(ps.skip(1), acc.push((p.0, p.1)), rest);
        assert(acc.push((p.0, p.1)) + ps.skip(1) =~= acc + ps);
        crate::fields::lemma_add_off_add(
            dec_producer_entries(e4 + rest, ps.skip(1).len() as nat, acc.push((p.0, p.1))),
            0,
            l1 + l2 + l3,
        );
    }
}

/// Round trip for the producers section body: decoding the canonical
/// encoding of any well-formed producer sequence yields that sequence and
/// consumes exactly the encoding.
pub proof fn lemma_producers_round_trip(ps: Seq<ProducerV>, rest: Seq<u8>)
    requires
        producers_wf(ps),
    ensures
        dec_producers(enc_producers(ps) + rest) == Ok::<(Seq<ProducerV>, int), Error>(
            (ps, enc_producers(ps).len() as int),
        ),
{
    let e0 = uleb_bytes(ps.len() as nat);
    let e1 = enc_producer_entries(ps);
    let b = enc_producers(ps) + rest;
    assert(b =~= e0 + (e1 + rest));
    crate::varint::lemma_uleb32_dec_prefix(ps.len() as nat, e1 + rest);
    let l0 = e0.len() as int;
    assert(uleb32_dec(b) == Some((ps.len() as u32, l0)));
    assert(b.skip(l0) =~= e1 + rest);
    lemma_dec_producer_entries_enc(ps, Seq::empty(), rest);
    assert(Seq::<ProducerV>::empty() + ps =~= ps);
}

} // verus!
