//! The framed, ordered subsection stream.
//!
//! Every extensible section kind reuses one wire unit — `(discriminant,
//! length, payload)` — and one validity rule: across the whole stream the
//! discriminants must be strictly increasing, every payload must parse under
//! its discriminant's grammar with nothing left over, and a single violation
//! anywhere rejects the whole stream with no partial result.  The decoder
//! and its laws are stated once here, over an arbitrary element type and
//! payload grammar.

use vstd::prelude::*;

use crate::error::Error;
use crate::fields::{dec_frame, enc_frame, fits_u32, lemma_dec_frame_enc, lemma_dec_frame_pos};

verus! {

/// Decode a whole buffer as a stream of framed units.  `min` is the lowest
/// discriminant still allowed; `pd` parses one payload under its
/// discriminant's grammar, requiring full consumption.  An empty buffer is
/// an empty stream, not an error.
pub open spec fn dec_stream<V>(
    b: Seq<u8>,
    min: nat,
    pd: spec_fn(u8, Seq<u8>) -> Result<V, Error>,
) -> Result<Seq<V>, Error>
    decreases b.len(),
    via dec_stream_decreases::<V>
{
    if b.len() == 0 {
        Ok(Seq::empty())
    } else {
        match dec_frame(b) {
            Err(e) => Err(e),
            Ok(((id, payload), n)) => if (id as nat) < min {
                Err(Error::OutOfOrderField)
            } else {
                match pd(id, payload) {
                    Err(e) => Err(e),
                    Ok(v) => match dec_stream(b.skip(n), id as nat + 1, pd) {
                        Err(e) => Err(e),
                        Ok(tail) => Ok(seq![v] + tail),
                    },
                }
            },
        }
    }
}

#[via_fn]
proof fn dec_stream_decreases<V>(
    b: Seq<u8>,
    min: nat,
    pd: spec_fn(u8, Seq<u8>) -> Result<V, Error>,
) {
    if b.len() != 0 {
        lemma_dec_frame_pos(b);
    }
}

/// Canonical encoding of a stream: each element's payload framed under its
/// discriminant, in order.
pub open spec fn enc_stream<V>(
    ns: Seq<V>,
    d: spec_fn(V) -> u8,
    ep: spec_fn(V) -> Seq<u8>,
) -> Seq<u8>
    decreases ns.len(),
{
    if ns.len() == 0 {
        Seq::empty()
    } else {
        enc_frame(d(ns[0]), ep(ns[0])) + enc_stream(ns.skip(1), d, ep)
    }
}

/// Prefix an already-decoded accumulator onto the rest of a stream decode:
/// a failure further in rejects the whole stream.
pub open spec fn prepend<V>(a: Seq<V>, r: Result<Seq<V>, Error>) -> Result<Seq<V>, Error> {
    match r {
        Ok(t) => Ok(a + t),
        Err(e) => Err(e),
    }
}

/// The discriminants are strictly increasing across the stream.
pub open spec fn stream_ordered<V>(ns: Seq<V>, d: spec_fn(V) -> u8) -> bool {
    forall|i: int, j: int|
        #![trigger d(ns[i]), d(ns[j])]
        0 <= i < j < ns.len() ==> d(ns[i]) < d(ns[j])
}

/// Streams encode piecewise.
pub proof fn lemma_enc_stream_concat<V>(
    a: Seq<V>,
    b: Seq<V>,
    d: spec_fn(V) -> u8,
    ep: spec_fn(V) -> Seq<u8>,
)
    ensures
        enc_stream(a + b, d, ep) == enc_stream(a, d, ep) + enc_stream(b, d, ep),
    decreases a.len(),
{
    if a.len() == 0 {
        assert(a + b =~= b);
        assert(enc_stream(a, d, ep) + enc_stream(b, d, ep) =~= enc_stream(b, d, ep));
    } else {
        assert((a + b).skip(1) =~= a.skip(1) + b);
        lemma_enc_stream_concat(a.skip(1), b, d, ep);
        assert((a + b)[0] == a[0]);
        assert(enc_stream(a + b, d, ep) =~= enc_stream(a, d, ep) + enc_stream(b, d, ep));
    }
}

/// A one-element stream is one frame.
pub proof fn lemma_enc_stream_one<V>(v: V, d: spec_fn(V) -> u8, ep: spec_fn(V) -> Seq<u8>)
    ensures
        enc_stream(seq![v], d, ep) == enc_frame(d(v), ep(v)),
{
    let s = seq![v];
    assert(s.len() == 1);
    assert(s[0] == v);
    assert(s.skip(1) =~= Seq::<V>::empty());
    assert(enc_stream(s.skip(1), d, ep) == Seq::<u8>::empty());
    assert(enc_frame(d(v), ep(v)) + Seq::<u8>::empty() =~= enc_frame(d(v), ep(v)));
}

/// Whatever a stream decodes to has strictly increasing discriminants, all
/// at least `min`: the ordering invariant holds of every decoded stream.
pub proof fn lemma_stream_monotonic<V>(
    b: Seq<u8>,
    min: nat,
    d: spec_fn(V) -> u8,
    pd: spec_fn(u8, Seq<u8>) -> Result<V, Error>,
)
    requires
        forall|id: u8, p: Seq<u8>| (#[trigger] pd(id, p)) matches Ok(v) ==> d(v) == id,
    ensures
        dec_stream(b, min, pd) matches Ok(ns) ==> {
            &&& stream_ordered(ns, d)
            &&& forall|i: int| #![trigger d(ns[i])] 0 <= i < ns.len() ==> min <= d(ns[i])
        },
    decreases b.len(),
{
    if b.len() != 0 && dec_stream(b, min, pd) is Ok {
        lemma_dec_frame_pos(b);
        let ((id, payload), n) = dec_frame(b)->Ok_0;
        let v = pd(id, payload)->Ok_0;
        let tail = dec_stream(b.skip(n), id as nat + 1, pd)->Ok_0;
        let ns = dec_stream(b, min, pd)->Ok_0;
        lemma_stream_monotonic(b.skip(n), id as nat + 1, d, pd);
        assert(ns == seq![v] + tail);
        assert(d(v) == id);
        assert(ns[0] == v);
        assert forall|i: int| #![trigger d(ns[i])] 0 <= i < ns.len() implies min <= d(ns[i]) by {
            if i > 0 {
                assert(ns[i] == tail[i - 1]);
            }
        }
        assert forall|i: int, j: int|
            #![trigger d(ns[i]), d(ns[j])]
            0 <= i < j < ns.len() implies d(ns[i]) < d(ns[j]) by {
            assert(ns[j] == tail[j - 1]);
            if i > 0 {
                assert(ns[i] == tail[i - 1]);
            }
        }
    }
}

/// Decoding the canonical encoding of a well-formed, ordered stream gives
/// back exactly that stream.
pub proof fn lemma_stream_round_trip<V>(
    ns: Seq<V>,
    min: nat,
    d: spec_fn(V) -> u8,
    ep: spec_fn(V) -> Seq<u8>,
    pd: spec_fn(u8, Seq<u8>) -> Result<V, Error>,
)
    requires
        stream_ordered(ns, d),
        forall|i: int| #![trigger d(ns[i])] 0 <= i < ns.len() ==> min <= d(ns[i]),
        forall|i: int|
            #![trigger ep(ns[i])]
            0 <= i < ns.len() ==> pd(d(ns[i]), ep(ns[i])) == Ok::<V, Error>(ns[i]),
        forall|i: int| #![trigger ep(ns[i])] 0 <= i < ns.len() ==> fits_u32(ep(ns[i]).len() as nat),
    ensures
        dec_stream(enc_stream(ns, d, ep), min, pd) == Ok::<Seq<V>, Error>(ns),
    decreases ns.len(),
{
    if ns.len() != 0 {
        let f = enc_frame(d(ns[0]), ep(ns[0]));
        let rest = enc_stream(ns.skip(1), d, ep);
        let b = enc_stream(ns, d, ep);
        assert(b == f + rest);
        lemma_dec_frame_enc(d(ns[0]), ep(ns[0]), rest);
        assert(dec_frame(b) == Ok::<((u8, Seq<u8>), int), Error>(
            ((d(ns[0]), ep(ns[0])), f.len() as int),
        ));
        assert(b.len() > 0) by {
            assert(f.len() > 0);
        }
        assert(b.skip(f.len() as int) =~= rest);
        assert forall|i: int| #![trigger d(ns.skip(1)[i])] 0 <= i < ns.skip(1).len() implies d(
            ns[0],
        ) as nat + 1 <= d(ns.skip(1)[i]) by {
            assert(ns.skip(1)[i] == ns[i + 1]);
        }
        assert(stream_ordered(ns.skip(1), d)) by {
            assert forall|i: int, j: int|
                #![trigger d(ns.skip(1)[i]), d(ns.skip(1)[j])]
                0 <= i < j < ns.skip(1).len() implies d(ns.skip(1)[i]) < d(ns.skip(1)[j]) by {
                assert(ns.skip(1)[i] == ns[i + 1]);
                assert(ns.skip(1)[j] == ns[j + 1]);
            }
        }
        assert forall|i: int| #![trigger ep(ns.skip(1)[i])] 0 <= i < ns.skip(1).len() implies pd(
            d(ns.skip(1)[i]),
            ep(ns.skip(1)[i]),
        ) == Ok::<V, Error>(ns.skip(1)[i]) && fits_u32(ep(ns.skip(1)[i]).len() as nat) by {
            assert(ns.skip(1)[i] == ns[i + 1]);
        }
        lemma_stream_round_trip(ns.skip(1), d(ns[0]) as nat + 1, d, ep, pd);
        assert(seq![ns[0]] + ns.skip(1) =~= ns);
    } else {
        assert(ns =~= Seq::<V>::empty());
        assert(enc_stream(ns, d, ep).len() == 0);
    }
}

/// `cut` falls on a frame boundary of the encoded stream: some prefix of
/// whole units encodes to exactly `cut` bytes.
pub open spec fn stream_boundary<V>(
    ns: Seq<V>,
    d: spec_fn(V) -> u8,
    ep: spec_fn(V) -> Seq<u8>,
    cut: int,
) -> bool {
    exists|k: int| 0 <= k <= ns.len() && cut == enc_stream(#[trigger] ns.take(k), d, ep).len()
}

/// Fail-fast under truncation: cutting the canonical encoding of a
/// well-formed, ordered stream at a frame boundary decodes to exactly the
/// complete units before the cut; cutting anywhere else makes the whole
/// decode fail.  It never yields a different value silently.
pub proof fn lemma_stream_truncation<V>(
    ns: Seq<V>,
    min: nat,
    d: spec_fn(V) -> u8,
    ep: spec_fn(V) -> Seq<u8>,
    pd: spec_fn(u8, Seq<u8>) -> Result<V, Error>,
    cut: int,
)
    requires
        stream_ordered(ns, d),
        forall|i: int| #![trigger d(ns[i])] 0 <= i < ns.len() ==> min <= d(ns[i]),
        forall|i: int|
            #![trigger ep(ns[i])]
            0 <= i < ns.len() ==> pd(d(ns[i]), ep(ns[i])) == Ok::<V, Error>(ns[i]),
        forall|i: int| #![trigger ep(ns[i])] 0 <= i < ns.len() ==> fits_u32(ep(ns[i]).len() as nat),
        0 <= cut <= enc_stream(ns, d, ep).len(),
    ensures
        forall|k: int|
            0 <= k <= ns.len() && cut == enc_stream(#[trigger] ns.take(k), d, ep).len()
                ==> dec_stream(enc_stream(ns, d, ep).take(cut), min, pd) == Ok::<Seq<V>, Error>(
                ns.take(k),
            ),
        !stream_boundary(ns, d, ep, cut) ==> dec_stream(enc_stream(ns, d, ep).take(cut), min, pd)
            is Err,
    decreases ns.len(),
{
    let b = enc_stream(ns, d, ep);
    let t = b.take(cut);
    if ns.len() == 0 {
        assert(t =~= Seq::<u8>::empty());
        assert(ns.take(0) =~= Seq::<V>::empty());
        assert(cut == enc_stream(ns.take(0), d, ep).len());
        assert(stream_boundary(ns, d, ep, cut));
        assert forall|k: int|
            0 <= k <= ns.len() && cut == enc_stream(#[trigger] ns.take(k), d, ep).len() implies
            dec_stream(t, min, pd) == Ok::<Seq<V>, Error>(ns.take(k)) by {
            assert(ns.take(k) =~= Seq::<V>::empty());
        }
    } else {
        let f = enc_frame(d(ns[0]), ep(ns[0]));
        let l = f.len() as int;
        let rest = enc_stream(ns.skip(1), d, ep);
        assert(b == f + rest);
        assert(l >= 2) by {
            crate::fields::lemma_dec_frame_enc(d(ns[0]), ep(ns[0]), rest);
            lemma_dec_frame_pos(b);
            assert(b.len() > 0);
        }
        // Prefix encodings of one or more units always carry the whole
        // first frame.
        assert forall|k: int| 1 <= k <= ns.len() implies enc_stream(#[trigger] ns.take(k), d, ep)
            =~= f + enc_stream(ns.skip(1).take(k - 1), d, ep) by {
            assert(ns.take(k) =~= seq![ns[0]] + ns.skip(1).take(k - 1));
            lemma_enc_stream_concat(seq![ns[0]], ns.skip(1).take(k - 1), d, ep);
            lemma_enc_stream_one(ns[0], d, ep);
        }
        if cut == 0 {
            assert(t =~= Seq::<u8>::empty());
            assert(ns.take(0) =~= Seq::<V>::empty());
            assert(cut == enc_stream(ns.take(0), d, ep).len());
            assert(stream_boundary(ns, d, ep, cut));
            assert forall|k: int|
                0 <= k <= ns.len() && cut == enc_stream(#[trigger] ns.take(k), d, ep).len()
                    implies dec_stream(t, min, pd) == Ok::<Seq<V>, Error>(ns.take(k)) by {
                if k >= 1 {
                    assert(enc_stream(ns.take(k), d, ep).len() >= l);
                    assert(false);
                }
                assert(ns.take(k) =~= Seq::<V>::empty());
            }
        } else if cut < l {
            assert(t =~= f.take(cut));
            crate::fields::lemma_dec_frame_truncated(d(ns[0]), ep(ns[0]), cut);
            assert(dec_frame(t) is Err);
            assert(t.len() > 0);
            assert(dec_stream(t, min, pd) is Err);
            assert forall|k: int|
                0 <= k <= ns.len() && cut == enc_stream(#[trigger] ns.take(k), d, ep).len()
                    implies dec_stream(t, min, pd) == Ok::<Seq<V>, Error>(ns.take(k)) by {
                if k == 0 {
                    assert(enc_stream(ns.take(0), d, ep).len() == 0) by {
                        assert(ns.take(0) =~= Seq::<V>::empty());
                    }
                    assert(false);
                } else {
                    assert(enc_stream(ns.take(k), d, ep).len() >= l);
                    assert(false);
                }
            }
        } else {
            let tail_cut = cut - l;
            let tail_full = enc_stream(ns.skip(1), d, ep);
            assert(t =~= f + tail_full.take(tail_cut));
            crate::fields::lemma_dec_frame_enc(d(ns[0]), ep(ns[0]), tail_full.take(tail_cut));
            assert(dec_frame(t) == Ok::<((u8, Seq<u8>), int), Error>(
                ((d(ns[0]), ep(ns[0])), l),
            ));
            assert(t.skip(l) =~= tail_full.take(tail_cut));
            assert(min <= d(ns[0]) as nat);
            assert(pd(d(ns[0]), ep(ns[0])) == Ok::<V, Error>(ns[0]));
            assert(stream_ordered(ns.skip(1), d)) by {
                assert forall|i1: int, i2: int|
                    #![trigger d(ns.skip(1)[i1]), d(ns.skip(1)[i2])]
                    0 <= i1 < i2 < ns.skip(1).len() implies d(ns.skip(1)[i1]) < d(
                    ns.skip(1)[i2],
                ) by {
                    assert(ns.skip(1)[i1] == ns[i1 + 1]);
                    assert(ns.skip(1)[i2] == ns[i2 + 1]);
                }
            }
            assert forall|i: int| #![trigger d(ns.skip(1)[i])] 0 <= i < ns.skip(1).len() implies d(
                ns[0],
            ) as nat + 1 <= d(ns.skip(1)[i]) by {
                assert(ns.skip(1)[i] == ns[i + 1]);
            }
            assert forall|i: int| #![trigger ep(ns.skip(1)[i])] 0 <= i < ns.skip(1).len() implies
                pd(d(ns.skip(1)[i]), ep(ns.skip(1)[i])) == Ok::<V, Error>(ns.skip(1)[i])
                && fits_u32(ep(ns.skip(1)[i]).len() as nat) by {
                assert(ns.skip(1)[i] == ns[i + 1]);
            }
            lemma_stream_truncation(ns.skip(1), d(ns[0]) as nat + 1, d, ep, pd, tail_cut);
            assert forall|k: int|
                0 <= k <= ns.len() && cut == enc_stream(#[trigger] ns.take(k), d, ep).len()
                    implies dec_stream(t, min, pd) == Ok::<Seq<V>, Error>(ns.take(k)) by {
                if k == 0 {
                    assert(enc_stream(ns.take(0), d, ep).len() == 0) by {
                        assert(ns.take(0) =~= Seq::<V>::empty());
                    }
                    assert(false);
                } else {
                    assert(enc_stream(ns.take(k), d, ep) =~= f + enc_stream(
                        ns.skip(1).take(k - 1),
                        d,
                        ep,
                    ));
                    assert(tail_cut == enc_stream(ns.skip(1).take(k - 1), d, ep).len());
                    assert(dec_stream(tail_full.take(tail_cut), d(ns[0]) as nat + 1, pd)
                        == Ok::<Seq<V>, Error>(ns.skip(1).take(k - 1)));
                    assert(t.len() > 0);
                    assert(dec_stream(t, min, pd) == Ok::<Seq<V>, Error>(
                        seq![ns[0]] + ns.skip(1).take(k - 1),
                    ));
                    assert(seq![ns[0]] + ns.skip(1).take(k - 1) =~= ns.take(k));
                }
            }
            if !stream_boundary(ns, d, ep, cut) {
                assert(!stream_boundary(ns.skip(1), d, ep, tail_cut)) by {
                    if stream_boundary(ns.skip(1), d, ep, tail_cut) {
                        let k2 = choose|k2: int|
                            0 <= k2 <= ns.skip(1).len() && tail_cut == enc_stream(
                                #[trigger] ns.skip(1).take(k2),
                                d,
                                ep,
                            ).len();
                        assert(enc_stream(ns.take(k2 + 1), d, ep) =~= f + enc_stream(
                            ns.skip(1).take(k2),
                            d,
                            ep,
                        ));
                        assert(cut == enc_stream(ns.take(k2 + 1), d, ep).len());
                        assert(stream_boundary(ns, d, ep, cut));
                    }
                }
                assert(dec_stream(tail_full.take(tail_cut), d(ns[0]) as nat + 1, pd) is Err);
                assert(t.len() > 0);
                assert(dec_stream(t, min, pd) is Err);
            }
        }
    }
}

} // verus!
