//! A custom section: either one of the three typed kinds, or an opaque
//! `(name, bytes)` pair.
//!
//! Converting typed to opaque produces the canonical bytes and the fixed
//! name string for that kind; converting opaque to typed dispatches on the
//! name, decodes fully, and requires zero residual bytes.  An unrecognized
//! name or a malformed payload is not a hard error: the section simply
//! remains opaque.

use vstd::prelude::*;

use crate::daku::{
    daku_wf, dec_daku, enc_daku, nucleide_ordered, nucleide_values_wf, nucleide_wf, Daku, DakuV,
    lemma_daku_round_trip,
};
use crate::error::Error;
use crate::names::{
    dec_names, enc_names, names_ordered, names_values_wf, names_view, names_wf, Name, NameV,
    lemma_name_section_round_trip,
};
use crate::producers::{
    dec_producers, enc_producers, producers_view, producers_wf, Producer, ProducerV,
    lemma_producers_round_trip,
};
use crate::reader::Reader;
use crate::writer::Writer;

verus! {

/// A custom section.
#[derive(Clone, PartialEq, Eq, Debug)]
pub enum Section {
    /// The `name` section.
    Name(Vec<Name>),
    /// The `producers` section.
    Producers(Vec<Producer>),
    /// The `daku` section.
    Daku(Daku),
    /// Any other section, or one not yet decoded.
    Any {
        /// The name of the custom section.
        name: String,
        /// Data in the custom section.
        data: Vec<u8>,
    },
}

/// The mathematical value of a custom section.
pub enum SectionV {
    /// The `name` section.
    Name(Seq<NameV>),
    /// The `producers` section.
    Producers(Seq<ProducerV>),
    /// The `daku` section.
    Daku(DakuV),
    /// Any other section, as a `(name, bytes)` pair.
    Any(Seq<char>, Seq<u8>),
}

impl View for Section {
    type V = SectionV;

    open spec fn view(&self) -> SectionV {
        match self {
            Section::Name(ns) => SectionV::Name(names_view(ns@)),
            Section::Producers(ps) => SectionV::Producers(producers_view(ps@)),
            Section::Daku(d) => SectionV::Daku(d@),
            Section::Any { name, data } => SectionV::Any(name@, data@),
        }
    }
}

/// The name under which a section is attached to a module.
pub open spec fn section_name_chars(v: SectionV) -> Seq<char> {
    match v {
        SectionV::Name(_) => "name"@,
        SectionV::Producers(_) => "producers"@,
        SectionV::Daku(_) => "daku"@,
        SectionV::Any(n, _) => n,
    }
}

/// The values held by a section are well formed (maps sorted, names and
/// counts within 32-bit bounds).
pub open spec fn section_values_wf(v: SectionV) -> bool {
    match v {
        SectionV::Name(ns) => names_values_wf(ns),
        SectionV::Producers(ps) => producers_wf(ps),
        SectionV::Daku(d) => nucleide_values_wf(d.1),
        SectionV::Any(_, _) => true,
    }
}

/// A typed section can be encoded: its subsection streams are in order and
/// every piece fits behind its 32-bit length prefix.  Opaque sections are
/// passed through unchanged.
pub open spec fn section_enc_ok(v: SectionV) -> bool {
    match v {
        SectionV::Name(ns) => names_ordered(ns) && names_wf(ns),
        SectionV::Producers(ps) => producers_wf(ps),
        SectionV::Daku(d) => daku_wf(d) && nucleide_ordered(d.1) && nucleide_wf(d.1),
        SectionV::Any(_, _) => true,
    }
}

/// Canonical payload bytes of a section.
pub open spec fn enc_section(v: SectionV) -> Seq<u8> {
    match v {
        SectionV::Name(ns) => enc_names(ns),
        SectionV::Producers(ps) => enc_producers(ps),
        SectionV::Daku(d) => enc_daku(d),
        SectionV::Any(_, data) => data,
    }
}

/// Decode an opaque section's payload under its declared name, requiring
/// zero residual bytes.  An unrecognized name or any decode failure yields
/// `None`: the section remains opaque.
pub open spec fn dec_section(name: Seq<char>, data: Seq<u8>) -> Option<SectionV> {
    if name == "name"@ {
        match dec_names(data, 0) {
            Ok(ns) => Some(SectionV::Name(ns)),
            Err(_) => None,
        }
    } else if name == "producers"@ {
        match dec_producers(data) {
            Ok(p) => if p.1 == data.len() {
                Some(SectionV::Producers(p.0))
            } else {
                None
            },
            Err(_) => None,
        }
    } else if name == "daku"@ {
        match dec_daku(data) {
            Ok(d) => Some(SectionV::Daku(d)),
            Err(_) => None,
        }
    } else {
        None
    }
}

/// Round trip at the section level: every constructible, encodable typed
/// section decodes from its own canonical bytes under its own name back to
/// an equal value.
pub proof fn lemma_section_round_trip(v: SectionV)
    requires
        section_enc_ok(v),
        !(v is Any),
    ensures
        dec_section(section_name_chars(v), enc_section(v)) == Some(v),
{
    reveal_strlit("name");
    reveal_strlit("producers");
    reveal_strlit("daku");
    assert("name"@.len() == 4);
    assert("producers"@.len() == 9);
    assert("daku"@.len() == 4);
    assert("name"@ != "daku"@) by {
        assert("name"@[0] == 'n');
        assert("daku"@[0] == 'd');
    }
    match v {
        SectionV::Name(ns) => {
            lemma_name_section_round_trip(ns);
        },
        SectionV::Producers(ps) => {
            lemma_producers_round_trip(ps, Seq::empty());
            assert(enc_producers(ps) + Seq::<u8>::empty() =~= enc_producers(ps));
        },
        SectionV::Daku(d) => {
            lemma_daku_round_trip(d);
        },
        SectionV::Any(_, _) => {},
    }
}

impl Section {
    /// Get the name of the section.
    pub fn name(&self) -> (r: &str)
        ensures
            r@ == section_name_chars(self@),
    {
        match self {
            Section::Name(_) => "name",
            Section::Producers(_) => "producers",
            Section::Daku(_) => "daku",
            Section::Any { name, .. } => name.as_str(),
        }
    }

    /// Convert this section to its opaque `(name, bytes)` form, producing
    /// canonical bytes for the typed kinds.  Fails exactly when a typed
    /// kind violates its construction-time rules (out-of-order subsections
    /// or an oversized piece), without producing a partial result.
    pub fn to_any(&self) -> (r: Result<(String, Vec<u8>), Error>)
        requires
            section_values_wf(self@),
        ensures
            match r {
                Ok(p) => {
                    &&& section_enc_ok(self@)
                    &&& p.0@ == section_name_chars(self@)
                    &&& p.1@ == enc_section(self@)
                },
                Err(e) => {
                    &&& e == Error::BuilderContractViolation
                    &&& !section_enc_ok(self@)
                },
            },
    {
        match self {
            Section::Name(names) => {
                proof {
                    assert forall|i: int| 0 <= i < names@.len() implies crate::names::name_v_wf(
                        #[trigger] names@[i]@,
                    ) by {
                        assert(names_view(names@)[i] == names@[i]@);
                    }
                }
                let mut w = Writer::new();
                match w.names(names.as_slice()) {
                    Ok(_) => Ok(("name".to_owned(), w.into_buffer())),
                    Err(e) => Err(e),
                }
            },
            Section::Producers(producers) => {
                let mut w = Writer::new();
                w.producers(producers.as_slice());
                Ok(("producers".to_owned(), w.into_buffer()))
            },
            Section::Daku(daku) => {
                proof {
                    assert forall|i: int| 0 <= i < daku.nucleide@.len() implies
                        crate::daku::nucleide_v_wf(#[trigger] daku.nucleide@[i]@) by {
                        assert(crate::daku::nucleide_view(daku.nucleide@)[i]
                            == daku.nucleide@[i]@);
                    }
                }
                let mut w = Writer::new();
                match w.daku(daku) {
                    Ok(_) => Ok(("daku".to_owned(), w.into_buffer())),
                    Err(e) => Err(e),
                }
            },
            Section::Any { name, data } => {
                Ok((name.clone(), vstd::slice::slice_to_vec(data.as_slice())))
            },
        }
    }

    /// Convert an opaque section to its typed form if its name is
    /// recognized and its payload decodes fully; return `None` otherwise
    /// (the section remains opaque), and on a section already typed.
    pub fn to(&self) -> (r: Option<Section>)
        ensures
            match self@ {
                SectionV::Any(n, d) => match dec_section(n, d) {
                    Some(v) => {
                        &&& r is Some
                        &&& r->0@ == v
                        &&& section_values_wf(v)
                    },
                    None => r is None,
                },
                _ => r is None,
            },
    {
        match self {
            Section::Any { name, data } => {
                if *name == "name".to_owned() {
                    let mut reader = Reader::new(data.as_slice());
                    match reader.names() {
                        Ok(ns) => Some(Section::Name(ns)),
                        Err(_) => None,
                    }
                } else if *name == "producers".to_owned() {
                    let mut reader = Reader::new(data.as_slice());
                    let ps = match reader.producers() {
                        Ok(ps) => ps,
                        Err(_) => {
                            return None;
                        },
                    };
                    match reader.end() {
                        Some(_) => Some(Section::Producers(ps)),
                        None => None,
                    }
                } else if *name == "daku".to_owned() {
                    let mut reader = Reader::new(data.as_slice());
                    match reader.daku() {
                        Ok(d) => Some(Section::Daku(d)),
                        Err(_) => None,
                    }
                } else {
                    None
                }
            },
            _ => None,
        }
    }
}

} // verus!
