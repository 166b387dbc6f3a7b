//! The module boundary: a WebAssembly module held by the external module
//! container, exposing its custom sections as opaque `(name, bytes)` pairs.
//!
//! The container itself — the module grammar, section enumeration, and
//! whole-module serialization — is the `parity_wasm` crate's work and is
//! taken on trust at this boundary; the cross-section ordering rule over
//! `name`/`producers`/`daku` is this crate's own logic and is verified.

use parity_wasm::elements::Module as WasmModule;
use vstd::prelude::*;

use crate::error::Error;
use crate::section::{
    enc_section, section_enc_ok, section_name_chars, section_values_wf, Section, SectionV,
};
use crate::writer::Writer;

verus! {

/// The external module container's module type, opaque to this crate.
#[verifier::external_type_specification]
#[verifier::external_body]
pub struct ExModule(WasmModule);

/// The custom sections a module carries, in their order of appearance, as
/// `(name, payload)` pairs.
pub uninterp spec fn custom_secs(m: parity_wasm::elements::Module) -> Seq<(Seq<char>, Seq<u8>)>;

/// Index of the first section with the given name, or the length if none
/// has it.
pub open spec fn find_name(secs: Seq<(Seq<char>, Seq<u8>)>, name: Seq<char>) -> int
    decreases secs.len(),
{
    if secs.len() == 0 {
        0
    } else if secs[0].0 == name {
        0
    } else {
        1 + find_name(secs.skip(1), name)
    }
}

/// Replace the payload of the first section with the given name, or append
/// a new section if none has it.
pub open spec fn set_custom(
    secs: Seq<(Seq<char>, Seq<u8>)>,
    name: Seq<char>,
    payload: Seq<u8>,
) -> Seq<(Seq<char>, Seq<u8>)> {
    let j = find_name(secs, name);
    if j < secs.len() {
        secs.update(j, (name, payload))
    } else {
        secs.push((name, payload))
    }
}

/// Relies on `parity_wasm::elements::Module::from_bytes`: it parses a
/// whole-module byte buffer, or fails.  Nothing further is assumed of the
/// parsed module.
#[verifier::external_body]
fn wasm_parse(buf: &[u8]) -> Option<parity_wasm::elements::Module> {
    parity_wasm::elements::Module::from_bytes(buf).ok()
}

/// Relies on `parity_wasm::elements::serialize`: it writes the module back
/// out as one byte buffer, or fails.  Nothing further is assumed of the
/// bytes.
#[verifier::external_body]
fn wasm_serialize(m: parity_wasm::elements::Module) -> Option<Vec<u8>> {
    parity_wasm::elements::serialize(m).ok()
}

/// Relies on `parity_wasm::elements::Module::custom_sections`: it yields
/// the module's custom sections in their order of appearance; each is
/// copied out as an owned `(name, payload)` pair.
#[verifier::external_body]
fn wasm_customs(m: &parity_wasm::elements::Module) -> (r: Vec<(String, Vec<u8>)>)
    ensures
        r@.len() == custom_secs(*m).len(),
        forall|i: int|
            0 <= i < r@.len() ==> (#[trigger] r@[i]).0@ == custom_secs(*m)[i].0 && r@[i].1@
                == custom_secs(*m)[i].1,
{
    m.custom_sections().map(|s| (s.name().to_owned(), s.payload().to_vec())).collect()
}

/// Relies on `parity_wasm::elements::Module::set_custom_section`: it
/// replaces the first custom section with the given name in place, or
/// appends a new one at the end.
#[verifier::external_body]
fn wasm_set_custom(m: &mut parity_wasm::elements::Module, name: &str, payload: Vec<u8>)
    ensures
        custom_secs(*final(m)) == set_custom(custom_secs(*old(m)), name@, payload@),
{
    m.set_custom_section(name, payload);
}

/// Relies on `parity_wasm::elements::Module::clear_custom_section`: it
/// removes and returns the first custom section with the given name, if
/// any.
#[verifier::external_body]
fn wasm_clear_custom(m: &mut parity_wasm::elements::Module, name: &str) -> (r: Option<
    (String, Vec<u8>),
>)
    ensures
        ({
            let secs = custom_secs(*old(m));
            let j = find_name(secs, name@);
            if j < secs.len() {
                &&& r is Some
                &&& (r->0).0@ == secs[j].0
                &&& (r->0).1@ == secs[j].1
                &&& custom_secs(*final(m)) == secs.remove(j)
            } else {
                r is None && custom_secs(*final(m)) == secs
            }
        }),
{
    m.clear_custom_section(name).map(|s| (s.name().to_owned(), s.payload().to_vec()))
}

/// The rank of a special section name in the required relative order, or
/// `3` for any other name.
pub open spec fn special_rank(name: Seq<char>) -> int {
    if name == "name"@ {
        0
    } else if name == "producers"@ {
        1
    } else if name == "daku"@ {
        2
    } else {
        3
    }
}

/// The cross-section ordering rule: among the sections named `name`,
/// `producers` and `daku`, each appears at most once and in that relative
/// order (other sections may be interleaved freely).
pub open spec fn section_order_ok(secs: Seq<(Seq<char>, Seq<u8>)>) -> bool {
    forall|i: int, j: int|
        #![trigger secs[i], secs[j]]
        0 <= i < j < secs.len() && special_rank(secs[i].0) < 3 && special_rank(secs[j].0) < 3
            ==> special_rank(secs[i].0) < special_rank(secs[j].0)
}

/// A WebAssembly module (or part of one), held by the external container.
pub struct Module {
    inner: parity_wasm::elements::Module,
}

impl Module {
    /// The module's custom sections as `(name, payload)` pairs.
    pub closed spec fn sections_view(&self) -> Seq<(Seq<char>, Seq<u8>)> {
        custom_secs(self.inner)
    }

    /// Creates a `Module` from a whole-module byte buffer.  A buffer the
    /// external container cannot parse is reported as a module error.
    pub fn new(buf: &[u8]) -> (r: Result<Module, Error>)
        ensures
            r is Err ==> r->Err_0 == Error::Module,
    {
        match wasm_parse(buf) {
            Some(inner) => Ok(Module { inner }),
            None => Err(Error::Module),
        }
    }

    /// Returns the module's custom sections, in order, as opaque sections,
    /// after validating the cross-section ordering rule.  Succeeds exactly
    /// when `name`/`producers`/`daku` each appear at most once and in that
    /// relative order.
    pub fn sections(&self) -> (r: Result<Vec<Section>, Error>)
        ensures
            match r {
                Ok(v) => {
                    &&& section_order_ok(self.sections_view())
                    &&& v@.len() == self.sections_view().len()
                    &&& forall|i: int|
                        0 <= i < v@.len() ==> (#[trigger] v@[i])@ == SectionV::Any(
                            self.sections_view()[i].0,
                            self.sections_view()[i].1,
                        )
                },
                Err(e) => e == Error::SectionOrderViolation && !section_order_ok(
                    self.sections_view(),
                ),
            },
    {
        let ghost sv = self.sections_view();
        let customs = wasm_customs(&self.inner);
        let mut out: Vec<Section> = Vec::new();
        let mut thr: u8 = 0;
        let mut i: usize = 0;
        while i < customs.len()
            invariant
                sv == self.sections_view(),
                i <= customs@.len(),
                customs@.len() == sv.len(),
                forall|a: int|
                    0 <= a < customs@.len() ==> (#[trigger] customs@[a]).0@ == sv[a].0
                        && customs@[a].1@ == sv[a].1,
                out@.len() == i,
                forall|a: int|
                    0 <= a < i ==> (#[trigger] out@[a])@ == SectionV::Any(sv[a].0, sv[a].1),
                thr <= 3,
                forall|a: int, b: int|
                    #![trigger sv[a], sv[b]]
                    0 <= a < b < i && special_rank(sv[a].0) < 3 && special_rank(sv[b].0) < 3
                        ==> special_rank(sv[a].0) < special_rank(sv[b].0),
                forall|a: int|
                    #![trigger sv[a]]
                    0 <= a < i && special_rank(sv[a].0) < 3 ==> special_rank(sv[a].0) < thr,
                thr > 0 ==> exists|a: int|
                    0 <= a < i && special_rank((#[trigger] sv[a]).0) == thr - 1,
            decreases customs@.len() - i,
        {
            let entry = &customs[i];
            let rank: u8 = if entry.0 == "name".to_owned() {
                0
            } else if entry.0 == "producers".to_owned() {
                1
            } else if entry.0 == "daku".to_owned() {
                2
            } else {
                3
            };
            assert(rank as int == special_rank(sv[i as int].0) || rank == 3 && special_rank(
                sv[i as int].0,
            ) == 3);
            if rank < 3 {
                if rank < thr {
                    proof {
                        assert(thr > 0);
                        let a = choose|a: int|
                            0 <= a < i && special_rank((#[trigger] sv[a]).0) == thr - 1;
                        assert(special_rank(sv[a].0) == thr - 1);
                        assert(special_rank(sv[i as int].0) == rank as int);
                        assert(special_rank(sv[a].0) < 3);
                        assert(special_rank(sv[i as int].0) < 3);
                        assert(a < i as int);
                        assert((i as int) < sv.len());
                        assert(!(special_rank(sv[a].0) < special_rank(sv[i as int].0)));
                        assert(!section_order_ok(sv));
                    }
                    return Err(Error::SectionOrderViolation);
                }
                thr = rank + 1;
            }
            let section = Section::Any {
                name: entry.0.clone(),
                data: vstd::slice::slice_to_vec(entry.1.as_slice()),
            };
            out.push(section);
            i = i + 1;
        }
        proof {
            assert(section_order_ok(sv));
            assert forall|a: int| 0 <= a < out@.len() implies (#[trigger] out@[a])@
                == SectionV::Any(sv[a].0, sv[a].1) by {}
        }
        Ok(out)
    }

    /// Sets the payload associated with the given section's name to that
    /// section's canonical bytes, or adds a new custom section, as
    /// appropriate.  Fails exactly when the section itself cannot be
    /// encoded, leaving the module unchanged.
    pub fn set_section(&mut self, section: &Section) -> (r: Result<(), Error>)
        requires
            section_values_wf(section@),
        ensures
            match r {
                Ok(_) => {
                    &&& section_enc_ok(section@)
                    &&& final(self).sections_view() == set_custom(
                        old(self).sections_view(),
                        section_name_chars(section@),
                        enc_section(section@),
                    )
                },
                Err(e) => {
                    &&& e == Error::BuilderContractViolation
                    &&& !section_enc_ok(section@)
                    &&& final(self).sections_view() == old(self).sections_view()
                },
            },
    {
        let (name, payload) = match section.to_any() {
            Ok(p) => p,
            Err(e) => {
                return Err(e);
            },
        };
        wasm_set_custom(&mut self.inner, name.as_str(), payload);
        Ok(())
    }

    /// Removes the first custom section with the given name, if it exists,
    /// and returns it as an opaque section.
    pub fn clear_section(&mut self, name: &str) -> (r: Option<Section>)
        ensures
            ({
                let secs = old(self).sections_view();
                let j = find_name(secs, name@);
                if j < secs.len() {
                    &&& r is Some
                    &&& r->0@ == SectionV::Any(secs[j].0, secs[j].1)
                    &&& final(self).sections_view() == secs.remove(j)
                } else {
                    r is None && final(self).sections_view() == secs
                }
            }),
    {
        match wasm_clear_custom(&mut self.inner, name) {
            Some(p) => Some(Section::Any { name: p.0, data: p.1 }),
            None => None,
        }
    }

    /// Write out the whole module to a byte buffer through the external
    /// container.  A serialization failure is reported as a module error.
    pub fn into_buffer(self) -> (r: Result<Vec<u8>, Error>)
        ensures
            r is Err ==> r->Err_0 == Error::Module,
    {
        match wasm_serialize(self.inner) {
            Some(v) => Ok(v),
            None => Err(Error::Module),
        }
    }
}

} // verus!
