//! Tests of the module boundary: cross-section ordering and the round trip
//! through the external module container.

use nucleide::error::Error;
use nucleide::module::Module;
use nucleide::producers::{Producer, ProducerKind, VersionedSoftware};
use nucleide::names::Name;
use nucleide::section::Section;

/// The smallest well-formed module: magic and version, no sections.
const EMPTY_WASM: [u8; 8] = [0x00, b'a', b's', b'm', 0x01, 0x00, 0x00, 0x00];

fn name_section() -> Section {
    Section::Name(vec![Name::Module(String::from("m"))])
}

fn producers_section() -> Section {
    Section::Producers(vec![Producer {
        kind: ProducerKind::Language,
        list: vec![VersionedSoftware {
            name: String::from("rustc"),
            version: String::from("1.70"),
        }],
    }])
}

#[test]
fn parse_garbage_fails() {
    assert!(matches!(Module::new(&[1, 2, 3]), Err(Error::Module)));
}

#[test]
fn empty_module_has_no_sections() {
    let module = Module::new(&EMPTY_WASM).expect("minimal module parses");
    let sections = module.sections().expect("order is fine");
    assert!(sections.is_empty());
}

#[test]
fn sections_in_order_pass_validation() {
    let mut module = Module::new(&EMPTY_WASM).expect("parses");
    module.set_section(&name_section()).expect("encodes");
    module.set_section(&producers_section()).expect("encodes");
    let sections = module.sections().expect("name before producers is fine");
    assert_eq!(sections.len(), 2);
    assert_eq!(sections[0].name(), "name");
    assert_eq!(sections[1].name(), "producers");
    // Each comes back opaque and decodes to the value that was set.
    assert_eq!(sections[0].to().expect("decodes"), name_section());
    assert_eq!(sections[1].to().expect("decodes"), producers_section());
}

#[test]
fn reversed_sections_fail_validation() {
    // `producers` before `name`: each section's own payload is well formed,
    // but the module-level relative order is violated.
    let mut module = Module::new(&EMPTY_WASM).expect("parses");
    module.set_section(&producers_section()).expect("encodes");
    module.set_section(&name_section()).expect("encodes");
    assert_eq!(module.sections().unwrap_err(), Error::SectionOrderViolation);
}

#[test]
fn unknown_sections_interleave_freely() {
    let mut module = Module::new(&EMPTY_WASM).expect("parses");
    module
        .set_section(&Section::Any {
            name: String::from("custom.a"),
            data: vec![1],
        })
        .expect("opaque encodes");
    module.set_section(&name_section()).expect("encodes");
    module
        .set_section(&Section::Any {
            name: String::from("custom.b"),
            data: vec![2],
        })
        .expect("opaque encodes");
    module.set_section(&producers_section()).expect("encodes");
    let sections = module.sections().expect("specials stay in order");
    assert_eq!(sections.len(), 4);
}

#[test]
fn set_replaces_and_clear_removes() {
    let mut module = Module::new(&EMPTY_WASM).expect("parses");
    module.set_section(&name_section()).expect("encodes");
    // Setting the same name again replaces, not duplicates.
    module.set_section(&name_section()).expect("encodes");
    assert_eq!(module.sections().expect("fine").len(), 1);

    let removed = module.clear_section("name").expect("was present");
    assert_eq!(removed.to().expect("decodes"), name_section());
    assert!(module.sections().expect("fine").is_empty());
    assert!(module.clear_section("name").is_none());
}

#[test]
fn module_serialization_round_trip() {
    let mut module = Module::new(&EMPTY_WASM).expect("parses");
    module.set_section(&name_section()).expect("encodes");
    module.set_section(&producers_section()).expect("encodes");
    let bytes = module.into_buffer().expect("serializes");
    let again = Module::new(&bytes).expect("reparses");
    let sections = again.sections().expect("order kept");
    assert_eq!(sections.len(), 2);
    assert_eq!(sections[0].to().expect("decodes"), name_section());
    assert_eq!(sections[1].to().expect("decodes"), producers_section());
}

#[test]
fn module_rejects_unencodable_section() {
    // An out-of-order name list is a construction-time error; the module is
    // left unchanged.
    let bad = Section::Name(vec![
        Name::Function(nucleide::maps::NameMap::new()),
        Name::Module(String::from("m")),
    ]);
    let mut module = Module::new(&EMPTY_WASM).expect("parses");
    assert_eq!(
        module.set_section(&bad),
        Err(Error::BuilderContractViolation)
    );
    assert!(module.sections().expect("fine").is_empty());
}
