//! Tests of the three section grammars and their round trips.

use nucleide::daku::{Category, Daku, File, FileMap, Nucleide, Portal, Portals};
use nucleide::error::Error;
use nucleide::maps::{IndirectNameMap, NameMap};
use nucleide::names::Name;
use nucleide::producers::{Producer, ProducerKind, VersionedSoftware};
use nucleide::reader::Reader;
use nucleide::section::Section;
use nucleide::writer::Writer;

fn encode_section(section: &Section) -> (String, Vec<u8>) {
    section.to_any().expect("section should encode")
}

fn decode_section(name: &str, data: Vec<u8>) -> Option<Section> {
    Section::Any { name: String::from(name), data }.to()
}

#[test]
fn empty_name_section_is_empty_list() {
    let mut reader = Reader::new(&[]);
    assert_eq!(reader.names(), Ok(vec![]));
}

#[test]
fn name_section_ordered_units_decode_and_swapped_fail() {
    let mut map = NameMap::new();
    map.insert(0, String::from("main"));
    let names = vec![
        Name::Module(String::from("m")),
        Name::Function(map.clone()),
    ];

    // In order: module name (discriminant 0) then function names (1).
    let (name, data) = encode_section(&Section::Name(names.clone()));
    assert_eq!(name, "name");
    let mut reader = Reader::new(&data[..]);
    assert_eq!(reader.names(), Ok(names));

    // Swapped on the wire: 1 before 0 fails as out of order.
    let mut w0 = Writer::new();
    w0.name("m");
    let p0 = w0.into_buffer();
    let mut w1 = Writer::new();
    w1.name_map(&map);
    let p1 = w1.into_buffer();
    let mut w = Writer::new();
    w.subsection(1, &p1);
    w.subsection(0, &p0);
    let swapped = w.into_buffer();
    let mut reader = Reader::new(&swapped[..]);
    assert_eq!(reader.names(), Err(Error::OutOfOrderField));

    // A repeated discriminant fails the same way.
    let mut w = Writer::new();
    w.subsection(0, &p0);
    w.subsection(0, &p0);
    let repeated = w.into_buffer();
    let mut reader = Reader::new(&repeated[..]);
    assert_eq!(reader.names(), Err(Error::OutOfOrderField));
}

#[test]
fn name_section_full_round_trip() {
    let mut functions = NameMap::new();
    functions.insert(1, String::from("start"));
    functions.insert(0, String::from("main"));
    let mut inner = NameMap::new();
    inner.insert(0, String::from("x"));
    inner.insert(1, String::from("y"));
    let mut locals = IndirectNameMap::new();
    locals.insert(0, inner);
    let mut labels = IndirectNameMap::new();
    let mut label_inner = NameMap::new();
    label_inner.insert(3, String::from("loop"));
    labels.insert(1, label_inner);
    let mut globals = NameMap::new();
    globals.insert(7, String::from("g"));
    let names = vec![
        Name::Module(String::from("demo")),
        Name::Function(functions),
        Name::Local(locals),
        Name::Label(labels),
        Name::Type(NameMap::new()),
        Name::Table(NameMap::new()),
        Name::Memory(NameMap::new()),
        Name::Global(globals),
        Name::Element(NameMap::new()),
        Name::Data(NameMap::new()),
    ];
    let section = Section::Name(names);
    let (name, data) = encode_section(&section);
    let decoded = decode_section(&name, data).expect("decodes");
    assert_eq!(decoded, section);
}

#[test]
fn name_section_writer_rejects_out_of_order() {
    let names = vec![
        Name::Function(NameMap::new()),
        Name::Module(String::from("m")),
    ];
    let section = Section::Name(names);
    assert_eq!(section.to_any(), Err(Error::BuilderContractViolation));
}

#[test]
fn name_map_duplicate_key_last_wins() {
    // count 2, then (5, "a") and (5, "b"): plain insertion overwrites.
    let bytes = [2, 5, 1, b'a', 5, 1, b'b'];
    let mut reader = Reader::new(&bytes);
    let map = reader.name_map().expect("decodes");
    assert_eq!(map.len(), 1);
    assert_eq!(map.get(0).0, 5);
    assert_eq!(map.get(0).1, "b");

    // The in-memory mapping is key-sorted regardless of encounter order.
    let bytes = [2, 9, 1, b'z', 3, 1, b'c'];
    let mut reader = Reader::new(&bytes);
    let map = reader.name_map().expect("decodes");
    assert_eq!(map.len(), 2);
    assert_eq!(map.get(0).0, 3);
    assert_eq!(map.get(1).0, 9);
}

#[test]
fn name_subsection_unknown_discriminant_rejected() {
    let mut w = Writer::new();
    w.subsection(10, &[]);
    let bytes = w.into_buffer();
    let mut reader = Reader::new(&bytes[..]);
    assert_eq!(reader.names(), Err(Error::UnknownDiscriminant));
}

#[test]
fn name_subsection_trailing_bytes_rejected() {
    // Discriminant 0 with payload "m" plus one stray byte.
    let mut w = Writer::new();
    w.subsection(0, &[1, b'm', 0xaa]);
    let bytes = w.into_buffer();
    let mut reader = Reader::new(&bytes[..]);
    assert_eq!(reader.names(), Err(Error::TrailingBytes));
}

#[test]
fn name_section_truncation_fails_fast() {
    let mut map = NameMap::new();
    map.insert(0, String::from("main"));
    let names = vec![
        Name::Module(String::from("m")),
        Name::Function(map),
    ];
    let (_, data) = encode_section(&Section::Name(names.clone()));

    // Cutting at the boundary after the first complete unit decodes to the
    // first unit alone.
    let first_unit_len = {
        let mut w = Writer::new();
        w.subsection(0, &[1, b'm']);
        w.into_buffer().len()
    };
    let mut reader = Reader::new(&data[..first_unit_len]);
    assert_eq!(reader.names(), Ok(vec![names[0].clone()]));

    // Cutting anywhere strictly inside a unit fails; it never panics and
    // never yields a different value silently.
    for cut in 0..data.len() {
        if cut == first_unit_len {
            continue;
        }
        let mut reader = Reader::new(&data[..cut]);
        if cut == 0 {
            assert_eq!(reader.names(), Ok(vec![]));
        } else {
            assert!(reader.names().is_err(), "cut at {cut} should fail");
        }
    }
}

#[test]
fn producers_round_trip() {
    let producers = vec![Producer {
        kind: ProducerKind::Language,
        list: vec![VersionedSoftware {
            name: String::from("rustc"),
            version: String::from("1.70"),
        }],
    }];
    let section = Section::Producers(producers);
    let (name, data) = encode_section(&section);
    assert_eq!(name, "producers");
    let decoded = decode_section(&name, data).expect("decodes");
    assert_eq!(decoded, section);
}

#[test]
fn producers_unknown_kind_rejected() {
    let mut w = Writer::new();
    w.integer(1);
    w.name("compiler");
    w.integer(0);
    let bytes = w.into_buffer();
    let mut reader = Reader::new(&bytes[..]);
    assert_eq!(reader.producers(), Err(Error::UnknownDiscriminant));
}

#[test]
fn producers_all_kinds_round_trip() {
    let producers = vec![
        Producer {
            kind: ProducerKind::Language,
            list: vec![VersionedSoftware {
                name: String::from("Rust"),
                version: String::from("2021"),
            }],
        },
        Producer {
            kind: ProducerKind::ProcessedBy,
            list: vec![
                VersionedSoftware {
                    name: String::from("rustc"),
                    version: String::from("1.70"),
                },
                VersionedSoftware {
                    name: String::from("wasm-opt"),
                    version: String::from("112"),
                },
            ],
        },
        Producer {
            kind: ProducerKind::Sdk,
            list: vec![],
        },
    ];
    let section = Section::Producers(producers);
    let (name, data) = encode_section(&section);
    let decoded = decode_section(&name, data).expect("decodes");
    assert_eq!(decoded, section);
}

#[test]
fn portals_append_in_order_succeeds() {
    let portals = Portals::new()
        .append(Portal::Log)
        .expect("0 first")
        .append(Portal::Prompt)
        .expect("1 next")
        .append(Portal::Fetch)
        .expect("2 next");
    // Appending a smaller portal after a larger one is rejected at append
    // time, not at decode time.
    assert_eq!(
        portals.append(Portal::Prompt).unwrap_err(),
        Error::BuilderContractViolation
    );
}

#[test]
fn daku_round_trip() {
    let mut assets = FileMap::new();
    assets.insert(0, File {
        path: String::from("icon.svg"),
        data: vec![1, 2, 3],
    });
    let mut localized = NameMap::new();
    localized.insert(0, String::from("Demo"));
    let mut descriptions = NameMap::new();
    descriptions.insert(0, String::from("A demo app"));
    let daku = Daku {
        portals: vec![Portal::Log, Portal::File, Portal::Gpu],
        nucleide: vec![
            Nucleide::LocalizedNames(localized),
            Nucleide::LocalizedDescriptions(descriptions),
            Nucleide::ThemedIcons(vec![File {
                path: String::from("default"),
                data: vec![9, 9],
            }]),
            Nucleide::LocalizedAssets(assets),
            Nucleide::Tags(vec![String::from("game"), String::from("puzzle")]),
            Nucleide::Categories(vec![Category::Gaming, Category::Education]),
            Nucleide::Developer(String::from("Example Org")),
        ],
    };
    let section = Section::Daku(daku);
    let (name, data) = encode_section(&section);
    assert_eq!(name, "daku");
    let decoded = decode_section(&name, data).expect("decodes");
    assert_eq!(decoded, section);
}

#[test]
fn daku_portals_only_round_trip() {
    let daku = Daku {
        portals: vec![Portal::Prompt, Portal::Speakers],
        nucleide: vec![],
    };
    let section = Section::Daku(daku);
    let (name, data) = encode_section(&section);
    // count 1, portals 0x01 0x04, nothing else.
    assert_eq!(data, vec![2, 0x01, 0x04]);
    let decoded = decode_section(&name, data).expect("decodes");
    assert_eq!(decoded, section);
}

#[test]
fn daku_out_of_order_portals_rejected() {
    // count 2, portal 1 then portal 1 again: not strictly increasing.
    let bytes = [2, 0x01, 0x01];
    let mut reader = Reader::new(&bytes);
    assert_eq!(reader.portals(), Err(Error::OutOfOrderField));

    // Unknown portal identifier.
    let bytes = [1, 0x77];
    let mut reader = Reader::new(&bytes);
    assert_eq!(reader.portals(), Err(Error::UnknownDiscriminant));

    // The writer rejects an out-of-order portal list before writing.
    let daku = Daku {
        portals: vec![Portal::Fetch, Portal::Log],
        nucleide: vec![],
    };
    assert_eq!(
        Section::Daku(daku).to_any(),
        Err(Error::BuilderContractViolation)
    );
}

#[test]
fn daku_unknown_category_rejected() {
    // Portal list empty, then nucleide subsection 5 with one category 0x63.
    let mut w = Writer::new();
    w.integer(0);
    w.subsection(5, &[1, 0x63]);
    let bytes = w.into_buffer();
    let mut reader = Reader::new(&bytes[..]);
    assert_eq!(reader.daku(), Err(Error::UnknownDiscriminant));
}

#[test]
fn unknown_section_stays_opaque() {
    let section = Section::Any {
        name: String::from(".debug_info"),
        data: vec![1, 2, 3],
    };
    assert!(section.to().is_none());
    let (name, data) = section.to_any().expect("opaque passes through");
    assert_eq!(name, ".debug_info");
    assert_eq!(data, vec![1, 2, 3]);
}

#[test]
fn malformed_known_section_stays_opaque() {
    // A `name` section whose payload is a lone continuation byte.
    assert!(decode_section("name", vec![0x80]).is_none());
}

#[test]
fn producers_truncation_fails_fast() {
    let producers = vec![Producer {
        kind: ProducerKind::Language,
        list: vec![VersionedSoftware {
            name: String::from("rustc"),
            version: String::from("1.70"),
        }],
    }];
    let (_, data) = encode_section(&Section::Producers(producers));
    // The producers body is one count-prefixed unit: every proper
    // truncation fails to decode as a producers section.
    for cut in 0..data.len() {
        assert!(
            decode_section("producers", data[..cut].to_vec()).is_none(),
            "cut at {cut} should fail"
        );
    }
}

#[test]
fn daku_truncation_fails_fast() {
    let daku = Daku {
        portals: vec![Portal::Log, Portal::Prompt],
        nucleide: vec![Nucleide::Developer(String::from("dev"))],
    };
    let (_, data) = encode_section(&Section::Daku(daku.clone()));
    // The portal list takes three bytes; the boundary just after it
    // decodes to the portals with the extension absent.
    let portals_only = decode_section("daku", data[..3].to_vec()).expect("boundary decodes");
    assert_eq!(
        portals_only,
        Section::Daku(Daku { portals: daku.portals.clone(), nucleide: vec![] })
    );
    // Any cut inside the portal list or inside the extension's one
    // subsection fails.
    for cut in 0..data.len() {
        if cut == 3 {
            continue;
        }
        assert!(
            decode_section("daku", data[..cut].to_vec()).is_none(),
            "cut at {cut} should fail"
        );
    }
}

#[test]
fn decoded_name_discriminants_strictly_increase() {
    let mut map = NameMap::new();
    map.insert(2, String::from("two"));
    let names = vec![
        Name::Module(String::from("m")),
        Name::Type(map),
        Name::Data(NameMap::new()),
    ];
    let (_, data) = encode_section(&Section::Name(names));
    let mut reader = Reader::new(&data[..]);
    let decoded = reader.names().expect("decodes");
    let discs: Vec<u8> = decoded.iter().map(|n| n.discriminant()).collect();
    for pair in discs.windows(2) {
        assert!(pair[0] < pair[1]);
    }
}
