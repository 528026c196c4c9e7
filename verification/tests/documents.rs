use strawberride::element::{Attributes, Element, Value};
use strawberride::error::{LoadError, StoreError, StreamError};
use strawberride::float::Float32;
use strawberride::{decode_document, encode_document, MapData};

fn text(s: &str) -> Value {
    Value::String(s.to_string())
}

fn element(name: &str, attributes: Vec<(&str, Value)>, children: Vec<Element>) -> Element {
    let mut attrs = Attributes::new();
    for (key, value) in attributes {
        attrs.insert(key.to_string(), value);
    }
    Element { name: name.to_string(), attributes: attrs, children }
}

fn level(name: &str, width: i32, height: i32, solids: &str, tiles: &str) -> Element {
    element(
        "level",
        vec![
            ("name", text(name)),
            ("width", Value::Integer(width)),
            ("height", Value::Integer(height)),
            ("x", Value::Integer(-40000)),
            ("musicProgress", text("")),
            ("windPattern", text("Alternating")),
            ("music", text("music_oldsite_awake")),
            ("enforceDashNumber", Value::Integer(1)),
            ("added_by_a_mod", Value::Float(Float32::from_bits(0.1f32.to_bits()))),
        ],
        vec![
            element(
                "entities",
                vec![],
                vec![
                    element(
                        "player",
                        vec![
                            ("id", Value::Integer(0)),
                            ("x", Value::Float(Float32::from_bits(24.5f32.to_bits()))),
                            ("y", Value::Integer(-152)),
                        ],
                        vec![],
                    ),
                    element(
                        "cassetteBlock",
                        vec![
                            ("id", Value::Integer(300)),
                            ("width", Value::Integer(32)),
                            ("height", Value::Integer(16)),
                            ("index", Value::Integer(70000)),
                            ("tempo", Value::Float(Float32::from_bits(1.0f32.to_bits()))),
                            ("finishedState", Value::Boolean(false)),
                        ],
                        vec![
                            element("node", vec![("x", Value::Integer(1)), ("y", Value::Integer(2))], vec![]),
                            element("node", vec![("x", Value::Integer(3)), ("y", Value::Integer(4))], vec![]),
                        ],
                    ),
                ],
            ),
            element("triggers", vec![], vec![]),
            element(
                "bgdecals",
                vec![],
                vec![element(
                    "decal",
                    vec![
                        ("texture", text("scenery/grass_a.png")),
                        ("x", Value::Integer(12)),
                        ("y", Value::Integer(100)),
                        ("scaleX", Value::Integer(-1)),
                        ("scaleY", Value::Integer(1)),
                        ("rotation", Value::Float(Float32::from_bits(22.5f32.to_bits()))),
                        ("color", text("ff8800")),
                    ],
                    vec![],
                )],
            ),
            element("fgdecals", vec![], vec![]),
            element("solids", vec![("innerText", Value::RleString(solids.to_string()))], vec![]),
            element("bg", vec![("innerText", Value::RleString(String::new()))], vec![]),
            element("objtiles", vec![("innerText", text(tiles))], vec![]),
            element("fgtiles", vec![("innerText", text(""))], vec![]),
            element("bgtiles", vec![("innerText", text(""))], vec![]),
        ],
    )
}

fn sample_root() -> Element {
    let solids: String = (0..23).map(|y| if y % 5 == 0 { "1".repeat(40) } else { format!("1{}1", "0".repeat(38)) }).collect::<Vec<_>>().join("\n");
    let tiles: String = (0..23).map(|y| (0..40).map(|x| if (x + y) % 7 == 0 { (x * y).to_string() } else { "-1".to_string() }).collect::<Vec<_>>().join(",")).collect::<Vec<_>>().join("\n");
    element(
        "Map",
        vec![],
        vec![
            element(
                "Filler",
                vec![],
                vec![element(
                    "rect",
                    vec![("x", Value::Integer(0)), ("y", Value::Integer(0)), ("w", Value::Integer(40)), ("h", Value::Integer(23))],
                    vec![],
                )],
            ),
            element(
                "Style",
                vec![("color", text("0b0b1e"))],
                vec![
                    element(
                        "Foregrounds",
                        vec![],
                        vec![element("parallax", vec![("texture", text("bgs/fog")), ("alpha", Value::Float(Float32::from_bits(0.5f32.to_bits())))], vec![])],
                    ),
                    element("Backgrounds", vec![], vec![element("stars", vec![], vec![])]),
                ],
            ),
            element(
                "levels",
                vec![],
                vec![level("a-00", 320, 184, &solids, &tiles), level("a-01", 8, 8, "1", "5")],
            ),
            element("meta", vec![("Dreaming", Value::Boolean(true))], vec![element("mode", vec![], vec![])]),
        ],
    )
}

fn sample_document(header: bool) -> Vec<u8> {
    encode_document("sample-package", &sample_root(), header).unwrap()
}

#[test]
fn round_trip_real_data() {
    let bytes = sample_document(true);
    let map = MapData::load(&bytes, true).unwrap();
    let stored = map.clone().store(true).unwrap();
    let same_map = MapData::load(&stored, true).unwrap();
    if map != same_map {
        // assert_eq prints out both structs, which prints a lot of text to the console
        panic!("round trip equality failed")
    }
    let stored_again = same_map.store(true).unwrap();
    assert_eq!(stored, stored_again);
}

#[test]
fn loaded_map_holds_the_document() {
    let map = MapData::load(&sample_document(true), true).unwrap();
    assert_eq!(map.package, "sample-package");
    assert_eq!(map.levels.len(), 2);
    assert_eq!(map.levels[0].name, "a-00");
    assert_eq!(map.levels[0].solids.width(), 40);
    assert_eq!(map.levels[0].solids.height(), 23);
    assert_eq!(map.levels[0].solids.get(0, 1), Some(&'1'));
    assert_eq!(map.levels[0].solids.get(1, 1), Some(&'0'));
    assert_eq!(map.levels[0].obj_tiles.get(7, 7), Some(&49));
    assert_eq!(map.levels[0].obj_tiles.get(1, 0), Some(&-1));
    assert_eq!(map.levels[0].entities.len(), 2);
    assert_eq!(map.levels[0].entities[1].nodes.len(), 2);
    assert_eq!(map.levels[0].entities[1].values.get("index"), Some(&Value::Integer(70000)));
    assert_eq!(map.levels[0].bg_decals[0].color, [0xff, 0x88, 0x00, 0xff]);
    assert_eq!(map.levels[0].data.wind_pattern, "Alternating");
    assert_eq!(map.levels[0].data.music_progress, None);
    assert_eq!(map.levels[0].extra_data.len(), 1);
    assert_eq!(map.levels[1].solids.raw_data(), &['1']);
    assert_eq!(map.bg_color, Some([0x0b, 0x0b, 0x1e, 0xff]));
    assert_eq!(map.filler.len(), 1);
    assert_eq!(map.extra_children.len(), 1);
    assert_eq!(map.extra_data.len(), 0);
}

#[test]
fn document_layout() {
    let root = element("Map", vec![("k", Value::Integer(1))], vec![element("c", vec![], vec![])]);
    let bytes = encode_document("pk", &root, true).unwrap();
    let mut want = vec![11];
    want.extend_from_slice(b"CELESTE MAP");
    want.extend_from_slice(&[2, b'p', b'k']);
    want.extend_from_slice(&[3, 0]);
    want.extend_from_slice(&[3, b'M', b'a', b'p', 1, b'k', 1, b'c']);
    want.extend_from_slice(&[0, 0, 1, 1, 0, 1, 1, 1, 0, 2, 0, 0, 0, 0]);
    assert_eq!(bytes, want);
    let (package, read) = decode_document(&bytes, true).unwrap();
    assert_eq!(package, "pk");
    assert_eq!(read, root);
    let bare = encode_document("pk", &root, false).unwrap();
    assert_eq!(bare, want[12..].to_vec());
    assert_eq!(decode_document(&bare, false).unwrap().1, root);
}

#[test]
fn header_is_checked_only_when_asked() {
    let with = sample_document(true);
    let without = sample_document(false);
    assert_eq!(with.len(), without.len() + 12);
    assert!(MapData::load(&with, true).is_ok());
    assert!(MapData::load(&without, false).is_ok());
    match MapData::load(&without, true) {
        Err(LoadError::InvalidHeader(header)) => assert_eq!(header, "sample-package"),
        other => panic!("{:?}", other.map(|_| ())),
    }
    let mut wrong = vec![11];
    wrong.extend_from_slice(b"CELESTE MAp");
    wrong.extend_from_slice(&without);
    match MapData::load(&wrong, true) {
        Err(LoadError::InvalidHeader(header)) => assert_eq!(header, "CELESTE MAp"),
        other => panic!("{:?}", other.map(|_| ())),
    }
}

#[test]
fn truncated_document_is_an_error() {
    let bytes = sample_document(true);
    for cut in [0, 1, 5, 12, 13, 20, 27, 28, 29, 40, 100, bytes.len() / 2, bytes.len() - 1] {
        match MapData::load(&bytes[..cut], true) {
            Err(LoadError::IoError(StreamError::UnexpectedEof)) => {},
            other => panic!("cut at {} gave {:?}", cut, other.map(|_| ())),
        }
    }
    let mut longer = bytes.clone();
    longer.extend_from_slice(&[1, 2, 3]);
    assert_eq!(MapData::load(&longer, true).unwrap(), MapData::load(&bytes, true).unwrap());
}

#[test]
fn document_errors_come_through() {
    let root = element("NotAMap", vec![], vec![]);
    let bytes = encode_document("p", &root, false).unwrap();
    assert!(matches!(MapData::load(&bytes, false), Err(LoadError::InvalidElementName(_, "Map"))));
    assert!(matches!(decode_document(&[1, 0xff], false), Err(LoadError::IoError(StreamError::InvalidUtf8))));
    assert!(matches!(decode_document(&[0, 1, 0, 1, 0xc0], false), Err(LoadError::IoError(StreamError::InvalidUtf8))));
    assert!(matches!(decode_document(&[0, 0, 0, 0, 0, 0, 0, 0], false), Err(LoadError::InvalidString(0))));
    assert!(matches!(
        decode_document(&[0, 1, 0, 1, b'e', 0, 0, 1, 0, 0, 42], false),
        Err(LoadError::InvalidValueType(42))
    ));
    let ten = [0x80u8; 10];
    assert!(matches!(decode_document(&ten, false), Err(LoadError::IoError(StreamError::OversizedInteger))));
}

#[test]
fn package_attribute_in_the_document_is_replaced() {
    let root = element("Map", vec![("_package", text("inner"))], vec![]);
    let bytes = encode_document("outer", &root, false).unwrap();
    let map = MapData::load(&bytes, false).unwrap();
    assert_eq!(map.package, "outer");
    assert_eq!(map.extra_data.len(), 0);
}

#[test]
fn store_writes_the_package_in_front() {
    let map = MapData::load(&sample_document(false), false).unwrap();
    let bytes = map.store(false).unwrap();
    assert_eq!(&bytes[..15], b"\x0esample-package");
    let (package, root) = decode_document(&bytes, false).unwrap();
    assert_eq!(package, "sample-package");
    assert!(!root.attributes.contains_key("_package"));
    assert_eq!(root.name, "Map");
}

#[test]
fn store_refuses_what_does_not_fit() {
    let mut map = MapData::load(&sample_document(false), false).unwrap();
    for i in 0..256 {
        map.extra_data.insert(format!("extra{}", i), Value::Integer(i));
    }
    assert_eq!(map.store(false), Err(StoreError::TooManyAttributes));
    let mut map = MapData::load(&sample_document(false), false).unwrap();
    map.extra_children = vec![element("c", vec![], vec![]); 65533];
    assert_eq!(map.store(false), Err(StoreError::TooManyChildren));
    let mut map = MapData::load(&sample_document(false), false).unwrap();
    map.extra_children = vec![element("c", vec![], vec![]); 65532];
    assert!(map.store(false).is_ok());
    let mut map = MapData::load(&sample_document(false), false).unwrap();
    map.extra_data.insert("long".to_string(), Value::RleString("xy".repeat(17000)));
    assert_eq!(map.store(false), Err(StoreError::TextTooLong));
    let mut map = MapData::load(&sample_document(false), false).unwrap();
    for i in 0..66000 {
        map.extra_children.push(element("c", vec![("k", Value::Integer(1))], vec![]));
        if i < 65520 {
            let last = map.extra_children.len() - 1;
            map.extra_children[last].name = format!("c{}", i);
        }
    }
    map.extra_children.truncate(65500);
    assert_eq!(map.store(false), Err(StoreError::TooManyStrings));
}

#[test]
fn many_short_strings_fall_back_to_full_strings() {
    let mut root = element("Map", vec![], vec![]);
    let mut holder = element("holder", vec![], vec![]);
    for i in 0..300 {
        let mut child = element("c", vec![], vec![]);
        for j in 0..250 {
            child.attributes.insert(format!("k{}", j), text(&format!("value {} {}", i, j)));
        }
        holder.children.push(child);
    }
    root.children.push(holder);
    let bytes = encode_document("p", &root, false).unwrap();
    let (package, read) = decode_document(&bytes, false).unwrap();
    assert_eq!(package, "p");
    assert_eq!(read, root);
    assert_eq!(&bytes[2..4], &[0xff, 0xff]);
}
