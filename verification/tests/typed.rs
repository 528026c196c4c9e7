use strawberride::element::{Attributes, Element, Value};
use strawberride::error::LoadError;
use strawberride::float::Float32;
use strawberride::map_serde::{format_color, parse_color, MapElement};
use strawberride::{Decal, Entity, Filler, Level, MapData};

fn float(x: f32) -> Float32 {
    Float32::from_bits(x.to_bits())
}

fn text(s: &str) -> Value {
    Value::String(s.to_string())
}

fn element(name: &str, attributes: Vec<(&str, Value)>, children: Vec<Element>) -> Element {
    let mut attrs = Attributes::new();
    for (key, value) in attributes {
        attrs.insert(key.to_string(), value);
    }
    Element { name: name.to_string(), attributes: attrs, children }
}

#[test]
fn colors_are_read_from_hex_digits() {
    assert_eq!(parse_color("ff0000".to_string()).unwrap(), [0xff, 0x00, 0x00, 0xff]);
    assert_eq!(parse_color("00000080".to_string()).unwrap(), [0, 0, 0, 0x80]);
    assert_eq!(parse_color("AbCdEf01".to_string()).unwrap(), [0xab, 0xcd, 0xef, 0x01]);
    assert_eq!(parse_color("ffffff".to_string()).unwrap(), [0xff; 4]);
}

#[test]
fn malformed_colors_are_refused() {
    for bad in ["zz0000", "abc", "", "fffff", "fffffff", "fffffffff", "ff 000", "+f0000", "é1234", "ｆｆ"] {
        match parse_color(bad.to_string()) {
            Err(LoadError::InvalidFieldData("color", data)) => assert_eq!(data, bad),
            other => panic!("{:?} gave {:?}", bad, other),
        }
    }
}

#[test]
fn colors_are_written_as_eight_digits() {
    assert_eq!(format_color(&[0xff, 0, 0, 0xff]), "ff0000ff");
    assert_eq!(format_color(&[0x01, 0x23, 0xab, 0x0f]), "0123ab0f");
    for color in [[0u8, 0, 0, 0], [1, 2, 3, 4], [255, 254, 253, 252], [0x9a, 0xbc, 0xde, 0xf0]] {
        assert_eq!(parse_color(format_color(&color)).unwrap(), color);
    }
}

#[test]
fn decal_defaults() {
    let decal = Decal::try_from(element("decal", vec![], vec![])).unwrap();
    assert_eq!(decal.position, (float(0.0), float(0.0)));
    assert_eq!(decal.scale, (float(1.0), float(1.0)));
    assert_eq!(decal.texture, "");
    assert_eq!(decal.color, [0xff; 4]);
    assert_eq!(decal.depth, 0);
    assert_eq!(decal.rotation, float(0.0));
}

#[test]
fn decal_reads_and_coerces_its_fields() {
    let decal = Decal::try_from(element(
        "decal",
        vec![
            ("x", Value::Integer(3)),
            ("y", Value::Float(float(-2.5))),
            ("scaleX", Value::Integer(-1)),
            ("scaleY", Value::Float(float(2.0))),
            ("texture", Value::RleString("tex".to_string())),
            ("depth", Value::Float(float(-7.9))),
            ("rotation", Value::Integer(90)),
            ("color", text("10203040")),
            ("unknown", Value::Boolean(true)),
        ],
        vec![element("ignored", vec![], vec![])],
    ))
    .unwrap();
    assert_eq!(decal.position, (float(3.0), float(-2.5)));
    assert_eq!(decal.scale, (float(-1.0), float(2.0)));
    assert_eq!(decal.texture, "tex");
    assert_eq!(decal.depth, -7);
    assert_eq!(decal.rotation, float(90.0));
    assert_eq!(decal.color, [0x10, 0x20, 0x30, 0x40]);
}

#[test]
fn decal_errors() {
    match Decal::try_from(element("rect", vec![], vec![])) {
        Err(LoadError::InvalidElementName(name, "decal")) => assert_eq!(name, "rect"),
        other => panic!("{:?}", other),
    }
    match Decal::try_from(element("decal", vec![("x", text("1"))], vec![])) {
        Err(LoadError::InvalidFieldType("x", value)) => assert_eq!(value, text("1")),
        other => panic!("{:?}", other),
    }
    match Decal::try_from(element("decal", vec![("texture", Value::Integer(1))], vec![])) {
        Err(LoadError::InvalidFieldType("texture", Value::Integer(1))) => {},
        other => panic!("{:?}", other),
    }
    match Decal::try_from(element("decal", vec![("color", text("nothex"))], vec![])) {
        Err(LoadError::InvalidFieldData("color", data)) => assert_eq!(data, "nothex"),
        other => panic!("{:?}", other),
    }
    // the kind of the color is looked at first, its digits last
    match Decal::try_from(element(
        "decal",
        vec![("color", text("nothex")), ("depth", Value::Boolean(true))],
        vec![],
    )) {
        Err(LoadError::InvalidFieldType("depth", Value::Boolean(true))) => {},
        other => panic!("{:?}", other),
    }
    match Decal::try_from(element(
        "decal",
        vec![("color", Value::Integer(1)), ("x", Value::Boolean(true))],
        vec![],
    )) {
        Err(LoadError::InvalidFieldType("color", Value::Integer(1))) => {},
        other => panic!("{:?}", other),
    }
}

#[test]
fn decal_leaves_out_usual_values() {
    let plain = Decal {
        position: (float(1.0), float(2.0)),
        scale: (float(1.0), float(-1.0)),
        texture: "t".to_string(),
        color: [0xff; 4],
        depth: 0,
        rotation: float(0.0),
    };
    let written = Element::from(plain.clone());
    assert_eq!(
        written,
        element(
            "decal",
            vec![
                ("x", Value::Float(float(1.0))),
                ("y", Value::Float(float(2.0))),
                ("scaleX", Value::Float(float(1.0))),
                ("scaleY", Value::Float(float(-1.0))),
                ("texture", text("t")),
            ],
            vec![]
        )
    );
    assert_eq!(Decal::try_from(written).unwrap(), plain);
    let fancy = Decal { color: [1, 2, 3, 0xff], depth: -3, rotation: float(45.0), ..plain.clone() };
    let written = Element::from(fancy.clone());
    assert_eq!(written.attributes.get("color"), Some(&text("010203ff")));
    assert_eq!(written.attributes.get("depth"), Some(&Value::Integer(-3)));
    assert_eq!(written.attributes.get("rotation"), Some(&Value::Float(float(45.0))));
    assert_eq!(written.attributes.len(), 8);
    assert_eq!(Decal::try_from(written).unwrap(), fancy);
    let negative_zero = Decal { rotation: float(-0.0), ..plain };
    assert!(!Element::from(negative_zero).attributes.contains_key("rotation"));
}

#[test]
fn filler_round_trips() {
    let filler = Filler { position: (-3, 4), size: (10, 20) };
    let written = Element::from(filler);
    assert_eq!(
        written,
        element(
            "rect",
            vec![
                ("x", Value::Integer(-3)),
                ("y", Value::Integer(4)),
                ("w", Value::Integer(10)),
                ("h", Value::Integer(20)),
            ],
            vec![]
        )
    );
    assert_eq!(Filler::try_from(written).unwrap(), filler);
    assert_eq!(
        Filler::try_from(element("rect", vec![("w", Value::Float(float(2.9)))], vec![])).unwrap(),
        Filler { position: (0, 0), size: (2, 0) }
    );
    assert!(matches!(
        Filler::try_from(element("Filler", vec![], vec![])),
        Err(LoadError::InvalidElementName(_, "rect"))
    ));
    assert!(matches!(
        Filler::try_from(element("rect", vec![("h", Value::Boolean(true))], vec![])),
        Err(LoadError::InvalidFieldType("h", Value::Boolean(true)))
    ));
}

#[test]
fn entity_without_size_has_no_size() {
    let entity = Entity::try_from(element(
        "spinner",
        vec![("id", Value::Integer(4)), ("x", Value::Integer(8)), ("dust", Value::Boolean(true))],
        vec![],
    ))
    .unwrap();
    assert_eq!(entity.name, "spinner");
    assert_eq!(entity.id, 4);
    assert_eq!(entity.position, (float(8.0), float(0.0)));
    assert_eq!(entity.width, None);
    assert_eq!(entity.height, None);
    assert_eq!(entity.origin, (float(0.0), float(0.0)));
    assert!(entity.nodes.is_empty());
    assert_eq!(entity.values.len(), 1);
    assert_eq!(entity.values.get("dust"), Some(&Value::Boolean(true)));
    let written = Element::from(entity.clone());
    assert!(!written.attributes.contains_key("width"));
    assert!(!written.attributes.contains_key("height"));
    assert_eq!(written.attributes.len(), 6);
    assert_eq!(Entity::try_from(written).unwrap(), entity);
}

#[test]
fn entity_with_size_and_nodes_round_trips() {
    let source = element(
        "movingPlatform",
        vec![
            ("id", Value::Integer(12)),
            ("x", Value::Float(float(16.5))),
            ("y", Value::Integer(-8)),
            ("width", Value::Integer(24)),
            ("height", Value::Integer(8)),
            ("originX", Value::Float(float(0.5))),
            ("originY", Value::Float(float(1.0))),
            ("texture", text("cliffside")),
        ],
        vec![
            element("node", vec![("x", Value::Integer(1)), ("y", Value::Float(float(2.5)))], vec![]),
            element("node", vec![("extra", Value::Integer(1))], vec![]),
        ],
    );
    let entity = Entity::try_from(source).unwrap();
    assert_eq!(entity.width, Some(24));
    assert_eq!(entity.height, Some(8));
    assert_eq!(entity.nodes, vec![(float(1.0), float(2.5)), (float(0.0), float(0.0))]);
    assert_eq!(entity.values.len(), 1);
    let written = Element::from(entity.clone());
    assert_eq!(written.name, "movingPlatform");
    assert_eq!(written.children.len(), 2);
    assert_eq!(
        written.children[0],
        element("node", vec![("x", Value::Float(float(1.0))), ("y", Value::Float(float(2.5)))], vec![])
    );
    assert_eq!(written.attributes.get("width"), Some(&Value::Integer(24)));
    assert_eq!(Entity::try_from(written).unwrap(), entity);
}

#[test]
fn entity_size_given_as_a_float_is_cut_off() {
    let entity = Entity::try_from(element("e", vec![("width", Value::Float(float(16.9)))], vec![])).unwrap();
    assert_eq!(entity.width, Some(16));
    assert_eq!(entity.height, None);
    let entity = Entity::try_from(element(
        "e",
        vec![("width", Value::Integer(3)), ("height", Value::Float(float(-7.5)))],
        vec![],
    ))
    .unwrap();
    assert_eq!(entity.width, Some(3));
    assert_eq!(entity.height, Some(-7));
    let written = Element::from(entity);
    assert_eq!(written.attributes.get("height"), Some(&Value::Integer(-7)));
}

#[test]
fn optional_fields_are_read_with_coercion() {
    let level = Level::try_from(level_element(
        vec![("enforceDashNumber", Value::Float(float(2.9)))],
        vec![],
    ))
    .unwrap();
    assert_eq!(level.data.enforce_dash_number, Some(2));
    let map = MapData::try_from(element(
        "Map",
        vec![],
        vec![element("Style", vec![("color", Value::RleString("ff0000".to_string()))], vec![])],
    ))
    .unwrap();
    assert_eq!(map.bg_color, Some([0xff, 0x00, 0x00, 0xff]));
    let plain = MapData::try_from(element(
        "Map",
        vec![],
        vec![element("Style", vec![("color", text("00000080"))], vec![])],
    ))
    .unwrap();
    assert_eq!(plain.bg_color, Some([0, 0, 0, 0x80]));
}

#[test]
fn entity_errors() {
    assert!(matches!(
        Entity::try_from(element("e", vec![("width", text("16"))], vec![])),
        Err(LoadError::InvalidFieldType("width", _))
    ));
    assert!(matches!(
        Entity::try_from(element("e", vec![("height", Value::Boolean(true))], vec![])),
        Err(LoadError::InvalidFieldType("height", Value::Boolean(true)))
    ));
    assert!(matches!(
        Entity::try_from(element("e", vec![("id", text("1"))], vec![])),
        Err(LoadError::InvalidFieldType("id", _))
    ));
    match Entity::try_from(element("e", vec![], vec![element("nod", vec![], vec![])])) {
        Err(LoadError::InvalidElementName(name, "node")) => assert_eq!(name, "nod"),
        other => panic!("{:?}", other),
    }
    assert!(matches!(
        Entity::try_from(element(
            "e",
            vec![],
            vec![
                element("node", vec![], vec![]),
                element("node", vec![("y", Value::Boolean(false))], vec![]),
                element("wrong", vec![], vec![]),
            ]
        )),
        Err(LoadError::InvalidFieldType("y", Value::Boolean(false)))
    ));
}

fn level_element(attributes: Vec<(&str, Value)>, children: Vec<Element>) -> Element {
    element("level", attributes, children)
}

#[test]
fn level_defaults() {
    let level = Level::try_from(level_element(vec![], vec![])).unwrap();
    assert_eq!(level.name, "<unnamed>");
    assert_eq!(level.data.position, (0, 0));
    assert_eq!(level.data.size, (8, 8));
    assert_eq!(level.data.music_layers, [false; 4]);
    assert_eq!(level.data.music_progress, None);
    assert_eq!(level.data.ambience_progress, None);
    assert_eq!(level.data.wind_pattern, "None");
    assert_eq!(level.data.alt_music, "");
    assert_eq!(level.data.enforce_dash_number, None);
    assert_eq!(level.data.color, 0);
    assert_eq!(level.bg.width(), 1);
    assert_eq!(level.bg.height(), 1);
    assert_eq!(level.obj_tiles.raw_data(), &[-1]);
    assert!(level.entities.is_empty());
    assert_eq!(level.extra_data.len(), 0);
    assert!(level.extra_children.is_empty());
}

#[test]
fn level_music_progress_is_text() {
    let empty = Level::try_from(level_element(vec![("musicProgress", text(""))], vec![])).unwrap();
    assert_eq!(empty.data.music_progress, None);
    let written = Element::from(empty);
    assert_eq!(written.attributes.get("musicProgress"), Some(&text("")));
    assert_eq!(written.attributes.get("ambienceProgress"), Some(&text("")));
    let set = Level::try_from(level_element(
        vec![("musicProgress", text("-3")), ("ambienceProgress", Value::RleString("12".to_string()))],
        vec![],
    ))
    .unwrap();
    assert_eq!(set.data.music_progress, Some(-3));
    assert_eq!(set.data.ambience_progress, Some(12));
    let written = Element::from(set);
    assert_eq!(written.attributes.get("musicProgress"), Some(&text("-3")));
    assert_eq!(written.attributes.get("ambienceProgress"), Some(&text("12")));
    match Level::try_from(level_element(vec![("musicProgress", text("three"))], vec![])) {
        Err(LoadError::InvalidFieldData("musicProgress", data)) => assert_eq!(data, "three"),
        other => panic!("{:?}", other),
    }
    match Level::try_from(level_element(vec![("ambienceProgress", text(" 1"))], vec![])) {
        Err(LoadError::InvalidFieldData("ambienceProgress", data)) => assert_eq!(data, " 1"),
        other => panic!("{:?}", other),
    }
    assert!(matches!(
        Level::try_from(level_element(vec![("musicProgress", Value::Integer(3))], vec![])),
        Err(LoadError::InvalidFieldType("musicProgress", Value::Integer(3)))
    ));
}

#[test]
fn level_reads_its_data() {
    let level = Level::try_from(level_element(
        vec![
            ("name", text("a-01")),
            ("x", Value::Integer(-320)),
            ("y", Value::Float(float(180.7))),
            ("width", Value::Integer(24)),
            ("height", Value::Integer(17)),
            ("musicLayer1", Value::Boolean(true)),
            ("musicLayer3", Value::Boolean(true)),
            ("underwater", Value::Boolean(true)),
            ("space", Value::Boolean(true)),
            ("disableDownTransition", Value::Boolean(true)),
            ("cameraOffsetX", Value::Integer(2)),
            ("cameraOffsetY", Value::Integer(-2)),
            ("windPattern", text("LeftStrong")),
            ("alt_music", text("alt")),
            ("ambience", text("amb")),
            ("delayAltMusicFade", Value::Boolean(true)),
            ("music", text("mus")),
            ("c", Value::Integer(5)),
            ("dark", Value::Boolean(true)),
            ("enforceDashNumber", Value::Integer(1)),
            ("whisper", Value::Boolean(true)),
            ("custom", text("kept")),
        ],
        vec![],
    ))
    .unwrap();
    assert_eq!(level.name, "a-01");
    assert_eq!(level.data.position, (-320, 180));
    assert_eq!(level.data.size, (24, 17));
    assert_eq!(level.data.music_layers, [true, false, true, false]);
    assert!(level.data.underwater && level.data.space && level.data.disable_down_transition);
    assert_eq!(level.data.camera_offset, (2, -2));
    assert_eq!(level.data.wind_pattern, "LeftStrong");
    assert_eq!(level.data.alt_music, "alt");
    assert_eq!(level.data.ambience, "amb");
    assert!(level.data.delay_alt_music_fade && level.data.dark && level.data.whisper);
    assert_eq!(level.data.music, "mus");
    assert_eq!(level.data.color, 5);
    assert_eq!(level.data.enforce_dash_number, Some(1));
    assert_eq!(level.bg.width(), 3);
    assert_eq!(level.bg.height(), 2);
    assert_eq!(level.extra_data.len(), 1);
    assert_eq!(level.extra_data.get("custom"), Some(&text("kept")));
}

#[test]
fn level_keeps_an_unknown_wind_pattern() {
    let level = Level::try_from(level_element(vec![("windPattern", text("SomethingNew"))], vec![])).unwrap();
    assert_eq!(level.data.wind_pattern, "SomethingNew");
    assert_eq!(Element::from(level).attributes.get("windPattern"), Some(&text("SomethingNew")));
}

#[test]
fn level_reads_its_children() {
    let level = Level::try_from(level_element(
        vec![("width", Value::Integer(16)), ("height", Value::Integer(16))],
        vec![
            element("entities", vec![], vec![element("player", vec![("x", Value::Integer(4))], vec![])]),
            element("mystery", vec![("k", Value::Integer(1))], vec![]),
            element("triggers", vec![], vec![element("t", vec![], vec![]), element("u", vec![], vec![])]),
            element("bgdecals", vec![], vec![element("decal", vec![("texture", text("b"))], vec![])]),
            element("fgdecals", vec![], vec![]),
            element("bg", vec![("innerText", Value::RleString("ab\ncd".to_string()))], vec![]),
            element("solids", vec![("innerText", text("1\n01"))], vec![]),
            element("bgtiles", vec![("innerText", text("1,2\n3"))], vec![]),
            element("fgtiles", vec![], vec![]),
            element("objtiles", vec![("innerText", text("\n,9"))], vec![]),
            element("entities", vec![], vec![element("late", vec![], vec![])]),
        ],
    ))
    .unwrap();
    assert_eq!(level.entities.len(), 1);
    assert_eq!(level.entities[0].name, "late");
    assert_eq!(level.triggers.len(), 2);
    assert_eq!(level.bg_decals.len(), 1);
    assert_eq!(level.bg_decals[0].texture, "b");
    assert!(level.fg_decals.is_empty());
    assert_eq!(level.bg.raw_data(), &['a', 'b', 'c', 'd']);
    assert_eq!(level.solids.raw_data(), &['1', '0', '0', '1']);
    assert_eq!(level.bg_tiles.raw_data(), &[1, 2, 3, -1]);
    assert_eq!(level.fg_tiles.raw_data(), &[-1; 4]);
    assert_eq!(level.obj_tiles.raw_data(), &[-1, -1, -1, 9]);
    assert_eq!(level.extra_children, vec![element("mystery", vec![("k", Value::Integer(1))], vec![])]);
}

#[test]
fn level_errors() {
    assert!(matches!(
        Level::try_from(element("Level", vec![], vec![])),
        Err(LoadError::InvalidElementName(_, "level"))
    ));
    match Level::try_from(level_element(vec![("width", Value::Integer(-1))], vec![])) {
        Err(LoadError::InvalidFieldData("width", data)) => assert_eq!(data, "width cannot be negative"),
        other => panic!("{:?}", other),
    }
    match Level::try_from(level_element(vec![("height", Value::Integer(-8))], vec![])) {
        Err(LoadError::InvalidFieldData("height", data)) => assert_eq!(data, "height cannot be negative"),
        other => panic!("{:?}", other),
    }
    assert!(matches!(
        Level::try_from(level_element(vec![("name", Value::Integer(1))], vec![])),
        Err(LoadError::InvalidFieldType("name", Value::Integer(1)))
    ));
    assert!(matches!(
        Level::try_from(level_element(vec![("dark", Value::Integer(1))], vec![])),
        Err(LoadError::InvalidFieldType("dark", Value::Integer(1)))
    ));
    assert!(matches!(
        Level::try_from(level_element(vec![("enforceDashNumber", text("1"))], vec![])),
        Err(LoadError::InvalidFieldType("enforceDashNumber", _))
    ));
    assert!(matches!(
        Level::try_from(level_element(
            vec![],
            vec![element("bg", vec![("innerText", Value::Integer(1))], vec![])]
        )),
        Err(LoadError::InvalidFieldType("innerText", Value::Integer(1)))
    ));
    assert!(matches!(
        Level::try_from(level_element(
            vec![],
            vec![element("entities", vec![], vec![element("e", vec![("id", text("x"))], vec![])])]
        )),
        Err(LoadError::InvalidFieldType("id", _))
    ));
    assert!(matches!(
        Level::try_from(level_element(
            vec![],
            vec![element("fgdecals", vec![], vec![element("notdecal", vec![], vec![])])]
        )),
        Err(LoadError::InvalidElementName(_, "decal"))
    ));
    // the first error in reading order is the one reported
    assert!(matches!(
        Level::try_from(level_element(
            vec![("x", text("a")), ("ambienceProgress", text("b"))],
            vec![]
        )),
        Err(LoadError::InvalidFieldData("ambienceProgress", _))
    ));
}

fn sample_level() -> Level {
    Level::try_from(level_element(
        vec![
            ("name", text("lvl_1")),
            ("x", Value::Integer(320)),
            ("width", Value::Integer(32)),
            ("height", Value::Integer(24)),
            ("musicProgress", text("7")),
            ("music", text("event:/music/lvl1")),
            ("enforceDashNumber", Value::Integer(2)),
            ("modded", Value::Float(float(1.25))),
        ],
        vec![
            element(
                "entities",
                vec![],
                vec![
                    element(
                        "player",
                        vec![("id", Value::Integer(0)), ("x", Value::Integer(16)), ("y", Value::Integer(160))],
                        vec![],
                    ),
                    element(
                        "zipMover",
                        vec![
                            ("id", Value::Integer(1)),
                            ("width", Value::Integer(16)),
                            ("height", Value::Integer(8)),
                            ("theme", text("moon")),
                        ],
                        vec![element("node", vec![("x", Value::Integer(64)), ("y", Value::Integer(32))], vec![])],
                    ),
                ],
            ),
            element("triggers", vec![], vec![element("musicFade", vec![("id", Value::Integer(2))], vec![])]),
            element(
                "bgdecals",
                vec![],
                vec![element(
                    "decal",
                    vec![("texture", text("1-forsakencity/flag00")), ("scaleX", Value::Integer(-1)), ("color", text("80ff80"))],
                    vec![],
                )],
            ),
            element("fgdecals", vec![], vec![]),
            element("bg", vec![("innerText", Value::RleString("0000\n0aa0\n0000".to_string()))], vec![]),
            element("bgtiles", vec![("innerText", text("-1,-1,3\n4"))], vec![]),
            element("fgtiles", vec![("innerText", text(""))], vec![]),
            element("objtiles", vec![("innerText", text("\n\n1,2,3,4"))], vec![]),
            element("solids", vec![("innerText", Value::RleString("1111\n1001\n1111".to_string()))], vec![]),
            element("thirdparty", vec![("a", Value::Boolean(true))], vec![element("inner", vec![], vec![])]),
        ],
    ))
    .unwrap()
}

#[test]
fn level_round_trips() {
    let level = sample_level();
    let written = Element::from(level.clone());
    assert_eq!(written.name, "level");
    assert_eq!(written.children.len(), 10);
    assert_eq!(written.children[0].name, "thirdparty");
    let names: Vec<&str> = written.children.iter().map(|c| c.name.as_str()).collect();
    assert_eq!(
        names,
        vec![
            "thirdparty", "entities", "triggers", "bgdecals", "fgdecals", "bg", "bgtiles", "fgtiles",
            "objtiles", "solids"
        ]
    );
    assert_eq!(
        written.children[5].attributes.get("innerText"),
        Some(&Value::RleString("\n0aa\n".to_string()))
    );
    assert_eq!(written.children[6].attributes.get("innerText"), Some(&text("-1,-1,3\n4\n")));
    assert_eq!(written.children[9].attributes.get("innerText"), Some(&Value::RleString("1111\n1001\n1111".to_string())));
    assert_eq!(written.attributes.get("modded"), Some(&Value::Float(float(1.25))));
    assert_eq!(written.attributes.get("name"), Some(&text("lvl_1")));
    assert_eq!(written.attributes.len(), 26);
    assert_eq!(Level::try_from(written).unwrap(), level);
}

#[test]
fn level_without_dash_number_leaves_it_out() {
    let level = Level::try_from(level_element(vec![], vec![])).unwrap();
    let written = Element::from(level);
    assert!(!written.attributes.contains_key("enforceDashNumber"));
    assert_eq!(written.attributes.len(), 24);
    assert_eq!(written.attributes.get("windPattern"), Some(&text("None")));
    assert_eq!(written.attributes.get("width"), Some(&Value::Integer(8)));
}

fn sample_map() -> MapData {
    MapData::try_from(element(
        "Map",
        vec![("_package", text("pack")), ("version", Value::Integer(3))],
        vec![
            element("meta", vec![("Icon", text("x"))], vec![]),
            element(
                "Filler",
                vec![],
                vec![element("rect", vec![("x", Value::Integer(1)), ("w", Value::Integer(4))], vec![])],
            ),
            element(
                "Style",
                vec![("color", text("102030"))],
                vec![
                    element("Backgrounds", vec![], vec![element("parallax", vec![("texture", text("bg0"))], vec![])]),
                    element("Foregrounds", vec![], vec![element("snowFg", vec![], vec![])]),
                    element("Other", vec![], vec![]),
                ],
            ),
            element("levels", vec![], vec![Element::from(sample_level())]),
        ],
    ))
    .unwrap()
}

#[test]
fn map_reads_its_parts() {
    let map = sample_map();
    assert_eq!(map.package, "pack");
    assert_eq!(map.filler, vec![Filler { position: (1, 0), size: (4, 0) }]);
    assert_eq!(map.levels, vec![sample_level()]);
    assert_eq!(map.bg_color, Some([0x10, 0x20, 0x30, 0xff]));
    assert_eq!(map.foregrounds, vec![element("snowFg", vec![], vec![])]);
    assert_eq!(map.backgrounds, vec![element("parallax", vec![("texture", text("bg0"))], vec![])]);
    assert_eq!(map.extra_data.len(), 1);
    assert_eq!(map.extra_data.get("version"), Some(&Value::Integer(3)));
    assert_eq!(map.extra_children, vec![element("meta", vec![("Icon", text("x"))], vec![])]);
}

#[test]
fn map_round_trips() {
    let map = sample_map();
    let written = Element::from(map.clone());
    assert_eq!(written.name, "Map");
    let names: Vec<&str> = written.children.iter().map(|c| c.name.as_str()).collect();
    assert_eq!(names, vec!["meta", "Filler", "Style", "levels"]);
    assert_eq!(written.attributes.get("_package"), Some(&text("pack")));
    assert_eq!(written.children[2].attributes.get("color"), Some(&text("102030ff")));
    assert_eq!(written.children[2].children[0].name, "Foregrounds");
    assert_eq!(written.children[2].children[1].name, "Backgrounds");
    assert_eq!(MapData::try_from(written).unwrap(), map);
}

#[test]
fn map_defaults_and_errors() {
    let empty = MapData::try_from(element("Map", vec![], vec![])).unwrap();
    assert_eq!(empty.package, "");
    assert_eq!(empty.bg_color, None);
    assert!(empty.levels.is_empty() && empty.filler.is_empty());
    let written = Element::from(empty.clone());
    assert_eq!(written.children.len(), 3);
    assert!(!written.children[1].attributes.contains_key("color"));
    assert_eq!(MapData::try_from(written).unwrap(), empty);
    assert!(matches!(
        MapData::try_from(element("map", vec![], vec![])),
        Err(LoadError::InvalidElementName(_, "Map"))
    ));
    assert!(matches!(
        MapData::try_from(element("Map", vec![("_package", Value::Integer(1))], vec![])),
        Err(LoadError::InvalidFieldType("_package", _))
    ));
    assert!(matches!(
        MapData::try_from(element(
            "Map",
            vec![],
            vec![element("Style", vec![("color", Value::Integer(0xffffff))], vec![])]
        )),
        Err(LoadError::InvalidFieldType("color", _))
    ));
    assert!(matches!(
        MapData::try_from(element("Map", vec![], vec![element("Style", vec![("color", text("red"))], vec![])])),
        Err(LoadError::InvalidFieldData("color", _))
    ));
    assert!(matches!(
        MapData::try_from(element("Map", vec![], vec![element("levels", vec![], vec![element("lvl", vec![], vec![])])])),
        Err(LoadError::InvalidElementName(_, "level"))
    ));
    assert!(matches!(
        MapData::try_from(element("Map", vec![], vec![element("Filler", vec![], vec![element("r", vec![], vec![])])])),
        Err(LoadError::InvalidElementName(_, "rect"))
    ));
}

#[test]
fn later_style_replaces_the_color() {
    let map = MapData::try_from(element(
        "Map",
        vec![],
        vec![
            element("Style", vec![("color", text("000000"))], vec![element("Foregrounds", vec![], vec![element("f", vec![], vec![])])]),
            element("Style", vec![], vec![]),
        ],
    ))
    .unwrap();
    assert_eq!(map.bg_color, None);
    assert_eq!(map.foregrounds.len(), 1);
}

#[test]
fn map_element_reads_and_writes() {
    let filler = Filler { position: (1, 2), size: (3, 4) };
    assert_eq!(Filler::read(filler.write()).unwrap(), filler);
    let decal = Decal::read(element("decal", vec![], vec![])).unwrap();
    assert_eq!(Decal::read(decal.clone().write()).unwrap(), decal);
}
