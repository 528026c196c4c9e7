use strawberride::element::{Attributes, Element, Value};
use strawberride::error::{LoadError, StoreError, StreamError};
use strawberride::ext::Reader;
use strawberride::float::Float32;
use strawberride::table::StringTable;

fn encode_value(value: &Value, table: &mut StringTable) -> Vec<u8> {
    let mut out = Vec::new();
    value.encode(&mut out, table).unwrap();
    out
}

fn decode_value(bytes: &[u8], lookup: &Vec<String>) -> Result<Value, LoadError> {
    let mut reader = Reader::new(bytes);
    Value::decode(&mut reader, lookup)
}

fn element(name: &str, attributes: Vec<(&str, Value)>, children: Vec<Element>) -> Element {
    let mut attrs = Attributes::new();
    for (key, value) in attributes {
        attrs.insert(key.to_string(), value);
    }
    Element { name: name.to_string(), attributes: attrs, children }
}

#[test]
fn attributes_behave_as_a_map() {
    let mut attrs = Attributes::new();
    assert_eq!(attrs.len(), 0);
    assert_eq!(attrs.insert("a".to_string(), Value::Integer(1)), None);
    assert_eq!(attrs.insert("b".to_string(), Value::Boolean(true)), None);
    assert_eq!(attrs.insert("a".to_string(), Value::Integer(2)), Some(Value::Integer(1)));
    assert_eq!(attrs.len(), 2);
    assert!(attrs.contains_key("a"));
    assert!(!attrs.contains_key("c"));
    assert_eq!(attrs.get("a"), Some(&Value::Integer(2)));
    assert_eq!(attrs.get("c"), None);
    assert_eq!(attrs.name_at(0), "a");
    assert_eq!(attrs.name_at(1), "b");
    assert_eq!(attrs.value_at(1), &Value::Boolean(true));
    assert_eq!(attrs.remove("a"), Some(Value::Integer(2)));
    assert_eq!(attrs.remove("a"), None);
    assert_eq!(attrs.len(), 1);
    assert_eq!(attrs.name_at(0), "b");
}

#[test]
fn attributes_compare_without_order() {
    let mut one = Attributes::new();
    one.insert("a".to_string(), Value::Integer(1));
    one.insert("b".to_string(), Value::Integer(2));
    let mut two = Attributes::new();
    two.insert("b".to_string(), Value::Integer(2));
    two.insert("a".to_string(), Value::Integer(1));
    assert_eq!(one, two);
    assert_eq!(one.clone(), one);
    two.insert("a".to_string(), Value::Integer(3));
    assert_ne!(one, two);
    two.remove("a");
    assert_ne!(one, two);
    two.insert("c".to_string(), Value::Integer(1));
    assert_ne!(one, two);
}

#[test]
fn values_compare_by_variant_and_content() {
    assert_eq!(Value::String("a".to_string()), Value::String("a".to_string()));
    assert_ne!(Value::String("a".to_string()), Value::RleString("a".to_string()));
    assert_ne!(Value::Integer(1), Value::Boolean(true));
    assert_ne!(Value::Integer(1), Value::Float(Float32::from_bits(1)));
    assert_eq!(Value::Float(Float32::one()).clone(), Value::Float(Float32::one()));
}

#[test]
fn integer_values_take_the_smallest_tag() {
    let mut table = StringTable::new();
    assert_eq!(encode_value(&Value::Integer(0), &mut table), vec![1, 0]);
    assert_eq!(encode_value(&Value::Integer(255), &mut table), vec![1, 255]);
    assert_eq!(encode_value(&Value::Integer(256), &mut table), vec![2, 0x00, 0x01]);
    assert_eq!(encode_value(&Value::Integer(-1), &mut table), vec![2, 0xff, 0xff]);
    assert_eq!(encode_value(&Value::Integer(32767), &mut table), vec![2, 0xff, 0x7f]);
    assert_eq!(encode_value(&Value::Integer(-32768), &mut table), vec![2, 0x00, 0x80]);
    assert_eq!(encode_value(&Value::Integer(32768), &mut table), vec![3, 0x00, 0x80, 0x00, 0x00]);
    assert_eq!(encode_value(&Value::Integer(-32769), &mut table), vec![3, 0xff, 0x7f, 0xff, 0xff]);
    assert_eq!(encode_value(&Value::Integer(i32::MAX), &mut table), vec![3, 0xff, 0xff, 0xff, 0x7f]);
    assert_eq!(encode_value(&Value::Integer(i32::MIN), &mut table), vec![3, 0x00, 0x00, 0x00, 0x80]);
    assert_eq!(table.len(), 0);
}

#[test]
fn other_values_are_written_after_their_tag() {
    let mut table = StringTable::new();
    assert_eq!(encode_value(&Value::Boolean(false), &mut table), vec![0, 0]);
    assert_eq!(encode_value(&Value::Boolean(true), &mut table), vec![0, 1]);
    let one = Value::Float(Float32::from_bits(1.0f32.to_bits()));
    assert_eq!(encode_value(&one, &mut table), vec![4, 0x00, 0x00, 0x80, 0x3f]);
    let rle = Value::RleString("aaab".to_string());
    assert_eq!(encode_value(&rle, &mut table), vec![7, 4, 0, 3, b'a', 1, b'b']);
    assert_eq!(table.len(), 0);
}

#[test]
fn short_strings_are_interned_once() {
    let mut table = StringTable::new();
    assert_eq!(encode_value(&Value::String("x".to_string()), &mut table), vec![5, 0, 0]);
    assert_eq!(encode_value(&Value::String("y".to_string()), &mut table), vec![5, 1, 0]);
    assert_eq!(encode_value(&Value::String("x".to_string()), &mut table), vec![5, 0, 0]);
    assert_eq!(table.len(), 2);
    assert_eq!(table.get(0).unwrap(), "x");
    assert_eq!(table.get(1).unwrap(), "y");
    assert!(table.get(2).is_none());
}

#[test]
fn long_strings_are_written_in_full() {
    let mut table = StringTable::new();
    let text = "a".repeat(64);
    let bytes = encode_value(&Value::String(text.clone()), &mut table);
    assert_eq!(bytes[0], 6);
    assert_eq!(bytes[1], 64);
    assert_eq!(&bytes[2..], text.as_bytes());
    assert_eq!(table.len(), 0);
    let shorter = "a".repeat(63);
    assert_eq!(encode_value(&Value::String(shorter), &mut table), vec![5, 0, 0]);
    assert_eq!(table.len(), 1);
    // sixty-three characters, but more than sixty-three bytes
    let accented = "é".repeat(32);
    let bytes = encode_value(&Value::String(accented), &mut table);
    assert_eq!(bytes[0], 6);
    assert_eq!(table.len(), 1);
}

#[test]
fn full_table_falls_back_to_full_strings() {
    let mut table = StringTable::new();
    for i in 0..65535u32 {
        assert_eq!(table.intern(&format!("s{}", i)), Some(i as u16));
    }
    assert_eq!(table.len(), 65535);
    assert_eq!(table.intern("one more"), None);
    assert_eq!(table.len(), 65535);
    assert_eq!(table.intern("s17"), Some(17));
    let bytes = encode_value(&Value::String("new".to_string()), &mut table);
    assert_eq!(bytes, vec![6, 3, b'n', b'e', b'w']);
    let bytes = encode_value(&Value::String("s65534".to_string()), &mut table);
    assert_eq!(bytes, vec![5, 0xfe, 0xff]);
    assert_eq!(table.len(), 65535);
    let unnamed = element("fresh", vec![], vec![]);
    let mut out = vec![9];
    assert_eq!(unnamed.encode(&mut out, &mut table), Err(StoreError::TooManyStrings));
    assert_eq!(out, vec![9]);
    let known = element("s1", vec![("fresh", Value::Integer(1))], vec![]);
    assert_eq!(known.encode(&mut out, &mut table), Err(StoreError::TooManyStrings));
    assert_eq!(out, vec![9]);
}

#[test]
fn rle_value_that_is_too_long_is_refused() {
    let mut table = StringTable::new();
    let mut out = vec![1];
    let value = Value::RleString("ab".repeat(20000));
    assert_eq!(value.encode(&mut out, &mut table), Err(StoreError::TextTooLong));
    assert_eq!(out, vec![1]);
    let holder = element("e", vec![("t", value)], vec![]);
    assert_eq!(holder.encode(&mut out, &mut table), Err(StoreError::TextTooLong));
    assert_eq!(out, vec![1]);
}

#[test]
fn values_are_read_by_their_tag() {
    let lookup = vec!["zero".to_string(), "one".to_string()];
    assert_eq!(decode_value(&[0, 0], &lookup).unwrap(), Value::Boolean(false));
    assert_eq!(decode_value(&[0, 2], &lookup).unwrap(), Value::Boolean(true));
    assert_eq!(decode_value(&[1, 200], &lookup).unwrap(), Value::Integer(200));
    assert_eq!(decode_value(&[2, 0xfe, 0xff], &lookup).unwrap(), Value::Integer(-2));
    assert_eq!(decode_value(&[2, 0x05, 0x00], &lookup).unwrap(), Value::Integer(5));
    assert_eq!(decode_value(&[3, 0, 0, 0, 0x80], &lookup).unwrap(), Value::Integer(i32::MIN));
    assert_eq!(
        decode_value(&[4, 0, 0, 0xc0, 0x3f], &lookup).unwrap(),
        Value::Float(Float32::from_bits(1.5f32.to_bits()))
    );
    assert_eq!(decode_value(&[5, 1, 0], &lookup).unwrap(), Value::String("one".to_string()));
    assert_eq!(decode_value(&[6, 2, b'h', b'i'], &lookup).unwrap(), Value::String("hi".to_string()));
    assert_eq!(
        decode_value(&[7, 2, 0, 3, b'z'], &lookup).unwrap(),
        Value::RleString("zzz".to_string())
    );
}

#[test]
fn value_errors() {
    let lookup = vec!["zero".to_string()];
    assert!(matches!(decode_value(&[8], &lookup), Err(LoadError::InvalidValueType(8))));
    assert!(matches!(decode_value(&[255, 1], &lookup), Err(LoadError::InvalidValueType(255))));
    assert!(matches!(decode_value(&[5, 1, 0], &lookup), Err(LoadError::InvalidString(1))));
    assert!(matches!(
        decode_value(&[], &lookup),
        Err(LoadError::IoError(StreamError::UnexpectedEof))
    ));
    for bytes in [vec![0u8], vec![1], vec![2, 0], vec![3, 0, 0, 0], vec![4, 0], vec![5, 0], vec![6, 3, b'a'], vec![7, 2, 0, 1]] {
        assert!(
            matches!(decode_value(&bytes, &lookup), Err(LoadError::IoError(StreamError::UnexpectedEof))),
            "{:?}",
            bytes
        );
    }
    assert!(matches!(
        decode_value(&[6, 1, 0xff], &lookup),
        Err(LoadError::IoError(StreamError::InvalidUtf8))
    ));
}

#[test]
fn values_round_trip() {
    let values = vec![
        Value::Boolean(true),
        Value::Boolean(false),
        Value::Integer(0),
        Value::Integer(255),
        Value::Integer(256),
        Value::Integer(-1),
        Value::Integer(-32768),
        Value::Integer(-32769),
        Value::Integer(65536),
        Value::Integer(i32::MAX),
        Value::Integer(i32::MIN),
        Value::Float(Float32::from_bits(0x7fc0_0000)),
        Value::Float(Float32::from_bits((-0.0f32).to_bits())),
        Value::String("".to_string()),
        Value::String("short".to_string()),
        Value::String("l".repeat(500)),
        Value::RleString("".to_string()),
        Value::RleString("00000000\n00110000".to_string()),
        Value::RleString("é".repeat(300)),
    ];
    let mut table = StringTable::new();
    let mut encoded = Vec::new();
    for value in &values {
        encoded.push(encode_value(value, &mut table));
    }
    let mut lookup = Vec::new();
    for i in 0..table.len() {
        lookup.push(table.get(i).unwrap().clone());
    }
    for (value, bytes) in values.iter().zip(encoded.iter()) {
        let mut reader = Reader::new(bytes);
        assert_eq!(&Value::decode(&mut reader, &lookup).unwrap(), value);
        assert_eq!(reader.remaining(), 0);
    }
}

#[test]
fn element_is_written_name_attributes_children() {
    let tree = element(
        "root",
        vec![("a", Value::Integer(7)), ("b", Value::String("root".to_string()))],
        vec![element("leaf", vec![], vec![]), element("root", vec![("a", Value::Boolean(true))], vec![])],
    );
    let mut table = StringTable::new();
    let mut out = Vec::new();
    tree.encode(&mut out, &mut table).unwrap();
    assert_eq!(
        out,
        vec![
            0, 0, 2, // root, two attributes
            1, 0, 1, 7, // a = 7
            2, 0, 5, 0, 0, // b = "root"
            2, 0, // two children
            3, 0, 0, 0, 0, // leaf
            0, 0, 1, 1, 0, 0, 1, 0, 0, // root, a = true
        ]
    );
    let strings: Vec<String> = (0..table.len()).map(|i| table.get(i).unwrap().clone()).collect();
    assert_eq!(strings, vec!["root", "a", "b", "leaf"]);
    let mut reader = Reader::new(&out);
    assert_eq!(Element::decode(&mut reader, &strings).unwrap(), tree);
    assert_eq!(reader.remaining(), 0);
}

#[test]
fn element_with_duplicate_attribute_keeps_the_last() {
    let lookup = vec!["e".to_string(), "k".to_string()];
    let bytes = [0, 0, 2, 1, 0, 1, 5, 1, 0, 1, 6, 0, 0];
    let mut reader = Reader::new(&bytes);
    let got = Element::decode(&mut reader, &lookup).unwrap();
    assert_eq!(got, element("e", vec![("k", Value::Integer(6))], vec![]));
    assert_eq!(got.attributes.len(), 1);
}

#[test]
fn element_errors() {
    let lookup = vec!["e".to_string()];
    let decode = |bytes: &[u8]| {
        let mut reader = Reader::new(bytes);
        Element::decode(&mut reader, &lookup)
    };
    assert!(matches!(decode(&[]), Err(LoadError::IoError(StreamError::UnexpectedEof))));
    assert!(matches!(decode(&[1, 0, 0, 0, 0]), Err(LoadError::InvalidString(1))));
    assert!(matches!(decode(&[0, 0]), Err(LoadError::IoError(StreamError::UnexpectedEof))));
    assert!(matches!(decode(&[0, 0, 0, 0]), Err(LoadError::IoError(StreamError::UnexpectedEof))));
    assert!(matches!(decode(&[0, 0, 1, 0, 0, 9, 0, 0]), Err(LoadError::InvalidValueType(9))));
    assert!(matches!(decode(&[0, 0, 1, 5, 0, 1, 1, 0, 0]), Err(LoadError::InvalidString(5))));
    assert!(matches!(decode(&[0, 0, 0, 1, 0]), Err(LoadError::IoError(StreamError::UnexpectedEof))));
    assert!(matches!(decode(&[0, 0, 0, 1, 0, 7, 0, 0, 0, 0]), Err(LoadError::InvalidString(7))));
    assert!(decode(&[0, 0, 0, 0, 0]).is_ok());
}

#[test]
fn element_with_too_many_attributes_or_children_is_refused() {
    let mut attrs = Attributes::new();
    for i in 0..256 {
        attrs.insert(format!("k{}", i), Value::Integer(i));
    }
    let wide = Element { name: "w".to_string(), attributes: attrs, children: vec![] };
    let mut out = Vec::new();
    assert_eq!(wide.encode(&mut out, &mut StringTable::new()), Err(StoreError::TooManyAttributes));
    assert!(out.is_empty());
    let leaf = element("c", vec![], vec![]);
    let full = Element { name: "p".to_string(), attributes: Attributes::new(), children: vec![leaf.clone(); 65535] };
    assert!(full.encode(&mut out, &mut StringTable::new()).is_ok());
    assert_eq!(out.len(), 5 + 65535 * 5);
    out.clear();
    let over = Element { name: "p".to_string(), attributes: Attributes::new(), children: vec![leaf; 65536] };
    assert_eq!(over.encode(&mut out, &mut StringTable::new()), Err(StoreError::TooManyChildren));
    assert!(out.is_empty());
}

#[test]
fn element_with_255_attributes_is_written() {
    let mut attrs = Attributes::new();
    for i in 0..255 {
        attrs.insert(format!("k{}", i), Value::Integer(i));
    }
    let wide = Element { name: "w".to_string(), attributes: attrs, children: vec![] };
    let mut table = StringTable::new();
    let mut out = Vec::new();
    assert!(wide.encode(&mut out, &mut table).is_ok());
    assert_eq!(out[2], 255);
    let strings: Vec<String> = (0..table.len()).map(|i| table.get(i).unwrap().clone()).collect();
    let mut reader = Reader::new(&out);
    assert_eq!(Element::decode(&mut reader, &strings).unwrap(), wide);
}

#[test]
fn load_error_try_clone() {
    let errors = vec![
        LoadError::InvalidHeader("h".to_string()),
        LoadError::InvalidString(3),
        LoadError::InvalidValueType(9),
        LoadError::MissingElement("m"),
        LoadError::InvalidFieldType("f", Value::Integer(1)),
        LoadError::InvalidFieldData("f", "d".to_string()),
        LoadError::InvalidElementName("n".to_string(), "e"),
    ];
    for error in errors {
        let copy = error.try_clone().unwrap();
        assert_eq!(format!("{:?}", copy), format!("{:?}", error));
    }
    assert!(LoadError::IoError(StreamError::UnexpectedEof).try_clone().is_none());
    assert!(LoadError::IoError(StreamError::InvalidUtf8).try_clone().is_none());
}

#[test]
fn failed_decode_leaves_the_reader() {
    let lookup = vec!["e".to_string()];
    let bytes = [0, 0, 1, 0, 0, 3, 1, 2];
    let mut reader = Reader::new(&bytes);
    assert!(Element::decode(&mut reader, &lookup).is_err());
    assert_eq!(reader.remaining(), 8);
    assert!(Value::decode(&mut reader, &lookup).is_ok());
    assert_eq!(reader.remaining(), 6);
    let mut short = Reader::new(&[3, 1, 2]);
    assert!(Value::decode(&mut short, &lookup).is_err());
    assert_eq!(short.remaining(), 3);
}
