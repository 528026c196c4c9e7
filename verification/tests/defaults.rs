use strawberride::element::{Attributes, Value};
use strawberride::error::{LoadError, StreamError};
use strawberride::{Decal, Entity, Filler, Float32, Level, LevelData, MapData, Tilemap};

#[test]
fn values_come_from_plain_values() {
    assert_eq!(Value::from(true), Value::Boolean(true));
    assert_eq!(Value::from(-7), Value::Integer(-7));
    assert_eq!(Value::from(Float32::from_bits(3)), Value::Float(Float32::from_bits(3)));
    assert_eq!(Value::from("text".to_string()), Value::String("text".to_string()));
    assert!(matches!(
        LoadError::from(StreamError::InvalidUtf8),
        LoadError::IoError(StreamError::InvalidUtf8)
    ));
}

#[test]
fn defaults_are_empty() {
    assert_eq!(Float32::default().to_bits(), 0);
    assert_eq!(Attributes::default().len(), 0);
    let map = Tilemap::<i32>::default();
    assert_eq!((map.width(), map.height(), map.raw_data().len()), (0, 0, 0));
    assert_eq!(Filler::default(), Filler { position: (0, 0), size: (0, 0) });
    let decal = Decal::default();
    assert_eq!(decal.scale, (Float32::zero(), Float32::zero()));
    assert_eq!(decal.color, [0; 4]);
    assert_eq!(decal.texture, "");
    let entity = Entity::default();
    assert_eq!(entity.name, "");
    assert_eq!(entity.width, None);
    assert!(entity.nodes.is_empty());
    let data = LevelData::default();
    assert_eq!(data.size, (0, 0));
    assert_eq!(data.wind_pattern, "");
    assert_eq!(data.music_progress, None);
    let level = Level::default();
    assert_eq!(level.name, "");
    assert_eq!(level.bg.width(), 0);
    assert_eq!(level, Level::new(String::new(), 0, 0).unwrap());
    let map = MapData::default();
    assert_eq!(map.package, "");
    assert_eq!(map.bg_color, None);
    assert!(map.levels.is_empty());
}

#[test]
fn copies_are_equal() {
    let level = Level::new("copy".to_string(), 3, 2).unwrap();
    assert_eq!(level.clone(), level);
    let mut other = level.clone();
    *other.bg.get_mut(0, 0).unwrap() = 'x';
    assert_ne!(other, level);
    assert_eq!(level.data.clone(), level.data);
    assert_eq!(level.bg.clone(), level.bg);
    let mut map = MapData::default();
    map.package = "pack".to_string();
    map.levels.push(level);
    map.filler.push(Filler { position: (1, 2), size: (3, 4) });
    map.bg_color = Some([1, 2, 3, 4]);
    let copy = map.clone();
    assert_eq!(copy, map);
    assert_eq!(copy.levels[0].name, "copy");
}
