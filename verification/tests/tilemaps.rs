use strawberride::{Level, Tilemap};

fn char_map(text: &str, width: usize, height: usize) -> Tilemap<char> {
    Tilemap::<char>::load(text.to_string(), width, height).unwrap()
}

fn id_map(text: &str, width: usize, height: usize) -> Tilemap<i32> {
    Tilemap::<i32>::load(text.to_string(), width, height).unwrap()
}

#[test]
fn new_tilemap_is_empty() {
    let ids = Tilemap::<i32>::new(3, 2).unwrap();
    assert_eq!(ids.width(), 3);
    assert_eq!(ids.height(), 2);
    assert_eq!(ids.raw_data(), &[-1; 6]);
    let chars = Tilemap::<char>::new(2, 2).unwrap();
    assert_eq!(chars.raw_data(), &['0'; 4]);
    let none = Tilemap::<char>::new(0, 5).unwrap();
    assert_eq!(none.raw_data().len(), 0);
    assert_eq!(none.height(), 5);
}

#[test]
fn new_tilemap_refuses_an_overflowing_area() {
    assert!(Tilemap::<i32>::new(usize::MAX, 2).is_none());
    assert!(Tilemap::<char>::new(usize::MAX / 2 + 1, 2).is_none());
    assert!(Tilemap::<char>::new(usize::MAX, 0).is_some());
}

#[test]
fn get_is_bounds_checked() {
    let map = char_map("ab\ncd", 2, 2);
    assert_eq!(map.get(0, 0), Some(&'a'));
    assert_eq!(map.get(1, 0), Some(&'b'));
    assert_eq!(map.get(0, 1), Some(&'c'));
    assert_eq!(map.get(1, 1), Some(&'d'));
    assert_eq!(map.get(2, 0), None);
    assert_eq!(map.get(0, 2), None);
    assert_eq!(map.get(usize::MAX, usize::MAX), None);
}

#[test]
fn get_mut_writes_one_cell() {
    let mut map = Tilemap::<i32>::new(3, 2).unwrap();
    *map.get_mut(2, 1).unwrap() = 7;
    *map.get_mut(0, 0).unwrap() = 9;
    assert!(map.get_mut(3, 0).is_none());
    assert!(map.get_mut(0, 2).is_none());
    assert_eq!(map.raw_data(), &[9, -1, -1, -1, -1, 7]);
}

#[test]
fn set_width_pads_and_truncates_rows() {
    let mut map = id_map("1,2,3\n4,5,6", 3, 2);
    assert!(map.set_width(5));
    assert_eq!(map.width(), 5);
    assert_eq!(map.raw_data(), &[1, 2, 3, -1, -1, 4, 5, 6, -1, -1]);
    assert!(map.set_width(2));
    assert_eq!(map.raw_data(), &[1, 2, 4, 5]);
    assert!(map.set_width(2));
    assert_eq!(map.raw_data(), &[1, 2, 4, 5]);
    assert!(map.set_width(0));
    assert_eq!(map.raw_data(), &[] as &[i32]);
    assert_eq!(map.height(), 2);
    assert!(map.set_width(1));
    assert_eq!(map.raw_data(), &[-1, -1]);
}

#[test]
fn set_height_appends_and_drops_rows() {
    let mut map = id_map("1,2\n3,4", 2, 2);
    assert!(map.set_height(3));
    assert_eq!(map.height(), 3);
    assert_eq!(map.raw_data(), &[1, 2, 3, 4, -1, -1]);
    assert!(map.set_height(1));
    assert_eq!(map.height(), 1);
    assert_eq!(map.raw_data(), &[1, 2]);
    assert!(map.set_height(0));
    assert_eq!(map.raw_data(), &[] as &[i32]);
    assert!(map.set_height(2));
    assert_eq!(map.raw_data(), &[-1, -1, -1, -1]);
}

#[test]
fn shrinking_and_growing_back_keeps_what_stayed_inside() {
    let mut map = char_map("abcd\nefgh\nijkl", 4, 3);
    let original = map.clone();
    assert!(map.set_width(2));
    assert!(map.set_height(2));
    assert!(map.set_height(3));
    assert!(map.set_width(4));
    assert_eq!(map.width(), 4);
    assert_eq!(map.height(), 3);
    for y in 0..3 {
        for x in 0..4 {
            if x < 2 && y < 2 {
                assert_eq!(map.get(x, y), original.get(x, y));
            } else {
                assert_eq!(map.get(x, y), Some(&'0'));
            }
        }
    }
}

#[test]
fn overflowing_resize_changes_nothing() {
    let mut map = id_map("1,2\n3,4", 2, 2);
    let before = map.clone();
    assert!(!map.set_width(usize::MAX));
    assert_eq!(map, before);
    assert!(!map.set_height(usize::MAX));
    assert_eq!(map, before);
    assert!(!map.set_width(usize::MAX / 2 + 1));
    assert_eq!(map, before);
}

#[test]
fn char_tilemap_reads_lines() {
    let map = char_map("12\n3\n\n4567\n89", 3, 4);
    assert_eq!(
        map.raw_data(),
        &['1', '2', '0', '3', '0', '0', '0', '0', '0', '4', '5', '6']
    );
    let crlf = char_map("ab\r\ncd\r\n", 2, 2);
    assert_eq!(crlf.raw_data(), &['a', 'b', 'c', 'd']);
}

#[test]
fn char_tilemap_writes_rows_without_trailing_empties() {
    let map = char_map("1001\n0100\n0000\n1000", 4, 4);
    assert_eq!(map.store(), "1001\n01\n\n1");
    assert_eq!(Tilemap::<char>::new(2, 3).unwrap().store(), "\n\n");
    assert_eq!(Tilemap::<char>::new(0, 2).unwrap().store(), "\n");
    assert_eq!(Tilemap::<char>::new(3, 0).unwrap().store(), "");
    assert_eq!(Tilemap::<char>::new(3, 1).unwrap().store(), "");
}

#[test]
fn id_tilemap_reads_comma_separated_ids() {
    let map = id_map("1,2,3\n-1, 7 ,x\n\n4,5,6,7", 3, 5);
    assert_eq!(
        map.raw_data(),
        &[1, 2, 3, -1, 7, -1, -1, -1, -1, 4, 5, 6, -1, -1, -1]
    );
    let odd = id_map("1,,+2,2147483648,0x1, -3", 6, 1);
    assert_eq!(odd.raw_data(), &[1, -1, 2, -1, -1, -3]);
}

#[test]
fn id_tilemap_writes_rows_without_trailing_empties() {
    let map = id_map("1,-1,3,-1\n-1,-1,-1,-1\n-1,5,-1,-1", 4, 3);
    assert_eq!(map.store(), "1,-1,3\n\n-1,5");
    assert_eq!(Tilemap::<i32>::new(2, 2).unwrap().store(), "\n");
    assert_eq!(Tilemap::<i32>::new(2, 0).unwrap().store(), "");
}

#[test]
fn tilemaps_come_back_from_their_text() {
    let chars = char_map("a0b0\n0000\n00c0\n000d", 4, 4);
    assert_eq!(char_map(&chars.store(), 4, 4), chars);
    let ids = id_map("0,1,-1,2147483647\n-1,-1,-1,-1\n-2147483648,-1,-1,-1", 4, 3);
    assert_eq!(id_map(&ids.store(), 4, 3), ids);
}

#[test]
fn load_refuses_an_overflowing_area() {
    assert!(Tilemap::<char>::load("ab".to_string(), usize::MAX, 2).is_none());
    assert!(Tilemap::<i32>::load("1".to_string(), usize::MAX, 2).is_none());
}

#[test]
fn from_rows_takes_what_fits() {
    let rows = vec![vec![1, 2, 3], vec![], vec![4]];
    let map = Tilemap::<i32>::from_rows(&rows, 2, 4).unwrap();
    assert_eq!(map.raw_data(), &[1, 2, -1, -1, 4, -1, -1, -1]);
}

#[test]
fn new_level_has_empty_tilemaps() {
    let level = Level::new("a-00".to_string(), 4, 3).unwrap();
    assert_eq!(level.name, "a-00");
    assert_eq!(level.data.size, (4, 3));
    assert_eq!(level.data.position, (0, 0));
    assert_eq!(level.data.wind_pattern, "");
    assert_eq!(level.bg.width(), 4);
    assert_eq!(level.solids.height(), 3);
    assert_eq!(level.fg_tiles.raw_data(), &[-1; 12]);
    assert!(level.entities.is_empty());
    assert_eq!(level.extra_data.len(), 0);
    assert!(Level::new("x".to_string(), -1, 3).is_none());
    assert!(Level::new("x".to_string(), 3, -1).is_none());
    assert!(Level::new("x".to_string(), 0, 0).is_some());
}

#[test]
fn level_resize_resizes_every_tilemap() {
    let mut level = Level::new("a".to_string(), 2, 2).unwrap();
    *level.solids.get_mut(1, 1).unwrap() = '9';
    assert!(level.resize(3, 4));
    assert_eq!(level.data.size, (3, 4));
    for (w, h) in [
        (level.bg.width(), level.bg.height()),
        (level.solids.width(), level.solids.height()),
        (level.bg_tiles.width(), level.bg_tiles.height()),
        (level.fg_tiles.width(), level.fg_tiles.height()),
        (level.obj_tiles.width(), level.obj_tiles.height()),
    ] {
        assert_eq!((w, h), (3, 4));
    }
    assert_eq!(level.solids.get(1, 1), Some(&'9'));
    assert!(!level.resize(-1, 4));
    assert!(!level.resize(4, -1));
    assert_eq!(level.data.size, (3, 4));
    assert_eq!(level.bg.width(), 3);
}
