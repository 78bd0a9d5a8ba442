use puzzle_kit::galaxies::{MapCoord, Mappable, StarField};

struct TestMap {
    rows: usize,
    cols: usize,
}

impl Mappable for TestMap {
    fn spec_rows(&self) -> usize {
        self.rows
    }

    fn spec_cols(&self) -> usize {
        self.cols
    }

    fn rows(&self) -> &usize {
        &self.rows
    }

    fn cols(&self) -> &usize {
        &self.cols
    }
}

#[test]
fn test_get_map_coord() {
    let map = TestMap { rows: 10, cols: 10 };
    assert_eq!(map.get_map_coord(0), Some(MapCoord { row: 0, col: 0 }));
    assert_eq!(map.get_map_coord(5), Some(MapCoord { row: 0, col: 5 }));
    assert_eq!(map.get_map_coord(15), Some(MapCoord { row: 1, col: 5 }));
    assert_eq!(map.get_map_coord(99), Some(MapCoord { row: 9, col: 9 }));
    assert_eq!(map.get_map_coord(105), None);
}

#[test]
fn test_get_location() {
    let map = TestMap { rows: 10, cols: 10 };
    assert_eq!(map.get_location(MapCoord { row: 0, col: 5 }), Some(5));
    assert_eq!(map.get_location(MapCoord { row: 1, col: 5 }), Some(15));
    assert_eq!(map.get_location(MapCoord { row: 10, col: 10 }), None);
}

#[test]
fn test_parse_and_galaxies() {
    let stars = StarField::parse("#..\n...\n..#".to_string());
    let found = stars.galaxies();
    assert_eq!(found, vec![MapCoord { row: 0, col: 0 }, MapCoord { row: 2, col: 2 }]);
}

#[test]
fn test_distance_with_distortion() {
    // the middle row and the middle column hold no galaxy, so each
    // crossing of them counts a million
    let stars = StarField::parse("#..\n...\n..#".to_string());
    let a = MapCoord { row: 0, col: 0 };
    let b = MapCoord { row: 2, col: 2 };
    // two row steps, one through the empty middle row, and two column
    // steps, one through the empty middle column
    assert_eq!(stars.distance_between(a, b), Ok(1 + 1000000 + 1 + 1000000));
    // out-of-bounds points are rejected
    assert!(stars
        .distance_between(a, MapCoord { row: 5, col: 0 })
        .is_err());
}
