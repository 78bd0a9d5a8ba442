use puzzle_kit::races::{parse_races, parse_super_race, RaceRecord};

#[test]
fn test_ways_to_win() {
    // a 7 millisecond race with a 9 millimeter record: hold times of 2
    // through 5 beat it
    let race = RaceRecord { time_ms: 7, distance_mm: 9 };
    assert_eq!(race.ways_to_win(), 4);
    let race = RaceRecord { time_ms: 30, distance_mm: 200 };
    assert_eq!(race.ways_to_win(), 9);
    // an unbeatable record has no winning hold time
    let race = RaceRecord { time_ms: 4, distance_mm: 100 };
    assert_eq!(race.ways_to_win(), 0);
}

#[test]
fn test_parse_races() {
    let races = parse_races("Time:      7  15   30\nDistance:  9  40  200");
    assert_eq!(races.len(), 3);
    assert_eq!(races[0].time_ms, 7);
    assert_eq!(races[0].distance_mm, 9);
    assert_eq!(races[1].time_ms, 15);
    assert_eq!(races[1].distance_mm, 40);
    assert_eq!(races[2].time_ms, 30);
    assert_eq!(races[2].distance_mm, 200);
}

#[test]
fn test_parse_super_race() {
    let race = parse_super_race("Time:      7  15   30\nDistance:  9  40  200");
    assert_eq!(race.time_ms, 71530);
    assert_eq!(race.distance_mm, 940200);
}
