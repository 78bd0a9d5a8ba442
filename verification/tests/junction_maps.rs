use puzzle_kit::network::{go_home, Directions, JunctionMap, Turn};

#[test]
fn test_directions_cycle() {
    let mut directions = Directions::parse("RL");
    assert_eq!(directions.get_next_step(), Turn::Right);
    assert_eq!(directions.get_next_step(), Turn::Left);
    // the sequence repeats indefinitely
    assert_eq!(directions.get_next_step(), Turn::Right);
    directions.reset();
    assert_eq!(directions.get_next_step(), Turn::Right);
}

#[test]
fn test_map_lookup() {
    let map = JunctionMap::parse("AAA = (BBB, CCC)\nBBB = (DDD, EEE)\nZZZ = (ZZZ, ZZZ)");
    assert_eq!(
        map.get_destination(&"AAA".to_string(), &Turn::Left),
        Some("BBB".to_string())
    );
    assert_eq!(
        map.get_destination(&"AAA".to_string(), &Turn::Right),
        Some("CCC".to_string())
    );
    assert_eq!(map.get_destination(&"QQQ".to_string(), &Turn::Left), None);
    let nodes = map.get_all_nodes();
    assert_eq!(
        nodes,
        vec!["AAA".to_string(), "BBB".to_string(), "ZZZ".to_string()]
    );
}

#[test]
fn test_map_replaces_duplicates() {
    let map = JunctionMap::parse("AAA = (BBB, CCC)\nAAA = (DDD, EEE)");
    assert_eq!(
        map.get_destination(&"AAA".to_string(), &Turn::Left),
        Some("DDD".to_string())
    );
    assert_eq!(map.get_all_nodes().len(), 1);
}

#[test]
fn test_go_home() {
    let map = JunctionMap::parse(
        "AAA = (BBB, BBB)\nBBB = (AAA, ZZZ)\nZZZ = (ZZZ, ZZZ)",
    );
    let mut directions = Directions::parse("LLR");
    let steps = go_home(&"AAA".to_string(), &map, &mut directions);
    assert_eq!(steps, 6);
    // an unreachable endpoint reports zero steps
    let loop_map = JunctionMap::parse("AAA = (BBB, BBB)\nBBB = (AAA, AAA)");
    let mut more_directions = Directions::parse("LR");
    assert_eq!(go_home(&"AAA".to_string(), &loop_map, &mut more_directions), 0);
}
