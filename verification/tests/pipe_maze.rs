use puzzle_kit::pipes::{
    analyze_pipe_network, discover_loop, farthest_point_distance, Direction, MapCoord, MapWalker,
    MazeError, PathMap, PipeMap,
};

#[test]
fn test_above() {
    let primary = MapCoord { row: (0), col: (0) };
    let other = MapCoord { row: (1), col: (0) };
    assert_eq!(primary.is_above(&other), true);

    let primary = MapCoord { row: (1), col: (0) };
    let other = MapCoord { row: (0), col: (0) };
    assert_eq!(primary.is_above(&other), false);
}

#[test]
fn test_below() {
    let primary = MapCoord { row: (1), col: (0) };
    let other = MapCoord { row: (0), col: (0) };
    assert_eq!(primary.is_below(&other), true);

    let primary = MapCoord { row: (1), col: (0) };
    let other = MapCoord { row: (0), col: (1) };
    assert_eq!(primary.is_below(&other), false);

    let primary = MapCoord { row: (0), col: (0) };
    let other = MapCoord { row: (1), col: (0) };
    assert_eq!(primary.is_below(&other), false);
}

#[test]
fn test_left() {
    let primary = MapCoord { row: (0), col: (0) };
    let other = MapCoord { row: (0), col: (1) };
    assert_eq!(primary.is_left_of(&other), true);

    let primary = MapCoord { row: (0), col: (1) };
    let other = MapCoord { row: (0), col: (0) };
    assert_eq!(primary.is_left_of(&other), false);
}

#[test]
fn test_right() {
    let primary = MapCoord { row: (0), col: (1) };
    let other = MapCoord { row: (0), col: (0) };
    assert_eq!(primary.is_right_of(&other), true);

    let primary = MapCoord { row: (0), col: (0) };
    let other = MapCoord { row: (0), col: (1) };
    assert_eq!(primary.is_right_of(&other), false);
}

#[test]
fn test_rel_pos() {
    let center = MapCoord { row: 2, col: 2 };
    assert_eq!(
        center.get_rel_pos_of(&MapCoord { row: 3, col: 2 }),
        Some(Direction::Up)
    );
    assert_eq!(
        center.get_rel_pos_of(&MapCoord { row: 1, col: 2 }),
        Some(Direction::Down)
    );
    assert_eq!(
        center.get_rel_pos_of(&MapCoord { row: 2, col: 3 }),
        Some(Direction::Left)
    );
    assert_eq!(
        center.get_rel_pos_of(&MapCoord { row: 2, col: 1 }),
        Some(Direction::Right)
    );
    assert_eq!(center.get_rel_pos_of(&MapCoord { row: 0, col: 0 }), None);
    assert_eq!(center.get_rel_pos_of(&center), None);
}

#[test]
fn test_parse_and_cells() {
    let pipes = PipeMap::parse("S7\nLJ");
    assert_eq!(pipes.get_cell(&MapCoord { row: 0, col: 0 }), Some('S'));
    assert_eq!(pipes.get_cell(&MapCoord { row: 0, col: 1 }), Some('7'));
    assert_eq!(pipes.get_cell(&MapCoord { row: 1, col: 0 }), Some('L'));
    assert_eq!(pipes.get_cell(&MapCoord { row: 1, col: 1 }), Some('J'));
    assert_eq!(pipes.get_cell(&MapCoord { row: 2, col: 0 }), None);
    assert_eq!(pipes.get_cell(&MapCoord { row: 0, col: 2 }), None);
    assert_eq!(
        pipes.get_map_coord('S'),
        Some(MapCoord { row: 0, col: 0 })
    );
    assert_eq!(pipes.get_map_coord('X'), None);
}

#[test]
fn test_neighbors_stay_on_map() {
    let pipes = PipeMap::parse("S7\nLJ");
    let corner = MapCoord { row: 0, col: 0 };
    assert_eq!(pipes.get_map_coord_above(&corner), None);
    assert_eq!(pipes.get_map_coord_left_of(&corner), None);
    assert_eq!(
        pipes.get_map_coord_below(&corner),
        Some(MapCoord { row: 1, col: 0 })
    );
    assert_eq!(
        pipes.get_map_coord_right_of(&corner),
        Some(MapCoord { row: 0, col: 1 })
    );
    let far = MapCoord { row: 1, col: 1 };
    assert_eq!(pipes.get_map_coord_below(&far), None);
    assert_eq!(pipes.get_map_coord_right_of(&far), None);
}

#[test]
fn test_transit_pipe() {
    let pipes = PipeMap::parse("..F7.\n.FJ|.\nSJ.L7\n|F--J\nLJ...");
    // a vertical entered from the south continues north
    let r = pipes.transit_pipe(MapCoord { row: 4, col: 0 }, MapCoord { row: 3, col: 0 });
    assert_eq!(r, Ok(Direction::Up));
    // a vertical entered from the side is an invalid junction
    let r = pipes.transit_pipe(MapCoord { row: 3, col: 1 }, MapCoord { row: 3, col: 0 });
    assert!(r.is_err());
    // standing still is a bad transit
    let r = pipes.transit_pipe(MapCoord { row: 3, col: 0 }, MapCoord { row: 3, col: 0 });
    assert!(r.is_err());
    // ground reports a stuck walker, the start reports the goal
    let r = pipes.transit_pipe(MapCoord { row: 2, col: 1 }, MapCoord { row: 2, col: 2 });
    assert_eq!(r, Ok(Direction::Stuck));
    let r = pipes.transit_pipe(MapCoord { row: 3, col: 0 }, MapCoord { row: 2, col: 0 });
    assert_eq!(r, Ok(Direction::Goal));
}

#[test]
fn test_walker_outcomes() {
    // every walker terminates; the two that follow the loop reach the
    // goal, the two that step onto ground or off the map get stuck
    let pipes = PipeMap::parse("..F7.\n.FJ|.\nSJ.L7\n|F--J\nLJ...");
    let start = pipes.get_map_coord('S').unwrap();
    let mut up = MapWalker::new(&pipes, start, Direction::Up);
    let mut down = MapWalker::new(&pipes, start, Direction::Down);
    let mut left = MapWalker::new(&pipes, start, Direction::Left);
    let mut right = MapWalker::new(&pipes, start, Direction::Right);
    assert_eq!(up.explore(), Direction::Stuck);
    assert_eq!(down.explore(), Direction::Goal);
    assert_eq!(left.explore(), Direction::Stuck);
    assert_eq!(right.explore(), Direction::Goal);
    assert_eq!(down.path.len(), 17);
}

#[test]
fn test_minimal_square_loop() {
    // the smallest loop encloses nothing
    let result = analyze_pipe_network("S7\nLJ").unwrap();
    assert_eq!(result.0, 2);
    assert_eq!(result.1, 0);
}

#[test]
fn test_square_loop_scenario() {
    // a square loop around the border of a 5x5 grid, start at a corner:
    // sixteen loop cells, so the farthest point is eight steps away, and
    // the nine cells of the 3x3 middle are enclosed
    let result = analyze_pipe_network("S---7\n|...|\n|...|\n|...|\nL---J").unwrap();
    assert_eq!(result.0, 8);
    assert_eq!(result.1, 9);
}

#[test]
fn test_sample_maze_scenario() {
    let result = analyze_pipe_network("..F7.\n.FJ|.\nSJ.L7\n|F--J\nLJ...").unwrap();
    assert_eq!(result.0, 8);
    assert_eq!(result.1, 1);
}

#[test]
fn test_nested_jogs_scenario() {
    // bends immediately adjacent to each other, with no horizontal run
    // between them, must still pair up correctly
    let result = analyze_pipe_network("F--7.\n|.FJ.\n|.L7.\nS--J.").unwrap();
    assert_eq!(result.0, 7);
    assert_eq!(result.1, 2);
}

#[test]
fn test_slide_cancellation() {
    // the dip in the top edge closes with two north bends right next to
    // each other: a slide closed by its own role must not toggle the
    // inside flag, so exactly the one sheltered cell is counted
    let result = analyze_pipe_network("S-7F7\n|.LJ|\nL---J").unwrap();
    assert_eq!(result.1, 1);
}

#[test]
fn test_reclassification_round_trip() {
    // classifying the same path against the same grid twice yields
    // identical counts
    let pipes = PipeMap::parse("..F7.\n.FJ|.\nSJ.L7\n|F--J\nLJ...");
    let start = pipes.get_map_coord('S').unwrap();
    let path = discover_loop(&pipes, start).unwrap();
    assert_eq!(farthest_point_distance(&path), 8);
    let first = PathMap::create(&pipes, &path).count_inner_cells();
    let second = PathMap::create(&pipes, &path).count_inner_cells();
    assert_eq!(first, second);
    assert_eq!(first, 1);
}

#[test]
fn test_malformed_inputs() {
    // ragged rows
    assert_eq!(
        analyze_pipe_network("S7.\nLJ"),
        Err(MazeError::MalformedGrid)
    );
    // an unknown symbol
    assert_eq!(
        analyze_pipe_network("S?\nLJ"),
        Err(MazeError::MalformedGrid)
    );
    // no start cell
    assert_eq!(
        analyze_pipe_network("F7\nLJ"),
        Err(MazeError::MalformedGrid)
    );
    // two start cells
    assert_eq!(
        analyze_pipe_network("S7\nLS"),
        Err(MazeError::MalformedGrid)
    );
    // a single line has no rows below it
    assert_eq!(analyze_pipe_network("S7LJ"), Err(MazeError::MalformedGrid));
}

#[test]
fn test_no_loop() {
    // a start cell whose pipes dead-end leaves every walker stuck
    assert_eq!(
        analyze_pipe_network("S-\n.."),
        Err(MazeError::AmbiguousOrMissingLoop)
    );
}
