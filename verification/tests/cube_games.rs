use puzzle_kit::cubes::{load_games, parse_record, Game, GamePull};

#[test]
fn test_pull_parse() {
    let pull = GamePull::parse(" 3 blue, 4 red");
    assert_eq!(pull.red, 4);
    assert_eq!(pull.green, 0);
    assert_eq!(pull.blue, 3);
}

#[test]
fn test_pull_possible_and_power() {
    let pull = GamePull::parse(" 3 blue, 4 red, 2 green");
    assert!(pull.is_possible(12, 13, 14));
    assert!(!pull.is_possible(3, 13, 14));
    assert_eq!(pull.get_power(), 24);
}

#[test]
fn test_parse_game_record() {
    let game = parse_record("Game 11: 3 blue, 4 red; 1 red, 2 green, 6 blue; 2 green");
    assert_eq!(game.number, 11);
    assert_eq!(game.pulls.len(), 3);
    assert_eq!(game.pulls[1].red, 1);
    assert_eq!(game.pulls[1].green, 2);
    assert_eq!(game.pulls[1].blue, 6);
    let needed = game.get_min_needed_cubes();
    assert_eq!(needed.red, 4);
    assert_eq!(needed.green, 2);
    assert_eq!(needed.blue, 6);
}

#[test]
fn test_load_games() {
    let games: Vec<Game> =
        load_games("Game 1: 1 red\nGame 2: 2 blue, 1 green");
    assert_eq!(games.len(), 2);
    assert_eq!(games[0].number, 1);
    assert_eq!(games[1].number, 2);
    assert_eq!(games[1].pulls[0].blue, 2);
}
