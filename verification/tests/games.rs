use schematic_engine::games::Game;
use schematic_engine::games::Turn;

#[test]
fn test_game_parse() {
    let input = "Game 1: 7 green, 14 red, 5 blue; 8 red, 4 green; 6 green, 18 red, 9 blue";

    let g1 = Game::from_line(input);

    assert_eq!(g1.id, 1);
    assert_eq!(g1.turns.len(), 3);

    assert_eq!(g1.turns[0].red, 14);
    assert_eq!(g1.turns[0].green, 7);
    assert_eq!(g1.turns[0].blue, 5);

    assert_eq!(g1.turns[1].red, 8);
    assert_eq!(g1.turns[1].green, 4);
    assert_eq!(g1.turns[1].blue, 0);

    assert_eq!(g1.turns[2].red, 18);
    assert_eq!(g1.turns[2].green, 6);
    assert_eq!(g1.turns[2].blue, 9);
}

#[test]
fn test_game_is_possible() {
    let input = "Game 65: 13 red, 2 green, 3 blue; 1 red, 2 blue, 1 green; 1 blue; 2 green, 1 red";

    let g1 = Game::from_line(input);

    let possible = Turn { red: 12, green: 13, blue: 14 };

    assert!(g1.impossible(&possible));
}

#[test]
fn test_game_power() {
    let input = "Game 1: 3 blue, 4 red; 1 red, 2 green, 6 blue; 2 green";

    let g1 = Game::from_line(input);

    assert_eq!(g1.power(), 48);
}

#[test]
fn test_game_within_limits_is_possible() {
    let input = "Game 2: 1 red, 2 green; 3 blue";
    let g = Game::from_line(input);
    let possible = Turn { red: 12, green: 13, blue: 14 };
    assert!(!g.impossible(&possible));
}

#[test]
fn test_turn_from_last_entry_wins() {
    let t = Turn::from(vec![(3, "red"), (5, "blue"), (7, "red")]);
    assert_eq!(t.red, 7);
    assert_eq!(t.green, 0);
    assert_eq!(t.blue, 5);
}

#[test]
fn test_single_turn_single_color() {
    let g = Game::from_line("Game 100: 42 green");
    assert_eq!(g.id, 100);
    assert_eq!(g.turns.len(), 1);
    assert_eq!(g.turns[0].green, 42);
    assert_eq!(g.turns[0].red, 0);
    assert_eq!(g.turns[0].blue, 0);
}
