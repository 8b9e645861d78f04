use connect_four_server::game::Player::{P1, P2};
use connect_four_server::game::{EndTurnError, Game, GameRules, GameWinner, FIELD_SIZE};

fn fast_forward_game(rules: GameRules, moves: &[usize]) -> Game {
    let mut game = Game::new(rules);
    for i in moves.iter().map(|i| Some(i - 1)) {
        game.end_turn(i).unwrap();
    }

    game
}

fn won_game_horizontal(rules: GameRules) -> Game {
    fast_forward_game(rules, &[4, 4, 5, 5, 6, 6, 7])
}

fn won_game_vertical(rules: GameRules) -> Game {
    fast_forward_game(rules, &[4, 5, 4, 5, 4, 5, 4])
}

fn won_game_diagonal1(rules: GameRules) -> Game {
    fast_forward_game(rules, &[4, 5, 5, 7, 6, 6, 6, 6, 7, 7, 7])
}

fn won_game_diagonal2(rules: GameRules) -> Game {
    fast_forward_game(rules, &[4, 3, 3, 1, 2, 2, 2, 1, 1, 5, 1])
}

fn won_game_1(rules: GameRules) -> Game {
    let moves = [1, 2, 3, 4, 1, 2, 3, 4, 5, 5, 2, 2, 3, 4, 4, 2, 1, 3];
    fast_forward_game(rules, &moves)
}

fn won_game_2(rules: GameRules) -> Game {
    let moves = [3, 4, 4, 4, 5, 5, 5, 6, 6, 6, 6];
    fast_forward_game(rules, &moves)
}

fn won_game_3(rules: GameRules) -> Game {
    let moves = [4, 5, 1, 7, 3, 6, 2];
    fast_forward_game(rules, &moves)
}

fn drawn_game(rules: GameRules) -> (Game, Result<(), ()>) {
    let mut game = won_game_horizontal(rules);
    let drawn = game.end_turn(Some(6)).map_err(|_| ());
    (game, drawn)
}

fn filled_game(rules: GameRules) -> Game {
    let moves = [
        1, 2, 3, 4, 5, 6, 7, 1, 2, 3, 4, 5, 6, 7, 1, 2, 3, 4, 5, 6, 7, 2, 3, 4, 5, 6, 7, 2, 5, 6,
        7, 7, 1, 1, 2, 3, 4, 5, 6, 1, 1, 2, 3, 4, 5, 6, 3, 4, 7,
    ];
    fast_forward_game(rules, &moves)
}

#[test]
fn game_end_turn_success() {
    let rules = GameRules::default();
    let mut game = Game::new(rules);
    game.end_turn(Some(3)).unwrap();
    assert_eq!(game.state.turn, 1);
    assert_eq!(game.state.player, P2);
}

#[test]
fn game_end_turn_out_of_bounds() {
    let rules = GameRules::default();
    let mut game = Game::new(rules);
    assert_eq!(game.end_turn(Some(7)), Err(EndTurnError::IndexOutOfBounds));
}

#[test]
fn game_over_end_turn() {
    let rules = GameRules::default();
    let mut game = won_game_horizontal(rules);
    assert_eq!(game.end_turn(Some(2)), Err(EndTurnError::GameOver));
}

#[test]
fn game_end_turn_column_filled() {
    let rules = GameRules::default();
    let mut game = Game::new(rules);
    for _ in 0..FIELD_SIZE {
        game.end_turn(Some(3)).unwrap();
    }
    assert_eq!(game.end_turn(Some(3)), Err(EndTurnError::ColumnFilled));
}

#[test]
fn is_game_over_horizontal() {
    let game = won_game_horizontal(GameRules::default());
    assert!(game.state.result.is_some());
}

#[test]
fn is_game_over_vertical() {
    let game = won_game_vertical(GameRules::default());
    assert!(game.state.result.is_some());
}

#[test]
fn is_game_over_diagonal1() {
    let game = won_game_diagonal1(GameRules::default());
    assert!(game.state.result.is_some());
}

#[test]
fn is_game_over_diagonal2() {
    let game = won_game_diagonal2(GameRules::default());
    assert!(game.state.result.is_some());
}

#[test]
fn is_game_over_1() {
    let game = won_game_1(GameRules::default());
    assert!(game.state.result.is_some());
}

#[test]
fn is_game_over_2() {
    let game = won_game_2(GameRules::default());
    assert!(game.state.result.is_some());
}

#[test]
fn is_game_over_3() {
    let game = won_game_3(GameRules::default());
    assert!(game.state.result.is_some());
}

#[test]
fn rule_disallow_draws() {
    for starting_player in [P1, P2] {
        let rules = GameRules {
            starting_player,
            allow_draws: false,
        };
        let (game, res) = drawn_game(rules);
        assert!(res.is_err());
        assert_eq!(
            game.state.result.map(|r| r.winner),
            Some(GameWinner::from(starting_player))
        );
    }
}

#[test]
fn rule_allow_draws() {
    for starting_player in [P1, P2] {
        let rules = GameRules {
            starting_player,
            allow_draws: true,
        };
        let (game, res) = drawn_game(rules);
        assert!(res.is_ok());
        assert_eq!(game.state.result.map(|r| r.winner), Some(GameWinner::Draw));
    }
}

#[test]
fn is_game_over_incremental_in_game() {
    let player = P1;
    let rules = GameRules::default();
    let mut game = Game::new(rules);
    game.end_turn(Some(3)).unwrap();
    assert!(!game.is_move_winning(3, 6, player));
}

#[test]
fn is_game_over_incremental_horizontal() {
    let game = won_game_horizontal(GameRules::default());
    assert!(game.is_move_winning(6, 6, P1));
}

#[test]
fn is_game_over_incremental_vertical() {
    let game = won_game_vertical(GameRules::default());
    assert!(game.is_move_winning(3, 3, P1));
}

#[test]
fn is_game_over_incremental_diagonal1() {
    let game = won_game_diagonal1(GameRules::default());
    assert!(game.is_move_winning(6, 3, P1));
    assert!(game.is_move_winning(5, 4, P1));
    assert!(game.is_move_winning(4, 5, P1));
    assert!(game.is_move_winning(3, 6, P1));
}

#[test]
fn is_game_over_incremental_diagonal2() {
    let game = won_game_diagonal2(GameRules::default());
    assert!(game.is_move_winning(0, 3, P1));
    assert!(game.is_move_winning(1, 4, P1));
    assert!(game.is_move_winning(2, 5, P1));
    assert!(game.is_move_winning(3, 6, P1));
}

#[test]
fn is_game_over_incremental_1() {
    let game = won_game_1(GameRules::default());
    assert!(game.is_move_winning(4, 5, P2));
    assert!(game.is_move_winning(3, 4, P2));
    assert!(game.is_move_winning(2, 3, P2));
    assert!(game.is_move_winning(1, 2, P2));
}

#[test]
fn is_game_over_incremental_2() {
    let game = won_game_2(GameRules::default());
    assert!(game.is_move_winning(2, 6, P1));
    assert!(game.is_move_winning(3, 5, P1));
    assert!(game.is_move_winning(4, 4, P1));
    assert!(game.is_move_winning(5, 3, P1));
}

#[test]
fn is_game_over_when_filled() {
    let game = filled_game(GameRules::default());
    assert_eq!(game.state.turn, 49);
    assert!(game.state.result.is_some());
}
