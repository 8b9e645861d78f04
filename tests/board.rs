use connect_four_server::game::Player::{P1, P2};
use connect_four_server::game::{EndTurnError, Game, GameRules, GameWinner};

fn play(game: &mut Game, cols: &[usize]) {
    for c in cols {
        game.end_turn(Some(*c)).unwrap();
    }
}

#[test]
fn horizontal_win_on_seventh_move() {
    let mut game = Game::new(GameRules::default());
    play(&mut game, &[3, 3, 4, 4, 5, 5]);
    assert!(game.state.result.is_none());
    game.end_turn(Some(6)).unwrap();
    let result = game.state.result.as_ref().unwrap();
    assert_eq!(result.winner, GameWinner::P1);
    assert_eq!(result.matches, vec![((3, 6), (6, 6))]);
    assert_eq!(game.state.moves, 7);
}

#[test]
fn chips_fall_to_the_bottom() {
    let mut game = Game::new(GameRules::default());
    play(&mut game, &[2, 2]);
    assert_eq!(game.field[2][6], Some(P1));
    assert_eq!(game.field[2][5], Some(P2));
    assert_eq!(game.field[2][4], None);
    assert_eq!(game.state.last_move, Some(2));
}

#[test]
fn three_in_a_row_is_no_win() {
    let mut game = Game::new(GameRules::default());
    play(&mut game, &[0, 0, 1, 1, 2, 2]);
    assert!(game.state.result.is_none());
    assert!(!game.is_move_winning(2, 6, P1));
    assert!(game.is_move_winning(3, 6, P1));
}

#[test]
fn move_count_skips_passes() {
    let mut game = Game::new(GameRules::default());
    game.end_turn(Some(0)).unwrap();
    game.end_turn(None).unwrap();
    game.end_turn(Some(1)).unwrap();
    game.end_turn(None).unwrap();
    assert_eq!(game.state.moves, 2);
    assert_eq!(game.state.turn, 4);
    assert_eq!(game.state.player, P1);
    assert_eq!(game.state.last_move, None);
}

#[test]
fn failed_turns_change_nothing() {
    let mut game = Game::new(GameRules::default());
    play(&mut game, &[1, 1, 1, 1, 1, 1, 1]);
    let turn = game.state.turn;
    let player = game.state.player;
    assert_eq!(game.end_turn(Some(1)), Err(EndTurnError::ColumnFilled));
    assert_eq!(game.end_turn(Some(9)), Err(EndTurnError::IndexOutOfBounds));
    assert_eq!(game.state.turn, turn);
    assert_eq!(game.state.player, player);
    assert_eq!(game.state.moves, 7);
}

#[test]
fn filled_board_is_a_draw() {
    let moves = [
        1, 2, 3, 4, 5, 6, 7, 1, 2, 3, 4, 5, 6, 7, 1, 2, 3, 4, 5, 6, 7, 2, 3, 4, 5, 6, 7, 2, 5, 6,
        7, 7, 1, 1, 2, 3, 4, 5, 6, 1, 1, 2, 3, 4, 5, 6, 3, 4, 7,
    ];
    let mut game = Game::new(GameRules::default());
    for m in moves {
        game.end_turn(Some(m - 1)).unwrap();
    }
    assert_eq!(game.state.moves, 49);
    let result = game.state.result.as_ref().unwrap();
    assert_eq!(result.winner, GameWinner::Draw);
    assert!(result.matches.is_empty());
}

#[test]
fn allow_draws_pass_settles_first_players_win() {
    let rules = GameRules {
        starting_player: P1,
        allow_draws: true,
    };
    let mut game = Game::new(rules);
    play(&mut game, &[3, 3, 4, 4, 5, 5, 6]);
    assert!(game.state.result.is_none());
    game.end_turn(None).unwrap();
    let result = game.state.result.as_ref().unwrap();
    assert_eq!(result.winner, GameWinner::P1);
}

#[test]
fn both_players_with_four_is_a_draw() {
    let mut game = Game::new(GameRules::default());
    for y in 3..7 {
        game.field[0][y] = Some(P2);
    }
    game.state.moves = 4;
    for c in [1, 2, 3] {
        game.end_turn(Some(c)).unwrap();
        game.end_turn(None).unwrap();
    }
    assert!(game.state.result.is_none());
    game.end_turn(Some(4)).unwrap();
    let result = game.state.result.as_ref().unwrap();
    assert_eq!(result.winner, GameWinner::Draw);
    assert_eq!(result.matches.len(), 2);
}

#[test]
fn winner_from_player() {
    assert_eq!(GameWinner::from(P1), GameWinner::P1);
    assert_eq!(GameWinner::from(P2), GameWinner::P2);
    assert_eq!(P1.other(), P2);
}
