use connect_four_server::cli::{parse_command, to_string, Command, Console, Reply};

#[test]
fn commands_are_read() {
    assert_eq!(parse_command("1"), Command::Move(0));
    assert_eq!(parse_command("7"), Command::Move(6));
    assert_eq!(parse_command("8"), Command::Ignore);
    assert_eq!(parse_command("restart"), Command::Restart);
    assert_eq!(parse_command("moves"), Command::Moves);
    assert_eq!(parse_command("json"), Command::Json);
    assert_eq!(parse_command("exit"), Command::Exit);
    assert_eq!(parse_command("12"), Command::Ignore);
}

#[test]
fn console_plays_and_lists_moves() {
    let mut c = Console::new();
    assert!(matches!(c.process_move("4"), Reply::Nothing));
    assert!(matches!(c.process_move("4"), Reply::Nothing));
    match c.process_move("moves") {
        Reply::Moves(v) => assert_eq!(v, vec![4, 4]),
        _ => panic!("expected the moves"),
    }
    for _ in 0..5 {
        c.process_move("4");
    }
    assert!(matches!(c.process_move("4"), Reply::NotEnoughSpace));
    assert!(matches!(c.process_move("restart"), Reply::Nothing));
    assert_eq!(c.game.state.moves, 0);
    assert!(c.moves.is_empty());
}

#[test]
fn console_reports_game_over() {
    let mut c = Console::new();
    for m in ["4", "4", "5", "5", "6", "6", "7"] {
        c.process_move(m);
    }
    assert!(matches!(c.process_move("1"), Reply::GameOver));
}

#[test]
fn board_is_drawn() {
    let mut c = Console::new();
    c.process_move("1");
    c.process_move("2");
    let empty_row = "              \n";
    let expected = format!(
        "--------------\n(Player 1)'s turn\n{}{}{}{}{}{}()[]          \n1 2 3 4 5 6 7\n",
        empty_row, empty_row, empty_row, empty_row, empty_row, empty_row
    );
    assert_eq!(to_string(&c.game), expected);
}
