//! A console game on one board: commands typed by two players at one
//! terminal, and the board drawn as text.

use vstd::prelude::*;
use vstd::string::{StrSliceExecFns, StringExecFns};

use crate::game::{end_turn_error, turn_ended, EndTurnError, Game, GameRules, GameWinner, Player, FIELD_SIZE};

verus! {

/// What a typed command asks for.
#[derive(Clone, Copy, PartialEq, Eq, Structural, Debug)]
pub enum Command {
    /// Drop a chip into this column (counted from 0).
    Move(usize),
    Restart,
    Moves,
    Json,
    Exit,
    /// Anything else.
    Ignore,
}

/// What the console shows after a command.
#[derive(Debug)]
pub enum Reply {
    Nothing,
    GameOver,
    NotEnoughSpace,
    /// The columns played so far, counted from 1.
    Moves(Vec<usize>),
    Json,
    Exit,
}

pub open spec fn command_of(s: Seq<char>) -> Command {
    if s.len() == 1 {
        if '1' <= s[0] && s[0] <= '7' {
            Command::Move((s[0] as int - '1' as int) as usize)
        } else {
            Command::Ignore
        }
    } else if s == "restart"@ {
        Command::Restart
    } else if s == "moves"@ {
        Command::Moves
    } else if s == "json"@ {
        Command::Json
    } else if s == "exit"@ {
        Command::Exit
    } else {
        Command::Ignore
    }
}

fn same_text(a: &str, b: &str) -> (r: bool)
    ensures
        r == (a@ == b@),
{
    let n = a.unicode_len();
    if n != b.unicode_len() {
        return false;
    }
    let mut i: usize = 0;
    while i < n
        invariant
            n == a@.len(),
            n == b@.len(),
            i <= n,
            forall|j: int| 0 <= j < i ==> a@[j] == b@[j],
        decreases n - i,
    {
        if a.get_char(i) != b.get_char(i) {
            return false;
        }
        i = i + 1;
    }
    proof {
        assert(a@ =~= b@);
    }
    true
}

/// Reads a typed command.
pub fn parse_command(cmd: &str) -> (c: Command)
    ensures
        c == command_of(cmd@),
{
    if cmd.unicode_len() == 1 {
        let ch = cmd.get_char(0);
        if '1' <= ch && ch <= '7' {
            return Command::Move((ch as u32 - '1' as u32) as usize);
        }
        return Command::Ignore;
    }
    if same_text(cmd, "restart") {
        Command::Restart
    } else if same_text(cmd, "moves") {
        Command::Moves
    } else if same_text(cmd, "json") {
        Command::Json
    } else if same_text(cmd, "exit") {
        Command::Exit
    } else {
        Command::Ignore
    }
}

/// A board with the columns played on it.
pub struct Console {
    pub game: Game,
    /// Columns played, counted from 0.
    pub moves: Vec<usize>,
}

impl Console {
    /// The board is consistent and the moves name columns.
    pub open spec fn wf(&self) -> bool {
        &&& self.game.wf()
        &&& forall|j: int| 0 <= j < self.moves@.len() ==> self.moves@[j] < FIELD_SIZE
    }

    pub fn new() -> (c: Console)
        ensures
            c.wf(),
            c.game.rules == (GameRules { starting_player: Player::P1, allow_draws: false }),
            c.game.state.moves == 0,
            c.game.state.result is None,
            c.moves@.len() == 0,
    {
        Console { game: Game::new(GameRules::default()), moves: Vec::new() }
    }

    /// A new game under the same rules.
    pub fn restart(&mut self)
        ensures
            final(self).wf(),
            final(self).game.rules == old(self).game.rules,
            final(self).game.state.moves == 0,
            final(self).game.state.turn == 0,
            final(self).game.state.player == old(self).game.rules.starting_player,
            final(self).game.state.result is None,
            final(self).moves@.len() == 0,
    {
        self.game = Game::new(self.game.rules);
        self.moves = Vec::new();
    }

    /// Runs one typed command.
    pub fn process_move(&mut self, cmd: &str) -> (r: Reply)
        requires
            old(self).wf(),
        ensures
            final(self).wf(),
            match command_of(cmd@) {
                Command::Move(m) => match end_turn_error(old(self).game, Some(m)) {
                    Some(EndTurnError::GameOver) => r is GameOver && final(self).game == old(self).game && final(self).moves == old(self).moves,
                    Some(_) => r is NotEnoughSpace && final(self).game == old(self).game && final(self).moves == old(self).moves,
                    None => r is Nothing && turn_ended(old(self).game, final(self).game, Some(m)) && final(self).moves@ == old(self).moves@.push(m),
                },
                Command::Restart => r is Nothing && final(self).game.state.moves == 0 && final(self).game.rules == old(self).game.rules && final(self).moves@.len() == 0,
                Command::Moves => (r matches Reply::Moves(v) && v@.len() == old(self).moves@.len() && forall|i: int| 0 <= i < v@.len() ==> v@[i] == old(self).moves@[i] + 1) && final(self).game == old(self).game && final(self).moves == old(self).moves,
                Command::Json => r is Json && final(self).game == old(self).game && final(self).moves == old(self).moves,
                Command::Exit => r is Exit && final(self).game == old(self).game && final(self).moves == old(self).moves,
                Command::Ignore => r is Nothing && final(self).game == old(self).game && final(self).moves == old(self).moves,
            },
    {
        match parse_command(cmd) {
            Command::Move(m) => {
                match self.game.end_turn(Some(m)) {
                    Ok(()) => {
                        let ghost m0 = self.moves@;
                        self.moves.push(m);
                        proof {
                            assert forall|j: int| 0 <= j < self.moves@.len() implies self.moves@[j] < FIELD_SIZE by {
                                if j < m0.len() {
                                    assert(self.moves@[j] == m0[j]);
                                }
                            }
                        }
                        Reply::Nothing
                    },
                    Err(EndTurnError::GameOver) => Reply::GameOver,
                    Err(_) => Reply::NotEnoughSpace,
                }
            },
            Command::Restart => {
                self.restart();
                Reply::Nothing
            },
            Command::Moves => {
                let mut v: Vec<usize> = Vec::new();
                let mut i: usize = 0;
                while i < self.moves.len()
                    invariant
                        i <= self.moves@.len(),
                        v@.len() == i,
                        forall|j: int| 0 <= j < i ==> v@[j] == self.moves@[j] + 1,
                        forall|j: int| 0 <= j < self.moves@.len() ==> self.moves@[j] < FIELD_SIZE,
                    decreases self.moves@.len() - i,
                {
                    v.push(self.moves[i] + 1);
                    i = i + 1;
                }
                Reply::Moves(v)
            },
            Command::Json => Reply::Json,
            Command::Exit => Reply::Exit,
            Command::Ignore => Reply::Nothing,
        }
    }
}

pub open spec fn cell_text(c: Option<Player>) -> Seq<char> {
    match c {
        Some(Player::P1) => "()"@,
        Some(Player::P2) => "[]"@,
        None => "  "@,
    }
}

/// Cells of row `y` in columns `0..n`.
pub open spec fn row_text(g: Game, y: int, n: int) -> Seq<char>
    decreases n,
{
    if n <= 0 {
        seq![]
    } else {
        row_text(g, y, n - 1) + cell_text(g.field[n - 1][y])
    }
}

/// Rows `0..n`, one per line.
pub open spec fn rows_text(g: Game, n: int) -> Seq<char>
    decreases n,
{
    if n <= 0 {
        seq![]
    } else {
        rows_text(g, n - 1) + row_text(g, n - 1, 7) + "\n"@
    }
}

pub open spec fn status_text(g: Game) -> Seq<char> {
    match g.state.result {
        Some(r) => match r.winner {
            GameWinner::P1 => "(Player 1) has won!"@,
            GameWinner::P2 => "[Player 2] has won!"@,
            GameWinner::Draw => "It's a draw!"@,
        },
        None => match g.state.player {
            Player::P1 => "(Player 1)'s turn"@,
            Player::P2 => "[Player 2]'s turn"@,
        },
    }
}

/// The board as text: a rule, whose turn it is or how the game ended, the
/// grid from the top row down, and the column numbers.
pub open spec fn board_text(g: Game) -> Seq<char> {
    "--------------\n"@ + status_text(g) + "\n"@ + rows_text(g, 7) + "1 2 3 4 5 6 7\n"@
}

/// Draws the board.
pub fn to_string(game: &Game) -> (r: String)
    ensures
        r@ == board_text(*game),
{
    let mut res = String::new();
    res.append("--------------\n");
    let status = match &game.state.result {
        Some(r) => match r.winner {
            GameWinner::P1 => "(Player 1) has won!",
            GameWinner::P2 => "[Player 2] has won!",
            GameWinner::Draw => "It's a draw!",
        },
        None => match game.state.player {
            Player::P1 => "(Player 1)'s turn",
            Player::P2 => "[Player 2]'s turn",
        },
    };
    res.append(status);
    res.append("\n");
    let ghost head = res@;
    let mut y: usize = 0;
    while y < FIELD_SIZE
        invariant
            y <= FIELD_SIZE,
            res@ == head + rows_text(*game, y as int),
        decreases FIELD_SIZE - y,
    {
        let ghost before = res@;
        let mut x: usize = 0;
        while x < FIELD_SIZE
            invariant
                x <= FIELD_SIZE,
                y < FIELD_SIZE,
                res@ == before + row_text(*game, y as int, x as int),
            decreases FIELD_SIZE - x,
        {
            let cell = match game.field[x][y] {
                Some(Player::P1) => "()",
                Some(Player::P2) => "[]",
                None => "  ",
            };
            res.append(cell);
            proof {
                assert(res@ =~= before + row_text(*game, y as int, x + 1));
            }
            x = x + 1;
        }
        res.append("\n");
        proof {
            assert(res@ =~= head + rows_text(*game, y + 1));
        }
        y = y + 1;
    }
    res.append("1 2 3 4 5 6 7\n");
    proof {
        assert(res@ =~= board_text(*game));
    }
    res
}

} // verus!
