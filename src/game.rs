//! The board engine: a 7x7 grid filled column by column under gravity,
//! incremental and full win detection, and the draw rules.

use vstd::prelude::*;

verus! {

/// Width and height of the grid.
pub const FIELD_SIZE: usize = 7;

/// Number of aligned chips that wins.
pub const WIN_LEN: usize = 4;

/// Chip count before the move that fills the grid.
pub const LAST_MOVE: u32 = 48;

/// Cells indexed as `field[x][y]`: `x` is the column, `y` grows downwards.
pub type GameField = [[Option<Player>; FIELD_SIZE]; FIELD_SIZE];

/// The first and the last cell of a winning run, as `((x, y), (x, y))`.
pub type GameMatch = ((usize, usize), (usize, usize));

#[derive(Clone, Copy, PartialEq, Eq, Structural, Debug)]
pub enum Player {
    P1,
    P2,
}

#[derive(Clone, Copy, PartialEq, Eq, Structural, Debug)]
pub enum GameWinner {
    P1,
    P2,
    Draw,
}

#[derive(Clone, Copy, PartialEq, Eq, Structural, Debug)]
pub enum EndTurnError {
    IndexOutOfBounds,
    GameOver,
    ColumnFilled,
}

#[derive(Clone, Copy, PartialEq, Eq, Structural, Debug)]
pub struct GameRules {
    pub starting_player: Player,
    pub allow_draws: bool,
}

#[derive(Debug)]
pub struct GameResult {
    pub winner: GameWinner,
    pub matches: Vec<GameMatch>,
}

#[derive(Debug)]
pub struct GameState {
    /// The player whose turn it is.
    pub player: Player,
    /// Number of ended turns, passes included.
    pub turn: u32,
    /// The amount of chips on the field.
    pub moves: u32,
    pub result: Option<GameResult>,
    /// Column of the latest chip, or `None` after a pass.
    pub last_move: Option<usize>,
}

#[derive(Debug)]
pub struct Game {
    pub field: GameField,
    pub state: GameState,
    pub rules: GameRules,
}

// ---------------------------------------------------------------------------
// Model of the grid

/// Cell `(x, y)` lies on the grid and holds a chip of `p`.
pub open spec fn owns(f: GameField, x: int, y: int, p: Player) -> bool {
    0 <= x < FIELD_SIZE && 0 <= y < FIELD_SIZE && f[x][y] == Some(p)
}

/// Number of consecutive chips of `p` met when stepping from `(x, y)` by
/// `(dx, dy)`, the start cell excluded, looking at most `fuel` cells ahead.
pub open spec fn ray(f: GameField, x: int, y: int, dx: int, dy: int, p: Player, fuel: nat) -> nat
    decreases fuel,
{
    if fuel > 0 && owns(f, x + dx, y + dy, p) {
        1 + ray(f, x + dx, y + dy, dx, dy, p, (fuel - 1) as nat)
    } else {
        0
    }
}

/// Length of the line of `p` through `(x, y)` along `(dx, dy)`, counting the
/// cell `(x, y)` itself.
pub open spec fn line_len(f: GameField, x: int, y: int, dx: int, dy: int, p: Player) -> nat {
    1 + ray(f, x, y, -dx, -dy, p, 6) + ray(f, x, y, dx, dy, p, 6)
}

/// Some line through `(x, y)` along one of the four axes reaches four.
pub open spec fn winning_at(f: GameField, x: int, y: int, p: Player) -> bool {
    ||| line_len(f, x, y, 1, 0, p) >= WIN_LEN
    ||| line_len(f, x, y, 0, 1, p) >= WIN_LEN
    ||| line_len(f, x, y, 1, 1, p) >= WIN_LEN
    ||| line_len(f, x, y, -1, 1, p) >= WIN_LEN
}

/// Four chips of `p` from `(x, y)` on, stepping by `(dx, dy)`.
pub open spec fn four_from(f: GameField, x: int, y: int, dx: int, dy: int, p: Player) -> bool {
    &&& owns(f, x, y, p)
    &&& owns(f, x + dx, y + dy, p)
    &&& owns(f, x + 2 * dx, y + 2 * dy, p)
    &&& owns(f, x + 3 * dx, y + 3 * dy, p)
}

/// The four axes: horizontal, vertical, and the two diagonals.
pub open spec fn is_axis(dx: int, dy: int) -> bool {
    (dx == 1 && dy == 0) || (dx == 0 && dy == 1) || (dx == 1 && dy == 1) || (dx == -1 && dy == 1)
}

/// `p` has four in a row somewhere on the grid.
pub open spec fn has_win(f: GameField, p: Player) -> bool {
    exists|x: int, y: int, dx: int, dy: int| is_axis(dx, dy) && #[trigger] four_from(f, x, y, dx, dy, p)
}

pub open spec fn other_spec(p: Player) -> Player {
    match p {
        Player::P1 => Player::P2,
        Player::P2 => Player::P1,
    }
}

impl Player {
    pub fn other(&self) -> (r: Player)
        ensures
            r == other_spec(*self),
    {
        match self {
            Player::P1 => Player::P2,
            Player::P2 => Player::P1,
        }
    }
}

/// Coordinate reached from `s` after `k` steps of `d`, for `d` in `-1..=1`.
pub open spec fn step(s: int, d: int, k: int) -> int {
    if d == 1 {
        s + k
    } else if d == -1 {
        s - k
    } else {
        s
    }
}

pub open spec fn in_grid(x: int, y: int) -> bool {
    0 <= x < FIELD_SIZE && 0 <= y < FIELD_SIZE
}

/// Some chip of `p` starts a match of the list at index `lo` or later.
pub open spec fn found_from(f: GameField, ms: Seq<GameMatch>, lo: int, p: Player) -> bool {
    exists|i: int| lo <= i < ms.len() && #[trigger] owns(f, ms[i].0.0 as int, ms[i].0.1 as int, p)
}

/// The match starts four in a row of one player along an axis.
pub open spec fn match_ok(f: GameField, m: GameMatch) -> bool {
    exists|dx: int, dy: int, p: Player|
        is_axis(dx, dy) && #[trigger] four_from(f, m.0.0 as int, m.0.1 as int, dx, dy, p)
}

fn step_exec(s: isize, d: isize, k: isize) -> (r: isize)
    requires
        -1 <= d <= 1,
        0 <= s < 7,
        0 <= k < 7,
    ensures
        r == step(s as int, d as int, k as int),
{
    if d == 1 {
        s + k
    } else if d == -1 {
        s - k
    } else {
        s
    }
}

/// Cell `i` of the line from `(sx, sy)` along `(dx, dy)` holds a chip of `p`.
pub open spec fn line_owns(f: GameField, sx: int, sy: int, dx: int, dy: int, i: int, p: Player) -> bool {
    owns(f, step(sx, dx, i), step(sy, dy, i), p)
}

/// Four chips of `p` on the line from step `k` on.
pub open spec fn line_four(f: GameField, sx: int, sy: int, dx: int, dy: int, k: int, p: Player) -> bool {
    four_from(f, step(sx, dx, k), step(sy, dy, k), dx, dy, p)
}

/// After `j` cells of a line, the current run is the maximal run of
/// `rp`'s chips that ends at cell `j - 1`, and it is `rl` cells long.
#[verifier::opaque]
spec fn run_inv(f: GameField, sx: int, sy: int, dx: int, dy: int, j: int, rp: Option<Player>, rl: int) -> bool {
    &&& 0 <= rl <= j
    &&& (rl == 0) == (rp is None)
    &&& forall|p: Player, i: int|
        rp == Some(p) && j - rl <= i < j ==> #[trigger] line_owns(f, sx, sy, dx, dy, i, p)
    &&& forall|p: Player|
        rp == Some(p) && rl < j ==> !#[trigger] line_owns(f, sx, sy, dx, dy, j - 1 - rl, p)
    &&& forall|p: Player| rp is None && j > 0 ==> !#[trigger] line_owns(f, sx, sy, dx, dy, j - 1, p)
}

/// Every four in a row among the first `j` cells is recorded from `lo` on,
/// or lies in the current run, which is then long enough to be recorded.
#[verifier::opaque]
spec fn scan_complete(
    f: GameField,
    sx: int,
    sy: int,
    dx: int,
    dy: int,
    j: int,
    ms: Seq<GameMatch>,
    lo: int,
    rp: Option<Player>,
    rl: int,
) -> bool {
    forall|k: int, p: Player|
        0 <= k && k + 4 <= j && #[trigger] line_four(f, sx, sy, dx, dy, k, p) ==> found_from(f, ms, lo, p)
            || (rp == Some(p) && rl >= 4)
}

spec fn same_run(c: Option<Player>, rp: Option<Player>) -> bool {
    c is Some && rp is Some && c == rp
}

proof fn lemma_run_step(
    f: GameField,
    sx: int,
    sy: int,
    dx: int,
    dy: int,
    j: int,
    rp: Option<Player>,
    rl: int,
    c: Option<Player>,
)
    requires
        run_inv(f, sx, sy, dx, dy, j, rp, rl),
        forall|p: Player| #[trigger] line_owns(f, sx, sy, dx, dy, j, p) == (c == Some(p)),
    ensures
        same_run(c, rp) ==> run_inv(f, sx, sy, dx, dy, j + 1, rp, rl + 1),
        !same_run(c, rp) ==> run_inv(f, sx, sy, dx, dy, j + 1, c, if c is Some { 1 } else { 0 }),
{
    reveal(run_inv);
    if same_run(c, rp) {
        let q = rp.unwrap();
        assert forall|p: Player, i: int| rp == Some(p) && j + 1 - (rl + 1) <= i < j + 1 implies #[trigger] line_owns(f, sx, sy, dx, dy, i, p) by {
            if i == j {
                assert(line_owns(f, sx, sy, dx, dy, j, p) == (c == Some(p)));
            }
        }
        assert forall|p: Player| rp == Some(p) && rl + 1 < j + 1 implies !#[trigger] line_owns(f, sx, sy, dx, dy, j + 1 - 1 - (rl + 1), p) by {
            assert(j + 1 - 1 - (rl + 1) == j - 1 - rl);
        }
    } else {
        if let Some(q) = c {
            if j > 0 && line_owns(f, sx, sy, dx, dy, j - 1, q) {
                lemma_prev_in_run(f, sx, sy, dx, dy, j, rp, rl, q);
            }
            assert(line_owns(f, sx, sy, dx, dy, j, q));
        }
    }
}

/// A chip at the cell before `j` belongs to the current run.
proof fn lemma_prev_in_run(
    f: GameField,
    sx: int,
    sy: int,
    dx: int,
    dy: int,
    j: int,
    rp: Option<Player>,
    rl: int,
    q: Player,
)
    requires
        j > 0,
        run_inv(f, sx, sy, dx, dy, j, rp, rl),
        line_owns(f, sx, sy, dx, dy, j - 1, q),
    ensures
        rp == Some(q),
{
    reveal(run_inv);
    if rp is None {
        assert(!line_owns(f, sx, sy, dx, dy, j - 1, q));
    } else {
        let b = rp.unwrap();
        assert(line_owns(f, sx, sy, dx, dy, j - 1, b));
    }
}

proof fn lemma_complete_step(
    f: GameField,
    sx: int,
    sy: int,
    dx: int,
    dy: int,
    j: int,
    ms: Seq<GameMatch>,
    ms2: Seq<GameMatch>,
    lo: int,
    rp: Option<Player>,
    rl: int,
    c: Option<Player>,
)
    requires
        is_axis(dx, dy),
        run_inv(f, sx, sy, dx, dy, j, rp, rl),
        scan_complete(f, sx, sy, dx, dy, j, ms, lo, rp, rl),
        forall|p: Player| #[trigger] line_owns(f, sx, sy, dx, dy, j, p) == (c == Some(p)),
        forall|p: Player| found_from(f, ms, lo, p) ==> #[trigger] found_from(f, ms2, lo, p),
        !same_run(c, rp) && rl >= 4 ==> found_from(f, ms2, lo, rp.unwrap()),
    ensures
        same_run(c, rp) ==> scan_complete(f, sx, sy, dx, dy, j + 1, ms2, lo, rp, rl + 1),
        !same_run(c, rp) ==> scan_complete(
            f,
            sx,
            sy,
            dx,
            dy,
            j + 1,
            ms2,
            lo,
            c,
            if c is Some { 1 } else { 0 },
        ),
{
    reveal(run_inv);
    reveal(scan_complete);
    let rp2 = if same_run(c, rp) { rp } else { c };
    let rl2 = if same_run(c, rp) { rl + 1 } else if c is Some { 1 } else { 0 };
    assert forall|k: int, p: Player|
        0 <= k && k + 4 <= j + 1 && #[trigger] line_four(f, sx, sy, dx, dy, k, p) implies found_from(f, ms2, lo, p)
            || (rp2 == Some(p) && rl2 >= 4) by {
        if k + 4 == j + 1 {
            lemma_four_cells(f, sx, sy, dx, dy, k, p);
            assert(line_owns(f, sx, sy, dx, dy, j - 1, p));
            assert(line_owns(f, sx, sy, dx, dy, j - 2, p));
            assert(line_owns(f, sx, sy, dx, dy, j - 3, p));
            assert(line_owns(f, sx, sy, dx, dy, j, p));
            lemma_prev_in_run(f, sx, sy, dx, dy, j, rp, rl, p);
            if rl < 3 {
                assert(line_owns(f, sx, sy, dx, dy, j - 1 - rl, p));
            }
        } else {
            if found_from(f, ms, lo, p) {
            } else {
                assert(rp == Some(p) && rl >= 4);
            }
        }
    }
}

/// The cells of the line of `n` cells from `(sx, sy)` along `(dx, dy)`.
pub open spec fn line_cells(f: GameField, sx: int, sy: int, dx: int, dy: int, n: int) -> Seq<Option<Player>> {
    Seq::new(n as nat, |k: int| f[step(sx, dx, k)][step(sy, dy, k)])
}

/// Length of the run of equal chips that ends at index `k`; zero at an
/// empty cell.
pub open spec fn run_len_at(c: Seq<Option<Player>>, k: int) -> int
    decreases k,
{
    if k < 0 || k >= c.len() || c[k] is None {
        0
    } else if k > 0 && c[k - 1] == c[k] {
        1 + run_len_at(c, k - 1)
    } else {
        1
    }
}

/// The maximal runs of four or more chips that end before index `j`, as
/// pairs of first and last index, in order. A run is maximal where the
/// next cell differs or the line ends.
pub open spec fn runs_before(c: Seq<Option<Player>>, j: int) -> Seq<(int, int)>
    decreases j,
{
    if j <= 0 {
        seq![]
    } else {
        let k = j - 1;
        let closes = run_len_at(c, k) >= WIN_LEN && (k + 1 >= c.len() || c[k + 1] != c[k]);
        runs_before(c, j - 1) + if closes {
            seq![(k - run_len_at(c, k) + 1, k)]
        } else {
            seq![]
        }
    }
}

/// The cells at indices `p.0` and `p.1` of a line, as a match.
pub open spec fn pair_match(sx: int, sy: int, dx: int, dy: int, p: (int, int)) -> GameMatch {
    (
        (step(sx, dx, p.0) as usize, step(sy, dy, p.0) as usize),
        (step(sx, dx, p.1) as usize, step(sy, dy, p.1) as usize),
    )
}

/// The first and last cells of every maximal run of four or more chips of
/// a line, in order along the line.
pub open spec fn line_matches(f: GameField, sx: int, sy: int, dx: int, dy: int, n: int) -> Seq<GameMatch> {
    runs_before(line_cells(f, sx, sy, dx, dy, n), n).map_values(|p: (int, int)| pair_match(sx, sy, dx, dy, p))
}

/// The scan of a line after `j` cells has listed exactly the maximal runs
/// that end before cell `j - 1`, and holds the run ending there.
#[verifier::opaque]
spec fn exact_inv(
    f: GameField,
    sx: int,
    sy: int,
    dx: int,
    dy: int,
    n: int,
    j: int,
    ms: Seq<GameMatch>,
    start: Seq<GameMatch>,
    rp: Option<Player>,
    rl: int,
) -> bool {
    let c = line_cells(f, sx, sy, dx, dy, n);
    &&& ms == start + runs_before(c, j - 1).map_values(|p: (int, int)| pair_match(sx, sy, dx, dy, p))
    &&& rl == run_len_at(c, j - 1)
    &&& (j > 0 ==> rp == c[j - 1])
    &&& (j == 0 ==> rp is None)
}

proof fn lemma_exact_step(
    f: GameField,
    sx: int,
    sy: int,
    dx: int,
    dy: int,
    n: int,
    j: int,
    ms: Seq<GameMatch>,
    ms2: Seq<GameMatch>,
    start: Seq<GameMatch>,
    rp: Option<Player>,
    rl: int,
    cell: Option<Player>,
)
    requires
        0 <= j < n,
        exact_inv(f, sx, sy, dx, dy, n, j, ms, start, rp, rl),
        cell == f[step(sx, dx, j)][step(sy, dy, j)],
        !same_run(cell, rp) && rl >= 4 ==> ms2 == ms.push(pair_match(sx, sy, dx, dy, (j - rl, j - 1))),
        !(!same_run(cell, rp) && rl >= 4) ==> ms2 == ms,
    ensures
        same_run(cell, rp) ==> exact_inv(f, sx, sy, dx, dy, n, j + 1, ms2, start, rp, rl + 1),
        !same_run(cell, rp) ==> exact_inv(
            f,
            sx,
            sy,
            dx,
            dy,
            n,
            j + 1,
            ms2,
            start,
            cell,
            if cell is Some { 1 } else { 0 },
        ),
{
    reveal(exact_inv);
    let c = line_cells(f, sx, sy, dx, dy, n);
    assert(c[j] == cell);
    let pm = |p: (int, int)| pair_match(sx, sy, dx, dy, p);
    let r0 = runs_before(c, j - 1);
    let r1 = runs_before(c, j);
    if j > 0 {
        assert(r1 == r0 + if run_len_at(c, j - 1) >= WIN_LEN && (j >= c.len() || c[j] != c[j - 1]) {
            seq![(j - 1 - run_len_at(c, j - 1) + 1, j - 1)]
        } else {
            seq![]
        });
        if !same_run(cell, rp) && rl >= 4 {
            assert(r1 == r0.push((j - rl, j - 1)));
            assert(ms2 =~= start + r1.map_values(pm));
        } else {
            assert(r1 =~= r0);
        }
    } else {
        assert(r1 =~= r0);
    }
}

proof fn lemma_exact_end(
    f: GameField,
    sx: int,
    sy: int,
    dx: int,
    dy: int,
    n: int,
    ms: Seq<GameMatch>,
    ms2: Seq<GameMatch>,
    start: Seq<GameMatch>,
    rp: Option<Player>,
    rl: int,
)
    requires
        1 <= n,
        exact_inv(f, sx, sy, dx, dy, n, n, ms, start, rp, rl),
        rl >= 4 ==> ms2 == ms.push(pair_match(sx, sy, dx, dy, (n - rl, n - 1))),
        rl < 4 ==> ms2 == ms,
    ensures
        ms2 == start + line_matches(f, sx, sy, dx, dy, n),
{
    reveal(exact_inv);
    let c = line_cells(f, sx, sy, dx, dy, n);
    let pm = |p: (int, int)| pair_match(sx, sy, dx, dy, p);
    let r0 = runs_before(c, n - 1);
    let r1 = runs_before(c, n);
    if rl >= 4 {
        assert(r1 == r0.push((n - rl, n - 1)));
        assert(ms2 =~= start + r1.map_values(pm));
    } else {
        assert(r1 =~= r0);
    }
}

/// Appends every maximal run of at least four chips found along the line of
/// `n` cells that starts at `(sx, sy)` and steps by `(dx, dy)`.
fn scan_line(
    matches: &mut Vec<GameMatch>,
    field: &GameField,
    sx: isize,
    sy: isize,
    dx: isize,
    dy: isize,
    n: isize,
)
    requires
        is_axis(dx as int, dy as int),
        1 <= n <= 7,
        in_grid(sx as int, sy as int),
        in_grid(step(sx as int, dx as int, n - 1), step(sy as int, dy as int, n - 1)),
    ensures
        final(matches)@ == old(matches)@ + line_matches(*field, sx as int, sy as int, dx as int, dy as int, n as int),
        final(matches)@.len() >= old(matches)@.len(),
        final(matches)@.subrange(0, old(matches)@.len() as int) == old(matches)@,
        forall|i: int|
            old(matches)@.len() <= i < final(matches)@.len() ==> match_ok(
                *field,
                #[trigger] final(matches)@[i],
            ),
        forall|k: int, p: Player|
            0 <= k && k + 4 <= n && #[trigger] line_four(
                *field,
                sx as int,
                sy as int,
                dx as int,
                dy as int,
                k,
                p,
            ) ==> found_from(*field, final(matches)@, old(matches)@.len() as int, p),
{
    let ghost f = *field;
    let ghost lo = matches@.len() as int;
    let ghost start = matches@;
    let mut run_player: Option<Player> = None;
    let mut run_len: isize = 0;
    let mut j: isize = 0;
    proof {
        reveal(run_inv);
        reveal(scan_complete);
        reveal(exact_inv);
    }
    while j < n
        invariant
            is_axis(dx as int, dy as int),
            1 <= n <= 7,
            in_grid(sx as int, sy as int),
            in_grid(step(sx as int, dx as int, n - 1), step(sy as int, dy as int, n - 1)),
            f == *field,
            0 <= j <= n,
            0 <= lo <= matches@.len(),
            matches@.subrange(0, lo) == start,
            run_inv(f, sx as int, sy as int, dx as int, dy as int, j as int, run_player, run_len as int),
            scan_complete(f, sx as int, sy as int, dx as int, dy as int, j as int, matches@, lo, run_player, run_len as int),
            exact_inv(f, sx as int, sy as int, dx as int, dy as int, n as int, j as int, matches@, start, run_player, run_len as int),
            forall|i: int| lo <= i < matches@.len() ==> match_ok(f, #[trigger] matches@[i]),
        decreases n - j,
    {
        proof {
            reveal(run_inv);
        }
        let x = step_exec(sx, dx, j);
        let y = step_exec(sy, dy, j);
        let cell = field[x as usize][y as usize];
        let same = match (cell, run_player) {
            (Some(a), Some(b)) => a == b,
            _ => false,
        };
        let ghost ms0 = matches@;
        let ghost rp0 = run_player;
        let ghost rl0 = run_len as int;
        proof {
            assert(same == same_run(cell, rp0));
            assert forall|p: Player| #[trigger] line_owns(f, sx as int, sy as int, dx as int, dy as int, j as int, p) == (cell == Some(p)) by {}
        }
        if same {
            run_len = run_len + 1;
        } else {
            if run_len >= 4 {
                let a = j - run_len;
                push_run(matches, field, sx, sy, dx, dy, a, j - 1, Ghost(rp0.unwrap()));
            }
            run_player = cell;
            run_len = if cell.is_some() {
                1
            } else {
                0
            };
        }
        proof {
            lemma_run_step(f, sx as int, sy as int, dx as int, dy as int, j as int, rp0, rl0, cell);
            lemma_complete_step(f, sx as int, sy as int, dx as int, dy as int, j as int, ms0, matches@, lo, rp0, rl0, cell);
            lemma_exact_step(f, sx as int, sy as int, dx as int, dy as int, n as int, j as int, ms0, matches@, start, rp0, rl0, cell);
        }
        j = j + 1;
    }
    let ghost ms_n = matches@;
    if run_len >= 4 {
        let a = n - run_len;
        proof {
            reveal(run_inv);
        }
        push_run(matches, field, sx, sy, dx, dy, a, n - 1, Ghost(run_player.unwrap()));
    }
    proof {
        reveal(scan_complete);
        lemma_exact_end(f, sx as int, sy as int, dx as int, dy as int, n as int, ms_n, matches@, start, run_player, run_len as int);
    }
}

/// Records the run of `q`'s chips over steps `a..=b` of a line.
fn push_run(
    matches: &mut Vec<GameMatch>,
    field: &GameField,
    sx: isize,
    sy: isize,
    dx: isize,
    dy: isize,
    a: isize,
    b: isize,
    Ghost(q): Ghost<Player>,
)
    requires
        is_axis(dx as int, dy as int),
        0 <= a,
        a + 3 <= b < 7,
        in_grid(sx as int, sy as int),
        in_grid(step(sx as int, dx as int, b as int), step(sy as int, dy as int, b as int)),
        forall|i: int| a <= i < a + 4 ==> #[trigger] line_owns(*field, sx as int, sy as int, dx as int, dy as int, i, q),
    ensures
        final(matches)@ == old(matches)@.push(pair_match(sx as int, sy as int, dx as int, dy as int, (a as int, b as int))),
        final(matches)@.len() == old(matches)@.len() + 1,
        forall|i: int| 0 <= i < old(matches)@.len() ==> final(matches)@[i] == old(matches)@[i],
        match_ok(*field, final(matches)@[old(matches)@.len() as int]),
        forall|p: Player, lo: int| 0 <= lo && #[trigger] found_from(*field, old(matches)@, lo, p) ==> found_from(*field, final(matches)@, lo, p),
        forall|lo: int| 0 <= lo <= old(matches)@.len() ==> #[trigger] found_from(*field, final(matches)@, lo, q),
        forall|lo: int| 0 <= lo <= old(matches)@.len() ==> #[trigger] final(matches)@.subrange(0, lo) == old(matches)@.subrange(0, lo),
{
    let ghost f = *field;
    let m = run_match(sx, sy, dx, dy, a, b);
    proof {
        lemma_run_is_four(f, sx as int, sy as int, dx as int, dy as int, a as int, q);
        assert(four_from(f, m.0.0 as int, m.0.1 as int, dx as int, dy as int, q));
    }
    let ghost ms0 = matches@;
    matches.push(m);
    proof {
        assert(matches@[ms0.len() as int] == m);
        assert(owns(f, matches@[ms0.len() as int].0.0 as int, matches@[ms0.len() as int].0.1 as int, q));
        assert forall|p: Player, lo: int| 0 <= lo && #[trigger] found_from(f, ms0, lo, p) implies found_from(f, matches@, lo, p) by {
            lemma_found_push(f, ms0, m, lo, p);
        }
        assert forall|lo: int| 0 <= lo <= ms0.len() implies #[trigger] matches@.subrange(0, lo) == ms0.subrange(0, lo) by {
            assert(matches@.subrange(0, lo) =~= ms0.subrange(0, lo));
        }
    }
}

/// The first and last cells of the run spanning steps `a..=b` of a line.
fn run_match(sx: isize, sy: isize, dx: isize, dy: isize, a: isize, b: isize) -> (m: GameMatch)
    requires
        is_axis(dx as int, dy as int),
        0 <= a <= b < 7,
        in_grid(sx as int, sy as int),
        in_grid(step(sx as int, dx as int, b as int), step(sy as int, dy as int, b as int)),
    ensures
        m.0.0 == step(sx as int, dx as int, a as int),
        m.0.1 == step(sy as int, dy as int, a as int),
        m.1.0 == step(sx as int, dx as int, b as int),
        m.1.1 == step(sy as int, dy as int, b as int),
{
    let x1 = step_exec(sx, dx, a);
    let y1 = step_exec(sy, dy, a);
    let x2 = step_exec(sx, dx, b);
    let y2 = step_exec(sy, dy, b);
    ((x1 as usize, y1 as usize), (x2 as usize, y2 as usize))
}

proof fn lemma_found_push(f: GameField, ms: Seq<GameMatch>, m: GameMatch, lo: int, p: Player)
    requires
        0 <= lo,
        found_from(f, ms, lo, p),
    ensures
        found_from(f, ms.push(m), lo, p),
{
    let i = choose|i: int| lo <= i < ms.len() && #[trigger] owns(f, ms[i].0.0 as int, ms[i].0.1 as int, p);
    assert(ms.push(m)[i] == ms[i]);
}

/// Four owned cells from step `a` on make a `four_from`.
proof fn lemma_run_is_four(f: GameField, sx: int, sy: int, dx: int, dy: int, a: int, p: Player)
    requires
        is_axis(dx, dy),
        forall|i: int| a <= i < a + 4 ==> #[trigger] line_owns(f, sx, sy, dx, dy, i, p),
    ensures
        four_from(f, step(sx, dx, a), step(sy, dy, a), dx, dy, p),
{
    assert(line_owns(f, sx, sy, dx, dy, a, p));
    assert(line_owns(f, sx, sy, dx, dy, a + 1, p));
    assert(line_owns(f, sx, sy, dx, dy, a + 2, p));
    assert(line_owns(f, sx, sy, dx, dy, a + 3, p));
}

/// The cells of a `four_from` on a line, by step.
proof fn lemma_four_cells(f: GameField, sx: int, sy: int, dx: int, dy: int, k: int, p: Player)
    requires
        is_axis(dx, dy),
        line_four(f, sx, sy, dx, dy, k, p),
    ensures
        forall|i: int| k <= i < k + 4 ==> #[trigger] line_owns(f, sx, sy, dx, dy, i, p),
{
    assert forall|i: int| k <= i < k + 4 implies #[trigger] line_owns(f, sx, sy, dx, dy, i, p) by {
        if i == k + 1 {
            assert(step(sx, dx, i) == step(sx, dx, k) + dx);
            assert(step(sy, dy, i) == step(sy, dy, k) + dy);
        } else if i == k + 2 {
            assert(step(sx, dx, i) == step(sx, dx, k) + 2 * dx);
            assert(step(sy, dy, i) == step(sy, dy, k) + 2 * dy);
        } else if i == k + 3 {
            assert(step(sx, dx, i) == step(sx, dx, k) + 3 * dx);
            assert(step(sy, dy, i) == step(sy, dy, k) + 3 * dy);
        }
    }
}

/// Extending a list keeps what was found in it.
proof fn lemma_found_prefix(f: GameField, ms: Seq<GameMatch>, ms2: Seq<GameMatch>, lo: int, p: Player)
    requires
        0 <= lo,
        ms2.len() >= ms.len(),
        ms2.subrange(0, ms.len() as int) == ms,
        found_from(f, ms, lo, p),
    ensures
        found_from(f, ms2, lo, p),
{
    let i = choose|i: int| lo <= i < ms.len() && #[trigger] owns(f, ms[i].0.0 as int, ms[i].0.1 as int, p);
    assert(ms2.subrange(0, ms.len() as int)[i] == ms2[i]);
}

/// A match found from a later index is found from an earlier one.
proof fn lemma_found_lower(f: GameField, ms: Seq<GameMatch>, lo: int, lo2: int, p: Player)
    requires
        lo <= lo2,
        found_from(f, ms, lo2, p),
    ensures
        found_from(f, ms, lo, p),
{
    let i = choose|i: int| lo2 <= i < ms.len() && #[trigger] owns(f, ms[i].0.0 as int, ms[i].0.1 as int, p);
}

/// The runs of the columns and rows `0..i`: column `x`, then row `x`, for
/// each `x` in turn.
pub open spec fn hv_matches(f: GameField, i: int) -> Seq<GameMatch>
    decreases i,
{
    if i <= 0 {
        seq![]
    } else {
        hv_matches(f, i - 1) + line_matches(f, i - 1, 0, 0, 1, 7) + line_matches(f, 0, i - 1, 1, 0, 7)
    }
}

pub open spec fn diag_ox(d: int) -> int {
    if d < 0 {
        -d
    } else {
        0
    }
}

pub open spec fn diag_oy(d: int) -> int {
    if d > 0 {
        d
    } else {
        0
    }
}

/// The runs of the diagonals with offsets `-3..d`: for each offset, the
/// diagonal going down-right, then the one going down-left.
pub open spec fn diag_matches(f: GameField, d: int) -> Seq<GameMatch>
    decreases d + 3,
{
    if d <= -3 {
        seq![]
    } else {
        let e = d - 1;
        let n = 7 - diag_ox(e) - diag_oy(e);
        diag_matches(f, d - 1) + line_matches(f, diag_ox(e), diag_oy(e), 1, 1, n) + line_matches(
            f,
            6 - diag_ox(e),
            diag_oy(e),
            -1,
            1,
            n,
        )
    }
}

/// Every maximal run of four or more chips on the grid, as its first and
/// last cell: the columns and rows, then the diagonals.
pub open spec fn all_matches(f: GameField) -> Seq<GameMatch> {
    hv_matches(f, 7) + diag_matches(f, 4)
}

/// Adds horizontal and vertical matches to the vector.
fn get_horizontal_and_vertical_matches(matches: &mut Vec<GameMatch>, field: &GameField)
    ensures
        final(matches)@ == old(matches)@ + hv_matches(*field, 7),
        final(matches)@.len() >= old(matches)@.len(),
        final(matches)@.subrange(0, old(matches)@.len() as int) == old(matches)@,
        forall|i: int|
            old(matches)@.len() <= i < final(matches)@.len() ==> match_ok(
                *field,
                #[trigger] final(matches)@[i],
            ),
        forall|x: int, y: int, p: Player|
            #[trigger] four_from(*field, x, y, 1, 0, p) ==> found_from(
                *field,
                final(matches)@,
                old(matches)@.len() as int,
                p,
            ),
        forall|x: int, y: int, p: Player|
            #[trigger] four_from(*field, x, y, 0, 1, p) ==> found_from(
                *field,
                final(matches)@,
                old(matches)@.len() as int,
                p,
            ),
{
    let ghost f = *field;
    let ghost lo = matches@.len() as int;
    let ghost start = matches@;
    let mut i: isize = 0;
    while i < 7
        invariant
            f == *field,
            0 <= i <= 7,
            0 <= lo <= matches@.len(),
            matches@.subrange(0, lo) == start,
            matches@ == start + hv_matches(f, i as int),
            forall|k: int| lo <= k < matches@.len() ==> match_ok(f, #[trigger] matches@[k]),
            forall|x: int, y: int, p: Player|
                y < i && #[trigger] four_from(f, x, y, 1, 0, p) ==> found_from(f, matches@, lo, p),
            forall|x: int, y: int, p: Player|
                x < i && #[trigger] four_from(f, x, y, 0, 1, p) ==> found_from(f, matches@, lo, p),
        decreases 7 - i,
    {
        let ghost ms0 = matches@;
        scan_line(matches, field, i, 0, 0, 1, 7);
        let ghost ms1 = matches@;
        scan_line(matches, field, 0, i, 1, 0, 7);
        let ghost ms2 = matches@;
        proof {
            assert(ms2 =~= start + hv_matches(f, i + 1));
            assert(ms2.subrange(0, ms0.len() as int) =~= ms0) by {
                assert(ms2.subrange(0, ms0.len() as int) =~= ms2.subrange(0, ms1.len() as int).subrange(0, ms0.len() as int));
            }
            assert(ms2.subrange(0, lo) =~= start) by {
                assert(ms2.subrange(0, lo) =~= ms2.subrange(0, ms0.len() as int).subrange(0, lo));
            }
            assert forall|k: int| lo <= k < ms2.len() implies match_ok(f, #[trigger] ms2[k]) by {
                if k < ms1.len() {
                    assert(ms2.subrange(0, ms1.len() as int)[k] == ms2[k]);
                    if k < ms0.len() {
                        assert(ms1.subrange(0, ms0.len() as int)[k] == ms1[k]);
                    }
                }
            }
            assert forall|x: int, y: int, p: Player|
                y < i + 1 && #[trigger] four_from(f, x, y, 1, 0, p) implies found_from(f, ms2, lo, p) by {
                if y < i {
                    lemma_found_prefix(f, ms0, ms2, lo, p);
                } else {
                    assert(line_four(f, 0, i as int, 1, 0, x, p));
                    lemma_found_lower(f, ms2, lo, ms1.len() as int, p);
                }
            }
            assert forall|x: int, y: int, p: Player|
                x < i + 1 && #[trigger] four_from(f, x, y, 0, 1, p) implies found_from(f, ms2, lo, p) by {
                if x < i {
                    lemma_found_prefix(f, ms0, ms2, lo, p);
                } else {
                    assert(line_four(f, i as int, 0, 0, 1, y, p));
                    lemma_found_lower(f, ms1, lo, ms0.len() as int, p);
                    lemma_found_prefix(f, ms1, ms2, lo, p);
                }
            }
        }
        i = i + 1;
    }
}

/// Adds diagonal matches to the vector.
fn get_diagonal_matches(matches: &mut Vec<GameMatch>, field: &GameField)
    ensures
        final(matches)@ == old(matches)@ + diag_matches(*field, 4),
        final(matches)@.len() >= old(matches)@.len(),
        final(matches)@.subrange(0, old(matches)@.len() as int) == old(matches)@,
        forall|i: int|
            old(matches)@.len() <= i < final(matches)@.len() ==> match_ok(
                *field,
                #[trigger] final(matches)@[i],
            ),
        forall|x: int, y: int, p: Player|
            #[trigger] four_from(*field, x, y, 1, 1, p) ==> found_from(
                *field,
                final(matches)@,
                old(matches)@.len() as int,
                p,
            ),
        forall|x: int, y: int, p: Player|
            #[trigger] four_from(*field, x, y, -1, 1, p) ==> found_from(
                *field,
                final(matches)@,
                old(matches)@.len() as int,
                p,
            ),
{
    let ghost f = *field;
    let ghost lo = matches@.len() as int;
    let ghost start = matches@;
    let mut d: isize = -3;
    while d <= 3
        invariant
            f == *field,
            -3 <= d <= 4,
            0 <= lo <= matches@.len(),
            matches@.subrange(0, lo) == start,
            matches@ == start + diag_matches(f, d as int),
            forall|k: int| lo <= k < matches@.len() ==> match_ok(f, #[trigger] matches@[k]),
            forall|x: int, y: int, p: Player|
                y - x < d && #[trigger] four_from(f, x, y, 1, 1, p) ==> found_from(f, matches@, lo, p),
            forall|x: int, y: int, p: Player|
                x + y - 6 < d && #[trigger] four_from(f, x, y, -1, 1, p) ==> found_from(f, matches@, lo, p),
        decreases 4 - d,
    {
        let ox: isize = if d < 0 {
            -d
        } else {
            0
        };
        let oy: isize = if d > 0 {
            d
        } else {
            0
        };
        let n: isize = 7 - ox - oy;
        let ghost ms0 = matches@;
        scan_line(matches, field, ox, oy, 1, 1, n);
        let ghost ms1 = matches@;
        scan_line(matches, field, 6 - ox, oy, -1, 1, n);
        let ghost ms2 = matches@;
        proof {
            assert(diag_ox(d as int) == ox && diag_oy(d as int) == oy);
            assert(ms2 =~= start + diag_matches(f, d + 1));
            assert(ms2.subrange(0, ms0.len() as int) =~= ms0) by {
                assert(ms2.subrange(0, ms0.len() as int) =~= ms2.subrange(0, ms1.len() as int).subrange(0, ms0.len() as int));
            }
            assert(ms2.subrange(0, lo) =~= start) by {
                assert(ms2.subrange(0, lo) =~= ms2.subrange(0, ms0.len() as int).subrange(0, lo));
            }
            assert forall|k: int| lo <= k < ms2.len() implies match_ok(f, #[trigger] ms2[k]) by {
                if k < ms1.len() {
                    assert(ms2.subrange(0, ms1.len() as int)[k] == ms2[k]);
                    if k < ms0.len() {
                        assert(ms1.subrange(0, ms0.len() as int)[k] == ms1[k]);
                    }
                }
            }
            assert forall|x: int, y: int, p: Player|
                y - x < d + 1 && #[trigger] four_from(f, x, y, 1, 1, p) implies found_from(f, ms2, lo, p) by {
                if y - x < d {
                    lemma_found_prefix(f, ms0, ms2, lo, p);
                } else {
                    assert(line_four(f, ox as int, oy as int, 1, 1, x - ox, p));
                    lemma_found_lower(f, ms1, lo, ms0.len() as int, p);
                    lemma_found_prefix(f, ms1, ms2, lo, p);
                }
            }
            assert forall|x: int, y: int, p: Player|
                x + y - 6 < d + 1 && #[trigger] four_from(f, x, y, -1, 1, p) implies found_from(f, ms2, lo, p) by {
                if x + y - 6 < d {
                    lemma_found_prefix(f, ms0, ms2, lo, p);
                } else {
                    assert(line_four(f, 6 - ox as int, oy as int, -1, 1, y - oy, p));
                    lemma_found_lower(f, ms2, lo, ms1.len() as int, p);
                }
            }
        }
        d = d + 1;
    }
}

/// Who wins a grid on which the game has ended: a player with four in a
/// row, or nobody when both or neither have one.
pub open spec fn winner_of(f: GameField) -> GameWinner {
    if has_win(f, Player::P1) && has_win(f, Player::P2) {
        GameWinner::Draw
    } else if has_win(f, Player::P1) {
        GameWinner::P1
    } else if has_win(f, Player::P2) {
        GameWinner::P2
    } else {
        GameWinner::Draw
    }
}

/// What a full scan of grid `f` with `moves` chips before the latest move
/// yields: a result exactly when someone has four in a row or the grid is
/// full, listing the first and last cell of every maximal run of four or
/// more.
pub open spec fn full_result(f: GameField, moves: int, r: Option<GameResult>) -> bool {
    &&& r is Some <==> (has_win(f, Player::P1) || has_win(f, Player::P2) || moves >= LAST_MOVE)
    &&& r is Some ==> {
        let res = r.unwrap();
        &&& res.winner == winner_of(f)
        &&& res.matches@ == all_matches(f)
        &&& (res.matches@.len() == 0 <==> !(has_win(f, Player::P1) || has_win(f, Player::P2)))
        &&& forall|i: int| 0 <= i < res.matches@.len() ==> match_ok(f, #[trigger] res.matches@[i])
        &&& forall|p: Player| has_win(f, p) <==> #[trigger] found_from(f, res.matches@, 0, p)
    }
}

/// Every match of a sound list stands for a real win.
proof fn lemma_found_sound(f: GameField, ms: Seq<GameMatch>, p: Player)
    requires
        forall|i: int| 0 <= i < ms.len() ==> match_ok(f, #[trigger] ms[i]),
        found_from(f, ms, 0, p),
    ensures
        has_win(f, p),
{
    let i = choose|i: int| 0 <= i < ms.len() && #[trigger] owns(f, ms[i].0.0 as int, ms[i].0.1 as int, p);
    assert(match_ok(f, ms[i]));
    let (dx, dy, q) = choose|dx: int, dy: int, q: Player|
        is_axis(dx, dy) && #[trigger] four_from(f, ms[i].0.0 as int, ms[i].0.1 as int, dx, dy, q);
    assert(q == p);
}

/// Scans the whole grid for runs of four or more.
fn get_result(field: &GameField, moves: u32) -> (r: Option<GameResult>)
    ensures
        full_result(*field, moves as int, r),
{
    let ghost f = *field;
    let mut matches: Vec<GameMatch> = Vec::new();
    get_horizontal_and_vertical_matches(&mut matches, field);
    let ghost ms1 = matches@;
    get_diagonal_matches(&mut matches, field);
    let ghost ms = matches@;
    proof {
        assert(ms =~= all_matches(f));
        assert forall|k: int| 0 <= k < ms.len() implies match_ok(f, #[trigger] ms[k]) by {
            if k < ms1.len() {
                assert(ms.subrange(0, ms1.len() as int)[k] == ms[k]);
            }
        }
        assert forall|p: Player| has_win(f, p) implies #[trigger] found_from(f, ms, 0, p) by {
            let (x, y, dx, dy) = choose|x: int, y: int, dx: int, dy: int|
                is_axis(dx, dy) && #[trigger] four_from(f, x, y, dx, dy, p);
            if (dx == 1 && dy == 0) || (dx == 0 && dy == 1) {
                assert(found_from(f, ms1, 0, p));
                lemma_found_prefix(f, ms1, ms, 0, p);
            } else {
                assert(found_from(f, ms, ms1.len() as int, p));
                lemma_found_lower(f, ms, 0, ms1.len() as int, p);
            }
        }
    }
    if matches.len() > 0 {
        let mut p1 = false;
        let mut p2 = false;
        let mut i: usize = 0;
        while i < matches.len()
            invariant
                f == *field,
                ms == matches@,
                0 <= i <= ms.len(),
                forall|k: int| 0 <= k < ms.len() ==> match_ok(f, #[trigger] ms[k]),
                p1 == found_from(f, ms.subrange(0, i as int), 0, Player::P1),
                p2 == found_from(f, ms.subrange(0, i as int), 0, Player::P2),
            decreases ms.len() - i,
        {
            let m = matches[i];
            proof {
                assert(match_ok(f, m));
                let (dx, dy, q) = choose|dx: int, dy: int, q: Player|
                    is_axis(dx, dy) && #[trigger] four_from(f, m.0.0 as int, m.0.1 as int, dx, dy, q);
                assert(owns(f, m.0.0 as int, m.0.1 as int, q));
            }
            let ((x, y), _) = m;
            let ghost pre = ms.subrange(0, i as int);
            let ghost post = ms.subrange(0, i + 1);
            match field[x][y] {
                Some(Player::P1) => {
                    p1 = true;
                },
                Some(Player::P2) => {
                    p2 = true;
                },
                None => {},
            }
            proof {
                assert(post =~= pre.push(m));
                assert(post[i as int] == m);
                assert forall|p: Player| #[trigger] found_from(f, pre, 0, p) implies found_from(f, post, 0, p) by {
                    lemma_found_push(f, pre, m, 0, p);
                }
                assert forall|p: Player| #[trigger] found_from(f, post, 0, p) && !found_from(f, pre, 0, p) implies owns(f, m.0.0 as int, m.0.1 as int, p) by {
                    let j = choose|j: int| 0 <= j < post.len() && #[trigger] owns(f, post[j].0.0 as int, post[j].0.1 as int, p);
                    if j < i {
                        assert(post[j] == pre[j]);
                    }
                }
            }
            i = i + 1;
        }
        proof {
            assert(ms.subrange(0, ms.len() as int) =~= ms);
            if p1 {
                lemma_found_sound(f, ms, Player::P1);
            }
            if p2 {
                lemma_found_sound(f, ms, Player::P2);
            }
            assert(match_ok(f, ms[0]));
            let (dx, dy, q) = choose|dx: int, dy: int, q: Player|
                is_axis(dx, dy) && #[trigger] four_from(f, ms[0].0.0 as int, ms[0].0.1 as int, dx, dy, q);
            assert(owns(f, ms[0].0.0 as int, ms[0].0.1 as int, q));
            assert(found_from(f, ms, 0, q));
            assert forall|p: Player| has_win(f, p) <==> #[trigger] found_from(f, ms, 0, p) by {
                if found_from(f, ms, 0, p) {
                    lemma_found_sound(f, ms, p);
                }
            }
        }
        let winner = if p1 && p2 {
            GameWinner::Draw
        } else if p1 {
            GameWinner::P1
        } else {
            GameWinner::P2
        };
        return Some(GameResult { winner, matches });
    }
    proof {
        if has_win(f, Player::P1) {
            assert(found_from(f, ms, 0, Player::P1));
        }
        if has_win(f, Player::P2) {
            assert(found_from(f, ms, 0, Player::P2));
        }
    }
    if moves >= LAST_MOVE {
        return Some(GameResult { winner: GameWinner::Draw, matches });
    }
    None
}

// ---------------------------------------------------------------------------
// Incremental win checks

/// Each of the first `ray` cells from `(x, y)` along `(dx, dy)` is `p`'s.
proof fn lemma_ray_owned(f: GameField, x: int, y: int, dx: int, dy: int, p: Player, fuel: nat, i: int)
    requires
        -1 <= dx <= 1,
        -1 <= dy <= 1,
        1 <= i <= ray(f, x, y, dx, dy, p, fuel),
    ensures
        owns(f, step(x, dx, i), step(y, dy, i), p),
    decreases fuel,
{
    if i > 1 {
        lemma_ray_owned(f, x + dx, y + dy, dx, dy, p, (fuel - 1) as nat, i - 1);
        assert(step(x + dx, dx, i - 1) == step(x, dx, i));
        assert(step(y + dy, dy, i - 1) == step(y, dy, i));
    }
}

/// A ray is at least as long as the run of `p`'s chips it starts on.
proof fn lemma_ray_at_least(f: GameField, x: int, y: int, dx: int, dy: int, p: Player, fuel: nat, k: int)
    requires
        -1 <= dx <= 1,
        -1 <= dy <= 1,
        0 <= k <= fuel,
        forall|i: int| 1 <= i <= k ==> #[trigger] owns(f, step(x, dx, i), step(y, dy, i), p),
    ensures
        ray(f, x, y, dx, dy, p, fuel) >= k,
    decreases fuel,
{
    if k > 0 {
        assert(owns(f, step(x, dx, 1), step(y, dy, 1), p));
        assert forall|i: int| 1 <= i <= k - 1 implies #[trigger] owns(f, step(x + dx, dx, i), step(y + dy, dy, i), p) by {
            assert(step(x + dx, dx, i) == step(x, dx, i + 1));
            assert(step(y + dy, dy, i) == step(y, dy, i + 1));
            assert(owns(f, step(x, dx, i + 1), step(y, dy, i + 1), p));
        }
        lemma_ray_at_least(f, x + dx, y + dy, dx, dy, p, (fuel - 1) as nat, k - 1);
    }
}

/// A line of four or more through a chip of `p` is four in a row.
pub proof fn lemma_line_is_win(f: GameField, x: int, y: int, dx: int, dy: int, p: Player)
    requires
        is_axis(dx, dy),
        owns(f, x, y, p),
        line_len(f, x, y, dx, dy, p) >= WIN_LEN,
    ensures
        has_win(f, p),
{
    let a = ray(f, x, y, -dx, -dy, p, 6) as int;
    let b = ray(f, x, y, dx, dy, p, 6) as int;
    let s = if a < 3 { a } else { 3 };
    let sx = step(x, -dx, s);
    let sy = step(y, -dy, s);
    lemma_line_cell(f, x, y, dx, dy, p, s, 0);
    lemma_line_cell(f, x, y, dx, dy, p, s, 1);
    lemma_line_cell(f, x, y, dx, dy, p, s, 2);
    lemma_line_cell(f, x, y, dx, dy, p, s, 3);
    assert(four_from(f, sx, sy, dx, dy, p));
}

/// Cell `t` of the four cells that start `s` steps behind `(x, y)`.
proof fn lemma_line_cell(f: GameField, x: int, y: int, dx: int, dy: int, p: Player, s: int, t: int)
    requires
        is_axis(dx, dy),
        owns(f, x, y, p),
        0 <= s <= ray(f, x, y, -dx, -dy, p, 6),
        s <= 3,
        3 - s <= ray(f, x, y, dx, dy, p, 6),
        0 <= t < 4,
    ensures
        owns(f, step(step(x, -dx, s), dx, t), step(step(y, -dy, s), dy, t), p),
{
    if t < s {
        lemma_ray_owned(f, x, y, -dx, -dy, p, 6, s - t);
    } else if t > s {
        lemma_ray_owned(f, x, y, dx, dy, p, 6, t - s);
    }
}

/// Every cell of a four in a row sees a winning line through it.
pub proof fn lemma_four_is_winning_at(f: GameField, sx: int, sy: int, dx: int, dy: int, p: Player, t: int)
    requires
        is_axis(dx, dy),
        four_from(f, sx, sy, dx, dy, p),
        0 <= t < 4,
    ensures
        winning_at(f, step(sx, dx, t), step(sy, dy, t), p),
{
    let x = step(sx, dx, t);
    let y = step(sy, dy, t);
    assert forall|i: int| 1 <= i <= t implies #[trigger] owns(f, step(x, -dx, i), step(y, -dy, i), p) by {
        assert(t - i == 0 || t - i == 1 || t - i == 2);
    }
    assert forall|i: int| 1 <= i <= 3 - t implies #[trigger] owns(f, step(x, dx, i), step(y, dy, i), p) by {
        assert(t + i == 1 || t + i == 2 || t + i == 3);
    }
    lemma_ray_at_least(f, x, y, -dx, -dy, p, 6, t);
    lemma_ray_at_least(f, x, y, dx, dy, p, 6, 3 - t);
}

/// First row of column `c`, from row `y` down, holding a chip of `q`, or 7.
pub open spec fn first_of(f: GameField, c: int, q: Player, y: int) -> int
    decreases 7 - y,
{
    if y >= 7 || y < 0 {
        7
    } else if f[c][y] == Some(q) {
        y
    } else {
        first_of(f, c, q, y + 1)
    }
}

/// The topmost chip of `q` in column `last`, if any, wins.
pub open spec fn last_move_winning(f: GameField, last: Option<usize>, q: Player) -> bool {
    match last {
        None => false,
        Some(c) => first_of(f, c as int, q, 0) < 7 && winning_at(f, c as int, first_of(f, c as int, q, 0), q),
    }
}

proof fn lemma_first_of(f: GameField, c: int, q: Player, y: int)
    requires
        0 <= c < 7,
        0 <= y,
    ensures
        first_of(f, c, q, y) < 7 ==> y <= first_of(f, c, q, y) && owns(f, c, first_of(f, c, q, y), q),
    decreases 7 - y,
{
    if y < 7 && f[c][y] != Some(q) {
        lemma_first_of(f, c, q, y + 1);
    }
}

impl Game {
    /// Whether cell `(x, y)` holds a chip of `player`.
    fn holds(&self, x: usize, y: usize, player: Player) -> (r: bool)
        requires
            x < FIELD_SIZE,
            y < FIELD_SIZE,
        ensures
            r == owns(self.field, x as int, y as int, player),
    {
        match self.field[x][y] {
            Some(p) => p == player,
            None => false,
        }
    }

    /// Counts the chips of `player` met stepping from `(x, y)` by `(dx, dy)`.
    fn ray_len(&self, x: usize, y: usize, dx: isize, dy: isize, player: Player) -> (n: usize)
        requires
            x < FIELD_SIZE,
            y < FIELD_SIZE,
            -1 <= dx <= 1,
            -1 <= dy <= 1,
            dx != 0 || dy != 0,
        ensures
            n == ray(self.field, x as int, y as int, dx as int, dy as int, player, 6),
            n <= 6,
    {
        let ghost f = self.field;
        let mut n: usize = 0;
        let mut cx: isize = x as isize;
        let mut cy: isize = y as isize;
        loop
            invariant
                x < FIELD_SIZE,
                y < FIELD_SIZE,
                -1 <= dx <= 1,
                -1 <= dy <= 1,
                dx != 0 || dy != 0,
                f == self.field,
                n <= 6,
                0 <= cx < 7,
                0 <= cy < 7,
                cx == step(x as int, dx as int, n as int),
                cy == step(y as int, dy as int, n as int),
                ray(f, x as int, y as int, dx as int, dy as int, player, 6) == n + ray(
                    f,
                    cx as int,
                    cy as int,
                    dx as int,
                    dy as int,
                    player,
                    (6 - n) as nat,
                ),
            ensures
                n == ray(f, x as int, y as int, dx as int, dy as int, player, 6),
                n <= 6,
            decreases 6 - n,
        {
            let nx = cx + dx;
            let ny = cy + dy;
            if nx < 0 || nx >= 7 || ny < 0 || ny >= 7 {
                break;
            }
            if !self.holds(nx as usize, ny as usize, player) {
                break;
            }
            n = n + 1;
            cx = nx;
            cy = ny;
        }
        n
    }

    fn len_horizontal(&self, x: usize, y: usize, player: Player) -> (len: usize)
        requires
            x < FIELD_SIZE,
            y < FIELD_SIZE,
        ensures
            len == line_len(self.field, x as int, y as int, 1, 0, player),
    {
        1 + self.ray_len(x, y, -1, 0, player) + self.ray_len(x, y, 1, 0, player)
    }

    fn len_vertical(&self, x: usize, y: usize, player: Player) -> (len: usize)
        requires
            x < FIELD_SIZE,
            y < FIELD_SIZE,
        ensures
            len == line_len(self.field, x as int, y as int, 0, 1, player),
    {
        1 + self.ray_len(x, y, 0, -1, player) + self.ray_len(x, y, 0, 1, player)
    }

    fn len_diagonal_tl_br(&self, x: usize, y: usize, player: Player) -> (len: usize)
        requires
            x < FIELD_SIZE,
            y < FIELD_SIZE,
        ensures
            len == line_len(self.field, x as int, y as int, 1, 1, player),
    {
        1 + self.ray_len(x, y, -1, -1, player) + self.ray_len(x, y, 1, 1, player)
    }

    fn len_diagonal_tr_bl(&self, x: usize, y: usize, player: Player) -> (len: usize)
        requires
            x < FIELD_SIZE,
            y < FIELD_SIZE,
        ensures
            len == line_len(self.field, x as int, y as int, -1, 1, player),
    {
        1 + self.ray_len(x, y, 1, -1, player) + self.ray_len(x, y, -1, 1, player)
    }

    /// Whether a line of four or more of `player`'s chips passes through
    /// `(x, y)`, the cell itself counted as `player`'s.
    pub fn is_move_winning(&self, x: usize, y: usize, player: Player) -> (r: bool)
        requires
            x < FIELD_SIZE,
            y < FIELD_SIZE,
        ensures
            r == winning_at(self.field, x as int, y as int, player),
    {
        self.len_horizontal(x, y, player) >= WIN_LEN || self.len_vertical(x, y, player) >= WIN_LEN
            || self.len_diagonal_tl_br(x, y, player) >= WIN_LEN || self.len_diagonal_tr_bl(
            x,
            y,
            player,
        ) >= WIN_LEN
    }

    /// Returns true if the most recent move was winning.
    fn was_last_move_winning(&self) -> (r: bool)
        requires
            self.state.last_move matches Some(c) ==> c < FIELD_SIZE,
        ensures
            r == last_move_winning(self.field, self.state.last_move, other_spec(self.state.player)),
    {
        let x = match self.state.last_move {
            Some(x) => x,
            None => {
                return false;
            },
        };
        let other_player = self.state.player.other();
        let mut y: usize = 0;
        while y < FIELD_SIZE
            invariant
                x < FIELD_SIZE,
                y <= FIELD_SIZE,
                self.state.last_move == Some(x),
                other_player == other_spec(self.state.player),
                first_of(self.field, x as int, other_player, 0) == first_of(self.field, x as int, other_player, y as int),
            decreases FIELD_SIZE - y,
        {
            if self.holds(x, y, other_player) {
                assert(first_of(self.field, x as int, other_player, y as int) == y as int);
                return self.is_move_winning(x, y, other_player);
            }
            y = y + 1;
        }
        false
    }
}

// ---------------------------------------------------------------------------
// Turns

/// Chips in rows `0..n` of column `c`.
pub open spec fn col_count(f: GameField, c: int, n: int) -> int
    decreases n,
{
    if n <= 0 {
        0
    } else {
        col_count(f, c, n - 1) + if f[c][n - 1] is Some { 1int } else { 0int }
    }
}

/// Chips in columns `0..n`.
pub open spec fn grid_count(f: GameField, n: int) -> int
    decreases n,
{
    if n <= 0 {
        0
    } else {
        grid_count(f, n - 1) + col_count(f, n - 1, FIELD_SIZE as int)
    }
}

/// Chips rest on the floor or on other chips.
pub open spec fn gravity(f: GameField) -> bool {
    forall|x: int, y: int| 0 <= x < 7 && 0 <= y < 6 && (#[trigger] f[x][y]) is Some ==> f[x][y + 1] is Some
}

/// Lowest empty row of column `c` at row `y` or above, or -1 when none is.
pub open spec fn lowest_empty(f: GameField, c: int, y: int) -> int
    decreases y + 1,
{
    if y < 0 {
        -1
    } else if f[c][y] is None {
        y
    } else {
        lowest_empty(f, c, y - 1)
    }
}

/// `f2` is `f` with a chip of `p` dropped at row `row` of column `c`.
pub open spec fn dropped(f: GameField, f2: GameField, c: int, row: int, p: Player) -> bool {
    forall|x: int, y: int|
        0 <= x < 7 && 0 <= y < 7 ==> #[trigger] f2[x][y] == if x == c && y == row {
            Some(p)
        } else {
            f[x][y]
        }
}

pub open spec fn wrapping_inc(t: u32) -> u32 {
    if t == u32::MAX {
        0
    } else {
        (t + 1) as u32
    }
}

/// The error `end_turn` reports for column `col`, if any.
pub open spec fn end_turn_error(g: Game, col: Option<usize>) -> Option<EndTurnError> {
    if g.state.result is Some {
        Some(EndTurnError::GameOver)
    } else {
        match col {
            None => None,
            Some(c) => if c >= FIELD_SIZE {
                Some(EndTurnError::IndexOutOfBounds)
            } else if lowest_empty(g.field, c as int, 6) < 0 {
                Some(EndTurnError::ColumnFilled)
            } else {
                None
            },
        }
    }
}

/// A pass ends the game only under `allow_draws`, when the second player
/// passes right after the first player's winning move.
pub open spec fn pass_decides(g: Game) -> bool {
    &&& g.rules.allow_draws
    &&& g.state.player == other_spec(g.rules.starting_player)
    &&& last_move_winning(g.field, g.state.last_move, other_spec(g.state.player))
}

/// Whether the chip just dropped at `(c, row)` on `f2` ends the game: a full
/// grid always does; otherwise a winning line does, and under `allow_draws`
/// only on the second player's move, which also settles a pending win of the
/// first player.
pub open spec fn move_decides(g: Game, f2: GameField, c: int, row: int) -> bool {
    let p = g.state.player;
    if g.state.moves >= LAST_MOVE {
        true
    } else if g.rules.allow_draws {
        p != g.rules.starting_player && (last_move_winning(f2, g.state.last_move, other_spec(p))
            || winning_at(f2, c, row, p))
    } else {
        winning_at(f2, c, row, p)
    }
}

/// `g2` is `g` after a successful turn that played `col` (`None`: a pass).
pub open spec fn turn_ended(g: Game, g2: Game, col: Option<usize>) -> bool {
    &&& g2.rules == g.rules
    &&& g2.state.player == other_spec(g.state.player)
    &&& g2.state.turn == wrapping_inc(g.state.turn)
    &&& g2.state.last_move == col
    &&& match col {
        None => {
            &&& g2.field == g.field
            &&& g2.state.moves == g.state.moves
            &&& (g2.state.result is Some <==> pass_decides(g))
        },
        Some(c) => {
            let row = lowest_empty(g.field, c as int, 6);
            &&& dropped(g.field, g2.field, c as int, row, g.state.player)
            &&& g2.state.moves == g.state.moves + 1
            &&& (g2.state.result is Some <==> move_decides(g, g2.field, c as int, row))
        },
    }
    &&& g2.state.result is Some ==> full_result(g2.field, g.state.moves as int, g2.state.result)
}

proof fn lemma_col_count_bound(f: GameField, c: int, n: int)
    requires
        0 <= n <= 7,
    ensures
        0 <= col_count(f, c, n) <= n,
    decreases n,
{
    if n > 0 {
        lemma_col_count_bound(f, c, n - 1);
    }
}

proof fn lemma_grid_count_bound(f: GameField, n: int)
    requires
        0 <= n <= 7,
    ensures
        0 <= grid_count(f, n) <= 7 * n,
    decreases n,
{
    if n > 0 {
        lemma_grid_count_bound(f, n - 1);
        lemma_col_count_bound(f, n - 1, 7);
    }
}

proof fn lemma_col_count_drop(f: GameField, f2: GameField, c: int, row: int, p: Player, n: int)
    requires
        0 <= c < 7,
        0 <= row < 7,
        0 <= n <= 7,
        f[c][row] is None,
        dropped(f, f2, c, row, p),
    ensures
        col_count(f2, c, n) == col_count(f, c, n) + if row < n { 1int } else { 0int },
        forall|x: int| 0 <= x < 7 && x != c ==> col_count(f2, x, n) == col_count(f, x, n),
    decreases n,
{
    if n > 0 {
        lemma_col_count_drop(f, f2, c, row, p, n - 1);
        assert(f2[c][n - 1] == if n - 1 == row { Some(p) } else { f[c][n - 1] });
        assert forall|x: int| 0 <= x < 7 && x != c implies col_count(f2, x, n) == col_count(f, x, n) by {
            assert(f2[x][n - 1] == f[x][n - 1]);
            assert(col_count(f2, x, n) == col_count(f2, x, n - 1) + if f2[x][n - 1] is Some { 1int } else { 0int });
            assert(col_count(f, x, n) == col_count(f, x, n - 1) + if f[x][n - 1] is Some { 1int } else { 0int });
        }
    }
}

proof fn lemma_grid_count_drop(f: GameField, f2: GameField, c: int, row: int, p: Player, n: int)
    requires
        0 <= c < 7,
        0 <= row < 7,
        0 <= n <= 7,
        f[c][row] is None,
        dropped(f, f2, c, row, p),
    ensures
        grid_count(f2, n) == grid_count(f, n) + if c < n { 1int } else { 0int },
    decreases n,
{
    lemma_col_count_drop(f, f2, c, row, p, 7);
    if n > 0 {
        lemma_grid_count_drop(f, f2, c, row, p, n - 1);
    }
}

proof fn lemma_lowest_empty(f: GameField, c: int, y: int)
    requires
        0 <= c < 7,
        -1 <= y < 7,
    ensures
        -1 <= lowest_empty(f, c, y) <= y,
        lowest_empty(f, c, y) >= 0 ==> f[c][lowest_empty(f, c, y)] is None,
        forall|z: int| lowest_empty(f, c, y) < z <= y ==> (#[trigger] f[c][z]) is Some,
    decreases y + 1,
{
    if y >= 0 && f[c][y] is Some {
        lemma_lowest_empty(f, c, y - 1);
    }
}

impl Game {
    /// The grid is consistent: chips obey gravity, `moves` counts them, and
    /// the latest move names a column.
    pub open spec fn wf(&self) -> bool {
        &&& gravity(self.field)
        &&& self.state.moves == grid_count(self.field, FIELD_SIZE as int)
        &&& (self.state.last_move matches Some(c) ==> c < FIELD_SIZE)
    }

    pub fn new(rules: GameRules) -> (g: Game)
        ensures
            g.wf(),
            g.rules == rules,
            forall|x: int, y: int| 0 <= x < 7 && 0 <= y < 7 ==> (#[trigger] g.field[x][y]) is None,
            g.state.player == rules.starting_player,
            g.state.turn == 0,
            g.state.moves == 0,
            g.state.result is None,
            g.state.last_move is None,
    {
        let column: [Option<Player>; FIELD_SIZE] = [None; FIELD_SIZE];
        let field: GameField = [column; FIELD_SIZE];
        let g = Game { field, state: GameState::new(rules.starting_player), rules };
        proof {
            assert forall|x: int, y: int| 0 <= x < 7 && 0 <= y < 7 implies (#[trigger] g.field[x][y]) is None by {
                assert(g.field[x] == column);
            }
            assert forall|x: int| 0 <= x < 7 implies col_count(g.field, x, 7) == 0 by {
                assert forall|n: int| 0 <= n <= 7 implies #[trigger] col_count(g.field, x, n) == 0 by {
                    lemma_col_count_zero(g.field, x, n);
                }
            }
            lemma_grid_count_zero(g.field, 7);
        }
        g
    }

    /// Returns a result if the current round has resolved the game, checking
    /// the chip just dropped at `point`, or the latest move after a pass.
    fn get_result(&self, point: Option<(usize, usize)>) -> (r: Option<GameResult>)
        requires
            self.state.last_move matches Some(c) ==> c < FIELD_SIZE,
            point matches Some((x, y)) ==> x < FIELD_SIZE && y < FIELD_SIZE && owns(
                self.field,
                x as int,
                y as int,
                self.state.player,
            ),
        ensures
            r is Some <==> match point {
                None => pass_decides(*self),
                Some((x, y)) => move_decides(*self, self.field, x as int, y as int),
            },
            r is Some ==> full_result(self.field, self.state.moves as int, r),
    {
        let player = self.state.player;
        let moves = self.state.moves;
        let (x, y) = match point {
            Some(pt) => pt,
            None => {
                if self.rules.allow_draws && player == self.rules.starting_player.other()
                    && self.was_last_move_winning() {
                    proof {
                        self.lemma_last_move_win();
                    }
                    return get_result(&self.field, moves);
                }
                return None;
            },
        };
        if moves >= LAST_MOVE {
            return get_result(&self.field, moves);
        }
        if self.rules.allow_draws {
            if player == self.rules.starting_player {
                return None;
            }
            if self.was_last_move_winning() {
                proof {
                    self.lemma_last_move_win();
                }
                return get_result(&self.field, moves);
            }
        }
        if self.is_move_winning(x, y, player) {
            proof {
                if line_len(self.field, x as int, y as int, 1, 0, player) >= WIN_LEN {
                    lemma_line_is_win(self.field, x as int, y as int, 1, 0, player);
                } else if line_len(self.field, x as int, y as int, 0, 1, player) >= WIN_LEN {
                    lemma_line_is_win(self.field, x as int, y as int, 0, 1, player);
                } else if line_len(self.field, x as int, y as int, 1, 1, player) >= WIN_LEN {
                    lemma_line_is_win(self.field, x as int, y as int, 1, 1, player);
                } else {
                    lemma_line_is_win(self.field, x as int, y as int, -1, 1, player);
                }
            }
            return get_result(&self.field, moves);
        }
        None
    }

    proof fn lemma_last_move_win(&self)
        requires
            self.state.last_move matches Some(c) ==> c < FIELD_SIZE,
            last_move_winning(self.field, self.state.last_move, other_spec(self.state.player)),
        ensures
            has_win(self.field, other_spec(self.state.player)),
    {
        let c = self.state.last_move.unwrap() as int;
        let q = other_spec(self.state.player);
        let y = first_of(self.field, c, q, 0);
        lemma_first_of(self.field, c, q, 0);
        if line_len(self.field, c, y, 1, 0, q) >= WIN_LEN {
            lemma_line_is_win(self.field, c, y, 1, 0, q);
        } else if line_len(self.field, c, y, 0, 1, q) >= WIN_LEN {
            lemma_line_is_win(self.field, c, y, 0, 1, q);
        } else if line_len(self.field, c, y, 1, 1, q) >= WIN_LEN {
            lemma_line_is_win(self.field, c, y, 1, 1, q);
        } else {
            lemma_line_is_win(self.field, c, y, -1, 1, q);
        }
    }

    /// Ends the current turn, dropping a chip into column `col`, or passing
    /// when `col` is `None`.
    ///
    /// Errors:
    ///
    /// - `GameOver` when the game is resolved
    /// - `IndexOutOfBounds` if `col` is outside of `0..FIELD_SIZE` range
    /// - `ColumnFilled` when there no space left in the column
    pub fn end_turn(&mut self, col: Option<usize>) -> (r: Result<(), EndTurnError>)
        requires
            old(self).wf(),
        ensures
            final(self).wf(),
            match end_turn_error(*old(self), col) {
                Some(e) => r == Err::<(), EndTurnError>(e) && *final(self) == *old(self),
                None => r is Ok && turn_ended(*old(self), *final(self), col),
            },
    {
        if self.state.result.is_some() {
            return Err(EndTurnError::GameOver);
        }
        let col = match col {
            Some(c) => c,
            None => {
                let result = self.get_result(None);
                self.state.result = result;
                self.state.next_turn(None);
                return Ok(());
            },
        };
        if col >= FIELD_SIZE {
            return Err(EndTurnError::IndexOutOfBounds);
        }
        let i = match self.free_row(col) {
            Some(i) => i,
            None => {
                return Err(EndTurnError::ColumnFilled);
            },
        };
        let player = self.state.player;
        self.drop_chip(col, i, player);
        let result = self.get_result(Some((col, i)));
        self.state.result = result;
        self.state.next_turn(Some(col));
        Ok(())
    }

    /// The row a chip dropped into column `col` lands on, if any is free.
    fn free_row(&self, col: usize) -> (r: Option<usize>)
        requires
            col < FIELD_SIZE,
        ensures
            r matches Some(i) ==> i < FIELD_SIZE && i == lowest_empty(self.field, col as int, 6),
            r is None <==> lowest_empty(self.field, col as int, 6) < 0,
    {
        proof {
            lemma_lowest_empty(self.field, col as int, 6);
        }
        let mut i: usize = FIELD_SIZE;
        while i > 0
            invariant
                col < FIELD_SIZE,
                i <= FIELD_SIZE,
                lowest_empty(self.field, col as int, 6) == lowest_empty(self.field, col as int, i - 1),
            decreases i,
        {
            i = i - 1;
            if self.field[col][i].is_none() {
                return Some(i);
            }
        }
        None
    }

    /// Puts a chip of `player` on the free cell `(col, i)` resting on the
    /// column's chips.
    fn drop_chip(&mut self, col: usize, i: usize, player: Player)
        requires
            old(self).wf(),
            col < FIELD_SIZE,
            i < FIELD_SIZE,
            i == lowest_empty(old(self).field, col as int, 6),
        ensures
            dropped(old(self).field, final(self).field, col as int, i as int, player),
            gravity(final(self).field),
            grid_count(final(self).field, 7) == grid_count(old(self).field, 7) + 1,
            grid_count(final(self).field, 7) <= 49,
            final(self).state == old(self).state,
            final(self).rules == old(self).rules,
    {
        let ghost f0 = self.field;
        proof {
            lemma_lowest_empty(f0, col as int, 6);
        }
        let mut column = self.field[col];
        column[i] = Some(player);
        self.field[col] = column;
        proof {
            assert(dropped(f0, self.field, col as int, i as int, player)) by {
                assert forall|x: int, y: int| 0 <= x < 7 && 0 <= y < 7 implies #[trigger] self.field[x][y] == if x == col && y == i {
                    Some(player)
                } else {
                    f0[x][y]
                } by {
                    if x != col {
                        assert(self.field[x] == f0[x]);
                    }
                }
            }
            lemma_grid_count_drop(f0, self.field, col as int, i as int, player, 7);
            lemma_grid_count_bound(self.field, 7);
            assert forall|x: int, y: int| 0 <= x < 7 && 0 <= y < 6 && (#[trigger] self.field[x][y]) is Some implies self.field[x][y + 1] is Some by {
                assert(self.field[x][y] == if x == col && y == i { Some(player) } else { f0[x][y] });
                assert(self.field[x][y + 1] == if x == col && y + 1 == i { Some(player) } else { f0[x][y + 1] });
                if x == col && y == i {
                    assert(f0[x][y + 1] is Some);
                } else if x == col && y + 1 == i {
                    assert(f0[x][y] is None);
                } else {
                    assert(f0[x][y] is Some);
                }
            }
        }
    }

    pub fn field(&self) -> (r: &GameField)
        ensures
            *r == self.field,
    {
        &self.field
    }

    pub fn rules(&self) -> (r: &GameRules)
        ensures
            *r == self.rules,
    {
        &self.rules
    }

    pub fn state(&self) -> (r: &GameState)
        ensures
            *r == self.state,
    {
        &self.state
    }
}

proof fn lemma_col_count_zero(f: GameField, c: int, n: int)
    requires
        0 <= n <= 7,
        forall|y: int| 0 <= y < 7 ==> (#[trigger] f[c][y]) is None,
    ensures
        col_count(f, c, n) == 0,
    decreases n,
{
    if n > 0 {
        lemma_col_count_zero(f, c, n - 1);
    }
}

proof fn lemma_grid_count_zero(f: GameField, n: int)
    requires
        0 <= n <= 7,
        forall|x: int| 0 <= x < 7 ==> col_count(f, x, 7) == 0,
    ensures
        grid_count(f, n) == 0,
    decreases n,
{
    if n > 0 {
        lemma_grid_count_zero(f, n - 1);
    }
}

impl GameState {
    fn new(starting_player: Player) -> (s: GameState)
        ensures
            s.player == starting_player,
            s.turn == 0,
            s.moves == 0,
            s.result is None,
            s.last_move is None,
    {
        GameState { player: starting_player, turn: 0, moves: 0, result: None, last_move: None }
    }

    fn next_turn(&mut self, col: Option<usize>)
        requires
            col is Some ==> old(self).moves < u32::MAX,
        ensures
            final(self).turn == wrapping_inc(old(self).turn),
            final(self).moves == old(self).moves + if col is Some { 1int } else { 0int },
            final(self).player == other_spec(old(self).player),
            final(self).last_move == col,
            final(self).result == old(self).result,
    {
        self.turn = self.turn.wrapping_add(1);
        if col.is_some() {
            self.moves = self.moves + 1;
        }
        self.player = self.player.other();
        self.last_move = col;
    }
}

impl GameRules {
    pub fn default() -> (r: GameRules)
        ensures
            r.starting_player == Player::P1,
            !r.allow_draws,
    {
        GameRules { starting_player: Player::P1, allow_draws: false }
    }
}

impl Game {
    pub fn default() -> (g: Game)
        ensures
            g.wf(),
            g.rules == (GameRules { starting_player: Player::P1, allow_draws: false }),
            g.state.player == Player::P1,
            g.state.turn == 0,
            g.state.moves == 0,
            (g.state.result is None),
    {
        Game::new(GameRules::default())
    }
}

pub open spec fn winner_for(p: Player) -> GameWinner {
    match p {
        Player::P1 => GameWinner::P1,
        Player::P2 => GameWinner::P2,
    }
}

impl GameWinner {
    pub fn from(player: Player) -> (r: GameWinner)
        ensures
            r == winner_for(player),
    {
        match player {
            Player::P1 => GameWinner::P1,
            Player::P2 => GameWinner::P2,
        }
    }
}

// ---------------------------------------------------------------------------
// Laws

/// Number of turns among `cols` that dropped a chip.
pub open spec fn drop_count(cols: Seq<Option<usize>>) -> int
    decreases cols.len(),
{
    if cols.len() == 0 {
        0
    } else {
        drop_count(cols.drop_last()) + if cols.last() is Some { 1int } else { 0int }
    }
}

/// Over any sequence of successful turns from a fresh game, the chip count
/// equals the number of turns that were not passes and never exceeds 49.
pub proof fn law_move_count(games: Seq<Game>, cols: Seq<Option<usize>>)
    requires
        games.len() == cols.len() + 1,
        games[0].state.moves == 0,
        forall|i: int| 0 <= i < games.len() ==> (#[trigger] games[i]).wf(),
        forall|i: int|
            0 <= i < cols.len() ==> end_turn_error(games[i], #[trigger] cols[i]) is None && turn_ended(
                games[i],
                games[i + 1],
                cols[i],
            ),
    ensures
        games.last().state.moves == drop_count(cols),
        games.last().state.moves <= 49,
    decreases cols.len(),
{
    if cols.len() > 0 {
        let n = cols.len() - 1;
        assert(end_turn_error(games[n], cols[n]) is None && turn_ended(games[n], games[n + 1], cols[n]));
        law_move_count(games.drop_last(), cols.drop_last());
        assert(games.drop_last().last() == games[n]);
    }
    lemma_grid_count_bound(games.last().field, 7);
}

/// A chip of `p` at `(x, y)` passes the incremental check exactly when it is
/// one of four of `p`'s chips in a row along an axis; so three or fewer in a
/// row never count as a win.
pub proof fn law_incremental_check(f: GameField, x: int, y: int, p: Player)
    requires
        owns(f, x, y, p),
    ensures
        winning_at(f, x, y, p) <==> exists|sx: int, sy: int, dx: int, dy: int, t: int|
            is_axis(dx, dy) && 0 <= t < 4 && #[trigger] four_from(f, sx, sy, dx, dy, p) && #[trigger] step(sx, dx, t)
                == x && step(sy, dy, t) == y,
{
    if winning_at(f, x, y, p) {
        let (dx, dy) = if line_len(f, x, y, 1, 0, p) >= WIN_LEN {
            (1int, 0int)
        } else if line_len(f, x, y, 0, 1, p) >= WIN_LEN {
            (0int, 1int)
        } else if line_len(f, x, y, 1, 1, p) >= WIN_LEN {
            (1int, 1int)
        } else {
            (-1int, 1int)
        };
        let a = ray(f, x, y, -dx, -dy, p, 6) as int;
        let s = if a < 3 { a } else { 3 };
        let sx = step(x, -dx, s);
        let sy = step(y, -dy, s);
        lemma_line_cell(f, x, y, dx, dy, p, s, 0);
        lemma_line_cell(f, x, y, dx, dy, p, s, 1);
        lemma_line_cell(f, x, y, dx, dy, p, s, 2);
        lemma_line_cell(f, x, y, dx, dy, p, s, 3);
        assert(four_from(f, sx, sy, dx, dy, p));
        assert(step(sx, dx, s) == x && step(sy, dy, s) == y);
    }
    if exists|sx: int, sy: int, dx: int, dy: int, t: int|
        is_axis(dx, dy) && 0 <= t < 4 && #[trigger] four_from(f, sx, sy, dx, dy, p) && #[trigger] step(sx, dx, t) == x
            && step(sy, dy, t) == y {
        let (sx, sy, dx, dy, t) = choose|sx: int, sy: int, dx: int, dy: int, t: int|
            is_axis(dx, dy) && 0 <= t < 4 && #[trigger] four_from(f, sx, sy, dx, dy, p) && #[trigger] step(sx, dx, t)
                == x && step(sy, dy, t) == y;
        lemma_four_is_winning_at(f, sx, sy, dx, dy, p, t);
    }
}

/// With draws disallowed, a move that completes four in a row for the mover
/// while the opponent already has four in a row ends the game in a draw.
pub proof fn law_double_win_is_draw(g: Game, g2: Game, c: usize)
    requires
        g.wf(),
        !g.rules.allow_draws,
        end_turn_error(g, Some(c)) is None,
        turn_ended(g, g2, Some(c)),
        winning_at(g2.field, c as int, lowest_empty(g.field, c as int, 6), g.state.player),
        has_win(g2.field, other_spec(g.state.player)),
    ensures
        g2.state.result matches Some(r) && r.winner == GameWinner::Draw,
{
    let row = lowest_empty(g.field, c as int, 6);
    lemma_lowest_empty(g.field, c as int, 6);
    assert(g2.field[c as int][row] == Some(g.state.player));
    let p = g.state.player;
    if line_len(g2.field, c as int, row, 1, 0, p) >= WIN_LEN {
        lemma_line_is_win(g2.field, c as int, row, 1, 0, p);
    } else if line_len(g2.field, c as int, row, 0, 1, p) >= WIN_LEN {
        lemma_line_is_win(g2.field, c as int, row, 0, 1, p);
    } else if line_len(g2.field, c as int, row, 1, 1, p) >= WIN_LEN {
        lemma_line_is_win(g2.field, c as int, row, 1, 1, p);
    } else {
        lemma_line_is_win(g2.field, c as int, row, -1, 1, p);
    }
    assert(has_win(g2.field, Player::P1) && has_win(g2.field, Player::P2));
}

impl Game {
    /// Whether the board is consistent; a board from elsewhere (a client
    /// resuming a game) may not be.
    pub fn is_valid(&self) -> (r: bool)
        ensures
            r == self.wf(),
    {
        if let Some(c) = self.state.last_move {
            if c >= FIELD_SIZE {
                return false;
            }
        }
        let mut x: usize = 0;
        let mut total: u32 = 0;
        while x < FIELD_SIZE
            invariant
                x <= FIELD_SIZE,
                total == grid_count(self.field, x as int),
                total <= 7 * x,
                forall|i: int, y: int| 0 <= i < x && 0 <= y < 6 && (#[trigger] self.field[i][y]) is Some ==> self.field[i][y + 1] is Some,
            decreases FIELD_SIZE - x,
        {
            let mut y: usize = 0;
            let mut count: u32 = 0;
            while y < FIELD_SIZE
                invariant
                    x < FIELD_SIZE,
                    y <= FIELD_SIZE,
                    count == col_count(self.field, x as int, y as int),
                    count <= y,
                    forall|z: int| 0 <= z < y && z < 6 && (#[trigger] self.field[x as int][z]) is Some ==> self.field[x as int][z + 1] is Some,
                decreases FIELD_SIZE - y,
            {
                if self.field[x][y].is_some() {
                    if y + 1 < FIELD_SIZE && self.field[x][y + 1].is_none() {
                        return false;
                    }
                    count = count + 1;
                }
                y = y + 1;
            }
            total = total + count;
            x = x + 1;
        }
        total == self.state.moves
    }
}

} // verus!
