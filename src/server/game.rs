//! The game session: player selection, turns with per-turn time limits and
//! banked extra time, and the negotiation of restarts.

use vstd::prelude::*;

use crate::game::{end_turn_error, other_spec, turn_ended, wrapping_inc, Game as InternalGame, GameRules, Player};
use crate::game_config::{applied, GameConfig, PartialGameConfig};

verus! {

/// Turns given less time than this are untimed (milliseconds).
pub const TIME_PER_TURN_MIN: u64 = 1000;

/// The armed timer of the current turn.
#[derive(Clone, Copy, PartialEq, Eq, Structural, Debug)]
pub struct TurnTimeout {
    /// Identifies the timer, so that a late firing can be told apart.
    pub timer: u64,
    /// When the turn ends by itself (milliseconds).
    pub deadline: u64,
}

/// Restart request with optional changes to the config.
#[derive(Clone, Copy, PartialEq, Eq, Structural, Debug)]
pub struct RestartRequest {
    /// Changed config.
    pub config: Option<GameConfig>,
    /// Identifies the expiry timer.
    pub timer: u64,
    /// When the request expires (milliseconds).
    pub expires_at: u64,
}

#[derive(Clone, Copy, PartialEq, Eq, Structural, Debug)]
pub struct PlayerSelectionStage {
    pub p1_vote: Option<bool>,
    pub p2_vote: Option<bool>,
}

#[derive(Debug)]
pub struct InGameStage {
    pub game: InternalGame,
    /// Banked extra time of each player (milliseconds).
    pub extra_time: [u64; 2],
    pub timeout: Option<TurnTimeout>,
}

#[derive(Debug)]
pub enum GameStage {
    PlayerSelection(PlayerSelectionStage),
    InGame(InGameStage),
}

/// What the runtime of a session has to do after an event.
#[derive(Clone, Copy, PartialEq, Eq, Structural, Debug)]
pub enum Effect {
    /// Send both players the stage: the votes, or the board with the deadline.
    Sync,
    /// Send both players the state of this player's restart request.
    SyncRestartRequest(Player),
    /// Send both players the configuration.
    SyncConfig,
    /// Fire `turn_timed_out(timer)` after `after` milliseconds.
    StartTurnTimer { timer: u64, after: u64 },
    /// Fire `restart_request_expired(player, timer)` after `after` milliseconds.
    StartRequestTimer { player: Player, timer: u64, after: u64 },
    /// The timer will not be needed any more.
    CancelTimer(u64),
}

/// The state of one match between two connections.
#[derive(Debug)]
pub struct Game {
    pub stage: GameStage,
    pub round: u32,
    pub config: GameConfig,
    /// Connection keys of the players, `P1` first.
    pub seats: [u64; 2],
    pub restart_requests: [Option<RestartRequest>; 2],
    /// How long a restart request waits for an answer (milliseconds).
    pub restart_request_timeout: u64,
    /// Identifier of the next timer.
    pub next_timer: u64,
}

pub open spec fn seat(p: Player) -> int {
    match p {
        Player::P1 => 0,
        Player::P2 => 1,
    }
}

fn seat_index(p: Player) -> (i: usize)
    ensures
        i == seat(p),
{
    match p {
        Player::P1 => 0,
        Player::P2 => 1,
    }
}

/// Time left before the deadline of `t`, or zero.
pub open spec fn time_left(t: Option<TurnTimeout>, now: u64) -> u64 {
    match t {
        None => 0,
        Some(t) => if t.deadline > now {
            (t.deadline - now) as u64
        } else {
            0
        },
    }
}

/// Length of a turn with `extra` banked: the base time plus the bank, at
/// most the cap; zero when untimed.
pub open spec fn turn_duration(extra: u64, c: GameConfig) -> u64 {
    if c.time_per_turn < TIME_PER_TURN_MIN {
        0
    } else if extra + c.time_per_turn < c.time_cap {
        (extra + c.time_per_turn) as u64
    } else {
        c.time_cap
    }
}

/// Who starts: the one who asked to when the other did not, else the coin.
pub open spec fn starter(p1_vote: bool, p2_vote: bool, coin: bool) -> Player {
    if p1_vote && !p2_vote {
        Player::P1
    } else if p2_vote && !p1_vote {
        Player::P2
    } else if coin {
        Player::P1
    } else {
        Player::P2
    }
}

impl InGameStage {
    pub fn starting_player(p1_vote: bool, p2_vote: bool, coin: bool) -> (r: Player)
        ensures
            r == starter(p1_vote, p2_vote, coin),
    {
        if p1_vote && !p2_vote {
            Player::P1
        } else if p2_vote && !p1_vote {
            Player::P2
        } else if coin {
            Player::P1
        } else {
            Player::P2
        }
    }

    pub fn new(p1_vote: bool, p2_vote: bool, rules: &GameConfig, coin: bool) -> (s: InGameStage)
        ensures
            s.game.wf(),
            s.game.rules == (GameRules { starting_player: starter(p1_vote, p2_vote, coin), allow_draws: rules.allow_draws }),
            s.game.state.player == starter(p1_vote, p2_vote, coin),
            s.game.state.turn == 0,
            s.game.state.moves == 0,
            s.game.state.result is None,
            s.extra_time == [0u64, 0u64],
            (s.timeout is None),
    {
        let starting_player = InGameStage::starting_player(p1_vote, p2_vote, coin);
        let rules = GameRules { starting_player, allow_draws: rules.allow_draws };
        InGameStage { game: InternalGame::new(rules), extra_time: [0, 0], timeout: None }
    }
}

impl Game {
    /// The stage is consistent: its board is, and a turn timer runs only
    /// while the round goes on.
    pub open spec fn wf(&self) -> bool {
        &&& self.seats[0] != self.seats[1]
        &&& match self.stage {
            GameStage::PlayerSelection(_) => true,
            GameStage::InGame(s) => s.game.wf() && (s.timeout is Some ==> s.game.state.result is None),
        }
    }

    /// The round is over.
    pub open spec fn over(&self) -> bool {
        match self.stage {
            GameStage::PlayerSelection(_) => false,
            GameStage::InGame(s) => s.game.state.result is Some,
        }
    }

    pub open spec fn seat_of(&self, key: u64) -> Option<Player> {
        if self.seats[0] == key {
            Some(Player::P1)
        } else if self.seats[1] == key {
            Some(Player::P2)
        } else {
            None
        }
    }

    pub fn new(
        game: Option<InternalGame>,
        config: GameConfig,
        round: u32,
        extra_time: Option<[u64; 2]>,
        p1: u64,
        p2: u64,
        restart_request_timeout: u64,
    ) -> (s: Game)
        requires
            game matches Some(g) ==> g.wf(),
            p1 != p2,
        ensures
            s.wf(),
            s.round == round,
            s.config == config,
            s.seats == [p1, p2],
            s.restart_requests == [None::<RestartRequest>, None],
            s.restart_request_timeout == restart_request_timeout,
            s.next_timer == 0,
            match game {
                None => s.stage == GameStage::PlayerSelection(PlayerSelectionStage { p1_vote: None, p2_vote: None }),
                Some(g) => s.stage matches GameStage::InGame(st) && st.game == g && st.timeout is None
                    && st.extra_time == match extra_time {
                    None => [0u64, 0u64],
                    Some(e) => e,
                },
            },
    {
        let stage = match game {
            Some(game) => {
                let extra = match extra_time {
                    Some(e) => e,
                    None => [0, 0],
                };
                GameStage::InGame(InGameStage { game, extra_time: extra, timeout: None })
            },
            None => GameStage::PlayerSelection(PlayerSelectionStage { p1_vote: None, p2_vote: None }),
        };
        Game {
            stage,
            round,
            config,
            seats: [p1, p2],
            restart_requests: [None, None],
            restart_request_timeout,
            next_timer: 0,
        }
    }

    /// Returns which player the key belongs to, or None if it belongs to
    /// neither player in this instance.
    pub fn get_player(&self, key: u64) -> (r: Option<Player>)
        ensures
            r == self.seat_of(key),
    {
        if self.seats[0] == key {
            Some(Player::P1)
        } else if self.seats[1] == key {
            Some(Player::P2)
        } else {
            None
        }
    }

    fn fresh_timer(&mut self) -> (t: u64)
        ensures
            t == old(self).next_timer,
            final(self).next_timer == old(self).next_timer.wrapping_add(1),
            final(self).stage == old(self).stage,
            final(self).round == old(self).round,
            final(self).config == old(self).config,
            final(self).seats == old(self).seats,
            final(self).restart_requests == old(self).restart_requests,
            final(self).restart_request_timeout == old(self).restart_request_timeout,
    {
        let t = self.next_timer;
        self.next_timer = self.next_timer.wrapping_add(1);
        t
    }
}

/// Returns the amount of time the current turn should take, or `0` if the
/// timer is disabled.
pub fn get_timeout_duration(extra_time: u64, config: &GameConfig) -> (d: u64)
    ensures
        d == turn_duration(extra_time, *config),
{
    if config.time_per_turn < TIME_PER_TURN_MIN {
        return 0;
    }
    let total = extra_time.saturating_add(config.time_per_turn);
    if total < config.time_cap {
        total
    } else {
        config.time_cap
    }
}

/// The stage of a round in play.
pub open spec fn playing(stage: GameStage) -> InGameStage {
    match stage {
        GameStage::InGame(st) => st,
        _ => arbitrary(),
    }
}

/// `now + d`, or the largest time when that overflows.
pub open spec fn later(now: u64, d: u64) -> u64 {
    if now + d > u64::MAX {
        u64::MAX
    } else {
        (now + d) as u64
    }
}

/// The cancellation of timer `t`, if one runs.
pub open spec fn cancel_of(t: Option<TurnTimeout>) -> Seq<Effect> {
    match t {
        None => seq![],
        Some(t) => seq![Effect::CancelTimer(t.timer)],
    }
}

/// `s2` and `effects` are what a successful turn `col` at `now` makes of
/// `s`: the turn timer stops and, after the first turn, what was left of it
/// is banked for the mover; the next player's timer starts with the bank
/// when the round goes on and turns are timed; both players are synced.
pub open spec fn turn_played(s: Game, col: Option<usize>, now: u64, s2: Game, effects: Seq<Effect>) -> bool {
    match (s.stage, s2.stage) {
        (GameStage::InGame(st), GameStage::InGame(st2)) => {
            let mover = st.game.state.player;
            let next = other_spec(mover);
            let dur = turn_duration(st2.extra_time[seat(next)], s.config);
            let armed = st2.game.state.result is None && dur >= TIME_PER_TURN_MIN;
            &&& turn_ended(st.game, st2.game, col)
            &&& st2.extra_time[seat(mover)] == if st.game.state.turn != 0 {
                time_left(st.timeout, now)
            } else {
                st.extra_time[seat(mover)]
            }
            &&& st2.extra_time[seat(next)] == st.extra_time[seat(next)]
            &&& st2.timeout == if armed {
                Some(TurnTimeout { timer: s.next_timer, deadline: later(now, dur) })
            } else {
                None
            }
            &&& s2.next_timer == if armed {
                s.next_timer.wrapping_add(1)
            } else {
                s.next_timer
            }
            &&& effects == cancel_of(st.timeout) + (if armed {
                seq![Effect::StartTurnTimer { timer: s.next_timer, after: dur }]
            } else {
                seq![]
            }) + seq![Effect::Sync]
            &&& s2.round == s.round
            &&& s2.config == s.config
            &&& s2.seats == s.seats
            &&& s2.restart_requests == s.restart_requests
            &&& s2.restart_request_timeout == s.restart_request_timeout
        },
        _ => false,
    }
}

/// The turn `turn` of the player seated at `key` may be played with `col`.
pub open spec fn turn_accepted(s: Game, key: u64, turn: u32, col: Option<usize>) -> bool {
    match s.stage {
        GameStage::InGame(st) => {
            &&& s.seats[seat(st.game.state.player)] == key
            &&& st.game.state.turn == turn
            &&& end_turn_error(st.game, col) is None
        },
        _ => false,
    }
}

/// Stops the turn timer, returning how much time remained until it would
/// fire.
fn clear_timeout(timeout: &mut Option<TurnTimeout>, now: u64, effects: &mut Vec<Effect>) -> (left: u64)
    ensures
        left == time_left(*old(timeout), now),
        final(timeout).is_none(),
        final(effects)@ == old(effects)@ + cancel_of(*old(timeout)),
{
    match timeout.take() {
        None => 0,
        Some(t) => {
            effects.push(Effect::CancelTimer(t.timer));
            if t.deadline > now {
                t.deadline - now
            } else {
                0
            }
        },
    }
}

impl Game {
    /// Ends the turn `turn` of the player at `key` with `col` (`None`: a
    /// pass). Requests out of turn, stale or illegal are dropped.
    pub fn end_turn(&mut self, key: u64, turn: u32, col: Option<usize>, now: u64) -> (effects: Vec<Effect>)
        requires
            old(self).wf(),
        ensures
            final(self).wf(),
            turn_accepted(*old(self), key, turn, col) ==> turn_played(*old(self), col, now, *final(self), effects@),
            !turn_accepted(*old(self), key, turn, col) ==> *final(self) == *old(self) && effects@ == Seq::<Effect>::empty(),
    {
        let (player, cur_turn) = match &self.stage {
            GameStage::InGame(st) => (st.game.state.player, st.game.state.turn),
            GameStage::PlayerSelection(_) => {
                return Vec::new();
            },
        };
        if key != self.seats[seat_index(player)] || turn != cur_turn {
            return Vec::new();
        }
        let next_timer = self.next_timer;
        let config = self.config;
        let mut effects: Vec<Effect> = Vec::new();
        let mut armed = false;
        match &mut self.stage {
            GameStage::InGame(st) => {
                if st.game.end_turn(col).is_err() {
                    return Vec::new();
                }
                let remaining = clear_timeout(&mut st.timeout, now, &mut effects);
                if cur_turn != 0 {
                    st.extra_time[seat_index(player)] = remaining;
                }
                if st.game.state.result.is_none() {
                    let next = st.game.state.player;
                    let duration = get_timeout_duration(st.extra_time[seat_index(next)], &config);
                    if duration >= TIME_PER_TURN_MIN {
                        st.timeout = Some(TurnTimeout { timer: next_timer, deadline: now.saturating_add(duration) });
                        effects.push(Effect::StartTurnTimer { timer: next_timer, after: duration });
                        armed = true;
                    }
                }
            },
            GameStage::PlayerSelection(_) => {
                return Vec::new();
            },
        }
        if armed {
            self.next_timer = next_timer.wrapping_add(1);
        }
        effects.push(Effect::Sync);
        proof {
            let st0 = playing(old(self).stage);
            let st2 = playing(self.stage);
            let mover = st0.game.state.player;
            let next = other_spec(mover);
            let dur = turn_duration(st2.extra_time[seat(next)], config);
            let arm = st2.game.state.result is None && dur >= TIME_PER_TURN_MIN;
            assert(armed == arm);
            assert(turn_ended(st0.game, st2.game, col));
            assert(st2.extra_time[seat(next)] == st0.extra_time[seat(next)]);
            assert(effects@ =~= cancel_of(st0.timeout) + (if arm {
                seq![Effect::StartTurnTimer { timer: next_timer, after: dur }]
            } else {
                seq![]
            }) + seq![Effect::Sync]);
        }
        effects
    }

    /// The turn timer `timer` fired at `now`: the current player passes, as
    /// if they had asked to. A timer that is no longer armed is ignored.
    pub fn turn_timed_out(&mut self, timer: u64, now: u64) -> (effects: Vec<Effect>)
        requires
            old(self).wf(),
        ensures
            final(self).wf(),
            match old(self).stage {
                GameStage::InGame(st) => if st.timeout matches Some(t) && t.timer == timer {
                    turn_played(*old(self), None, now, *final(self), effects@)
                } else {
                    *final(self) == *old(self) && effects@ == Seq::<Effect>::empty()
                },
                GameStage::PlayerSelection(_) => *final(self) == *old(self) && effects@ == Seq::<Effect>::empty(),
            },
    {
        let (key, turn) = match &self.stage {
            GameStage::InGame(st) => match st.timeout {
                Some(t) => {
                    if t.timer != timer {
                        return Vec::new();
                    }
                    (self.seats[seat_index(st.game.state.player)], st.game.state.turn)
                },
                None => {
                    return Vec::new();
                },
            },
            GameStage::PlayerSelection(_) => {
                return Vec::new();
            },
        };
        self.end_turn(key, turn, None, now)
    }
}

/// The request is satisfied by a plain restart under `c`.
pub open spec fn dismissable(r: Option<RestartRequest>, c: GameConfig) -> bool {
    r matches Some(q) && (q.config is None || q.config == Some(c))
}

/// The request, unless a restart under `c` satisfies it.
pub open spec fn kept(r: Option<RestartRequest>, c: GameConfig) -> Option<RestartRequest> {
    if dismissable(r, c) {
        None
    } else {
        r
    }
}

/// The notices of dismissing `p`'s request `r` on a restart under `c`.
pub open spec fn dismissed(r: Option<RestartRequest>, p: Player, c: GameConfig) -> Seq<Effect> {
    if dismissable(r, c) {
        seq![Effect::CancelTimer(r.unwrap().timer), Effect::SyncRestartRequest(p)]
    } else {
        seq![]
    }
}

/// The cancellation of the turn timer of a stage.
pub open spec fn stage_cancel(stage: GameStage) -> Seq<Effect> {
    match stage {
        GameStage::InGame(st) => cancel_of(st.timeout),
        GameStage::PlayerSelection(_) => seq![],
    }
}

/// `reqs` with `p`'s request removed.
pub open spec fn cleared(reqs: [Option<RestartRequest>; 2], p: Player) -> [Option<RestartRequest>; 2] {
    match p {
        Player::P1 => [None, reqs[1]],
        Player::P2 => [reqs[0], None],
    }
}

/// `s2` is a new round after `s`, under config `c` and with the restart
/// requests `reqs` before dismissal; `effects` are its notices.
pub open spec fn reset_done(
    s: Game,
    c: GameConfig,
    reqs: [Option<RestartRequest>; 2],
    s2: Game,
    effects: Seq<Effect>,
) -> bool {
    &&& s2.stage == GameStage::PlayerSelection(PlayerSelectionStage { p1_vote: None, p2_vote: None })
    &&& s2.round == s.round.wrapping_add(1)
    &&& s2.config == c
    &&& s2.seats == s.seats
    &&& s2.restart_request_timeout == s.restart_request_timeout
    &&& s2.next_timer == s.next_timer
    &&& s2.restart_requests == [kept(reqs[0], c), kept(reqs[1], c)]
    &&& effects == stage_cancel(s.stage) + dismissed(reqs[0], Player::P1, c) + dismissed(
        reqs[1],
        Player::P2,
        c,
    ) + seq![Effect::Sync]
}

/// The config a restart request with `partial` asks for, or `None` when it
/// would change nothing.
pub open spec fn restart_target(c: GameConfig, partial: Option<PartialGameConfig>) -> Option<GameConfig> {
    match partial {
        None => None,
        Some(p) => if applied(c, p) == c {
            None
        } else {
            Some(applied(c, p))
        },
    }
}

/// No restart request waits.
pub open spec fn no_requests() -> [Option<RestartRequest>; 2] {
    [None, None]
}

/// The notices of withdrawing `p`'s request `r`, if any.
pub open spec fn dropped_request(r: Option<RestartRequest>, p: Player) -> Seq<Effect> {
    match r {
        Some(q) => seq![Effect::CancelTimer(q.timer), Effect::SyncRestartRequest(p)],
        None => seq![],
    }
}

/// The config a restart moves to: the requested one, if any.
pub open spec fn config_after(target: Option<GameConfig>, c: GameConfig) -> GameConfig {
    match target {
        Some(t) => t,
        None => c,
    }
}

/// `s2` and `effects` are what a restart request by `who` for `target`
/// at `now` makes of `s`:
/// - once the round is over, the round restarts at once, under `target`;
/// - a plain request while the opponent's plain request waits restarts too,
///   withdrawing any request of `who`'s own;
/// - the same request again changes nothing;
/// - otherwise `who`'s request replaces any earlier one and waits.
pub open spec fn restart_post(s: Game, who: Player, target: Option<GameConfig>, now: u64, s2: Game, effects: Seq<Effect>) -> bool {
    let opp = other_spec(who);
    let own = s.restart_requests[seat(who)];
    let theirs = s.restart_requests[seat(opp)];
    if s.over() {
        let c = config_after(target, s.config);
        let notice = if target is Some {
            seq![Effect::SyncConfig]
        } else {
            seq![]
        };
        exists|rest: Seq<Effect>| effects == notice + rest && #[trigger] reset_done(s, c, s.restart_requests, s2, rest)
    } else if target is None && (theirs matches Some(r) && r.config is None) {
        exists|rest: Seq<Effect>|
            effects == seq![Effect::CancelTimer(theirs.unwrap().timer), Effect::SyncRestartRequest(opp)]
                + dropped_request(own, who) + rest && #[trigger] reset_done(
                s,
                s.config,
                no_requests(),
                s2,
                rest,
            )
    } else if (own matches Some(r) && r.config == target) {
        s2 == s && effects == Seq::<Effect>::empty()
    } else {
        &&& s2.restart_requests[seat(who)] == Some(
            RestartRequest { timer: s.next_timer, config: target, expires_at: later(now, s.restart_request_timeout) },
        )
        &&& s2.restart_requests[seat(opp)] == theirs
        &&& s2.next_timer == s.next_timer.wrapping_add(1)
        &&& s2.stage == s.stage
        &&& s2.round == s.round
        &&& s2.config == s.config
        &&& s2.seats == s.seats
        &&& s2.restart_request_timeout == s.restart_request_timeout
        &&& effects == (match own {
            Some(r) => seq![Effect::CancelTimer(r.timer)],
            None => seq![],
        }) + seq![
            Effect::StartRequestTimer { player: who, timer: s.next_timer, after: s.restart_request_timeout },
            Effect::SyncRestartRequest(who),
        ]
    }
}

fn same_target(a: Option<GameConfig>, b: Option<GameConfig>) -> (r: bool)
    ensures
        r == (a == b),
{
    match (a, b) {
        (None, None) => true,
        (Some(x), Some(y)) => x == y,
        _ => false,
    }
}

impl Game {
    /// The round is over.
    fn is_game_over(&self) -> (r: bool)
        ensures
            r == self.over(),
    {
        match &self.stage {
            GameStage::InGame(st) => st.game.state.result.is_some(),
            GameStage::PlayerSelection(_) => false,
        }
    }

    /// Starts a new round: stops the turn timer, dismisses the restart
    /// requests that the restart satisfies, and goes back to player
    /// selection.
    fn do_restart(&mut self, effects: &mut Vec<Effect>)
        requires
            old(self).wf(),
        ensures
            final(self).wf(),
            exists|rest: Seq<Effect>|
                final(effects)@ == old(effects)@ + rest && reset_done(
                    *old(self),
                    old(self).config,
                    old(self).restart_requests,
                    *final(self),
                    rest,
                ),
    {
        let ghost e0 = effects@;
        match &mut self.stage {
            GameStage::InGame(st) => {
                clear_timeout(&mut st.timeout, 0, effects);
            },
            GameStage::PlayerSelection(_) => {},
        }
        let ghost e1 = effects@;
        self.dismiss_duplicate_restart_requests(effects);
        self.stage = GameStage::PlayerSelection(PlayerSelectionStage { p1_vote: None, p2_vote: None });
        self.round = self.round.wrapping_add(1);
        effects.push(Effect::Sync);
        proof {
            let rest = effects@.subrange(e0.len() as int, effects@.len() as int);
            assert(effects@ =~= e0 + rest);
            assert(rest =~= stage_cancel(old(self).stage) + dismissed(old(self).restart_requests[0], Player::P1, old(self).config) + dismissed(
                old(self).restart_requests[1],
                Player::P2,
                old(self).config,
            ) + seq![Effect::Sync]);
        }
    }

    /// Dismisses restart requests that a plain restart satisfies.
    fn dismiss_duplicate_restart_requests(&mut self, effects: &mut Vec<Effect>)
        ensures
            final(self).restart_requests == [kept(old(self).restart_requests[0], old(self).config), kept(old(self).restart_requests[1], old(self).config)],
            final(effects)@ == old(effects)@ + dismissed(old(self).restart_requests[0], Player::P1, old(self).config) + dismissed(
                old(self).restart_requests[1],
                Player::P2,
                old(self).config,
            ),
            final(self).stage == old(self).stage,
            final(self).round == old(self).round,
            final(self).config == old(self).config,
            final(self).seats == old(self).seats,
            final(self).restart_request_timeout == old(self).restart_request_timeout,
            final(self).next_timer == old(self).next_timer,
    {
        let ghost e0 = effects@;
        let config = self.config;
        if let Some(r) = self.restart_requests[0] {
            if r.config.is_none() || same_target(r.config, Some(config)) {
                self.restart_requests[0] = None;
                effects.push(Effect::CancelTimer(r.timer));
                effects.push(Effect::SyncRestartRequest(Player::P1));
            }
        }
        let ghost e1 = effects@;
        if let Some(r) = self.restart_requests[1] {
            if r.config.is_none() || same_target(r.config, Some(config)) {
                self.restart_requests[1] = None;
                effects.push(Effect::CancelTimer(r.timer));
                effects.push(Effect::SyncRestartRequest(Player::P2));
            }
        }
        proof {
            assert(e1 =~= e0 + dismissed(old(self).restart_requests[0], Player::P1, config));
            assert(effects@ =~= e0 + dismissed(old(self).restart_requests[0], Player::P1, config) + dismissed(
                old(self).restart_requests[1],
                Player::P2,
                config,
            ));
        }
    }
}

/// `s2` and `effects` are what `who`'s answer `accepted` to the opponent's
/// waiting request makes of `s`: an acceptance applies the request's config
/// and restarts; a rejection drops the request.
pub open spec fn response_post(s: Game, who: Player, accepted: bool, s2: Game, effects: Seq<Effect>) -> bool {
    let opp = other_spec(who);
    match s.restart_requests[seat(opp)] {
        None => s2 == s && effects == Seq::<Effect>::empty(),
        Some(r) => if accepted {
            let c = config_after(r.config, s.config);
            let head = seq![Effect::CancelTimer(r.timer)] + (if r.config is Some {
                seq![Effect::SyncConfig]
            } else {
                seq![]
            }) + seq![Effect::SyncRestartRequest(opp)];
            exists|rest: Seq<Effect>|
                effects == head + rest && #[trigger] reset_done(s, c, cleared(s.restart_requests, opp), s2, rest)
        } else {
            &&& s2.restart_requests == cleared(s.restart_requests, opp)
            &&& s2.stage == s.stage
            &&& s2.round == s.round
            &&& s2.config == s.config
            &&& s2.seats == s.seats
            &&& s2.restart_request_timeout == s.restart_request_timeout
            &&& s2.next_timer == s.next_timer
            &&& effects == seq![Effect::CancelTimer(r.timer), Effect::SyncRestartRequest(opp)]
        },
    }
}

proof fn lemma_reset_from(s: Game, mid: Game, s2: Game, e0: Seq<Effect>, effects: Seq<Effect>)
    requires
        mid.stage == s.stage,
        mid.round == s.round,
        mid.seats == s.seats,
        mid.restart_request_timeout == s.restart_request_timeout,
        mid.next_timer == s.next_timer,
        exists|rest: Seq<Effect>|
            effects == e0 + rest && reset_done(mid, mid.config, mid.restart_requests, s2, rest),
    ensures
        exists|rest: Seq<Effect>|
            effects == e0 + rest && reset_done(s, mid.config, mid.restart_requests, s2, rest),
{
    let rest = choose|rest: Seq<Effect>|
        effects == e0 + rest && reset_done(mid, mid.config, mid.restart_requests, s2, rest);
    assert(reset_done(s, mid.config, mid.restart_requests, s2, rest));
}

impl Game {
    /// Dismisses `player`'s previous request and makes a new one for `config`.
    fn update_restart_request(&mut self, config: Option<GameConfig>, player: Player, now: u64, effects: &mut Vec<Effect>)
        requires
            old(self).wf(),
        ensures
            final(self).wf(),
            final(self).restart_requests[seat(player)] == Some(
                RestartRequest { timer: old(self).next_timer, config, expires_at: later(now, old(self).restart_request_timeout) },
            ),
            final(self).restart_requests[seat(other_spec(player))] == old(self).restart_requests[seat(other_spec(player))],
            final(self).next_timer == old(self).next_timer.wrapping_add(1),
            final(self).stage == old(self).stage,
            final(self).round == old(self).round,
            final(self).config == old(self).config,
            final(self).seats == old(self).seats,
            final(self).restart_request_timeout == old(self).restart_request_timeout,
            final(effects)@ == old(effects)@ + (match old(self).restart_requests[seat(player)] {
                Some(r) => seq![Effect::CancelTimer(r.timer)],
                None => seq![],
            }) + seq![
                Effect::StartRequestTimer { player, timer: old(self).next_timer, after: old(self).restart_request_timeout },
                Effect::SyncRestartRequest(player),
            ],
    {
        let ghost e0 = effects@;
        let i = seat_index(player);
        if let Some(r) = self.restart_requests[i] {
            effects.push(Effect::CancelTimer(r.timer));
        }
        let ghost e1 = effects@;
        let timer = self.fresh_timer();
        let after = self.restart_request_timeout;
        self.restart_requests[i] = Some(RestartRequest { config, timer, expires_at: now.saturating_add(after) });
        effects.push(Effect::StartRequestTimer { player, timer, after });
        effects.push(Effect::SyncRestartRequest(player));
        proof {
            assert(effects@ =~= e1 + seq![
                Effect::StartRequestTimer { player, timer, after },
                Effect::SyncRestartRequest(player),
            ]);
        }
    }

    /// Asks for a new round, with the changes `partial` to the config.
    /// Requests from a key that holds no seat are dropped.
    pub fn restart(&mut self, key: u64, partial: Option<PartialGameConfig>, now: u64) -> (effects: Vec<Effect>)
        requires
            old(self).wf(),
        ensures
            final(self).wf(),
            match old(self).seat_of(key) {
                None => *final(self) == *old(self) && effects@ == Seq::<Effect>::empty(),
                Some(who) => restart_post(
                    *old(self),
                    who,
                    restart_target(old(self).config, partial),
                    now,
                    *final(self),
                    effects@,
                ),
            },
    {
        let who = match self.get_player(key) {
            Some(p) => p,
            None => {
                return Vec::new();
            },
        };
        let target = match partial {
            None => None,
            Some(p) => {
                let mut c = self.config;
                c.apply_partial(&p);
                if c == self.config {
                    None
                } else {
                    Some(c)
                }
            },
        };
        assert(target == restart_target(old(self).config, partial));
        let mut effects: Vec<Effect> = Vec::new();
        if self.is_game_over() {
            if let Some(c) = target {
                self.config = c;
                effects.push(Effect::SyncConfig);
            }
            let ghost e0 = effects@;
            assert(e0 =~= if target is Some {
                seq![Effect::SyncConfig]
            } else {
                seq![]
            });
            let ghost mid = *self;
            self.do_restart(&mut effects);
            proof {
                lemma_reset_from(*old(self), mid, *self, e0, effects@);
                let rest = choose|rest: Seq<Effect>|
                    effects@ == e0 + rest && reset_done(*old(self), mid.config, mid.restart_requests, *self, rest);
                assert(mid.restart_requests == old(self).restart_requests);
                assert(mid.config == match target {
                    Some(c) => c,
                    None => old(self).config,
                });
                assert(old(self).over());
                assert(reset_done(*old(self), config_after(target, old(self).config), old(self).restart_requests, *self, rest));
            }
            return effects;
        }
        let opp = who.other();
        let oi = seat_index(opp);
        if target.is_none() {
            if let Some(r) = self.restart_requests[oi] {
                if r.config.is_none() {
                    self.restart_requests[oi] = None;
                    effects.push(Effect::CancelTimer(r.timer));
                    effects.push(Effect::SyncRestartRequest(opp));
                    let wi = seat_index(who);
                    if let Some(own) = self.restart_requests[wi] {
                        self.restart_requests[wi] = None;
                        effects.push(Effect::CancelTimer(own.timer));
                        effects.push(Effect::SyncRestartRequest(who));
                    }
                    proof {
                        assert(self.restart_requests == [None::<RestartRequest>, None]);
                    }
                    let ghost e0 = effects@;
                    let ghost mid = *self;
                    self.do_restart(&mut effects);
                    proof {
                        lemma_reset_from(*old(self), mid, *self, e0, effects@);
                        assert(e0 =~= seq![Effect::CancelTimer(r.timer), Effect::SyncRestartRequest(opp)]
                            + dropped_request(old(self).restart_requests[seat(who)], who));
                        let rest = choose|rest: Seq<Effect>|
                            effects@ == e0 + rest && reset_done(*old(self), mid.config, mid.restart_requests, *self, rest);
                        assert(reset_done(*old(self), old(self).config, no_requests(), *self, rest));
                    }
                    return effects;
                }
            }
        }
        if let Some(r) = self.restart_requests[seat_index(who)] {
            if same_target(r.config, target) {
                return effects;
            }
        }
        self.update_restart_request(target, who, now, &mut effects);
        effects
    }

    /// `key`'s answer to the opponent's waiting restart request.
    pub fn restart_response(&mut self, key: u64, accepted: bool) -> (effects: Vec<Effect>)
        requires
            old(self).wf(),
        ensures
            final(self).wf(),
            match old(self).seat_of(key) {
                None => *final(self) == *old(self) && effects@ == Seq::<Effect>::empty(),
                Some(who) => response_post(*old(self), who, accepted, *final(self), effects@),
            },
    {
        let who = match self.get_player(key) {
            Some(p) => p,
            None => {
                return Vec::new();
            },
        };
        let opp = who.other();
        let oi = seat_index(opp);
        let r = match self.restart_requests[oi] {
            Some(r) => r,
            None => {
                return Vec::new();
            },
        };
        self.restart_requests[oi] = None;
        let mut effects: Vec<Effect> = Vec::new();
        effects.push(Effect::CancelTimer(r.timer));
        proof {
            assert(self.restart_requests == cleared(old(self).restart_requests, opp));
        }
        if accepted {
            if let Some(c) = r.config {
                self.config = c;
                effects.push(Effect::SyncConfig);
            }
            effects.push(Effect::SyncRestartRequest(opp));
            let ghost e0 = effects@;
            let ghost mid = *self;
            self.do_restart(&mut effects);
            proof {
                lemma_reset_from(*old(self), mid, *self, e0, effects@);
                assert(e0 =~= seq![Effect::CancelTimer(r.timer)] + (if r.config is Some {
                    seq![Effect::SyncConfig]
                } else {
                    seq![]
                }) + seq![Effect::SyncRestartRequest(opp)]);
                assert(mid.config == match r.config {
                    Some(c) => c,
                    None => old(self).config,
                });
                let rest = choose|rest: Seq<Effect>|
                    effects@ == e0 + rest && reset_done(*old(self), mid.config, mid.restart_requests, *self, rest);
                assert(reset_done(*old(self), config_after(r.config, old(self).config), cleared(old(self).restart_requests, opp), *self, rest));
            }
        } else {
            effects.push(Effect::SyncRestartRequest(opp));
            assert(effects@ =~= seq![Effect::CancelTimer(r.timer), Effect::SyncRestartRequest(opp)]);
        }
        effects
    }

    /// The expiry timer `timer` of `player`'s restart request fired: the
    /// request is dropped, unless it was replaced or answered meanwhile.
    pub fn restart_request_expired(&mut self, player: Player, timer: u64) -> (effects: Vec<Effect>)
        requires
            old(self).wf(),
        ensures
            final(self).wf(),
            if old(self).restart_requests[seat(player)] matches Some(r) && r.timer == timer {
                &&& final(self).restart_requests == cleared(old(self).restart_requests, player)
                &&& final(self).stage == old(self).stage
                &&& final(self).round == old(self).round
                &&& final(self).config == old(self).config
                &&& final(self).seats == old(self).seats
                &&& final(self).next_timer == old(self).next_timer
                &&& final(self).restart_request_timeout == old(self).restart_request_timeout
                &&& effects@ == seq![Effect::SyncRestartRequest(player)]
            } else {
                *final(self) == *old(self) && effects@ == Seq::<Effect>::empty()
            },
    {
        let i = seat_index(player);
        match self.restart_requests[i] {
            Some(r) => {
                if r.timer != timer {
                    return Vec::new();
                }
            },
            None => {
                return Vec::new();
            },
        }
        self.restart_requests[i] = None;
        proof {
            assert(self.restart_requests == cleared(old(self).restart_requests, player));
        }
        let mut effects: Vec<Effect> = Vec::new();
        effects.push(Effect::SyncRestartRequest(player));
        effects
    }

    /// `key` votes on who starts the round. Only the first vote of each
    /// player counts; once both voted, the round starts, the tie broken by
    /// `coin`.
    pub fn player_selection_vote(&mut self, key: u64, wants_to_start: bool, coin: bool) -> (effects: Vec<Effect>)
        requires
            old(self).wf(),
        ensures
            final(self).wf(),
            vote_post(*old(self), key, wants_to_start, coin, *final(self), effects@),
    {
        let mut votes = match &self.stage {
            GameStage::PlayerSelection(v) => *v,
            GameStage::InGame(_) => {
                return Vec::new();
            },
        };
        let update_p1 = key == self.seats[0] && votes.p1_vote.is_none();
        let update_p2 = key == self.seats[1] && votes.p2_vote.is_none();
        if !(update_p1 || update_p2) {
            return Vec::new();
        }
        if update_p1 {
            votes.p1_vote = Some(wants_to_start);
        }
        if update_p2 {
            votes.p2_vote = Some(wants_to_start);
        }
        match (votes.p1_vote, votes.p2_vote) {
            (Some(p1_vote), Some(p2_vote)) => {
                self.stage = GameStage::InGame(InGameStage::new(p1_vote, p2_vote, &self.config, coin));
            },
            _ => {
                self.stage = GameStage::PlayerSelection(votes);
            },
        }
        let mut effects: Vec<Effect> = Vec::new();
        effects.push(Effect::Sync);
        effects
    }
}

/// `s2` and `effects` are what the vote `wants_to_start` of `key` makes of
/// `s`, the tie broken by `coin`: only a seated player's first vote counts,
/// and once both voted the round starts on a fresh board.
pub open spec fn vote_post(s: Game, key: u64, wants_to_start: bool, coin: bool, s2: Game, effects: Seq<Effect>) -> bool {
    match s.stage {
        GameStage::InGame(_) => s2 == s && effects == Seq::<Effect>::empty(),
        GameStage::PlayerSelection(v) => {
            let u1 = s.seats[0] == key && v.p1_vote is None;
            let u2 = s.seats[1] == key && v.p2_vote is None;
            let p1 = if u1 { Some(wants_to_start) } else { v.p1_vote };
            let p2 = if u2 { Some(wants_to_start) } else { v.p2_vote };
            if !(u1 || u2) {
                s2 == s && effects == Seq::<Effect>::empty()
            } else {
                &&& effects == seq![Effect::Sync]
                &&& s2.round == s.round
                &&& s2.config == s.config
                &&& s2.seats == s.seats
                &&& s2.restart_requests == s.restart_requests
                &&& s2.restart_request_timeout == s.restart_request_timeout
                &&& s2.next_timer == s.next_timer
                &&& if p1 is Some && p2 is Some {
                    s2.stage matches GameStage::InGame(st) && st.game.rules == (GameRules {
                        starting_player: starter(p1.unwrap(), p2.unwrap(), coin),
                        allow_draws: s.config.allow_draws,
                    }) && st.game.state.turn == 0 && st.game.state.moves == 0 && st.game.state.player
                        == starter(p1.unwrap(), p2.unwrap(), coin) && st.game.state.result is None
                        && st.extra_time == [0u64, 0u64] && st.timeout is None
                } else {
                    s2.stage == GameStage::PlayerSelection(PlayerSelectionStage { p1_vote: p1, p2_vote: p2 })
                }
            }
        },
    }
}

impl Game {
    /// `key` votes on who starts the round; a coin is tossed for the case
    /// that both or neither ask to start.
    pub fn vote(&mut self, key: u64, wants_to_start: bool) -> (effects: Vec<Effect>)
        requires
            old(self).wf(),
        ensures
            final(self).wf(),
            exists|coin: bool| vote_post(*old(self), key, wants_to_start, coin, *final(self), effects@),
    {
        let coin = rand::random::<bool>();
        self.player_selection_vote(key, wants_to_start, coin)
    }
}

/// Restart negotiation: while a round goes on, a plain restart request from
/// one player waits; the same request again changes nothing; a plain request
/// from the other player then starts the next round at once.
pub proof fn law_restart_negotiation(
    s0: Game,
    s1: Game,
    s2: Game,
    s3: Game,
    a: Player,
    t1: u64,
    t2: u64,
    t3: u64,
    e1: Seq<Effect>,
    e2: Seq<Effect>,
    e3: Seq<Effect>,
)
    requires
        s0.wf(),
        !s0.over(),
        s0.restart_requests == [None::<RestartRequest>, None],
        restart_post(s0, a, None, t1, s1, e1),
        restart_post(s1, a, None, t2, s2, e2),
        restart_post(s2, other_spec(a), None, t3, s3, e3),
    ensures
        s1.restart_requests[seat(a)] matches Some(r) && r.config is None,
        s2 == s1,
        e2 == Seq::<Effect>::empty(),
        s3.round == s0.round.wrapping_add(1),
        s3.stage == GameStage::PlayerSelection(PlayerSelectionStage { p1_vote: None, p2_vote: None }),
        s3.restart_requests == [None::<RestartRequest>, None],
{
    let b = other_spec(a);
    assert(other_spec(b) == a);
    assert(s1.restart_requests[seat(b)] is None);
    let rest = choose|rest: Seq<Effect>|
        e3 == seq![Effect::CancelTimer(s2.restart_requests[seat(a)].unwrap().timer), Effect::SyncRestartRequest(a)] + rest
            && #[trigger] reset_done(s2, s2.config, cleared(s2.restart_requests, a), s3, rest);
    assert(cleared(s2.restart_requests, a) == [None::<RestartRequest>, None]);
}

/// Turn timeout: when the armed turn timer fires at or after its deadline,
/// the current player passes, the turn index advances, and what the player
/// banks from this turn is zero, never negative.
pub proof fn law_timeout_pass(s: Game, s2: Game, effects: Seq<Effect>, now: u64)
    requires
        s.wf(),
        s.stage matches GameStage::InGame(st) && st.timeout matches Some(t) && now >= t.deadline,
        turn_played(s, None, now, s2, effects),
    ensures
        s2.stage matches GameStage::InGame(st2) && {
            let st = playing(s.stage);
            let p = st.game.state.player;
            &&& st2.game.state.turn == wrapping_inc(st.game.state.turn)
            &&& st2.game.state.player == other_spec(p)
            &&& st2.game.field == st.game.field
            &&& st2.game.state.moves == st.game.state.moves
            &&& st2.extra_time[seat(p)] == if st.game.state.turn != 0 {
                0
            } else {
                st.extra_time[seat(p)]
            }
        },
{
}

} // verus!
