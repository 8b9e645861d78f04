use connect_four_server::game::Player::{P1, P2};
use connect_four_server::game::{Game as Board, GameRules};
use connect_four_server::game_config::{GameConfig, PartialGameConfig};
use connect_four_server::server::game::{
    get_timeout_duration, Effect, Game, GameStage, InGameStage, RestartRequest, TurnTimeout,
};

const HOST: u64 = 10;
const GUEST: u64 = 20;

fn config(time_per_turn: u64, time_cap: u64) -> GameConfig {
    GameConfig {
        time_per_turn,
        time_cap,
        allow_draws: false,
    }
}

fn started(cfg: GameConfig) -> Game {
    let mut s = Game::new(None, cfg, 0, None, HOST, GUEST, 30000);
    assert_eq!(s.player_selection_vote(HOST, true, false), vec![Effect::Sync]);
    assert_eq!(s.player_selection_vote(GUEST, false, false), vec![Effect::Sync]);
    s
}

fn board(s: &Game) -> &InGameStage {
    match &s.stage {
        GameStage::InGame(st) => st,
        GameStage::PlayerSelection(_) => panic!("no round in play"),
    }
}

#[test]
fn votes_pick_the_starting_player() {
    let s = started(config(0, 0));
    let st = board(&s);
    assert_eq!(st.game.state.player, P1);
    assert_eq!(st.game.rules.starting_player, P1);
    assert_eq!(st.extra_time, [0, 0]);
}

#[test]
fn second_vote_of_a_player_is_ignored() {
    let mut s = Game::new(None, config(0, 0), 0, None, HOST, GUEST, 30000);
    s.player_selection_vote(GUEST, true, true);
    assert!(s.player_selection_vote(GUEST, false, true).is_empty());
    s.player_selection_vote(HOST, false, true);
    assert_eq!(board(&s).game.state.player, P2);
}

#[test]
fn tied_votes_follow_the_coin() {
    assert_eq!(InGameStage::starting_player(true, true, true), P1);
    assert_eq!(InGameStage::starting_player(true, true, false), P2);
    assert_eq!(InGameStage::starting_player(false, false, false), P2);
    assert_eq!(InGameStage::starting_player(false, true, true), P2);
}

#[test]
fn out_of_turn_and_stale_requests_are_dropped() {
    let mut s = started(config(0, 0));
    assert!(s.end_turn(GUEST, 0, Some(3), 0).is_empty());
    assert!(s.end_turn(HOST, 1, Some(3), 0).is_empty());
    assert!(s.end_turn(HOST, 0, Some(9), 0).is_empty());
    assert_eq!(board(&s).game.state.turn, 0);
    assert_eq!(s.end_turn(HOST, 0, Some(3), 0), vec![Effect::Sync]);
    assert_eq!(board(&s).game.state.turn, 1);
}

#[test]
fn turn_timer_banks_what_is_left() {
    let mut s = started(config(5000, 8000));
    assert_eq!(
        s.end_turn(HOST, 0, Some(3), 0),
        vec![Effect::StartTurnTimer { timer: 0, after: 5000 }, Effect::Sync]
    );
    assert_eq!(board(&s).timeout, Some(TurnTimeout { timer: 0, deadline: 5000 }));
    assert_eq!(
        s.end_turn(GUEST, 1, Some(3), 2000),
        vec![
            Effect::CancelTimer(0),
            Effect::StartTurnTimer { timer: 1, after: 5000 },
            Effect::Sync
        ]
    );
    assert_eq!(board(&s).extra_time, [0, 3000]);
}

#[test]
fn timeout_passes_and_banks_zero() {
    let mut s = started(config(5000, 8000));
    s.end_turn(HOST, 0, Some(3), 0);
    s.end_turn(GUEST, 1, Some(3), 2000);
    let effects = s.turn_timed_out(1, 7500);
    assert_eq!(
        effects,
        vec![
            Effect::CancelTimer(1),
            Effect::StartTurnTimer { timer: 2, after: 8000 },
            Effect::Sync
        ]
    );
    let st = board(&s);
    assert_eq!(st.game.state.turn, 3);
    assert_eq!(st.game.state.moves, 2);
    assert_eq!(st.game.state.player, P2);
    assert_eq!(st.extra_time, [0, 3000]);
}

#[test]
fn stale_timer_is_ignored() {
    let mut s = started(config(5000, 8000));
    s.end_turn(HOST, 0, Some(3), 0);
    s.end_turn(GUEST, 1, Some(3), 2000);
    assert!(s.turn_timed_out(0, 9000).is_empty());
    assert_eq!(board(&s).game.state.turn, 2);
}

#[test]
fn untimed_turns_start_no_timer() {
    let mut s = started(config(500, 8000));
    assert_eq!(s.end_turn(HOST, 0, Some(3), 0), vec![Effect::Sync]);
    assert_eq!(board(&s).timeout, None);
}

#[test]
fn timeout_duration_formula() {
    assert_eq!(get_timeout_duration(0, &config(500, 8000)), 0);
    assert_eq!(get_timeout_duration(3000, &config(5000, 4000)), 4000);
    assert_eq!(get_timeout_duration(0, &config(2000, 1000)), 1000);
    assert_eq!(get_timeout_duration(3000, &config(5000, 20000)), 8000);
    assert_eq!(get_timeout_duration(u64::MAX, &config(5000, 20000)), 20000);
}

#[test]
fn restart_negotiation() {
    let mut s = started(config(0, 0));
    s.end_turn(HOST, 0, Some(3), 0);
    let effects = s.restart(HOST, None, 100);
    assert_eq!(
        effects,
        vec![
            Effect::StartRequestTimer { player: P1, timer: 0, after: 30000 },
            Effect::SyncRestartRequest(P1)
        ]
    );
    assert_eq!(
        s.restart_requests,
        [
            Some(RestartRequest {
                config: None,
                timer: 0,
                expires_at: 30100
            }),
            None
        ]
    );
    assert!(s.restart(HOST, None, 200).is_empty());
    assert_eq!(s.restart_requests[0].unwrap().timer, 0);
    let effects = s.restart(GUEST, None, 300);
    assert_eq!(
        effects,
        vec![Effect::CancelTimer(0), Effect::SyncRestartRequest(P1), Effect::Sync]
    );
    assert_eq!(s.round, 1);
    assert_eq!(s.restart_requests, [None, None]);
    assert!(matches!(s.stage, GameStage::PlayerSelection(_)));
}

#[test]
fn restart_after_the_game_applies_changes() {
    let mut s = started(config(0, 0));
    for (key, turn, col) in [
        (HOST, 0, 3),
        (GUEST, 1, 3),
        (HOST, 2, 4),
        (GUEST, 3, 4),
        (HOST, 4, 5),
        (GUEST, 5, 5),
        (HOST, 6, 6),
    ] {
        s.end_turn(key, turn, Some(col), 0);
    }
    assert!(board(&s).game.state.result.is_some());
    let partial = PartialGameConfig {
        time_per_turn: Some(7000),
        time_cap: None,
        allow_draws: None,
    };
    let effects = s.restart(GUEST, Some(partial), 0);
    assert_eq!(effects, vec![Effect::SyncConfig, Effect::Sync]);
    assert_eq!(s.config.time_per_turn, 7000);
    assert_eq!(s.round, 1);
}

#[test]
fn accepted_request_applies_its_config() {
    let mut s = started(config(0, 0));
    let partial = PartialGameConfig {
        time_per_turn: None,
        time_cap: None,
        allow_draws: Some(true),
    };
    s.restart(HOST, Some(partial), 0);
    assert_eq!(s.restart_requests[0].unwrap().config.unwrap().allow_draws, true);
    let effects = s.restart_response(GUEST, true);
    assert_eq!(
        effects,
        vec![
            Effect::CancelTimer(0),
            Effect::SyncConfig,
            Effect::SyncRestartRequest(P1),
            Effect::Sync
        ]
    );
    assert!(s.config.allow_draws);
    assert_eq!(s.round, 1);
}

#[test]
fn answering_a_plain_request_withdraws_ones_own() {
    let mut s = started(config(0, 0));
    let partial = PartialGameConfig {
        time_per_turn: None,
        time_cap: None,
        allow_draws: Some(true),
    };
    s.restart(GUEST, Some(partial), 0);
    s.restart(HOST, None, 0);
    assert!(s.restart_requests[0].is_some() && s.restart_requests[1].is_some());
    let effects = s.restart(GUEST, None, 0);
    assert_eq!(
        effects,
        vec![
            Effect::CancelTimer(1),
            Effect::SyncRestartRequest(P1),
            Effect::CancelTimer(0),
            Effect::SyncRestartRequest(P2),
            Effect::Sync
        ]
    );
    assert_eq!(s.restart_requests, [None, None]);
    assert_eq!(s.round, 1);
    assert!(!s.config.allow_draws);
}

#[test]
fn rejected_or_expired_requests_are_dropped() {
    let mut s = started(config(0, 0));
    s.restart(HOST, None, 0);
    assert_eq!(
        s.restart_response(GUEST, false),
        vec![Effect::CancelTimer(0), Effect::SyncRestartRequest(P1)]
    );
    assert_eq!(s.restart_requests, [None, None]);
    assert_eq!(s.round, 0);
    s.restart(GUEST, None, 0);
    assert!(s.restart_request_expired(P2, 0).is_empty());
    assert_eq!(s.restart_request_expired(P2, 1), vec![Effect::SyncRestartRequest(P2)]);
    assert_eq!(s.restart_requests, [None, None]);
    assert!(s.restart_response(HOST, true).is_empty());
}

#[test]
fn unknown_keys_are_ignored() {
    let mut s = started(config(0, 0));
    assert_eq!(s.get_player(99), None);
    assert_eq!(s.get_player(GUEST), Some(P2));
    assert!(s.restart(99, None, 0).is_empty());
    assert!(s.restart_response(99, true).is_empty());
}

#[test]
fn resumed_game_keeps_its_board() {
    let mut b = Board::new(GameRules {
        starting_player: P2,
        allow_draws: false,
    });
    b.end_turn(Some(2)).unwrap();
    let s = Game::new(Some(b), config(0, 0), 4, Some([100, 200]), HOST, GUEST, 1000);
    let st = board(&s);
    assert_eq!(st.game.state.turn, 1);
    assert_eq!(st.extra_time, [100, 200]);
    assert_eq!(s.round, 4);
}

#[test]
fn config_merge() {
    let partial = PartialGameConfig {
        time_per_turn: Some(3000),
        time_cap: None,
        allow_draws: Some(true),
    };
    let c = GameConfig::from_partial(&partial);
    assert_eq!(c, GameConfig { time_per_turn: 3000, time_cap: 0, allow_draws: true });
    let mut d = config(1000, 9000);
    d.apply_partial(&partial);
    assert_eq!(d, GameConfig { time_per_turn: 3000, time_cap: 9000, allow_draws: true });
    let back = PartialGameConfig::from_full(&d);
    assert_eq!(back.time_cap, Some(9000));
    assert_eq!(GameConfig::default(), config(0, 0));
}
