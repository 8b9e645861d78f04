use connect_four_server::serde::{as_millis_optional_tuple, as_secs, as_secs_optional};
use connect_four_server::server::player::{heartbeat_enabled, Controller, Disconnect, Inbound, Player, Route};

#[test]
fn messages_go_to_the_attached_controller() {
    let mut p: Player<&str, &str> = Player::new(0);
    assert_eq!(p.route(Inbound::GameEndTurn, 5), Route::Drop);
    assert_eq!(p.route(Inbound::Ping, 6), Route::Pong);
    p.attach(Controller::Lobby("lobby"));
    assert_eq!(p.route(Inbound::LobbyPickPlayer, 7), Route::ToLobby);
    assert_eq!(p.route(Inbound::GameRestart, 8), Route::Drop);
    assert_eq!(p.lobby(), Some(&"lobby"));
    p.attach(Controller::Game("game"));
    assert_eq!(p.route(Inbound::GameRestartResponse, 9), Route::ToGame);
    assert_eq!(p.route(Inbound::LobbyPickPlayer, 10), Route::Drop);
    assert_eq!(p.game(), Some(&"game"));
    assert_eq!(p.hb, 10);
}

#[test]
fn heartbeat_rules() {
    assert!(!heartbeat_enabled(0, 30));
    assert!(!heartbeat_enabled(5, 0));
    assert!(heartbeat_enabled(5, 30));
    let p: Player<(), ()> = Player::new(100);
    assert!(!p.heartbeat_expired(130, 30));
    assert!(p.heartbeat_expired(131, 30));
    assert!(!p.heartbeat_expired(50, 30));
}

#[test]
fn closing_by_controller_silences_the_notice() {
    let mut p: Player<u8, u8> = Player::new(0);
    assert!(p.notify_on_stop().is_none());
    p.attach(Controller::Game(1));
    assert!(matches!(p.notify_on_stop(), Some(Controller::Game(1))));
    p.disconnect();
    assert!(p.notify_on_stop().is_none());
}

#[test]
fn disconnect_reason_codes() {
    assert_eq!(Disconnect::LobbyFull.as_str(), "lobbyFull");
    assert_eq!(Disconnect::GameEnded.as_str(), "gameEnded");
    assert_eq!(Disconnect::ServerMaxLobbies.as_str(), "serverMaxLobbies");
}

#[test]
fn seconds_are_written_exactly() {
    assert_eq!(as_secs::serialize(1500), "1.5");
    assert_eq!(as_secs::serialize(30000), "30");
    assert_eq!(as_secs::serialize(1), "0.001");
    assert_eq!(as_secs::serialize(10), "0.01");
    assert_eq!(as_secs::serialize(123456), "123.456");
    assert_eq!(as_secs_optional::serialize(Some(2500)), Some(String::from("2.5")));
    assert_eq!(as_secs_optional::serialize(None), None);
}

#[test]
fn seconds_are_read_exactly() {
    assert_eq!(as_secs::deserialize("1.5"), Some(1500));
    assert_eq!(as_secs::deserialize("30"), Some(30000));
    assert_eq!(as_secs::deserialize("0.0015"), Some(1));
    assert_eq!(as_secs::deserialize("abc"), None);
    assert_eq!(as_secs::deserialize("1."), None);
    assert_eq!(as_secs::deserialize(".5"), None);
    assert_eq!(as_secs::deserialize("-1"), None);
    assert_eq!(as_secs::deserialize("18446744073709552"), None);
    assert_eq!(as_secs::deserialize("18446744073709551"), Some(18446744073709551000));
    assert_eq!(as_secs_optional::deserialize("7"), Some(Some(7000)));
    assert_eq!(as_secs_optional::deserialize("x"), None);
}

#[test]
fn extra_times_in_milliseconds() {
    assert_eq!(
        as_millis_optional_tuple::serialize(Some([1500, 0])),
        Some((String::from("1500"), String::from("0")))
    );
    assert_eq!(as_millis_optional_tuple::serialize(None), None);
    assert_eq!(
        as_millis_optional_tuple::deserialize("1500.7", "20"),
        Some(Some([1500, 20]))
    );
    assert_eq!(as_millis_optional_tuple::deserialize("1500", "x"), None);
}

#[test]
fn durations_survive_the_wire() {
    for ms in [0u64, 1, 999, 1000, 1001, 1500, 59999, 86400000, u64::MAX] {
        assert_eq!(as_secs::deserialize(&as_secs::serialize(ms)), Some(ms));
        let (a, b) = as_millis_optional_tuple::serialize(Some([ms, 7])).unwrap();
        assert_eq!(as_millis_optional_tuple::deserialize(&a, &b), Some(Some([ms, 7])));
    }
}
