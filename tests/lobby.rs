use connect_four_server::game::Player;
use connect_four_server::server::lobby::{Departure, Lobby, Seated, SyncStep};
use connect_four_server::server::lobby_router::{
    join_refusal, route_request, router_refusal, Delivery, Entry, LobbyRouter, RouterReply,
};
use connect_four_server::server::player::Disconnect;

#[test]
fn lobby_full_refuses_and_keeps_candidates() {
    let mut lobby: Lobby<&str> = Lobby::new(1, 2, 0);
    let a = lobby.connect(2, "a", 0).unwrap();
    assert_eq!(a.1, SyncStep::Later(1000));
    let b = lobby.connect(3, "b", 10).unwrap();
    assert_eq!(b.1, SyncStep::Pending);
    assert_ne!(a.0, b.0);
    let before: Vec<(u8, u64)> = lobby.players.iter().map(|c| (c.code, c.key)).collect();
    match lobby.connect(4, "c", 20) {
        Err((reason, conn)) => {
            assert_eq!(reason, Disconnect::LobbyFull);
            assert_eq!(conn, "c");
        }
        Ok(_) => panic!("a full lobby admitted a candidate"),
    }
    let after: Vec<(u8, u64)> = lobby.players.iter().map(|c| (c.code, c.key)).collect();
    assert_eq!(before, after);
}

#[test]
fn lobby_codes_stay_unique() {
    let mut lobby: Lobby<u64> = Lobby::new(0, 300, 0);
    for key in 1..=256u64 {
        assert!(lobby.connect(key, key, 5000).is_ok());
    }
    let mut codes: Vec<u8> = lobby.players.iter().map(|c| c.code).collect();
    codes.sort();
    codes.dedup();
    assert_eq!(codes.len(), 256);
    assert!(matches!(lobby.connect(999, 999, 5000), Err((Disconnect::LobbyFull, 999))));
}

#[test]
fn lobby_refuses_a_second_join() {
    let mut lobby: Lobby<u64> = Lobby::new(1, 5, 0);
    lobby.connect(2, 2, 0).unwrap();
    assert!(matches!(lobby.connect(2, 2, 0), Err((Disconnect::LobbyJoinError, 2))));
    assert!(matches!(lobby.connect(1, 1, 0), Err((Disconnect::LobbyJoinError, 1))));
    assert_eq!(lobby.players.len(), 1);
}

#[test]
fn lobby_sync_is_debounced() {
    let mut lobby: Lobby<u64> = Lobby::new(1, 5, 0);
    assert_eq!(lobby.schedule_player_list_sync(500), SyncStep::Later(1000));
    assert_eq!(lobby.schedule_player_list_sync(600), SyncStep::Pending);
    let (code, _) = lobby.connect(2, 2, 700).unwrap();
    assert_eq!(lobby.sync_player_list(1500), vec![code]);
    assert!(!lobby.sync_pending);
    assert_eq!(lobby.schedule_player_list_sync(2600), SyncStep::Now);
    assert_eq!(lobby.last_sync, 2600);
}

#[test]
fn lobby_departures() {
    let mut lobby: Lobby<u64> = Lobby::new(1, 5, 0);
    lobby.connect(2, 2, 0).unwrap();
    lobby.connect(3, 3, 0).unwrap();
    assert!(matches!(lobby.disconnected(2, 5000), Departure::Left(_)));
    assert_eq!(lobby.players.len(), 1);
    assert_eq!(lobby.players[0].key, 3);
    assert_eq!(lobby.disconnected(1, 5000), Departure::Close);
    let closing = lobby.close();
    assert_eq!(closing.host, Some(Disconnect::LobbyClosed));
    assert_eq!(closing.reason, Disconnect::LobbyClosed);
    assert_eq!(closing.candidates.len(), 1);
    assert!(closing.cancel_sync);
}

#[test]
fn lobby_pick_starts_the_game() {
    let mut lobby: Lobby<&str> = Lobby::new(1, 5, 0);
    let (code_a, _) = lobby.connect(2, "a", 0).unwrap();
    lobby.connect(3, "b", 0).unwrap();
    let wrong = code_a.wrapping_add(128);
    if lobby.players.iter().all(|c| c.code != wrong) {
        assert!(lobby.pick_player(wrong, Player::P1).is_none());
        assert!(!lobby.game_started);
    }
    match lobby.pick_player(code_a, Player::P2) {
        Some([Seated::Host, Seated::Candidate(c)]) => assert_eq!(c.conn, "a"),
        _ => panic!("expected the host as P1 and the candidate as P2"),
    }
    assert!(lobby.game_started);
    assert_eq!(lobby.disconnected(3, 0), Departure::Ignored);
    let closing = lobby.close();
    assert_eq!(closing.host, None);
    assert_eq!(closing.reason, Disconnect::GameStarted);
    assert_eq!(closing.candidates[0].conn, "b");
}

#[test]
fn lobby_pick_as_first_player() {
    let mut lobby: Lobby<&str> = Lobby::new(1, 5, 0);
    let (code, _) = lobby.connect(2, "a", 0).unwrap();
    match lobby.pick_player(code, Player::P1) {
        Some([Seated::Candidate(c), Seated::Host]) => assert_eq!(c.key, 2),
        _ => panic!("expected the candidate as P1 and the host as P2"),
    }
}

#[test]
fn registry_capacity_and_lookup() {
    let mut router: LobbyRouter<&str> = LobbyRouter::new(2);
    let a = router.new_lobby_id().unwrap();
    router.insert(a, "a");
    let b = router.new_lobby_id().unwrap();
    assert_ne!(a, b);
    router.insert(b, "b");
    assert_eq!(router.new_lobby_id(), Err(Disconnect::ServerMaxLobbies));
    assert_eq!(router.get(a), Ok(&"a"));
    assert_eq!(router.remove(a), Some("a"));
    assert_eq!(router.remove(a), None);
    assert_eq!(router.get(a), Err(Disconnect::InviteInvalid));
    assert!(router.new_lobby_id().is_ok());
    assert_eq!(router.drain(), vec![(b, "b")]);
}

#[test]
fn request_routing() {
    assert_eq!(
        route_request(Some("1"), Some("67e55044-10b1-426f-9247-bb680e5fe0c8")),
        Entry::Join(0x67e5504410b1426f9247bb680e5fe0c8)
    );
    assert_eq!(route_request(Some("1"), Some("not-a-lobby")), Entry::Invalid);
    assert_eq!(route_request(Some("1"), None), Entry::Create);
    assert_eq!(route_request(Some("2"), None), Entry::BadRequest);
    assert_eq!(route_request(None, Some("x")), Entry::BadRequest);
}

#[test]
fn refusal_reasons() {
    assert_eq!(join_refusal(Delivery::Delivered), None);
    assert_eq!(join_refusal(Delivery::Full), Some(Disconnect::LobbyOverloaded));
    assert_eq!(join_refusal(Delivery::Closed), Some(Disconnect::InviteInvalid));
    assert_eq!(router_refusal(RouterReply::Done), None);
    assert_eq!(router_refusal(RouterReply::Closed), Some(Disconnect::ShuttingDown));
    assert_eq!(router_refusal(RouterReply::Timeout), Some(Disconnect::ServerOverloaded));
}
