use board_games::lobby::{Lobby, Player, Status};

fn waiting(addr: &str) -> Player {
    Player::new(addr.to_string())
}

#[test]
fn new_player_is_waiting_and_live() {
    let p = Player::new("10.0.0.1:5000".to_string());
    assert_eq!(p.addr, "10.0.0.1:5000");
    assert_eq!(p.status, Status::Waiting);
    assert!(!p.finished);
}

#[test]
fn pairing_sweep_takes_the_first_two_waiting_players() {
    let mut lobby = Lobby::new();
    lobby.add_connection(waiting("a"));
    lobby.add_connection(waiting("b"));
    lobby.add_connection(waiting("c"));

    let pair = lobby.find_pair();
    assert_eq!(pair, Some(("a".to_string(), "b".to_string())));
    assert_eq!(lobby.players[0].status, Status::Playing);
    assert_eq!(lobby.players[1].status, Status::Playing);
    assert_eq!(lobby.players[2].status, Status::Waiting);

    // a second sweep pairs the remaining player with a fresh one
    lobby.add_connection(waiting("d"));
    let pair = lobby.find_pair();
    assert_eq!(pair, Some(("c".to_string(), "d".to_string())));
    assert_eq!(lobby.players[2].status, Status::Playing);
    assert_eq!(lobby.players[3].status, Status::Playing);
}

#[test]
fn pairing_sweep_with_one_waiting_player_changes_nothing() {
    let mut lobby = Lobby::new();
    lobby.add_connection(waiting("a"));
    assert_eq!(lobby.find_pair(), None);
    assert_eq!(lobby.players[0].status, Status::Waiting);
    assert_eq!(Lobby::new().find_pair(), None);
}

#[test]
fn pairing_sweep_skips_players_already_in_a_match() {
    let mut lobby = Lobby::new();
    lobby.add_connection(waiting("a"));
    lobby.add_connection(waiting("b"));
    lobby.add_connection(waiting("c"));
    lobby.players[0].status = Status::Playing;
    assert_eq!(lobby.find_pair(), Some(("b".to_string(), "c".to_string())));
}

#[test]
fn liveness_sweep_drops_finished_workers_and_keeps_order() {
    let mut lobby = Lobby::new();
    lobby.add_connection(waiting("a"));
    lobby.add_connection(waiting("b"));
    lobby.add_connection(waiting("c"));
    lobby.players[1].finished = true;
    lobby.reap_finished();
    assert_eq!(lobby.players.len(), 2);
    assert_eq!(lobby.players[0].addr, "a");
    assert_eq!(lobby.players[1].addr, "c");
}

#[test]
fn presence_counts_unreaped_players() {
    let mut lobby = Lobby::new();
    lobby.add_connection(waiting("a"));
    lobby.players[0].finished = true;
    // finished but not yet reaped still counts as registered
    assert!(lobby.is_present(&"a".to_string()));
    lobby.reap_finished();
    assert!(!lobby.is_present(&"a".to_string()));
}

#[test]
fn set_waiting_releases_only_the_named_player() {
    let mut lobby = Lobby::new();
    lobby.add_connection(waiting("a"));
    lobby.add_connection(waiting("b"));
    lobby.players[0].status = Status::Playing;
    lobby.players[1].status = Status::Playing;
    lobby.set_waiting(&"b".to_string());
    assert_eq!(lobby.players[0].status, Status::Playing);
    assert_eq!(lobby.players[1].status, Status::Waiting);
}

#[test]
fn set_waiting_releases_every_record_with_the_address() {
    let mut lobby = Lobby::new();
    lobby.add_connection(waiting("a"));
    lobby.add_connection(waiting("a"));
    lobby.players[0].status = Status::Playing;
    lobby.players[1].status = Status::Playing;
    lobby.set_waiting(&"a".to_string());
    assert_eq!(lobby.players[0].status, Status::Waiting);
    assert_eq!(lobby.players[1].status, Status::Waiting);
}
