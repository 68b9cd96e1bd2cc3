use board_games::lobby::{Lobby, Player, Status};
use board_games::session::{Presence, Session, TickResult};
use board_games::tic_tac_toe::{End, Message, Piece, ServerState, Turn};

fn new_match() -> (Session, ServerState) {
    let session = Session::new(("a".to_string(), "b".to_string()));
    let state = ServerState::new(3);
    (session, state)
}

/// Run the `TurnStart` tick and then the `TurnWait` tick carrying the move.
fn play_move(session: &Session, state: &mut ServerState, piece: Piece, x: usize, y: usize) -> TickResult {
    let r = session.tick(state, Presence::Both, None);
    assert_eq!(r.to_player1.len() + r.to_player2.len(), 2); // YourTurn + WaitTurn
    assert_eq!(state.turn, Turn::TurnWait);
    session.tick(state, Presence::Both, Some(Message::Move((piece, x, y))))
}

#[test]
fn begin_sends_each_player_a_preamble_naming_the_other() {
    let (session, mut state) = new_match();
    let r = session.tick(&mut state, Presence::Both, None);

    // the first-seated player plays crosses and goes first
    assert_eq!(r.to_player1.len(), 1);
    match &r.to_player1[0] {
        Message::Preamble(c) => {
            assert_eq!(c.opponent, "b");
            assert_eq!(c.piece, Piece::Cross);
            assert_eq!(c.board.size, 3);
            assert_eq!(c.board.iter().len(), 0); // the grid itself never travels
        },
        other => panic!("expected a preamble, got {other:?}"),
    }
    assert_eq!(r.to_player2.len(), 1);
    match &r.to_player2[0] {
        Message::Preamble(c) => {
            assert_eq!(c.opponent, "a");
            assert_eq!(c.piece, Piece::Nought);
            assert_eq!(c.board.size, 3);
        },
        other => panic!("expected a preamble, got {other:?}"),
    }
    assert_eq!(state.turn, Turn::TurnStart);
    assert!(!r.finished);
}

#[test]
fn turn_start_tells_the_current_player_to_move() {
    let (session, mut state) = new_match();
    session.tick(&mut state, Presence::Both, None);
    let r = session.tick(&mut state, Presence::Both, None);
    assert_eq!(r.to_player1, vec![Message::YourTurn]);
    assert_eq!(r.to_player2, vec![Message::WaitTurn]);
    assert_eq!(state.turn, Turn::TurnWait);
}

#[test]
fn a_quiet_tick_changes_nothing() {
    let (session, mut state) = new_match();
    session.tick(&mut state, Presence::Both, None);
    session.tick(&mut state, Presence::Both, None);
    let r = session.tick(&mut state, Presence::Both, None);
    assert!(r.to_player1.is_empty() && r.to_player2.is_empty());
    assert_eq!(state.turn, Turn::TurnWait);
    assert!(!r.finished);
}

#[test]
fn three_in_a_column_ends_the_match_with_a_victory() {
    let (session, mut state) = new_match();
    session.tick(&mut state, Presence::Both, None); // Begin

    // crosses plays (0,0), noughts replies (1,0)
    let r = play_move(&session, &mut state, Piece::Cross, 0, 0);
    assert_eq!(r.to_player1, vec![Message::Move((Piece::Cross, 0, 0))]);
    assert_eq!(r.to_player2, vec![Message::Move((Piece::Cross, 0, 0))]);
    assert_eq!(state.current_player, Piece::Nought);
    play_move(&session, &mut state, Piece::Nought, 1, 0);

    // crosses (0,1), noughts (1,1), crosses (0,2) completes the column
    play_move(&session, &mut state, Piece::Cross, 0, 1);
    play_move(&session, &mut state, Piece::Nought, 1, 1);
    let r = play_move(&session, &mut state, Piece::Cross, 0, 2);
    assert_eq!(r.to_player1, vec![Message::Move((Piece::Cross, 0, 2))]);
    assert_eq!(state.turn, Turn::End);
    assert_eq!(state.winner, End::Victory(Piece::Cross));

    // the closing tick tells both players and releases them
    let r = session.tick(&mut state, Presence::Both, None);
    assert_eq!(r.to_player1, vec![Message::GameOver(End::Victory(Piece::Cross))]);
    assert_eq!(r.to_player2, vec![Message::GameOver(End::Victory(Piece::Cross))]);
    assert!(r.release_player1 && r.release_player2 && r.finished);
}

#[test]
fn playing_an_occupied_cell_keeps_the_turn() {
    let (session, mut state) = new_match();
    session.tick(&mut state, Presence::Both, None); // Begin
    play_move(&session, &mut state, Piece::Cross, 0, 0);
    play_move(&session, &mut state, Piece::Nought, 1, 1);

    // crosses tries the cell noughts holds
    let r = play_move(&session, &mut state, Piece::Cross, 1, 1);
    assert!(r.to_player2.is_empty());
    assert_eq!(
        r.to_player1,
        vec![Message::InvalidMove(
            "B 2 already has a O on it! Enter another move".to_string()
        )]
    );
    assert_eq!(state.turn, Turn::TurnWait);
    assert_eq!(state.current_player, Piece::Cross);

    // the same player may move again without a fresh turn announcement
    let r = session.tick(&mut state, Presence::Both, Some(Message::Move((Piece::Cross, 2, 2))));
    assert_eq!(r.to_player1, vec![Message::Move((Piece::Cross, 2, 2))]);
    assert_eq!(state.current_player, Piece::Nought);
}

#[test]
fn an_out_of_range_move_is_rejected() {
    let (session, mut state) = new_match();
    session.tick(&mut state, Presence::Both, None);
    let r = play_move(&session, &mut state, Piece::Cross, 3, 0);
    assert_eq!(
        r.to_player1,
        vec![Message::InvalidMove("move out of range".to_string())]
    );
    assert_eq!(state.turn, Turn::TurnWait);
}

#[test]
fn a_non_move_message_during_a_turn_is_rejected() {
    let (session, mut state) = new_match();
    session.tick(&mut state, Presence::Both, None);
    let r = play_move(&session, &mut state, Piece::Cross, 0, 0);
    assert_eq!(state.current_player, Piece::Nought);
    assert!(r.finished == false);
    let _ = session.tick(&mut state, Presence::Both, None); // TurnStart for noughts
    let r = session.tick(&mut state, Presence::Both, Some(Message::YourTurn));
    assert_eq!(
        r.to_player2,
        vec![Message::InvalidMove("wrong message type".to_string())]
    );
    assert!(r.to_player1.is_empty());
    assert_eq!(state.turn, Turn::TurnWait);
}

#[test]
fn a_mid_match_disconnect_frees_the_survivor() {
    let mut lobby = Lobby::new();
    lobby.add_connection(Player::new("a".to_string()));
    lobby.add_connection(Player::new("b".to_string()));
    let pair = lobby.find_pair().expect("two waiting players pair up");
    let session = Session::new(pair);
    let mut state = ServerState::new(3);
    session.tick(&mut state, Presence::Both, None); // match under way

    // the first player's transport worker dies and is reaped
    lobby.players[0].finished = true;
    lobby.reap_finished();
    let presence = session.presence(&lobby);
    assert_eq!(presence, Presence::OnlySecond);

    let r = session.tick(&mut state, presence, None);
    assert_eq!(r.to_player2, vec![Message::GameOver(End::Disconnect)]);
    assert!(r.to_player1.is_empty());
    assert!(r.release_player2 && !r.release_player1 && r.finished);

    // the surviving player returns to the waiting pool
    lobby.set_waiting(&session.player2);
    assert_eq!(lobby.players[0].status, Status::Waiting);
}

#[test]
fn a_match_with_both_players_gone_just_stops() {
    let (session, mut state) = new_match();
    let r = session.tick(&mut state, Presence::Neither, None);
    assert!(r.to_player1.is_empty() && r.to_player2.is_empty());
    assert!(r.finished && !r.release_player1 && !r.release_player2);
}

#[test]
fn a_full_board_without_a_line_ends_in_a_draw() {
    let (session, mut state) = new_match();
    session.tick(&mut state, Presence::Both, None);
    // a game every cell of which is filled with no three in a line:
    // X X O / O O X / X O X, played in alternating order
    let moves = [
        (Piece::Cross, 0usize, 0usize),
        (Piece::Nought, 2, 0),
        (Piece::Cross, 1, 0),
        (Piece::Nought, 0, 1),
        (Piece::Cross, 2, 1),
        (Piece::Nought, 1, 1),
        (Piece::Cross, 0, 2),
        (Piece::Nought, 1, 2),
        (Piece::Cross, 2, 2),
    ];
    for (p, x, y) in moves {
        assert_eq!(state.current_player, p);
        play_move(&session, &mut state, p, x, y);
    }
    assert_eq!(state.turn, Turn::End);
    assert_eq!(state.winner, End::Draw);
}
