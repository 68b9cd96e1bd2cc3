use board_games::client::{apply_message, parse_move, Info};
use board_games::tic_tac_toe::{Board, ClientState, End, Message, Piece, Turn};

fn fresh_client() -> ClientState {
    // the placeholder view a client holds before its first preamble
    ClientState::new(String::new(), Piece::Empty, 0)
}

#[test]
fn preamble_installs_the_view_and_opens_the_board() {
    let mut state = fresh_client();
    let config = ClientState::new("peer".to_string(), Piece::Nought, 3);
    apply_message(&mut state, Message::Preamble(config));
    assert_eq!(state.opponent, "peer");
    assert_eq!(state.piece, Piece::Nought);
    assert_eq!(state.turn, Turn::Begin);
    assert_eq!(state.board.size, 3);
    assert_eq!(state.board.iter().len(), 3); // the client opens its own grid
    assert_eq!(state.board.iter()[2][2], Piece::Empty);
}

#[test]
fn turn_messages_move_the_turn_tag() {
    let mut state = fresh_client();
    apply_message(&mut state, Message::WaitTurn);
    assert_eq!(state.turn, Turn::TurnWait);
    apply_message(&mut state, Message::YourTurn);
    assert_eq!(state.turn, Turn::TurnStart);
    apply_message(&mut state, Message::InvalidMove("no".to_string()));
    assert_eq!(state.turn, Turn::TurnStart);
    apply_message(&mut state, Message::GameOver(End::Draw));
    assert_eq!(state.turn, Turn::End);
}

#[test]
fn confirmed_moves_are_replayed_onto_the_mirror() {
    let mut state = fresh_client();
    apply_message(
        &mut state,
        Message::Preamble(ClientState::new("peer".to_string(), Piece::Cross, 3)),
    );
    apply_message(&mut state, Message::Move((Piece::Cross, 1, 2)));
    assert_eq!(state.board.iter()[2][1], Piece::Cross);
    apply_message(&mut state, Message::Move((Piece::Nought, 0, 0)));
    assert_eq!(state.board.iter()[0][0], Piece::Nought);
}

#[test]
fn a_move_outside_the_mirrored_grid_is_ignored() {
    let mut state = fresh_client(); // board size 0, no grid at all
    apply_message(&mut state, Message::Move((Piece::Cross, 0, 0)));
    assert_eq!(state.board.iter().len(), 0);
}

fn parse(s: &str, size: usize) -> Option<(usize, usize)> {
    parse_move(&s.chars().collect(), size)
}

#[test]
fn a_letter_and_a_number_name_a_cell() {
    assert_eq!(parse("a 2", 3), Some((1, 0)));
    assert_eq!(parse("B 3", 3), Some((2, 1)));
    assert_eq!(parse("  c  1  ", 3), Some((0, 2)));
    assert_eq!(parse("a 03", 3), Some((2, 0)));
}

#[test]
fn only_the_first_character_of_the_row_token_counts() {
    assert_eq!(parse("abc 2", 3), Some((1, 0)));
}

#[test]
fn inputs_that_name_no_cell_are_rejected() {
    assert_eq!(parse("", 3), None);
    assert_eq!(parse("a", 3), None);
    assert_eq!(parse("a 2 3", 3), None);
    assert_eq!(parse("1 2", 3), None);
    assert_eq!(parse("d 1", 3), None); // row past the board
    assert_eq!(parse("a 0", 3), None); // columns are one-based
    assert_eq!(parse("a 4", 3), None); // column past the board
    assert_eq!(parse("a x", 3), None);
    assert_eq!(parse("a 99999999999999999999999999", 3), None);
}

#[test]
fn bigger_boards_accept_later_letters() {
    assert_eq!(parse("z 26", 26), Some((25, 25)));
    assert_eq!(parse("Z 1", 26), Some((0, 25)));
    assert_eq!(parse("z 1", 25), None);
}

#[test]
fn info_updates_only_while_unlocked() {
    let mut info = Info::new();
    assert_eq!(info.text, "");
    info.update("first".to_string());
    assert_eq!(info.text, "first");
    info.lock();
    info.update("second".to_string());
    assert_eq!(info.text, "first");
    info.unlock();
    info.update("third".to_string());
    assert_eq!(info.text, "third");
}
