use board_games::codec::{decode, encode};
use board_games::tic_tac_toe::{Board, ClientState, End, Message, Piece};
use board_games::ServerStatus;

fn round_trip(m: Message) -> Message {
    let bytes = encode(&m);
    decode(&bytes).expect("a frame written by encode must decode")
}

#[test]
fn wait_turn_round_trips_as_one_byte() {
    let bytes = encode(&Message::WaitTurn);
    assert_eq!(bytes, vec![1u8]);
    assert_eq!(round_trip(Message::WaitTurn), Message::WaitTurn);
}

#[test]
fn your_turn_round_trips() {
    assert_eq!(encode(&Message::YourTurn), vec![2u8]);
    assert_eq!(round_trip(Message::YourTurn), Message::YourTurn);
}

#[test]
fn move_frame_has_fixed_layout() {
    let m = Message::Move((Piece::Cross, 1, 2));
    let bytes = encode(&m);
    let mut expect = vec![3u8, 1u8];
    expect.extend_from_slice(&[1, 0, 0, 0, 0, 0, 0, 0]);
    expect.extend_from_slice(&[2, 0, 0, 0, 0, 0, 0, 0]);
    assert_eq!(bytes, expect);
    assert_eq!(round_trip(m), Message::Move((Piece::Cross, 1, 2)));
}

#[test]
fn invalid_move_carries_its_text() {
    let m = Message::InvalidMove("A".to_string());
    let bytes = encode(&m);
    let mut expect = vec![4u8];
    expect.extend_from_slice(&[1, 0, 0, 0, 0, 0, 0, 0]);
    expect.extend_from_slice(&[65, 0, 0, 0]);
    assert_eq!(bytes, expect);
    assert_eq!(round_trip(m), Message::InvalidMove("A".to_string()));
}

#[test]
fn game_over_round_trips_every_outcome() {
    assert_eq!(encode(&Message::GameOver(End::Victory(Piece::Nought))), vec![5u8, 0, 0]);
    assert_eq!(encode(&Message::GameOver(End::Draw)), vec![5u8, 1]);
    assert_eq!(encode(&Message::GameOver(End::Disconnect)), vec![5u8, 2]);
    for end in [End::Victory(Piece::Cross), End::Victory(Piece::Nought), End::Draw, End::Disconnect]
    {
        assert_eq!(round_trip(Message::GameOver(end)), Message::GameOver(end));
    }
}

#[test]
fn status_round_trips() {
    let m = Message::Status(ServerStatus { n_players: 5 });
    assert_eq!(encode(&m), vec![6u8, 5, 0, 0, 0, 0, 0, 0, 0]);
    match round_trip(m) {
        Message::Status(st) => assert_eq!(st.n_players, 5),
        other => panic!("wrong variant: {other:?}"),
    }
}

#[test]
fn preamble_round_trips_with_unicode_opponent() {
    let state = ClientState::new("påłÿer ☺".to_string(), Piece::Nought, 3);
    let m = Message::Preamble(state);
    match round_trip(m) {
        Message::Preamble(c) => {
            assert_eq!(c.opponent, "påłÿer ☺");
            assert_eq!(c.piece, Piece::Nought);
            assert_eq!(c.board.size, 3);
            assert_eq!(c.board.iter().len(), 0);
            assert_eq!(c.turn, board_games::tic_tac_toe::Turn::Begin);
        },
        other => panic!("wrong variant: {other:?}"),
    }
}

#[test]
fn preamble_round_trips_a_filled_grid() {
    let mut board = Board::new(2);
    board.place(Piece::Cross, 0, 0);
    board.place(Piece::Nought, 1, 1);
    let state = ClientState {
        board,
        turn: board_games::tic_tac_toe::Turn::TurnWait,
        opponent: "127.0.0.1:4000".to_string(),
        piece: Piece::Cross,
    };
    let m = Message::Preamble(state);
    match round_trip(m) {
        Message::Preamble(c) => {
            assert_eq!(c.board.iter()[0][0], Piece::Cross);
            assert_eq!(c.board.iter()[0][1], Piece::Empty);
            assert_eq!(c.board.iter()[1][1], Piece::Nought);
            assert_eq!(c.turn, board_games::tic_tac_toe::Turn::TurnWait);
            assert_eq!(c.opponent, "127.0.0.1:4000");
        },
        other => panic!("wrong variant: {other:?}"),
    }
}

#[test]
fn empty_buffer_is_rejected() {
    assert!(decode(&vec![]).is_err());
}

#[test]
fn unknown_tag_is_rejected() {
    assert!(decode(&vec![7u8]).is_err());
    assert!(decode(&vec![255u8]).is_err());
}

#[test]
fn truncated_frame_is_rejected() {
    let bytes = encode(&Message::Move((Piece::Cross, 1, 2)));
    for cut in 0..bytes.len() {
        assert!(decode(&bytes[..cut].to_vec()).is_err());
    }
}

#[test]
fn trailing_bytes_are_rejected() {
    let mut bytes = encode(&Message::WaitTurn);
    bytes.push(0);
    assert!(decode(&bytes).is_err());

    let mut bytes = encode(&Message::Move((Piece::Nought, 0, 0)));
    bytes.push(9);
    assert!(decode(&bytes).is_err());
}

#[test]
fn bad_piece_tag_is_rejected() {
    // a move frame whose piece byte is out of range
    let mut bytes = vec![3u8, 9u8];
    bytes.extend_from_slice(&[0; 16]);
    assert!(decode(&bytes).is_err());
}

#[test]
fn surrogate_code_point_is_rejected() {
    // an invalid-move frame holding one character in the surrogate range
    let mut bytes = vec![4u8];
    bytes.extend_from_slice(&[1, 0, 0, 0, 0, 0, 0, 0]);
    bytes.extend_from_slice(&0xD800u32.to_le_bytes());
    assert!(decode(&bytes).is_err());
}

#[test]
fn oversized_length_is_rejected() {
    // an invalid-move frame announcing far more characters than it holds
    let mut bytes = vec![4u8];
    bytes.extend_from_slice(&[255; 8]);
    bytes.extend_from_slice(&[65, 0, 0, 0]);
    assert!(decode(&bytes).is_err());
}

#[test]
fn extreme_coordinates_round_trip() {
    let m = Message::Move((Piece::Nought, usize::MAX, 0));
    assert_eq!(round_trip(m), Message::Move((Piece::Nought, usize::MAX, 0)));
}
