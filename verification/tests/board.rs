use board_games::tic_tac_toe::{Board, End, Piece};

fn board_from(rows: &[&[Piece]]) -> Board {
    let size = rows.len();
    let mut b = Board::new(size);
    for (y, row) in rows.iter().enumerate() {
        assert_eq!(row.len(), size);
        for (x, p) in row.iter().enumerate() {
            b.place(*p, x, y);
        }
    }
    b
}

#[test]
fn new_board_is_empty() {
    let b = Board::new(3);
    assert_eq!(b.size, 3);
    let rows = b.iter();
    assert_eq!(rows.len(), 3);
    for row in rows {
        assert_eq!(row.len(), 3);
        for cell in row {
            assert_eq!(*cell, Piece::Empty);
        }
    }
}

#[test]
fn place_sets_the_cell() {
    let mut b = Board::new(3);
    b.place(Piece::Cross, 2, 0);
    assert_eq!(b.iter()[0][2], Piece::Cross);
    assert_eq!(b.iter()[0][0], Piece::Empty);
    b.place(Piece::Nought, 2, 0);
    assert_eq!(b.iter()[0][2], Piece::Nought);
}

#[test]
fn try_place_on_empty_cell_applies_the_move() {
    let mut b = Board::new(3);
    let r = b.try_place(Piece::Cross, 0, 0);
    assert_eq!(r, Ok((Piece::Cross, 0, 0)));
    assert_eq!(b.iter()[0][0], Piece::Cross);
}

#[test]
fn try_place_on_occupied_cell_leaves_board_and_names_occupant() {
    let mut b = Board::new(3);
    b.place(Piece::Cross, 0, 0);
    let before = b.clone();
    let r = b.try_place(Piece::Nought, 0, 0);
    assert_eq!(
        r,
        Err("A 1 already has a X on it! Enter another move".to_string())
    );
    assert_eq!(b, before);
}

#[test]
fn try_place_occupied_message_uses_game_coordinates() {
    let mut b = Board::new(3);
    b.place(Piece::Nought, 1, 1);
    let r = b.try_place(Piece::Cross, 1, 1);
    assert_eq!(
        r,
        Err("B 2 already has a O on it! Enter another move".to_string())
    );
}

#[test]
fn full_row_wins_for_every_row() {
    for size in [1usize, 3, 4] {
        for i in 0..size {
            for p in [Piece::Cross, Piece::Nought] {
                let mut b = Board::new(size);
                for x in 0..size {
                    b.place(p, x, i);
                }
                assert_eq!(b.check_victory(p), Some(End::Victory(p)));
            }
        }
    }
}

#[test]
fn full_column_wins_for_every_column() {
    for size in [1usize, 3, 4] {
        for i in 0..size {
            for p in [Piece::Cross, Piece::Nought] {
                let mut b = Board::new(size);
                for y in 0..size {
                    b.place(p, i, y);
                }
                assert_eq!(b.check_victory(p), Some(End::Victory(p)));
            }
        }
    }
}

#[test]
fn full_main_diagonal_wins() {
    for size in [3usize, 5] {
        let mut b = Board::new(size);
        for i in 0..size {
            b.place(Piece::Nought, i, i);
        }
        assert_eq!(b.check_victory(Piece::Nought), Some(End::Victory(Piece::Nought)));
        assert_eq!(b.check_victory(Piece::Cross), None);
    }
}

#[test]
fn full_anti_diagonal_wins() {
    for size in [2usize, 3, 4] {
        let mut b = Board::new(size);
        for i in 0..size {
            b.place(Piece::Cross, size - 1 - i, i);
        }
        assert_eq!(b.check_victory(Piece::Cross), Some(End::Victory(Piece::Cross)));
    }
}

#[test]
fn full_board_without_line_is_a_draw() {
    let x = Piece::Cross;
    let o = Piece::Nought;
    let b = board_from(&[&[x, x, o], &[o, o, x], &[x, o, x]]);
    assert_eq!(b.check_victory(Piece::Cross), Some(End::Draw));
    assert_eq!(b.check_victory(Piece::Nought), Some(End::Draw));
    assert!(b.check_draw());
}

#[test]
fn open_board_without_line_is_undecided() {
    let x = Piece::Cross;
    let o = Piece::Nought;
    let e = Piece::Empty;
    let b = board_from(&[&[x, x, o], &[o, o, x], &[x, o, e]]);
    assert_eq!(b.check_victory(Piece::Cross), None);
    assert_eq!(b.check_victory(Piece::Nought), None);
    assert!(!b.check_draw());
}

#[test]
fn empty_board_counts_as_victory_for_the_empty_piece() {
    let b = Board::new(3);
    assert_eq!(b.check_victory(Piece::Empty), Some(End::Victory(Piece::Empty)));
}

#[test]
fn piece_next_alternates() {
    assert_eq!(Piece::Cross.next(), Piece::Nought);
    assert_eq!(Piece::Nought.next(), Piece::Cross);
}

#[test]
fn occupied_message_labels_rows_past_the_alphabet_in_decimal() {
    let msg = board_games::text::occupied_message(Piece::Cross, 11, 30);
    assert_eq!(msg, "31 12 already has a X on it! Enter another move");
}
