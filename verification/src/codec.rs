//! The wire codec: every message travels as one compact binary frame.
//!
//! Integers are little-endian with a fixed width, text is a character count
//! followed by one code point per character, and a tag byte selects the
//! message variant. Decoding rejects any buffer that is not exactly one
//! well-formed frame.
use vstd::prelude::*;

use crate::tic_tac_toe::{End, Message, Piece, Turn};

verus! {

/// The mathematical shape of one wire message: what a frame carries, with
/// text as character sequences and the grid as a sequence of rows.
pub enum MessageModel {
    Preamble { grid: Seq<Seq<Piece>>, size: nat, turn: Turn, opponent: Seq<char>, piece: Piece },
    WaitTurn,
    YourTurn,
    Move { piece: Piece, x: nat, y: nat },
    InvalidMove { reason: Seq<char> },
    GameOver { end: End },
    Status { n_players: nat },
}

/// The shape a concrete message denotes.
pub open spec fn model_of(m: Message) -> MessageModel {
    match m {
        Message::Preamble(c) => MessageModel::Preamble {
            grid: c.board@,
            size: c.board.size as nat,
            turn: c.turn,
            opponent: c.opponent@,
            piece: c.piece,
        },
        Message::WaitTurn => MessageModel::WaitTurn,
        Message::YourTurn => MessageModel::YourTurn,
        Message::Move(t) => MessageModel::Move { piece: t.0, x: t.1 as nat, y: t.2 as nat },
        Message::InvalidMove(e) => MessageModel::InvalidMove { reason: e@ },
        Message::GameOver(e) => MessageModel::GameOver { end: e },
        Message::Status(st) => MessageModel::Status { n_players: st.n_players as nat },
    }
}

/// `256^c`, the number of values `c` bytes can hold.
pub open spec fn pow256(c: nat) -> nat
    decreases c,
{
    if c == 0 {
        1
    } else {
        256 * pow256((c - 1) as nat)
    }
}

/// The little-endian encoding of `v` in exactly `count` bytes.
pub open spec fn enc_int(v: nat, count: nat) -> Seq<u8>
    decreases count,
{
    if count == 0 {
        Seq::empty()
    } else {
        seq![(v % 256) as u8] + enc_int(v / 256, (count - 1) as nat)
    }
}

/// The value of the first `count` bytes of `b`, read little-endian.
pub open spec fn dec_int(b: Seq<u8>, count: nat) -> nat
    decreases count,
{
    if count == 0 {
        0
    } else {
        (b[0] + 256 * dec_int(b.drop_first(), (count - 1) as nat)) as nat
    }
}

/// An integer encoding has exactly the width asked for.
pub proof fn lemma_enc_int_len(v: nat, count: nat)
    ensures
        enc_int(v, count).len() == count,
    decreases count,
{
    if count > 0 {
        lemma_enc_int_len(v / 256, (count - 1) as nat);
    }
}

/// `count` bytes hold values below `256^count`.
pub proof fn lemma_dec_int_bound(b: Seq<u8>, count: nat)
    requires
        count <= b.len(),
    ensures
        dec_int(b, count) < pow256(count),
    decreases count,
{
    if count > 0 {
        lemma_dec_int_bound(b.drop_first(), (count - 1) as nat);
    }
}

/// Reading an integer encoding back yields the value written.
pub proof fn lemma_dec_enc(v: nat, count: nat)
    requires
        v < pow256(count),
    ensures
        dec_int(enc_int(v, count), count) == v,
    decreases count,
{
    if count > 0 {
        lemma_enc_int_len(v / 256, (count - 1) as nat);
        assert(enc_int(v, count).drop_first() =~= enc_int(v / 256, (count - 1) as nat));
        lemma_dec_enc(v / 256, (count - 1) as nat);
    }
}

/// Append the `count`-byte little-endian encoding of `v` to `out`.
fn push_int_le(out: &mut Vec<u8>, v: u64, count: usize)
    ensures
        final(out)@ == old(out)@ + enc_int(v as nat, count as nat),
{
    let ghost base = old(out)@;
    let ghost v0 = v as nat;
    let mut x = v;
    let mut j: usize = 0;
    while j < count
        invariant
            0 <= j <= count,
            out@ + enc_int(x as nat, (count - j) as nat) == base + enc_int(v0, count as nat),
        decreases count - j,
    {
        proof {
            assert(enc_int(x as nat, (count - j) as nat) == seq![(x as nat % 256) as u8]
                + enc_int(x as nat / 256, (count - j - 1) as nat));
            assert((x % 256) as u8 as nat == x as nat % 256);
            assert((x / 256) as nat == x as nat / 256);
        }
        out.push((x % 256) as u8);
        x = x / 256;
        j += 1;
        proof {
            assert(out@ + enc_int(x as nat, (count - j) as nat) =~= base + enc_int(
                v0,
                count as nat,
            ));
        }
    }
    proof {
        assert(out@ + enc_int(x as nat, 0) =~= out@);
        assert(out@ =~= base + enc_int(v0, count as nat));
    }
}

/// Read the `count`-byte little-endian integer at `pos`.
fn read_int_le(b: &Vec<u8>, pos: usize, count: usize) -> (r: u64)
    requires
        count <= 8,
        pos + count <= b@.len(),
    ensures
        r as nat == dec_int(b@.subrange(pos as int, pos as int + count as int), count as nat),
{
    let ghost s = b@.subrange(pos as int, pos as int + count as int);
    let n = b.len();
    let mut v: u64 = 0;
    let mut i: usize = count;
    while i > 0
        invariant
            0 <= i <= count <= 8,
            pos + count <= n,
            n == b@.len(),
            s == b@.subrange(pos as int, pos as int + count as int),
            v as nat == dec_int(s.subrange(i as int, count as int), (count - i) as nat),
            (v as nat) < pow256((count - i) as nat),
        decreases i,
    {
        let ghost tail_old = s.subrange(i as int, count as int);
        i -= 1;
        let ghost tail = s.subrange(i as int, count as int);
        proof {
            assert(tail.drop_first() =~= tail_old);
            assert(tail[0] == s[i as int]);
            assert(s[i as int] == b@[pos + i]);
            assert(dec_int(tail, (count - i) as nat) == s[i as int] + 256 * dec_int(
                tail_old,
                (count - i - 1) as nat,
            ));
            // the running value stays within u64 range
            assert(pow256((count - i) as nat) == 256 * pow256((count - i - 1) as nat));
            lemma_pow256_le((count - i) as nat, 8);
            lemma_pow256_8();
            assert(256 * (v as nat) + 255 < pow256((count - i) as nat));
        }
        v = v * 256 + (b[pos + i] as u64);
    }
    proof {
        assert(s.subrange(0, count as int) =~= s);
    }
    v
}

/// The byte tag of a piece.
pub open spec fn piece_byte(p: Piece) -> u8 {
    match p {
        Piece::Nought => 0,
        Piece::Cross => 1,
        Piece::Empty => 2,
    }
}

/// The byte tag of a turn phase.
pub open spec fn turn_byte(t: Turn) -> u8 {
    match t {
        Turn::Begin => 0,
        Turn::TurnStart => 1,
        Turn::TurnWait => 2,
        Turn::End => 3,
    }
}

/// The encoding of an outcome: a tag, and the winning piece after a victory.
pub open spec fn enc_end(e: End) -> Seq<u8> {
    match e {
        End::Victory(p) => seq![0u8, piece_byte(p)],
        End::Draw => seq![1u8],
        End::Disconnect => seq![2u8],
    }
}

/// Each character as its code point in four bytes.
pub open spec fn enc_chars(s: Seq<char>) -> Seq<u8>
    decreases s.len(),
{
    if s.len() == 0 {
        Seq::empty()
    } else {
        enc_int(s[0] as nat, 4) + enc_chars(s.drop_first())
    }
}

/// Text: a character count, then the characters.
pub open spec fn enc_str(s: Seq<char>) -> Seq<u8> {
    enc_int(s.len(), 8) + enc_chars(s)
}

/// Each cell of a row as one byte.
pub open spec fn enc_pieces(row: Seq<Piece>) -> Seq<u8>
    decreases row.len(),
{
    if row.len() == 0 {
        Seq::empty()
    } else {
        seq![piece_byte(row[0])] + enc_pieces(row.drop_first())
    }
}

/// One row: a cell count, then the cells.
pub open spec fn enc_row(row: Seq<Piece>) -> Seq<u8> {
    enc_int(row.len(), 8) + enc_pieces(row)
}

/// The rows of a grid, one after the other.
pub open spec fn enc_rows(rows: Seq<Seq<Piece>>) -> Seq<u8>
    decreases rows.len(),
{
    if rows.len() == 0 {
        Seq::empty()
    } else {
        enc_row(rows[0]) + enc_rows(rows.drop_first())
    }
}

/// A board: its declared size, a row count, then the rows.
pub open spec fn enc_board(grid: Seq<Seq<Piece>>, size: nat) -> Seq<u8> {
    enc_int(size, 8) + enc_int(grid.len(), 8) + enc_rows(grid)
}

/// The full frame of one message: a variant tag, then its payload.
pub open spec fn encoded(m: MessageModel) -> Seq<u8> {
    match m {
        MessageModel::Preamble { grid, size, turn, opponent, piece } => seq![0u8] + enc_board(
            grid,
            size,
        ) + seq![turn_byte(turn)] + enc_str(opponent) + seq![piece_byte(piece)],
        MessageModel::WaitTurn => seq![1u8],
        MessageModel::YourTurn => seq![2u8],
        MessageModel::Move { piece, x, y } => seq![3u8, piece_byte(piece)] + enc_int(x, 8)
            + enc_int(y, 8),
        MessageModel::InvalidMove { reason } => seq![4u8] + enc_str(reason),
        MessageModel::GameOver { end } => seq![5u8] + enc_end(end),
        MessageModel::Status { n_players } => seq![6u8] + enc_int(n_players, 8),
    }
}

/// A code point that denotes a character: anything outside the surrogate
/// range up to the highest Unicode scalar.
pub open spec fn is_scalar_value(v: nat) -> bool {
    v < 0xD800 || (0xE000 <= v <= 0x10FFFF)
}

/// Read a fixed-width integer at `pos`.
pub open spec fn sd_int(b: Seq<u8>, pos: int, count: nat) -> Option<(nat, int)> {
    if 0 <= pos && pos + count <= b.len() {
        Some((dec_int(b.subrange(pos, pos + count), count), pos + count))
    } else {
        None
    }
}

/// Read an eight-byte integer that must fit the machine's word.
pub open spec fn sd_len(b: Seq<u8>, pos: int) -> Option<(nat, int)> {
    match sd_int(b, pos, 8) {
        Some((v, p)) => if v <= usize::MAX as nat {
            Some((v, p))
        } else {
            None
        },
        None => None,
    }
}

/// Read one byte at `pos`.
pub open spec fn sd_byte(b: Seq<u8>, pos: int) -> Option<(u8, int)> {
    if 0 <= pos && pos + 1 <= b.len() {
        Some((b[pos], pos + 1))
    } else {
        None
    }
}

/// Read a piece tag.
pub open spec fn sd_piece(b: Seq<u8>, pos: int) -> Option<(Piece, int)> {
    match sd_byte(b, pos) {
        Some((t, p)) => if t == 0 {
            Some((Piece::Nought, p))
        } else if t == 1 {
            Some((Piece::Cross, p))
        } else if t == 2 {
            Some((Piece::Empty, p))
        } else {
            None
        },
        None => None,
    }
}

/// Read a turn tag.
pub open spec fn sd_turn(b: Seq<u8>, pos: int) -> Option<(Turn, int)> {
    match sd_byte(b, pos) {
        Some((t, p)) => if t == 0 {
            Some((Turn::Begin, p))
        } else if t == 1 {
            Some((Turn::TurnStart, p))
        } else if t == 2 {
            Some((Turn::TurnWait, p))
        } else if t == 3 {
            Some((Turn::End, p))
        } else {
            None
        },
        None => None,
    }
}

/// Read an outcome.
pub open spec fn sd_end(b: Seq<u8>, pos: int) -> Option<(End, int)> {
    match sd_byte(b, pos) {
        Some((t, p)) => if t == 0 {
            match sd_piece(b, p) {
                Some((pc, p2)) => Some((End::Victory(pc), p2)),
                None => None,
            }
        } else if t == 1 {
            Some((End::Draw, p))
        } else if t == 2 {
            Some((End::Disconnect, p))
        } else {
            None
        },
        None => None,
    }
}

/// Read one character: four bytes that must denote a Unicode scalar.
pub open spec fn sd_char(b: Seq<u8>, pos: int) -> Option<(char, int)> {
    match sd_int(b, pos, 4) {
        Some((v, p)) => if is_scalar_value(v) {
            Some((v as char, p))
        } else {
            None
        },
        None => None,
    }
}

/// Read `count` characters.
pub open spec fn sd_chars(b: Seq<u8>, pos: int, count: nat) -> Option<(Seq<char>, int)>
    decreases count,
{
    if count == 0 {
        Some((Seq::empty(), pos))
    } else {
        match sd_char(b, pos) {
            Some((c, p)) => match sd_chars(b, p, (count - 1) as nat) {
                Some((cs, e)) => Some((seq![c] + cs, e)),
                None => None,
            },
            None => None,
        }
    }
}

/// Read a string: a character count, then the characters.
pub open spec fn sd_string(b: Seq<u8>, pos: int) -> Option<(Seq<char>, int)> {
    match sd_len(b, pos) {
        Some((n, p)) => sd_chars(b, p, n),
        None => None,
    }
}

/// Read `count` cells.
pub open spec fn sd_pieces(b: Seq<u8>, pos: int, count: nat) -> Option<(Seq<Piece>, int)>
    decreases count,
{
    if count == 0 {
        Some((Seq::empty(), pos))
    } else {
        match sd_piece(b, pos) {
            Some((pc, p)) => match sd_pieces(b, p, (count - 1) as nat) {
                Some((ps, e)) => Some((seq![pc] + ps, e)),
                None => None,
            },
            None => None,
        }
    }
}

/// Read one row: a cell count, then the cells.
pub open spec fn sd_row(b: Seq<u8>, pos: int) -> Option<(Seq<Piece>, int)> {
    match sd_len(b, pos) {
        Some((n, p)) => sd_pieces(b, p, n),
        None => None,
    }
}

/// Read `count` rows.
pub open spec fn sd_rows(b: Seq<u8>, pos: int, count: nat) -> Option<(Seq<Seq<Piece>>, int)>
    decreases count,
{
    if count == 0 {
        Some((Seq::empty(), pos))
    } else {
        match sd_row(b, pos) {
            Some((row, p)) => match sd_rows(b, p, (count - 1) as nat) {
                Some((rows, e)) => Some((seq![row] + rows, e)),
                None => None,
            },
            None => None,
        }
    }
}

/// Read a board: its declared size, a row count, then the rows.
pub open spec fn sd_board(b: Seq<u8>, pos: int) -> Option<((nat, Seq<Seq<Piece>>), int)> {
    match sd_len(b, pos) {
        Some((size, p)) => match sd_len(b, p) {
            Some((nrows, p2)) => match sd_rows(b, p2, nrows) {
                Some((rows, e)) => Some(((size, rows), e)),
                None => None,
            },
            None => None,
        },
        None => None,
    }
}

/// What a byte buffer decodes to: exactly one well-formed frame, or nothing.
pub open spec fn spec_decode(b: Seq<u8>) -> Option<MessageModel> {
    match sd_byte(b, 0) {
        None => None,
        Some((tag, p)) => if tag == 0 {
            match sd_board(b, p) {
                Some(((size, grid), p1)) => match sd_turn(b, p1) {
                    Some((turn, p2)) => match sd_string(b, p2) {
                        Some((opponent, p3)) => match sd_piece(b, p3) {
                            Some((piece, p4)) => if p4 == b.len() {
                                Some(
                                    MessageModel::Preamble { grid, size, turn, opponent, piece },
                                )
                            } else {
                                None
                            },
                            None => None,
                        },
                        None => None,
                    },
                    None => None,
                },
                None => None,
            }
        } else if tag == 1 {
            if p == b.len() {
                Some(MessageModel::WaitTurn)
            } else {
                None
            }
        } else if tag == 2 {
            if p == b.len() {
                Some(MessageModel::YourTurn)
            } else {
                None
            }
        } else if tag == 3 {
            match sd_piece(b, p) {
                Some((piece, p1)) => match sd_len(b, p1) {
                    Some((x, p2)) => match sd_len(b, p2) {
                        Some((y, p3)) => if p3 == b.len() {
                            Some(MessageModel::Move { piece, x, y })
                        } else {
                            None
                        },
                        None => None,
                    },
                    None => None,
                },
                None => None,
            }
        } else if tag == 4 {
            match sd_string(b, p) {
                Some((reason, p1)) => if p1 == b.len() {
                    Some(MessageModel::InvalidMove { reason })
                } else {
                    None
                },
                None => None,
            }
        } else if tag == 5 {
            match sd_end(b, p) {
                Some((end, p1)) => if p1 == b.len() {
                    Some(MessageModel::GameOver { end })
                } else {
                    None
                },
                None => None,
            }
        } else if tag == 6 {
            match sd_len(b, p) {
                Some((n_players, p1)) => if p1 == b.len() {
                    Some(MessageModel::Status { n_players })
                } else {
                    None
                },
                None => None,
            }
        } else {
            None
        },
    }
}

/// The value of eight bytes fits a 64-bit machine word.
proof fn lemma_pow256_8()
    ensures
        pow256(8) == 0x10000000000000000,
{
    assert(pow256(0) == 1);
    assert(pow256(1) == 256);
    assert(pow256(2) == 0x10000);
    assert(pow256(3) == 0x1000000);
    assert(pow256(4) == 0x100000000);
    assert(pow256(5) == 0x10000000000);
    assert(pow256(6) == 0x1000000000000);
    assert(pow256(7) == 0x100000000000000);
}

/// Appending one character extends the character encoding by four bytes.
proof fn lemma_enc_chars_snoc(s: Seq<char>, c: char)
    ensures
        enc_chars(s.push(c)) == enc_chars(s) + enc_int(c as nat, 4),
    decreases s.len(),
{
    if s.len() == 0 {
        assert(s.push(c)[0] == c);
        assert(s.push(c).drop_first() =~= Seq::<char>::empty());
        assert(enc_chars(s.push(c).drop_first()) == Seq::<u8>::empty());
        assert(enc_chars(s) == Seq::<u8>::empty());
        assert(enc_chars(s.push(c)) =~= enc_chars(s) + enc_int(c as nat, 4));
    } else {
        assert(s.push(c)[0] == s[0]);
        assert(s.push(c).drop_first() =~= s.drop_first().push(c));
        lemma_enc_chars_snoc(s.drop_first(), c);
        assert(enc_chars(s.push(c)) =~= enc_chars(s) + enc_int(c as nat, 4));
    }
}

/// Appending one cell extends the row encoding by one byte.
proof fn lemma_enc_pieces_snoc(s: Seq<Piece>, p: Piece)
    ensures
        enc_pieces(s.push(p)) == enc_pieces(s) + seq![piece_byte(p)],
    decreases s.len(),
{
    if s.len() == 0 {
        assert(s.push(p)[0] == p);
        assert(s.push(p).drop_first() =~= Seq::<Piece>::empty());
        assert(enc_pieces(s.push(p).drop_first()) == Seq::<u8>::empty());
        assert(enc_pieces(s) == Seq::<u8>::empty());
        assert(enc_pieces(s.push(p)) =~= enc_pieces(s) + seq![piece_byte(p)]);
    } else {
        assert(s.push(p)[0] == s[0]);
        assert(s.push(p).drop_first() =~= s.drop_first().push(p));
        lemma_enc_pieces_snoc(s.drop_first(), p);
        assert(enc_pieces(s.push(p)) =~= enc_pieces(s) + seq![piece_byte(p)]);
    }
}

/// Appending one row extends the grid encoding by that row's encoding.
proof fn lemma_enc_rows_snoc(s: Seq<Seq<Piece>>, row: Seq<Piece>)
    ensures
        enc_rows(s.push(row)) == enc_rows(s) + enc_row(row),
    decreases s.len(),
{
    if s.len() == 0 {
        assert(s.push(row)[0] == row);
        assert(s.push(row).drop_first() =~= Seq::<Seq<Piece>>::empty());
        assert(enc_rows(s.push(row).drop_first()) == Seq::<u8>::empty());
        assert(enc_rows(s) == Seq::<u8>::empty());
        assert(enc_rows(s.push(row)) =~= enc_rows(s) + enc_row(row));
    } else {
        assert(s.push(row)[0] == s[0]);
        assert(s.push(row).drop_first() =~= s.drop_first().push(row));
        lemma_enc_rows_snoc(s.drop_first(), row);
        assert(enc_rows(s.push(row)) =~= enc_rows(s) + enc_row(row));
    }
}

/// Relies on u32::from for char: yields the character's code point, which is
/// at most 0x10FFFF.
#[verifier::external_body]
fn char_code(c: char) -> (v: u32)
    ensures
        v as nat == c as nat,
        (v as nat) <= 0x10FFFF,
{
    u32::from(c)
}

/// The byte tag of a piece.
fn piece_tag(p: Piece) -> (t: u8)
    ensures
        t == piece_byte(p),
{
    match p {
        Piece::Nought => 0,
        Piece::Cross => 1,
        Piece::Empty => 2,
    }
}

/// The byte tag of a turn phase.
fn turn_tag(t: Turn) -> (r: u8)
    ensures
        r == turn_byte(t),
{
    match t {
        Turn::Begin => 0,
        Turn::TurnStart => 1,
        Turn::TurnWait => 2,
        Turn::End => 3,
    }
}

/// Append the encoding of a string.
fn push_str_enc(out: &mut Vec<u8>, s: &String)
    ensures
        final(out)@ == old(out)@ + enc_str(s@),
{
    let ghost base = out@;
    let st: &str = s.as_str();
    let n = st.unicode_len();
    push_int_le(out, n as u64, 8);
    let ghost mid = out@;
    let mut i: usize = 0;
    while i < n
        invariant
            n == st@.len(),
            st@ == s@,
            0 <= i <= n,
            mid == base + enc_int(s@.len(), 8),
            out@ == mid + enc_chars(s@.take(i as int)),
        decreases n - i,
    {
        let c = st.get_char(i);
        let code = char_code(c);
        proof {
            lemma_enc_chars_snoc(s@.take(i as int), c);
            assert(s@.take(i as int).push(c) =~= s@.take(i as int + 1));
        }
        push_int_le(out, code as u64, 4);
        i += 1;
    }
    proof {
        assert(s@.take(n as int) =~= s@);
        assert(out@ =~= base + enc_str(s@));
    }
}

/// Append the encoding of one row.
fn push_row_enc(out: &mut Vec<u8>, row: &Vec<Piece>)
    ensures
        final(out)@ == old(out)@ + enc_row(row@),
{
    let ghost base = out@;
    let n = row.len();
    push_int_le(out, n as u64, 8);
    let ghost mid = out@;
    let mut i: usize = 0;
    while i < n
        invariant
            n == row@.len(),
            0 <= i <= n,
            mid == base + enc_int(row@.len(), 8),
            out@ == mid + enc_pieces(row@.take(i as int)),
        decreases n - i,
    {
        let p = row[i];
        proof {
            lemma_enc_pieces_snoc(row@.take(i as int), p);
            assert(row@.take(i as int).push(p) =~= row@.take(i as int + 1));
        }
        let t = piece_tag(p);
        out.push(t);
        i += 1;
    }
    proof {
        assert(row@.take(n as int) =~= row@);
        assert(out@ =~= base + enc_row(row@));
    }
}

/// Append the encoding of a board.
fn push_board_enc(out: &mut Vec<u8>, board: &crate::tic_tac_toe::Board)
    ensures
        final(out)@ == old(out)@ + enc_board(board@, board.size as nat),
{
    let ghost base = out@;
    push_int_le(out, board.size as u64, 8);
    let nrows = board.grid.len();
    push_int_le(out, nrows as u64, 8);
    let ghost mid = out@;
    proof {
        assert(board@.len() == board.grid@.len());
    }
    let mut i: usize = 0;
    while i < nrows
        invariant
            nrows == board.grid@.len(),
            nrows == board@.len(),
            0 <= i <= nrows,
            mid == base + enc_int(board.size as nat, 8) + enc_int(board@.len(), 8),
            out@ == mid + enc_rows(board@.take(i as int)),
        decreases nrows - i,
    {
        proof {
            assert(board@[i as int] == board.grid@[i as int]@);
            lemma_enc_rows_snoc(board@.take(i as int), board@[i as int]);
            assert(board@.take(i as int).push(board@[i as int]) =~= board@.take(i as int + 1));
        }
        push_row_enc(out, &board.grid[i]);
        i += 1;
    }
    proof {
        assert(board@.take(nrows as int) =~= board@);
        assert(out@ =~= base + enc_board(board@, board.size as nat));
    }
}

/// Encode one message as its wire frame.
pub fn encode(m: &Message) -> (out: Vec<u8>)
    ensures
        out@ == encoded(model_of(*m)),
{
    let mut out: Vec<u8> = Vec::new();
    match m {
        Message::Preamble(c) => {
            out.push(0u8);
            push_board_enc(&mut out, &c.board);
            let t = turn_tag(c.turn);
            out.push(t);
            push_str_enc(&mut out, &c.opponent);
            let pt = piece_tag(c.piece);
            out.push(pt);
            proof {
                assert(out@ =~= encoded(model_of(*m)));
            }
        },
        Message::WaitTurn => {
            out.push(1u8);
            proof {
                assert(out@ =~= encoded(model_of(*m)));
            }
        },
        Message::YourTurn => {
            out.push(2u8);
            proof {
                assert(out@ =~= encoded(model_of(*m)));
            }
        },
        Message::Move((p, x, y)) => {
            out.push(3u8);
            let pt = piece_tag(*p);
            out.push(pt);
            push_int_le(&mut out, *x as u64, 8);
            push_int_le(&mut out, *y as u64, 8);
            proof {
                assert(out@ =~= encoded(model_of(*m)));
            }
        },
        Message::InvalidMove(e) => {
            out.push(4u8);
            push_str_enc(&mut out, e);
            proof {
                assert(out@ =~= encoded(model_of(*m)));
            }
        },
        Message::GameOver(e) => {
            out.push(5u8);
            match e {
                End::Victory(p) => {
                    out.push(0u8);
                    let pt = piece_tag(*p);
                    out.push(pt);
                },
                End::Draw => {
                    out.push(1u8);
                },
                End::Disconnect => {
                    out.push(2u8);
                },
            }
            proof {
                assert(out@ =~= encoded(model_of(*m)));
            }
        },
        Message::Status(st) => {
            out.push(6u8);
            push_int_le(&mut out, st.n_players as u64, 8);
            proof {
                assert(out@ =~= encoded(model_of(*m)));
            }
        },
    }
    out
}

/// The failure of decoding a buffer that is not exactly one frame.
#[derive(Clone, Copy, PartialEq, Eq, Structural, Debug)]
pub struct DecodeError;

/// Relies on char::from_u32: the character with the given code point, or
/// nothing exactly when the value is no Unicode scalar.
#[verifier::external_body]
fn char_from_u32(v: u32) -> (r: Option<char>)
    ensures
        r is Some <==> is_scalar_value(v as nat),
        r matches Some(c) ==> c == ((v as nat) as char) && c as nat == v as nat,
{
    char::from_u32(v)
}

/// Read one byte at `pos`.
fn read_byte(b: &Vec<u8>, pos: usize) -> (r: Result<(u8, usize), DecodeError>)
    ensures
        match r {
            Ok((t, p)) => sd_byte(b@, pos as int) == Some((t, p as int)),
            Err(_) => sd_byte(b@, pos as int) is None,
        },
{
    if pos < b.len() {
        Ok((b[pos], pos + 1))
    } else {
        Err(DecodeError)
    }
}

/// Read an eight-byte integer at `pos` that must fit the machine's word.
fn read_len(b: &Vec<u8>, pos: usize) -> (r: Result<(usize, usize), DecodeError>)
    ensures
        match r {
            Ok((v, p)) => sd_len(b@, pos as int) == Some((v as nat, p as int)),
            Err(_) => sd_len(b@, pos as int) is None,
        },
{
    if pos <= b.len() && b.len() - pos >= 8 {
        let v = read_int_le(b, pos, 8);
        if v <= usize::MAX as u64 {
            Ok((v as usize, pos + 8))
        } else {
            Err(DecodeError)
        }
    } else {
        Err(DecodeError)
    }
}

/// Read a piece tag at `pos`.
fn read_piece(b: &Vec<u8>, pos: usize) -> (r: Result<(Piece, usize), DecodeError>)
    ensures
        match r {
            Ok((pc, p)) => sd_piece(b@, pos as int) == Some((pc, p as int)),
            Err(_) => sd_piece(b@, pos as int) is None,
        },
{
    match read_byte(b, pos) {
        Ok((t, p)) => {
            if t == 0 {
                Ok((Piece::Nought, p))
            } else if t == 1 {
                Ok((Piece::Cross, p))
            } else if t == 2 {
                Ok((Piece::Empty, p))
            } else {
                Err(DecodeError)
            }
        },
        Err(e) => Err(e),
    }
}

/// Read a turn tag at `pos`.
fn read_turn(b: &Vec<u8>, pos: usize) -> (r: Result<(Turn, usize), DecodeError>)
    ensures
        match r {
            Ok((t, p)) => sd_turn(b@, pos as int) == Some((t, p as int)),
            Err(_) => sd_turn(b@, pos as int) is None,
        },
{
    match read_byte(b, pos) {
        Ok((t, p)) => {
            if t == 0 {
                Ok((Turn::Begin, p))
            } else if t == 1 {
                Ok((Turn::TurnStart, p))
            } else if t == 2 {
                Ok((Turn::TurnWait, p))
            } else if t == 3 {
                Ok((Turn::End, p))
            } else {
                Err(DecodeError)
            }
        },
        Err(e) => Err(e),
    }
}

/// Read an outcome at `pos`.
fn read_end(b: &Vec<u8>, pos: usize) -> (r: Result<(End, usize), DecodeError>)
    ensures
        match r {
            Ok((e, p)) => sd_end(b@, pos as int) == Some((e, p as int)),
            Err(_) => sd_end(b@, pos as int) is None,
        },
{
    match read_byte(b, pos) {
        Ok((t, p)) => {
            if t == 0 {
                match read_piece(b, p) {
                    Ok((pc, p2)) => Ok((End::Victory(pc), p2)),
                    Err(e) => Err(e),
                }
            } else if t == 1 {
                Ok((End::Draw, p))
            } else if t == 2 {
                Ok((End::Disconnect, p))
            } else {
                Err(DecodeError)
            }
        },
        Err(e) => Err(e),
    }
}

/// Read one character at `pos`.
fn read_char(b: &Vec<u8>, pos: usize) -> (r: Result<(char, usize), DecodeError>)
    ensures
        match r {
            Ok((c, p)) => sd_char(b@, pos as int) == Some((c, p as int)),
            Err(_) => sd_char(b@, pos as int) is None,
        },
{
    if pos <= b.len() && b.len() - pos >= 4 {
        let v = read_int_le(b, pos, 4);
        proof {
            lemma_dec_int_bound(b@.subrange(pos as int, pos as int + 4), 4);
            assert(pow256(4) == 0x100000000) by {
                assert(pow256(0) == 1);
                assert(pow256(1) == 256);
                assert(pow256(2) == 0x10000);
                assert(pow256(3) == 0x1000000);
            }
        }
        let v32 = v as u32;
        let ghost vs = dec_int(b@.subrange(pos as int, pos as int + 4), 4);
        match char_from_u32(v32) {
            Some(c) => {
                proof {
                    assert(v32 as nat == vs);
                    assert(c == (vs as char));
                }
                Ok((c, pos + 4))
            },
            None => Err(DecodeError),
        }
    } else {
        Err(DecodeError)
    }
}

/// Read a string at `pos`: a character count, then the characters.
fn read_string(b: &Vec<u8>, pos: usize) -> (r: Result<(String, usize), DecodeError>)
    ensures
        match r {
            Ok((s, p)) => sd_string(b@, pos as int) == Some((s@, p as int)),
            Err(_) => sd_string(b@, pos as int) is None,
        },
{
    let (n, p0) = match read_len(b, pos) {
        Ok(t) => t,
        Err(e) => {
            return Err(e);
        },
    };
    let mut acc = String::new();
    let mut cur = p0;
    let mut idx: usize = 0;
    proof {
        let whole = sd_chars(b@, p0 as int, n as nat);
        if whole is Some {
            assert(acc@ + whole->Some_0.0 =~= whole->Some_0.0);
        }
    }
    while idx < n
        invariant
            0 <= idx <= n,
            cur <= b@.len(),
            sd_len(b@, pos as int) == Some((n as nat, p0 as int)),
            sd_chars(b@, p0 as int, n as nat) == (match sd_chars(
                b@,
                cur as int,
                (n - idx) as nat,
            ) {
                Some((cs, e)) => Some((acc@ + cs, e)),
                None => None::<(Seq<char>, int)>,
            }),
        decreases n - idx,
    {
        match read_char(b, cur) {
            Ok((c, p2)) => {
                proof {
                    let rest = sd_chars(b@, p2 as int, (n - idx - 1) as nat);
                    if rest is Some {
                        assert(acc@ + (seq![c] + rest->Some_0.0) =~= acc@.push(c)
                            + rest->Some_0.0);
                    }
                }
                crate::text::push_char(&mut acc, c);
                cur = p2;
            },
            Err(e) => {
                return Err(e);
            },
        }
        idx += 1;
    }
    proof {
        assert(acc@ + Seq::<char>::empty() =~= acc@);
    }
    Ok((acc, cur))
}

/// Read one row at `pos`: a cell count, then the cells.
fn read_row(b: &Vec<u8>, pos: usize) -> (r: Result<(Vec<Piece>, usize), DecodeError>)
    ensures
        match r {
            Ok((row, p)) => sd_row(b@, pos as int) == Some((row@, p as int)),
            Err(_) => sd_row(b@, pos as int) is None,
        },
{
    let (n, p0) = match read_len(b, pos) {
        Ok(t) => t,
        Err(e) => {
            return Err(e);
        },
    };
    let mut acc: Vec<Piece> = Vec::new();
    let mut cur = p0;
    let mut idx: usize = 0;
    proof {
        let whole = sd_pieces(b@, p0 as int, n as nat);
        if whole is Some {
            assert(acc@ + whole->Some_0.0 =~= whole->Some_0.0);
        }
    }
    while idx < n
        invariant
            0 <= idx <= n,
            cur <= b@.len(),
            sd_len(b@, pos as int) == Some((n as nat, p0 as int)),
            sd_pieces(b@, p0 as int, n as nat) == (match sd_pieces(
                b@,
                cur as int,
                (n - idx) as nat,
            ) {
                Some((ps, e)) => Some((acc@ + ps, e)),
                None => None::<(Seq<Piece>, int)>,
            }),
        decreases n - idx,
    {
        match read_piece(b, cur) {
            Ok((pc, p2)) => {
                proof {
                    let rest = sd_pieces(b@, p2 as int, (n - idx - 1) as nat);
                    if rest is Some {
                        assert(acc@ + (seq![pc] + rest->Some_0.0) =~= acc@.push(pc)
                            + rest->Some_0.0);
                    }
                }
                acc.push(pc);
                cur = p2;
            },
            Err(e) => {
                return Err(e);
            },
        }
        idx += 1;
    }
    proof {
        assert(acc@ + Seq::<Piece>::empty() =~= acc@);
    }
    Ok((acc, cur))
}

/// Read a board at `pos`: its declared size, a row count, then the rows.
fn read_board(b: &Vec<u8>, pos: usize) -> (r: Result<
    (crate::tic_tac_toe::Board, usize),
    DecodeError,
>)
    ensures
        match r {
            Ok((board, p)) => sd_board(b@, pos as int) == Some(
                ((board.size as nat, board@), p as int),
            ),
            Err(_) => sd_board(b@, pos as int) is None,
        },
{
    let (size, p0) = match read_len(b, pos) {
        Ok(t) => t,
        Err(e) => {
            return Err(e);
        },
    };
    let (nrows, p1) = match read_len(b, p0) {
        Ok(t) => t,
        Err(e) => {
            return Err(e);
        },
    };
    let mut acc: Vec<Vec<Piece>> = Vec::new();
    let ghost mut gacc = Seq::<Seq<Piece>>::empty();
    let mut cur = p1;
    let mut idx: usize = 0;
    proof {
        let whole = sd_rows(b@, p1 as int, nrows as nat);
        if whole is Some {
            assert(gacc + whole->Some_0.0 =~= whole->Some_0.0);
        }
    }
    while idx < nrows
        invariant
            0 <= idx <= nrows,
            sd_len(b@, pos as int) == Some((size as nat, p0 as int)),
            sd_len(b@, p0 as int) == Some((nrows as nat, p1 as int)),
            gacc.len() == acc@.len(),
            forall|i: int| 0 <= i < gacc.len() ==> gacc[i] == (#[trigger] acc@[i])@,
            sd_rows(b@, p1 as int, nrows as nat) == (match sd_rows(
                b@,
                cur as int,
                (nrows - idx) as nat,
            ) {
                Some((rows, e)) => Some((gacc + rows, e)),
                None => None::<(Seq<Seq<Piece>>, int)>,
            }),
        decreases nrows - idx,
    {
        match read_row(b, cur) {
            Ok((row, p2)) => {
                let ghost before = gacc;
                let ghost rest = sd_rows(b@, p2 as int, (nrows - idx - 1) as nat);
                acc.push(row);
                cur = p2;
                proof {
                    gacc = gacc.push(row@);
                    if rest is Some {
                        assert(before + (seq![row@] + rest->Some_0.0) =~= before.push(row@)
                            + rest->Some_0.0);
                    }
                }
            },
            Err(e) => {
                return Err(e);
            },
        }
        idx += 1;
    }
    let board = crate::tic_tac_toe::Board { grid: acc, size };
    proof {
        assert(board@ =~= gacc);
        assert(gacc + Seq::<Seq<Piece>>::empty() =~= gacc);
    }
    Ok((board, cur))
}

/// Decode one wire frame back into a message. Succeeds exactly when the
/// buffer is one well-formed frame, and then returns the message that frame
/// denotes.
pub fn decode(b: &Vec<u8>) -> (r: Result<Message, DecodeError>)
    ensures
        match r {
            Ok(m) => spec_decode(b@) == Some(model_of(m)),
            Err(_) => spec_decode(b@) is None,
        },
{
    let (tag, p) = match read_byte(b, 0) {
        Ok(t) => t,
        Err(e) => {
            return Err(e);
        },
    };
    if tag == 0 {
        let (board, p1) = match read_board(b, p) {
            Ok(t) => t,
            Err(e) => {
                return Err(e);
            },
        };
        let (turn, p2) = match read_turn(b, p1) {
            Ok(t) => t,
            Err(e) => {
                return Err(e);
            },
        };
        let (opponent, p3) = match read_string(b, p2) {
            Ok(t) => t,
            Err(e) => {
                return Err(e);
            },
        };
        let (piece, p4) = match read_piece(b, p3) {
            Ok(t) => t,
            Err(e) => {
                return Err(e);
            },
        };
        if p4 == b.len() {
            Ok(
                Message::Preamble(
                    crate::tic_tac_toe::ClientState { board, turn, opponent, piece },
                ),
            )
        } else {
            Err(DecodeError)
        }
    } else if tag == 1 {
        if p == b.len() {
            Ok(Message::WaitTurn)
        } else {
            Err(DecodeError)
        }
    } else if tag == 2 {
        if p == b.len() {
            Ok(Message::YourTurn)
        } else {
            Err(DecodeError)
        }
    } else if tag == 3 {
        let (piece, p1) = match read_piece(b, p) {
            Ok(t) => t,
            Err(e) => {
                return Err(e);
            },
        };
        let (x, p2) = match read_len(b, p1) {
            Ok(t) => t,
            Err(e) => {
                return Err(e);
            },
        };
        let (y, p3) = match read_len(b, p2) {
            Ok(t) => t,
            Err(e) => {
                return Err(e);
            },
        };
        if p3 == b.len() {
            Ok(Message::Move((piece, x, y)))
        } else {
            Err(DecodeError)
        }
    } else if tag == 4 {
        let (reason, p1) = match read_string(b, p) {
            Ok(t) => t,
            Err(e) => {
                return Err(e);
            },
        };
        if p1 == b.len() {
            Ok(Message::InvalidMove(reason))
        } else {
            Err(DecodeError)
        }
    } else if tag == 5 {
        let (end, p1) = match read_end(b, p) {
            Ok(t) => t,
            Err(e) => {
                return Err(e);
            },
        };
        if p1 == b.len() {
            Ok(Message::GameOver(end))
        } else {
            Err(DecodeError)
        }
    } else if tag == 6 {
        let (n_players, p1) = match read_len(b, p) {
            Ok(t) => t,
            Err(e) => {
                return Err(e);
            },
        };
        if p1 == b.len() {
            Ok(Message::Status(crate::ServerStatus { n_players }))
        } else {
            Err(DecodeError)
        }
    } else {
        Err(DecodeError)
    }
}

/// A character the codec can carry exactly: its code point is a Unicode
/// scalar, and re-reading that code point yields the character back.
pub open spec fn valid_char(c: char) -> bool {
    is_scalar_value(c as nat) && ((c as nat) as char) == c
}

/// Text made of characters the codec can carry exactly.
pub open spec fn valid_chars(s: Seq<char>) -> bool {
    forall|i: int| 0 <= i < s.len() ==> valid_char(#[trigger] s[i])
}

/// A message shape the codec carries exactly: every count fits the machine's
/// word and every character is a Unicode scalar.
pub open spec fn model_wf(m: MessageModel) -> bool {
    match m {
        MessageModel::Preamble { grid, size, turn, opponent, piece } => {
            &&& size <= usize::MAX
            &&& grid.len() <= usize::MAX
            &&& forall|i: int| 0 <= i < grid.len() ==> (#[trigger] grid[i]).len() <= usize::MAX
            &&& opponent.len() <= usize::MAX
            &&& valid_chars(opponent)
        },
        MessageModel::WaitTurn => true,
        MessageModel::YourTurn => true,
        MessageModel::Move { piece, x, y } => x <= usize::MAX && y <= usize::MAX,
        MessageModel::InvalidMove { reason } => reason.len() <= usize::MAX && valid_chars(
            reason,
        ),
        MessageModel::GameOver { end } => true,
        MessageModel::Status { n_players } => n_players <= usize::MAX,
    }
}

/// The machine's word is at most eight bytes wide.
proof fn lemma_usize_fits()
    ensures
        (usize::MAX as nat) < pow256(8),
{
    lemma_pow256_8();
}

/// Character encodings take four bytes per character.
proof fn lemma_enc_chars_len(s: Seq<char>)
    ensures
        enc_chars(s).len() == 4 * s.len(),
    decreases s.len(),
{
    if s.len() > 0 {
        lemma_enc_int_len(s[0] as nat, 4);
        lemma_enc_chars_len(s.drop_first());
    }
}

/// Row encodings take one byte per cell.
proof fn lemma_enc_pieces_len(row: Seq<Piece>)
    ensures
        enc_pieces(row).len() == row.len(),
    decreases row.len(),
{
    if row.len() > 0 {
        lemma_enc_pieces_len(row.drop_first());
    }
}

/// Reading a fixed-width integer off its encoding yields the value written.
proof fn lemma_sd_int_reads(b: Seq<u8>, pos: int, v: nat, count: nat)
    requires
        0 <= pos,
        pos + count <= b.len(),
        b.subrange(pos, pos + count) == enc_int(v, count),
        v < pow256(count),
    ensures
        sd_int(b, pos, count) == Some((v, pos + count)),
{
    lemma_dec_enc(v, count);
}

/// Reading a length off its encoding yields the length written.
proof fn lemma_sd_len_reads(b: Seq<u8>, pos: int, v: nat)
    requires
        0 <= pos,
        pos + 8 <= b.len(),
        b.subrange(pos, pos + 8) == enc_int(v, 8),
        v <= usize::MAX,
    ensures
        sd_len(b, pos) == Some((v, pos + 8)),
{
    lemma_usize_fits();
    lemma_sd_int_reads(b, pos, v, 8);
}

/// Reading characters off their encoding yields the text written.
proof fn lemma_sd_chars_reads(b: Seq<u8>, pos: int, s: Seq<char>)
    requires
        0 <= pos,
        pos + 4 * s.len() <= b.len(),
        b.subrange(pos, pos + 4 * s.len()) == enc_chars(s),
        valid_chars(s),
    ensures
        sd_chars(b, pos, s.len()) == Some((s, pos + 4 * s.len())),
    decreases s.len(),
{
    if s.len() == 0 {
        assert(s =~= Seq::<char>::empty());
    } else {
        let c0 = s[0];
        let code = c0 as nat;
        lemma_enc_int_len(code, 4);
        lemma_enc_chars_len(s.drop_first());
        assert(b.subrange(pos, pos + 4) =~= enc_int(code, 4));
        assert(code < pow256(4)) by {
            assert(pow256(4) == 0x100000000) by {
                assert(pow256(0) == 1);
                assert(pow256(1) == 256);
                assert(pow256(2) == 0x10000);
                assert(pow256(3) == 0x1000000);
            }
        }
        lemma_sd_int_reads(b, pos, code, 4);
        assert(sd_char(b, pos) == Some((c0, pos + 4)));
        let d = s.drop_first();
        let full = b.subrange(pos, pos + 4 * s.len());
        assert(full.subrange(4, full.len() as int) =~= enc_chars(d));
        assert(b.subrange(pos + 4, pos + 4 + 4 * d.len()) =~= full.subrange(
            4,
            full.len() as int,
        ));
        lemma_sd_chars_reads(b, pos + 4, d);
        assert(seq![c0] + s.drop_first() =~= s);
    }
}

/// Reading cells off their encoding yields the row written.
proof fn lemma_sd_pieces_reads(b: Seq<u8>, pos: int, row: Seq<Piece>)
    requires
        0 <= pos,
        pos + row.len() <= b.len(),
        b.subrange(pos, pos + row.len()) == enc_pieces(row),
    ensures
        sd_pieces(b, pos, row.len()) == Some((row, pos + row.len())),
    decreases row.len(),
{
    if row.len() == 0 {
        assert(row =~= Seq::<Piece>::empty());
    } else {
        let p0 = row[0];
        lemma_enc_pieces_len(row.drop_first());
        assert(b[pos] == enc_pieces(row)[0]);
        assert(b[pos] == piece_byte(p0));
        assert(sd_piece(b, pos) == Some((p0, pos + 1)));
        let d = row.drop_first();
        let full = b.subrange(pos, pos + row.len());
        assert(full.subrange(1, full.len() as int) =~= enc_pieces(d));
        assert(b.subrange(pos + 1, pos + 1 + d.len()) =~= full.subrange(1, full.len() as int));
        lemma_sd_pieces_reads(b, pos + 1, d);
        assert(seq![p0] + row.drop_first() =~= row);
    }
}

/// Reading one row off its encoding yields the row written.
proof fn lemma_sd_row_reads(b: Seq<u8>, pos: int, row: Seq<Piece>)
    requires
        0 <= pos,
        pos + enc_row(row).len() <= b.len(),
        b.subrange(pos, pos + enc_row(row).len()) == enc_row(row),
        row.len() <= usize::MAX,
    ensures
        enc_row(row).len() == 8 + row.len(),
        sd_row(b, pos) == Some((row, pos + enc_row(row).len())),
{
    lemma_enc_int_len(row.len(), 8);
    lemma_enc_pieces_len(row);
    assert(b.subrange(pos, pos + 8) =~= enc_int(row.len(), 8));
    lemma_sd_len_reads(b, pos, row.len());
    let full = b.subrange(pos, pos + enc_row(row).len());
    assert(full.subrange(8, full.len() as int) =~= enc_pieces(row));
    assert(b.subrange(pos + 8, pos + 8 + row.len()) =~= full.subrange(8, full.len() as int));
    lemma_sd_pieces_reads(b, pos + 8, row);
}

/// Reading rows off their encoding yields the grid written.
proof fn lemma_sd_rows_reads(b: Seq<u8>, pos: int, rows: Seq<Seq<Piece>>)
    requires
        0 <= pos,
        pos + enc_rows(rows).len() <= b.len(),
        b.subrange(pos, pos + enc_rows(rows).len()) == enc_rows(rows),
        forall|i: int| 0 <= i < rows.len() ==> (#[trigger] rows[i]).len() <= usize::MAX,
    ensures
        sd_rows(b, pos, rows.len()) == Some((rows, pos + enc_rows(rows).len())),
    decreases rows.len(),
{
    if rows.len() == 0 {
        assert(rows =~= Seq::<Seq<Piece>>::empty());
    } else {
        let r0 = rows[0];
        let rest = rows.drop_first();
        let l0 = enc_row(r0).len();
        assert(enc_rows(rows) == enc_row(r0) + enc_rows(rest));
        assert(b.subrange(pos, pos + l0) =~= enc_row(r0));
        lemma_sd_row_reads(b, pos, r0);
        let full = b.subrange(pos, pos + enc_rows(rows).len());
        assert(full.subrange(l0 as int, full.len() as int) =~= enc_rows(rest));
        assert(b.subrange(pos + l0, pos + l0 + enc_rows(rest).len()) =~= full.subrange(
            l0 as int,
            full.len() as int,
        ));
        lemma_sd_rows_reads(b, pos + l0, rest);
        assert(seq![r0] + rest =~= rows);
    }
}

/// Law: every well-formed message shape survives the codec unchanged — what
/// `encode` writes, `decode` reads back as the same message.
#[verifier::rlimit(60)]
pub proof fn lemma_decode_encode(m: MessageModel)
    requires
        model_wf(m),
    ensures
        spec_decode(encoded(m)) == Some(m),
{
    let b = encoded(m);
    lemma_usize_fits();
    match m {
        MessageModel::Preamble { grid, size, turn, opponent, piece } => {
            lemma_enc_int_len(size, 8);
            lemma_enc_int_len(grid.len(), 8);
            lemma_enc_int_len(opponent.len(), 8);
            lemma_enc_chars_len(opponent);
            let lr = enc_rows(grid).len() as int;
            let ol = opponent.len() as int;
            assert(b[0] == 0);
            assert(sd_byte(b, 0) == Some((0u8, 1int)));
            // the board: size, row count, rows
            assert(b.subrange(1, 9) =~= enc_int(size, 8));
            lemma_sd_len_reads(b, 1, size);
            assert(b.subrange(9, 17) =~= enc_int(grid.len(), 8));
            lemma_sd_len_reads(b, 9, grid.len());
            assert(b.subrange(17, 17 + lr) =~= enc_rows(grid));
            lemma_sd_rows_reads(b, 17, grid);
            assert(sd_board(b, 1) == Some(((size, grid), 17 + lr)));
            // the turn tag
            assert(b[17 + lr] == turn_byte(turn));
            assert(sd_turn(b, 17 + lr) == Some((turn, 18 + lr)));
            // the opponent string
            assert(b.subrange(18 + lr, 26 + lr) =~= enc_int(opponent.len(), 8));
            lemma_sd_len_reads(b, 18 + lr, opponent.len());
            assert(b.subrange(26 + lr, 26 + lr + 4 * ol) =~= enc_chars(opponent));
            lemma_sd_chars_reads(b, 26 + lr, opponent);
            // the assigned piece, and nothing after it
            let pp = 26 + lr + 4 * ol;
            assert(b[pp] == piece_byte(piece));
            assert(sd_piece(b, pp) == Some((piece, pp + 1)));
            assert(b.len() == pp + 1);
        },
        MessageModel::WaitTurn => {
            assert(b[0] == 1);
            assert(sd_byte(b, 0) == Some((1u8, 1int)));
            assert(b.len() == 1);
        },
        MessageModel::YourTurn => {
            assert(b[0] == 2);
            assert(sd_byte(b, 0) == Some((2u8, 1int)));
            assert(b.len() == 1);
        },
        MessageModel::Move { piece, x, y } => {
            lemma_enc_int_len(x, 8);
            lemma_enc_int_len(y, 8);
            assert(b[0] == 3);
            assert(sd_byte(b, 0) == Some((3u8, 1int)));
            assert(b[1] == piece_byte(piece));
            assert(sd_piece(b, 1) == Some((piece, 2int)));
            assert(b.subrange(2, 10) =~= enc_int(x, 8));
            lemma_sd_len_reads(b, 2, x);
            assert(b.subrange(10, 18) =~= enc_int(y, 8));
            lemma_sd_len_reads(b, 10, y);
            assert(b.len() == 18);
        },
        MessageModel::InvalidMove { reason } => {
            lemma_enc_int_len(reason.len(), 8);
            lemma_enc_chars_len(reason);
            assert(b[0] == 4);
            assert(sd_byte(b, 0) == Some((4u8, 1int)));
            assert(b.subrange(1, 9) =~= enc_int(reason.len(), 8));
            lemma_sd_len_reads(b, 1, reason.len());
            assert(b.subrange(9, 9 + 4 * (reason.len() as int)) =~= enc_chars(reason));
            lemma_sd_chars_reads(b, 9, reason);
            assert(b.len() == 9 + 4 * reason.len());
        },
        MessageModel::GameOver { end } => {
            assert(b[0] == 5);
            assert(sd_byte(b, 0) == Some((5u8, 1int)));
            match end {
                End::Victory(p) => {
                    assert(b[1] == 0);
                    assert(b[2] == piece_byte(p));
                    assert(sd_piece(b, 2) == Some((p, 3int)));
                    assert(b.len() == 3);
                },
                End::Draw => {
                    assert(b[1] == 1);
                    assert(b.len() == 2);
                },
                End::Disconnect => {
                    assert(b[1] == 2);
                    assert(b.len() == 2);
                },
            }
        },
        MessageModel::Status { n_players } => {
            lemma_enc_int_len(n_players, 8);
            assert(b[0] == 6);
            assert(sd_byte(b, 0) == Some((6u8, 1int)));
            assert(b.subrange(1, 9) =~= enc_int(n_players, 8));
            lemma_sd_len_reads(b, 1, n_players);
            assert(b.len() == 9);
        },
    }
}

/// Writing the value read from `count` bytes yields those bytes back.
proof fn lemma_enc_dec(s: Seq<u8>, count: nat)
    requires
        s.len() == count,
    ensures
        enc_int(dec_int(s, count), count) == s,
    decreases count,
{
    if count > 0 {
        let v = dec_int(s, count);
        assert(v == s[0] + 256 * dec_int(s.drop_first(), (count - 1) as nat));
        assert(v % 256 == s[0]);
        assert(v / 256 == dec_int(s.drop_first(), (count - 1) as nat));
        lemma_enc_dec(s.drop_first(), (count - 1) as nat);
        assert(enc_int(v, count) =~= s);
    } else {
        assert(enc_int(0, 0) =~= s);
    }
}

/// A read integer stands for exactly the bytes it was read from.
proof fn lemma_sd_int_sound(b: Seq<u8>, pos: int, count: nat)
    requires
        sd_int(b, pos, count) is Some,
    ensures
        ({
            let (v, p) = sd_int(b, pos, count)->Some_0;
            &&& p == pos + count
            &&& v < pow256(count)
            &&& b.subrange(pos, pos + count) == enc_int(v, count)
        }),
{
    let sub = b.subrange(pos, pos + count);
    lemma_dec_int_bound(sub, count);
    lemma_enc_dec(sub, count);
}

/// A read length stands for exactly the bytes it was read from.
proof fn lemma_sd_len_sound(b: Seq<u8>, pos: int)
    requires
        sd_len(b, pos) is Some,
    ensures
        ({
            let (v, p) = sd_len(b, pos)->Some_0;
            &&& p == pos + 8
            &&& v <= usize::MAX
            &&& b.subrange(pos, pos + 8) == enc_int(v, 8)
        }),
{
    lemma_sd_int_sound(b, pos, 8);
}

/// A read character stands for exactly the bytes it was read from.
proof fn lemma_sd_char_sound(b: Seq<u8>, pos: int)
    requires
        sd_char(b, pos) is Some,
    ensures
        ({
            let (c, p) = sd_char(b, pos)->Some_0;
            &&& p == pos + 4
            &&& valid_char(c)
            &&& b.subrange(pos, pos + 4) == enc_int(c as nat, 4)
        }),
{
    lemma_sd_int_sound(b, pos, 4);
    let (v, _) = sd_int(b, pos, 4)->Some_0;
    assert((v as char) as nat == v);
}

/// Read characters stand for exactly the bytes they were read from.
proof fn lemma_sd_chars_sound(b: Seq<u8>, pos: int, count: nat)
    requires
        0 <= pos <= b.len(),
        sd_chars(b, pos, count) is Some,
    ensures
        ({
            let (cs, e) = sd_chars(b, pos, count)->Some_0;
            &&& cs.len() == count
            &&& e == pos + 4 * count
            &&& e <= b.len()
            &&& valid_chars(cs)
            &&& b.subrange(pos, e) == enc_chars(cs)
        }),
    decreases count,
{
    let (cs, e) = sd_chars(b, pos, count)->Some_0;
    if count == 0 {
        assert(cs =~= Seq::<char>::empty());
        assert(b.subrange(pos, pos) =~= enc_chars(cs));
    } else {
        lemma_sd_char_sound(b, pos);
        let (c, p2) = sd_char(b, pos)->Some_0;
        lemma_sd_chars_sound(b, p2, (count - 1) as nat);
        let (cs2, _) = sd_chars(b, p2, (count - 1) as nat)->Some_0;
        assert(cs == seq![c] + cs2);
        assert(cs[0] == c);
        assert(cs.drop_first() =~= cs2);
        assert(b.subrange(pos, e) =~= b.subrange(pos, pos + 4) + b.subrange(pos + 4, e));
        assert(enc_chars(cs) == enc_int(c as nat, 4) + enc_chars(cs2));
    }
}

/// A read piece tag stands for exactly the byte it was read from.
proof fn lemma_sd_piece_sound(b: Seq<u8>, pos: int)
    requires
        sd_piece(b, pos) is Some,
    ensures
        ({
            let (pc, p) = sd_piece(b, pos)->Some_0;
            &&& p == pos + 1
            &&& 0 <= pos < b.len()
            &&& b[pos] == piece_byte(pc)
        }),
{
}

/// Read cells stand for exactly the bytes they were read from.
proof fn lemma_sd_pieces_sound(b: Seq<u8>, pos: int, count: nat)
    requires
        0 <= pos <= b.len(),
        sd_pieces(b, pos, count) is Some,
    ensures
        ({
            let (ps, e) = sd_pieces(b, pos, count)->Some_0;
            &&& ps.len() == count
            &&& e == pos + count
            &&& e <= b.len()
            &&& b.subrange(pos, e) == enc_pieces(ps)
        }),
    decreases count,
{
    let (ps, e) = sd_pieces(b, pos, count)->Some_0;
    if count == 0 {
        assert(ps =~= Seq::<Piece>::empty());
        assert(b.subrange(pos, pos) =~= enc_pieces(ps));
    } else {
        lemma_sd_piece_sound(b, pos);
        let (pc, p2) = sd_piece(b, pos)->Some_0;
        lemma_sd_pieces_sound(b, p2, (count - 1) as nat);
        let (ps2, _) = sd_pieces(b, p2, (count - 1) as nat)->Some_0;
        assert(ps == seq![pc] + ps2);
        assert(ps[0] == pc);
        assert(ps.drop_first() =~= ps2);
        assert(b.subrange(pos, e) =~= b.subrange(pos, pos + 1) + b.subrange(pos + 1, e));
        assert(b.subrange(pos, pos + 1) =~= seq![piece_byte(pc)]);
        assert(enc_pieces(ps) == seq![piece_byte(pc)] + enc_pieces(ps2));
    }
}

/// A read row stands for exactly the bytes it was read from.
proof fn lemma_sd_row_sound(b: Seq<u8>, pos: int)
    requires
        sd_row(b, pos) is Some,
    ensures
        ({
            let (row, e) = sd_row(b, pos)->Some_0;
            &&& row.len() <= usize::MAX
            &&& pos + 8 <= e == pos + enc_row(row).len()
            &&& e <= b.len()
            &&& enc_row(row).len() == 8 + row.len()
            &&& b.subrange(pos, e) == enc_row(row)
        }),
{
    lemma_sd_len_sound(b, pos);
    let (n, p2) = sd_len(b, pos)->Some_0;
    lemma_sd_pieces_sound(b, p2, n);
    let (row, e) = sd_row(b, pos)->Some_0;
    lemma_enc_int_len(row.len(), 8);
    lemma_enc_pieces_len(row);
    assert(b.subrange(pos, e) =~= b.subrange(pos, pos + 8) + b.subrange(pos + 8, e));
}

/// Read rows stand for exactly the bytes they were read from.
proof fn lemma_sd_rows_sound(b: Seq<u8>, pos: int, count: nat)
    requires
        0 <= pos <= b.len(),
        sd_rows(b, pos, count) is Some,
    ensures
        ({
            let (rows, e) = sd_rows(b, pos, count)->Some_0;
            &&& rows.len() == count
            &&& pos <= e <= b.len()
            &&& e == pos + enc_rows(rows).len()
            &&& forall|i: int| 0 <= i < rows.len() ==> (#[trigger] rows[i]).len() <= usize::MAX
            &&& b.subrange(pos, e) == enc_rows(rows)
        }),
    decreases count,
{
    let (rows, e) = sd_rows(b, pos, count)->Some_0;
    if count == 0 {
        assert(rows =~= Seq::<Seq<Piece>>::empty());
        assert(b.subrange(pos, pos) =~= enc_rows(rows));
    } else {
        lemma_sd_row_sound(b, pos);
        let (r0, p2) = sd_row(b, pos)->Some_0;
        lemma_sd_rows_sound(b, p2, (count - 1) as nat);
        let (rows2, _) = sd_rows(b, p2, (count - 1) as nat)->Some_0;
        assert(rows == seq![r0] + rows2);
        assert(rows[0] == r0);
        assert(rows.drop_first() =~= rows2);
        assert(b.subrange(pos, e) =~= b.subrange(pos, p2) + b.subrange(p2, e));
        assert(enc_rows(rows) == enc_row(r0) + enc_rows(rows2));
    }
}

/// The preamble case of [`lemma_encode_decode`].
#[verifier::rlimit(60)]
proof fn lemma_encode_decode_preamble(b: Seq<u8>)
    requires
        spec_decode(b) is Some,
        sd_byte(b, 0) matches Some((tag, _)) && tag == 0,
    ensures
        model_wf(spec_decode(b)->Some_0),
        encoded(spec_decode(b)->Some_0) == b,
{
    let m = spec_decode(b)->Some_0;
    let (tag, p) = sd_byte(b, 0)->Some_0;
    assert(b.subrange(0, 1) =~= seq![tag]);
    let ((size, grid), p1) = sd_board(b, p)->Some_0;
    let (nsize, ps) = sd_len(b, p)->Some_0;
    lemma_sd_len_sound(b, p);
    let (nrows, pr) = sd_len(b, ps)->Some_0;
    lemma_sd_len_sound(b, ps);
    lemma_sd_rows_sound(b, pr, nrows);
    lemma_enc_int_len(size, 8);
    lemma_enc_int_len(grid.len(), 8);
    let (turn, p2) = sd_turn(b, p1)->Some_0;
    assert(b.subrange(p1, p2) =~= seq![turn_byte(turn)]);
    let (nop, p2s) = sd_len(b, p2)->Some_0;
    lemma_sd_len_sound(b, p2);
    lemma_sd_chars_sound(b, p2s, nop);
    let (opponent, p3) = sd_string(b, p2)->Some_0;
    lemma_enc_int_len(opponent.len(), 8);
    let (piece, p4) = sd_piece(b, p3)->Some_0;
    lemma_sd_piece_sound(b, p3);
    assert(b.subrange(p3, p4) =~= seq![piece_byte(piece)]);
    assert(b =~= b.subrange(0, 1) + b.subrange(1, ps) + b.subrange(ps, pr) + b.subrange(
        pr,
        p1,
    ) + b.subrange(p1, p2) + b.subrange(p2, p2s) + b.subrange(p2s, p3) + b.subrange(p3, p4));
    assert(encoded(m) == seq![0u8] + enc_int(size, 8) + enc_int(grid.len(), 8) + enc_rows(
        grid,
    ) + seq![turn_byte(turn)] + enc_int(opponent.len(), 8) + enc_chars(opponent)
        + seq![piece_byte(piece)]);
    assert(encoded(m) =~= b);
}

/// Law: a buffer that decodes at all is exactly the encoding of the message
/// it decodes to, and that message is well formed — together with the
/// round-trip law, frames and well-formed message shapes correspond one to
/// one.
#[verifier::rlimit(60)]
pub proof fn lemma_encode_decode(b: Seq<u8>)
    requires
        spec_decode(b) is Some,
    ensures
        model_wf(spec_decode(b)->Some_0),
        encoded(spec_decode(b)->Some_0) == b,
{
    let m = spec_decode(b)->Some_0;
    let (tag, p) = sd_byte(b, 0)->Some_0;
    assert(b.subrange(0, 1) =~= seq![tag]);
    if tag == 0 {
        lemma_encode_decode_preamble(b);
    } else if tag == 1 {
        assert(b =~= seq![1u8]);
    } else if tag == 2 {
        assert(b =~= seq![2u8]);
    } else if tag == 3 {
        let (piece, p1) = sd_piece(b, p)->Some_0;
        lemma_sd_piece_sound(b, p);
        assert(b.subrange(p, p1) =~= seq![piece_byte(piece)]);
        let (x, p2) = sd_len(b, p1)->Some_0;
        lemma_sd_len_sound(b, p1);
        let (y, p3) = sd_len(b, p2)->Some_0;
        lemma_sd_len_sound(b, p2);
        lemma_enc_int_len(x, 8);
        lemma_enc_int_len(y, 8);
        assert(b =~= b.subrange(0, 1) + b.subrange(p, p1) + b.subrange(p1, p2) + b.subrange(
            p2,
            p3,
        ));
        assert(encoded(m) =~= b);
    } else if tag == 4 {
        let (n, ps) = sd_len(b, p)->Some_0;
        lemma_sd_len_sound(b, p);
        lemma_sd_chars_sound(b, ps, n);
        let (reason, p1) = sd_string(b, p)->Some_0;
        lemma_enc_int_len(reason.len(), 8);
        assert(b =~= b.subrange(0, 1) + b.subrange(p, ps) + b.subrange(ps, p1));
        assert(encoded(m) =~= b);
    } else if tag == 5 {
        let (end, p1) = sd_end(b, p)->Some_0;
        let (t, pe) = sd_byte(b, p)->Some_0;
        match end {
            End::Victory(pc) => {
                lemma_sd_piece_sound(b, pe);
                assert(b =~= seq![5u8, 0u8, piece_byte(pc)]);
            },
            End::Draw => {
                assert(b =~= seq![5u8, 1u8]);
            },
            End::Disconnect => {
                assert(b =~= seq![5u8, 2u8]);
            },
        }
        assert(encoded(m) =~= b);
    } else {
        let (n_players, p1) = sd_len(b, p)->Some_0;
        lemma_sd_len_sound(b, p);
        lemma_enc_int_len(n_players, 8);
        assert(b =~= b.subrange(0, 1) + b.subrange(p, p1));
        assert(encoded(m) =~= b);
    }
}

/// `pow256` grows with the exponent.
proof fn lemma_pow256_le(c1: nat, c2: nat)
    requires
        c1 <= c2,
    ensures
        pow256(c1) <= pow256(c2),
    decreases c2,
{
    if c2 > 0 && c1 < c2 {
        lemma_pow256_le(c1, (c2 - 1) as nat);
    }
}

} // verus!
