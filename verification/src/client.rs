//! The client's side of a match: mirroring the server's confirmed messages
//! into a [`ClientState`], parsing a typed move, and the little status line
//! holder used by interactive front ends.
use vstd::prelude::*;

use crate::tic_tac_toe::{Board, ClientState, Message, Turn};

verus! {

/// Mirror one server message into the client's view of the match.
///
/// A preamble replaces the whole view and opens a fresh board of the
/// announced size; turn messages move the turn tag; a move is replayed onto
/// the mirrored board (a placement outside the mirrored grid is ignored, the
/// server never confirms one); a rejection hands the turn back; game over
/// closes the match. Anything else leaves the view unchanged.
pub fn apply_message(state: &mut ClientState, msg: Message)
    ensures
        match msg {
            Message::Preamble(c) => {
                &&& final(state).board.wf()
                &&& final(state).board.size == c.board.size
                &&& forall|y: int, x: int|
                    0 <= y < c.board.size && 0 <= x < c.board.size
                        ==> final(state).board@[y][x] == crate::tic_tac_toe::Piece::Empty
                &&& final(state).turn == c.turn
                &&& final(state).opponent == c.opponent
                &&& final(state).piece == c.piece
            },
            Message::WaitTurn => {
                &&& final(state).turn == Turn::TurnWait
                &&& final(state).board == old(state).board
                &&& final(state).opponent == old(state).opponent
                &&& final(state).piece == old(state).piece
            },
            Message::YourTurn => {
                &&& final(state).turn == Turn::TurnStart
                &&& final(state).board == old(state).board
                &&& final(state).opponent == old(state).opponent
                &&& final(state).piece == old(state).piece
            },
            Message::Move(t) => {
                let p = t.0;
                let x = t.1;
                let y = t.2;
                &&& (if y < old(state).board@.len() && x < old(state).board@[y as int].len() {
                    final(state).board@ == old(state).board@.update(
                        y as int,
                        old(state).board@[y as int].update(x as int, p),
                    )
                } else {
                    final(state).board == old(state).board
                })
                &&& final(state).board.size == old(state).board.size
                &&& final(state).turn == old(state).turn
                &&& final(state).opponent == old(state).opponent
                &&& final(state).piece == old(state).piece
            },
            Message::InvalidMove(_) => {
                &&& final(state).turn == Turn::TurnStart
                &&& final(state).board == old(state).board
                &&& final(state).opponent == old(state).opponent
                &&& final(state).piece == old(state).piece
            },
            Message::GameOver(_) => {
                &&& final(state).turn == Turn::End
                &&& final(state).board == old(state).board
                &&& final(state).opponent == old(state).opponent
                &&& final(state).piece == old(state).piece
            },
            Message::Status(_) => *final(state) == *old(state),
        },
{
    match msg {
        Message::Preamble(c) => {
            let size = c.board.size;
            *state = c;
            state.board = Board::new(size);
        },
        Message::WaitTurn => {
            state.turn = Turn::TurnWait;
        },
        Message::YourTurn => {
            state.turn = Turn::TurnStart;
        },
        Message::Move((p, x, y)) => {
            if y < state.board.grid.len() {
                proof {
                    assert(state.board@[y as int] == state.board.grid@[y as int]@);
                }
                if x < state.board.grid[y].len() {
                    state.board.place(p, x, y);
                }
            }
        },
        Message::InvalidMove(_) => {
            state.turn = Turn::TurnStart;
        },
        Message::GameOver(_) => {
            state.turn = Turn::End;
        },
        Message::Status(_) => {},
    }
}

/// One of the five ASCII whitespace characters that separate typed tokens.
pub open spec fn is_space(c: char) -> bool {
    c == ' ' || c == '\t' || c == '\n' || c == '\r' || c == '\u{000C}'
}

/// The first index at or after `i` holding a non-space character, or the end.
pub open spec fn skip_spaces(s: Seq<char>, i: int) -> int
    decreases s.len() - i when 0 <= i <= s.len()
{
    if i >= s.len() {
        s.len() as int
    } else if is_space(s[i]) {
        skip_spaces(s, i + 1)
    } else {
        i
    }
}

/// The first index at or after `i` holding a space, or the end.
pub open spec fn skip_token(s: Seq<char>, i: int) -> int
    decreases s.len() - i when 0 <= i <= s.len()
{
    if i >= s.len() {
        s.len() as int
    } else if is_space(s[i]) {
        i
    } else {
        skip_token(s, i + 1)
    }
}

/// The two whitespace-separated tokens of a typed move, if the input holds
/// exactly two.
pub open spec fn move_tokens(s: Seq<char>) -> Option<(Seq<char>, Seq<char>)> {
    let a = skip_spaces(s, 0);
    if a >= s.len() {
        None
    } else {
        let b = skip_token(s, a);
        let c = skip_spaces(s, b);
        if c >= s.len() {
            None
        } else {
            let d = skip_token(s, c);
            if skip_spaces(s, d) < s.len() {
                None
            } else {
                Some((s.subrange(a, b), s.subrange(c, d)))
            }
        }
    }
}

/// A decimal digit character.
pub open spec fn is_digit(c: char) -> bool {
    48 <= c as int <= 57
}

/// Every character of `t` is a decimal digit.
pub open spec fn all_digits(t: Seq<char>) -> bool {
    forall|i: int| 0 <= i < t.len() ==> is_digit(#[trigger] t[i])
}

/// The number the digit string `t` denotes.
pub open spec fn digits_value(t: Seq<char>) -> int
    decreases t.len(),
{
    if t.len() == 0 {
        0
    } else {
        digits_value(t.drop_last()) * 10 + (t.last() as int - 48)
    }
}

/// The zero-based row a letter addresses: `a` or `A` is the first row, and a
/// letter past `z`, past the board, or no letter at all addresses none,
/// reported as a negative value.
pub open spec fn row_of_letter(c: char, size: nat) -> int {
    if 97 <= c as int <= 122 && c as int - 97 < size {
        c as int - 97
    } else if 65 <= c as int <= 90 && c as int - 65 < size {
        c as int - 65
    } else {
        -1
    }
}

/// What a typed move denotes: the input must hold exactly two tokens, a row
/// letter (only its first character counts) and a one-based column number
/// within the board; the result is the zero-based `(column, row)` pair.
pub open spec fn parse_move_spec(s: Seq<char>, size: nat) -> Option<(int, int)> {
    match move_tokens(s) {
        None => None,
        Some(t) => {
            let y = row_of_letter(t.0[0], size);
            let x = digits_value(t.1);
            if y >= 0 && all_digits(t.1) && 1 <= x <= size {
                Some((x - 1, y))
            } else {
                None
            }
        },
    }
}

/// Whether `c` separates tokens of typed input.
fn is_space_char(c: char) -> (r: bool)
    ensures
        r == is_space(c),
{
    c == ' ' || c == '\t' || c == '\n' || c == '\r' || c == '\u{000C}'
}

/// Parse a typed move such as `a 2` against a board of the given size.
/// The letter names the row, the one-based number the column; the result is
/// the zero-based `(column, row)` cell, or nothing if the input does not
/// denote a cell of the board.
pub fn parse_move(input: &Vec<char>, size: usize) -> (r: Option<(usize, usize)>)
    ensures
        match parse_move_spec(input@, size as nat) {
            Some(t) => r matches Some(u) && u.0 == t.0 && u.1 == t.1,
            None => r is None,
        },
{
    let ghost s = input@;
    let n = input.len();

    // first token: the row letter
    let mut a: usize = 0;
    while a < n && is_space_char(input[a])
        invariant
            n == s.len(),
            s == input@,
            0 <= a <= n,
            skip_spaces(s, 0) == skip_spaces(s, a as int),
        decreases n - a,
    {
        a += 1;
    }
    proof {
        assert(skip_spaces(s, 0) == a as int);
    }
    if a >= n {
        return None;
    }
    let mut b: usize = a;
    while b < n && !is_space_char(input[b])
        invariant
            n == s.len(),
            s == input@,
            a <= b <= n,
            skip_token(s, a as int) == skip_token(s, b as int),
        decreases n - b,
    {
        b += 1;
    }
    proof {
        assert(skip_token(s, a as int) == b as int);
    }

    // second token: the column number
    let mut c: usize = b;
    while c < n && is_space_char(input[c])
        invariant
            n == s.len(),
            s == input@,
            b <= c <= n,
            skip_spaces(s, b as int) == skip_spaces(s, c as int),
        decreases n - c,
    {
        c += 1;
    }
    proof {
        assert(skip_spaces(s, b as int) == c as int);
    }
    if c >= n {
        return None;
    }
    let mut d: usize = c;
    while d < n && !is_space_char(input[d])
        invariant
            n == s.len(),
            s == input@,
            c <= d <= n,
            skip_token(s, c as int) == skip_token(s, d as int),
        decreases n - d,
    {
        d += 1;
    }
    proof {
        assert(skip_token(s, c as int) == d as int);
    }

    // nothing but whitespace may follow
    let mut e: usize = d;
    while e < n && is_space_char(input[e])
        invariant
            n == s.len(),
            s == input@,
            d <= e <= n,
            skip_spaces(s, d as int) == skip_spaces(s, e as int),
        decreases n - e,
    {
        e += 1;
    }
    proof {
        assert(skip_spaces(s, d as int) == e as int);
    }
    if e < n {
        return None;
    }

    let ghost t1 = s.subrange(a as int, b as int);
    let ghost t2 = s.subrange(c as int, d as int);
    proof {
        assert(move_tokens(s) == Some((t1, t2)));
        assert(t1[0] == s[a as int]);
    }

    // the row letter
    let letter = input[a];
    let y: usize;
    if letter >= 'a' && letter <= 'z' && ((letter as u32) as usize) - 97 < size {
        y = ((letter as u32) as usize) - 97;
    } else if letter >= 'A' && letter <= 'Z' && ((letter as u32) as usize) - 65 < size {
        y = ((letter as u32) as usize) - 65;
    } else {
        return None;
    }
    proof {
        assert(y as int == row_of_letter(t1[0], size as nat));
    }

    // the column number, kept no larger than the board allows
    let mut v: usize = 0;
    let mut too_big = false;
    let mut k: usize = c;
    while k < d
        invariant
            n == s.len(),
            s == input@,
            c <= k <= d <= n,
            t2 == s.subrange(c as int, d as int),
            move_tokens(s) == Some((t1, t2)),
            y as int == row_of_letter(t1[0], size as nat),
            forall|m: int| c <= m < k ==> is_digit(#[trigger] s[m]),
            !too_big ==> v == digits_value(s.subrange(c as int, k as int)) && v <= size,
            too_big ==> digits_value(s.subrange(c as int, k as int)) > size,
        decreases d - k,
    {
        let ch = input[k];
        if ch < '0' || ch > '9' {
            proof {
                assert(t2[k - c as int] == s[k as int]);
                assert(!all_digits(t2));
            }
            return None;
        }
        let d0 = ((ch as u32) as usize) - 48;
        proof {
            assert(s.subrange(c as int, k as int + 1).drop_last() =~= s.subrange(
                c as int,
                k as int,
            ));
            assert(s.subrange(c as int, k as int + 1).last() == s[k as int]);
        }
        if too_big {
            // the number can only grow with more digits
        } else if v > size / 10 || (v == size / 10 && d0 > size % 10) {
            too_big = true;
        } else {
            v = v * 10 + d0;
        }
        k += 1;
    }
    proof {
        assert(s.subrange(c as int, d as int) =~= t2);
        assert(all_digits(t2));
    }
    if too_big || v < 1 {
        return None;
    }
    Some((v - 1, y))
}

/// A status line that a front end shows to the player. While locked, updates
/// are ignored, so an important message survives until it is unlocked.
pub struct Info {
    pub text: String,
    pub locked: bool,
}

impl Info {
    /// An empty, unlocked status line.
    pub fn new() -> (i: Self)
        ensures
            i.text@ == Seq::<char>::empty(),
            !i.locked,
    {
        Info { text: String::new(), locked: false }
    }

    /// Replace the text, unless the line is locked.
    pub fn update(&mut self, new: String)
        ensures
            final(self).text == (if old(self).locked {
                old(self).text
            } else {
                new
            }),
            final(self).locked == old(self).locked,
    {
        if !self.locked {
            self.text = new;
        }
    }

    /// Let updates through again.
    pub fn unlock(&mut self)
        ensures
            final(self).text == old(self).text,
            !final(self).locked,
    {
        self.locked = false;
    }

    /// Hold the current text against updates.
    pub fn lock(&mut self)
        ensures
            final(self).text == old(self).text,
            final(self).locked,
    {
        self.locked = true;
    }
}

} // verus!
